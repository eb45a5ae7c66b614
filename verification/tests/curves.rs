use sine_art::canvas::Canvas;
use sine_art::curves::lines::AngledLine;
use sine_art::curves::sine::{QuarterSine, Sine, SineQuadrant, SineWave};
use sine_art::curves::{antialiased_value, draw, draw_antialiased, Point, Slope};

#[test]
fn between() {
    let start = Point::new(10, 10);
    assert_eq!(
        Slope::between(&start, &Point::new(11, 11)),
        Slope::NorthEast
    );
    assert_eq!(Slope::between(&start, &Point::new(9, 11)), Slope::NorthWest);
    assert_eq!(Slope::between(&start, &Point::new(11, 9)), Slope::SouthEast);
    assert_eq!(Slope::between(&start, &Point::new(9, 9)), Slope::SouthWest);
}

#[test]
fn next() {
    let point = Point::new(0, 0);
    let slope = Slope::NorthEast;
    assert_eq!(
        slope.next(&point),
        [Point::new(0, 1), Point::new(1, 1), Point::new(1, 0)]
    )
}

#[test]
fn diagonal_line_walk() {
    let line = AngledLine::new(Point::new(0, 0), Point::new(4, 4));
    let mut canvas = Canvas::new([10, 10], [10, 10]);
    draw(&line, &mut canvas);
    for i in 0..=4 {
        assert_eq!(canvas.get_xy(i, i), 0);
    }
    // the greedy walk of an exact diagonal visits only the diagonal
    assert_eq!(canvas.get_xy(0, 1), 255);
    assert_eq!(canvas.get_xy(1, 0), 255);
    assert_eq!(canvas.get_xy(3, 4), 255);
}

#[test]
fn antialiased_values() {
    // segment of length 5: threshold is isqrt(3*3 + 4*4) = 5
    let line = AngledLine::new(Point::new(0, 0), Point::new(3, 4));
    // equation at (1, 0) is 3*0 - 1*4 = -4; 4 * 255 / 5 = 204
    assert_eq!(antialiased_value(&line, &Point::new(1, 0)), 204);
    // equation at (0, 2) is 3*2 = 6 > 5: full background
    assert_eq!(antialiased_value(&line, &Point::new(0, 2)), 255);
    // the stop point lies on the line exactly
    assert_eq!(antialiased_value(&line, &Point::new(3, 4)), 0);
    // a quarter sine: the equation at local (1, 2) is -26/17, the
    // threshold 355/113, and the intensity floors only once:
    // 26 * 255 * 113 / (17 * 355) = 124
    let quarter = QuarterSine::new(Point::new(10, 10), SineQuadrant::First, 5, 2);
    assert_eq!(antialiased_value(&quarter, &Point::new(11, 12)), 124);
}

#[test]
fn antialiased_draw_paints_all_candidates() {
    // a steep quarter: from (1, 3) the walk can only step to the stop
    // (1, 4), but the anti-aliased draw still paints the other two
    // candidates (2, 4) and (2, 3)
    let quarter = QuarterSine::new(Point::new(0, 0), SineQuadrant::First, 4, 1);
    let mut canvas = Canvas::new([10, 10], [10, 10]);
    draw_antialiased(&quarter, &mut canvas);
    // at (2, 3): |equation| = 15/5 = 3, threshold 355/113:
    // 15 * 255 * 113 / (5 * 355) = 243
    assert_eq!(canvas.get_xy(2, 3), 243);
}

#[test]
fn antialiased_draw_marks_neighbours() {
    let line = AngledLine::new(Point::new(0, 0), Point::new(4, 4));
    let mut canvas = Canvas::new([10, 10], [10, 10]);
    draw_antialiased(&line, &mut canvas);
    // on-curve pixels are darkest, examined neighbours get a partial value
    assert_eq!(canvas.get_xy(2, 2), 0);
    let neighbour = canvas.get_xy(2, 3);
    assert!(neighbour < 255);
    // pixels never examined stay at the background
    assert_eq!(canvas.get_xy(0, 4), 255);
}

#[test]
fn antialiased_sine_period() {
    let sine = Sine::new(Point::new(0, 6), 4, 2);
    let mut canvas = Canvas::new([20, 20], [20, 20]);
    sine.draw_antialiased(&mut canvas);
    // quadrant boundaries lie exactly on the curve
    assert_eq!(canvas.get_xy(0, 6), 0);
    assert_eq!(canvas.get_xy(2, 10), 0);
    assert_eq!(canvas.get_xy(4, 6), 0);
    assert_eq!(canvas.get_xy(6, 2), 0);
    assert_eq!(canvas.get_xy(8, 6), 0);
    // far-away pixels keep the background
    assert_eq!(canvas.get_xy(0, 19), 255);
}

#[test]
fn quarter_chain() {
    let sine = Sine::new(Point::new(0, 10), 5, 3);
    let quarters = sine.quarters();
    assert_eq!(quarters[0].start, Point::new(0, 10));
    assert_eq!(quarters[0].stop, Point::new(3, 15));
    assert_eq!(quarters[1].start, Point::new(3, 15));
    assert_eq!(quarters[1].stop, Point::new(6, 10));
    assert_eq!(quarters[2].stop, Point::new(9, 5));
    assert_eq!(quarters[3].stop, Point::new(12, 10));
    assert_eq!(sine.stop(), Point::new(12, 10));
    assert_eq!(sine.next().start, Point::new(12, 10));
}

#[test]
fn sine_wave_spans_periods() {
    let wave = SineWave::new(Point::new(0, 6), 4, 2, 1);
    let mut canvas = Canvas::new([20, 20], [20, 20]);
    wave.draw(&mut canvas);
    // both periods pass through their start and stop heights
    assert_eq!(canvas.get_xy(0, 6), 0);
    assert_eq!(canvas.get_xy(8, 6), 0);
    assert_eq!(canvas.get_xy(16, 6), 0);
    // first peak of each period
    assert_eq!(canvas.get_xy(2, 10), 0);
    assert_eq!(canvas.get_xy(10, 10), 0);
}
