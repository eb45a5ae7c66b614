//! Sine waves as implicit curves: quarter-period segments, full periods
//! chained from four quarters, and multi-oscillation waves.

use vstd::prelude::*;

use crate::canvas::XYDrawable;
use crate::curves::{
    aa_room, draw, draw_antialiased, draw_thick, lemma_mul_range, on_aa_walk, on_thick_walk,
    on_walk, spec_aa_value, Curve, Point, Ratio,
};

verus! {

/// Quadrant of sine wave, travelling towards +X.
#[derive(Debug, Clone, Copy, PartialEq, Eq, Structural)]
pub enum SineQuadrant {
    /// Rising from the centreline to the peak.
    First,
    /// Falling from the peak back to the centreline.
    Second,
    /// Falling from the centreline to the trough.
    Third,
    /// Rising from the trough back to the centreline.
    Fourth,
}

impl SineQuadrant {
    /// Vertical displacement of this quadrant: up for the rising halves of
    /// the period, down for the falling ones.
    pub open spec fn spec_dy(self, amplitude: u32) -> int {
        match self {
            SineQuadrant::First => amplitude as int,
            SineQuadrant::Second => -(amplitude as int),
            SineQuadrant::Third => -(amplitude as int),
            SineQuadrant::Fourth => amplitude as int,
        }
    }

    /// Stop point of a quarter starting at `start`: one quarter wavelength
    /// to the right, one amplitude up or down.
    pub open spec fn spec_stop(self, start: Point, quarter_wavelength: u32, amplitude: u32) -> Point {
        Point {
            x: (start.x + quarter_wavelength) as u32,
            y: (start.y + self.spec_dy(amplitude)) as u32,
        }
    }

    /// Compute the stop point of a quarter of this quadrant.
    pub fn stop(&self, start: &Point, quarter_wavelength: u32, amplitude: u32) -> (r: Point)
        requires
            start.x + quarter_wavelength <= u32::MAX,
            start.y + self.spec_dy(amplitude) <= u32::MAX,
            start.y + self.spec_dy(amplitude) >= 0,
        ensures
            r == self.spec_stop(*start, quarter_wavelength, amplitude),
    {
        let dy_up: bool = match self {
            SineQuadrant::First => true,
            SineQuadrant::Second => false,
            SineQuadrant::Third => false,
            SineQuadrant::Fourth => true,
        };
        if dy_up {
            Point::new(start.x + quarter_wavelength, start.y + amplitude)
        } else {
            Point::new(start.x + quarter_wavelength, start.y - amplitude)
        }
    }
}

/// One quarter-period of a sine wave, as an implicit curve.
///
/// In local coordinates `(x, y)` measured from `start`, the real equation
/// of the quadrant (`A` the amplitude, `W` the quarter wavelength) is
/// `y - A*sin(x*pi/(2W))` for the first quadrant and the corresponding
/// shifted forms for the others.  The sine is evaluated through the
/// rational approximation `sin(pi*t) = 16t(1-t) / (5 - 4t(1-t))`, which is
/// exact at every quadrant boundary, so the equation is an exact rational
/// and still vanishes at both endpoints.
pub struct QuarterSine {
    pub start: Point,
    pub stop: Point,
    pub quadrant: SineQuadrant,
    pub amplitude: u32,
    pub quarter_wavelength: u32,
}

/// Numerator of the quarter-sine equation in local coordinates.
pub open spec fn sine_eq_num(q: SineQuadrant, a: int, w: int, x: int, y: int) -> int {
    match q {
        SineQuadrant::First => y * (5 * (w * w) - x * (2 * w - x)) - 4 * a * (x * (2 * w - x)),
        SineQuadrant::Second => (y + a) * (4 * (w * w) + x * x) - 4 * a * ((w * w) - x * x),
        SineQuadrant::Third => y * (5 * (w * w) - x * (2 * w - x)) + 4 * a * (x * (2 * w - x)),
        SineQuadrant::Fourth => (y - a) * (4 * (w * w) + x * x) + 4 * a * ((w * w) - x * x),
    }
}

/// Positive denominator of the quarter-sine equation in local coordinates.
pub open spec fn sine_eq_den(q: SineQuadrant, w: int, x: int) -> int {
    match q {
        SineQuadrant::First => 5 * (w * w) - x * (2 * w - x),
        SineQuadrant::Second => 4 * (w * w) + x * x,
        SineQuadrant::Third => 5 * (w * w) - x * (2 * w - x),
        SineQuadrant::Fourth => 4 * (w * w) + x * x,
    }
}

/// The quarter-sine equation vanishes at the quadrant's start (local
/// `(0, 0)`) and at its stop (local `(w, dy)`): each quarter runs exactly
/// from one quadrant boundary of the sine to the next.
pub proof fn lemma_quarter_endpoints(q: SineQuadrant, a: int, w: int)
    requires
        w >= 1,
        a >= 0,
    ensures
        sine_eq_num(q, a, w, 0, 0) == 0,
        sine_eq_num(
            q,
            a,
            w,
            w,
            match q {
                SineQuadrant::First => a,
                SineQuadrant::Second => -a,
                SineQuadrant::Third => -a,
                SineQuadrant::Fourth => a,
            },
        ) == 0,
{
    match q {
        SineQuadrant::First => {
            assert(a * (5 * (w * w) - w * (2 * w - w)) - 4 * a * (w * (2 * w - w)) == 0)
                by (nonlinear_arith);
            assert(0 * (5 * (w * w) - 0 * (2 * w - 0)) - 4 * a * (0 * (2 * w - 0)) == 0)
                by (nonlinear_arith);
        },
        SineQuadrant::Second => {
            assert((-a + a) * (4 * (w * w) + w * w) - 4 * a * ((w * w) - w * w) == 0)
                by (nonlinear_arith);
            assert((0 + a) * (4 * (w * w) + 0 * 0) - 4 * a * ((w * w) - 0 * 0) == 0)
                by (nonlinear_arith);
        },
        SineQuadrant::Third => {
            assert((-a) * (5 * (w * w) - w * (2 * w - w)) + 4 * a * (w * (2 * w - w)) == 0)
                by (nonlinear_arith);
            assert(0 * (5 * (w * w) - 0 * (2 * w - 0)) + 4 * a * (0 * (2 * w - 0)) == 0)
                by (nonlinear_arith);
        },
        SineQuadrant::Fourth => {
            assert((a - a) * (4 * (w * w) + w * w) + 4 * a * ((w * w) - w * w) == 0)
                by (nonlinear_arith);
            assert((0 - a) * (4 * (w * w) + 0 * 0) + 4 * a * ((w * w) - 0 * 0) == 0)
                by (nonlinear_arith);
        },
    }
}

/// The quarter-sine's implicit equation vanishes at both endpoints: the
/// curve passes through its start and its cached stop.
pub proof fn lemma_quarter_sine_endpoints(q: &QuarterSine)
    requires
        q.inv(),
    ensures
        q.eq_num(q.spec_start()) == 0,
        q.eq_num(q.spec_stop()) == 0,
{
    lemma_quarter_endpoints(q.quadrant, q.amplitude as int, q.quarter_wavelength as int);
}

proof fn lemma_quarter_ranges(w: int, x: int)
    requires
        1 <= w <= 0xFFFF,
        -1 <= x <= w + 1,
    ensures
        -(2 * w + 1) <= x * (2 * w - x) <= w * w,
        0 <= x * x <= (w + 1) * (w + 1),
        1 <= w * w <= 0xFFFE_0001,
        (w + 1) * (w + 1) <= 0x1_0000_0000,
        -(2 * w + 1) <= w * w - x * x <= w * w,
{
    assert(-(2 * w + 1) <= x * (2 * w - x) <= w * w && 0 <= x * x <= (w + 1) * (w + 1) && 1 <= w
        * w <= 0xFFFE_0001 && (w + 1) * (w + 1) <= 0x1_0000_0000 && -(2 * w + 1) <= w * w - x * x
        <= w * w) by (nonlinear_arith)
        requires
            1 <= w <= 0xFFFF,
            -1 <= x <= w + 1,
    ;
}

impl QuarterSine {
    /// Creates a new quarter sine with its stop point cached.
    pub fn new(start: Point, quadrant: SineQuadrant, amplitude: u32, quarter_wavelength: u32) -> (r:
        Self)
        requires
            1 <= quarter_wavelength <= 0xFFFF,
            amplitude <= 0xFFFF,
            start.x + quarter_wavelength <= u32::MAX,
            start.y + quadrant.spec_dy(amplitude) <= u32::MAX,
            start.y + quadrant.spec_dy(amplitude) >= 0,
        ensures
            r.inv(),
            r.spec_start() == start,
            r.spec_stop() == quadrant.spec_stop(start, quarter_wavelength, amplitude),
            r.quadrant == quadrant,
            r.amplitude == amplitude,
            r.quarter_wavelength == quarter_wavelength,
    {
        let stop = quadrant.stop(&start, quarter_wavelength, amplitude);
        QuarterSine { start, stop, quadrant, amplitude, quarter_wavelength }
    }
}

impl Curve for QuarterSine {
    open spec fn inv(&self) -> bool {
        &&& 1 <= self.quarter_wavelength <= 0xFFFF
        &&& self.amplitude <= 0xFFFF
        &&& self.stop == self.quadrant.spec_stop(
            self.start,
            self.quarter_wavelength,
            self.amplitude,
        )
        &&& self.start.x + self.quarter_wavelength <= u32::MAX
        &&& self.start.y + self.quadrant.spec_dy(self.amplitude) <= u32::MAX
        &&& self.start.y + self.quadrant.spec_dy(self.amplitude) >= 0
    }

    open spec fn spec_start(&self) -> Point {
        self.start
    }

    open spec fn spec_stop(&self) -> Point {
        self.stop
    }

    open spec fn eq_num(&self, p: Point) -> int {
        sine_eq_num(
            self.quadrant,
            self.amplitude as int,
            self.quarter_wavelength as int,
            p.x - self.start.x,
            p.y - self.start.y,
        )
    }

    open spec fn eq_den(&self, p: Point) -> int {
        sine_eq_den(self.quadrant, self.quarter_wavelength as int, p.x - self.start.x)
    }

    open spec fn thr_num(&self) -> int {
        355
    }

    open spec fn thr_den(&self) -> int {
        113
    }

    proof fn lemma_eq_den_pos(&self, p: Point) {
        let w = self.quarter_wavelength as int;
        let x = p.x - self.start.x;
        assert(5 * (w * w) - x * (2 * w - x) > 0 && 4 * (w * w) + x * x > 0) by (nonlinear_arith)
            requires
                w >= 1,
        ;
    }

    proof fn lemma_thr_wf(&self) {
    }

    fn start(&self) -> (r: Point) {
        self.start
    }

    fn stop(&self) -> (r: Point) {
        self.stop
    }

    fn equation(&self, point: &Point) -> (r: Ratio) {
        let w: i64 = self.quarter_wavelength as i64;
        let a: i64 = self.amplitude as i64;
        let x: i64 = point.x as i64 - self.start.x as i64;
        let y: i64 = point.y as i64 - self.start.y as i64;
        proof {
            assert(self.stop.x == self.start.x + self.quarter_wavelength);
            assert(-1 <= x <= w + 1);
            assert(-(a + 1) <= y <= a + 1);
            lemma_quarter_ranges(w as int, x as int);
        }
        let ww: i64 = w * w;
        match self.quadrant {
            SineQuadrant::First => {
                let u: i64 = x * (2 * w - x);
                let d: i64 = 5 * ww - u;
                proof {
                    lemma_mul_range(y as int, 0x1_0000, d as int, 0x5_0000_0000);
                    lemma_mul_range(4 * a, 0x4_0000, u as int, 0x1_0000_0000);
                }
                Ratio { num: y * d - (4 * a) * u, den: d }
            },
            SineQuadrant::Second => {
                let u: i64 = ww - x * x;
                let d: i64 = 4 * ww + x * x;
                proof {
                    lemma_mul_range(y as int + a as int, 0x2_0000, d as int, 0x5_0000_0000);
                    lemma_mul_range(4 * a, 0x4_0000, u as int, 0x1_0000_0000);
                }
                Ratio { num: (y + a) * d - (4 * a) * u, den: d }
            },
            SineQuadrant::Third => {
                let u: i64 = x * (2 * w - x);
                let d: i64 = 5 * ww - u;
                proof {
                    lemma_mul_range(y as int, 0x1_0000, d as int, 0x5_0000_0000);
                    lemma_mul_range(4 * a, 0x4_0000, u as int, 0x1_0000_0000);
                }
                Ratio { num: y * d + (4 * a) * u, den: d }
            },
            SineQuadrant::Fourth => {
                let u: i64 = ww - x * x;
                let d: i64 = 4 * ww + x * x;
                proof {
                    lemma_mul_range(y as int - a as int, 0x2_0000, d as int, 0x5_0000_0000);
                    lemma_mul_range(4 * a, 0x4_0000, u as int, 0x1_0000_0000);
                }
                Ratio { num: (y - a) * d + (4 * a) * u, den: d }
            },
        }
    }

    fn antialiased_threshold(&self) -> (r: Ratio) {
        Ratio { num: 355, den: 113 }
    }
}

/// One full period of a sine wave, drawn as four chained quarters.
pub struct Sine {
    pub start: Point,
    pub amplitude: u32,
    pub quarter_wavelength: u32,
}

impl Sine {
    /// The period fits in coordinate space: the wave can rise and fall by
    /// its amplitude and extends four quarter wavelengths to the right.
    pub open spec fn sine_wf(self) -> bool {
        &&& 1 <= self.quarter_wavelength <= 0xFFFF
        &&& self.amplitude <= 0xFFFF
        &&& self.amplitude <= self.start.y
        &&& self.start.y + self.amplitude <= u32::MAX
        &&& self.start.x + 4 * self.quarter_wavelength <= u32::MAX
    }

    /// Stopping point of the sine: one wavelength to the right, at the
    /// starting height.
    pub open spec fn spec_stop(self) -> Point {
        Point { x: (self.start.x + 4 * self.quarter_wavelength) as u32, y: self.start.y }
    }

    /// Quarter `i` of this period; consecutive quarters chain, and the
    /// fourth returns to the starting height.
    pub open spec fn spec_quarter(self, i: int) -> QuarterSine {
        let w = self.quarter_wavelength;
        let a = self.amplitude;
        let p0 = self.start;
        let p1 = Point { x: (p0.x + w) as u32, y: (p0.y + a) as u32 };
        let p2 = Point { x: (p0.x + 2 * w) as u32, y: p0.y };
        let p3 = Point { x: (p0.x + 3 * w) as u32, y: (p0.y - a) as u32 };
        let p4 = Point { x: (p0.x + 4 * w) as u32, y: p0.y };
        if i == 0 {
            QuarterSine {
                start: p0,
                stop: p1,
                quadrant: SineQuadrant::First,
                amplitude: a,
                quarter_wavelength: w,
            }
        } else if i == 1 {
            QuarterSine {
                start: p1,
                stop: p2,
                quadrant: SineQuadrant::Second,
                amplitude: a,
                quarter_wavelength: w,
            }
        } else if i == 2 {
            QuarterSine {
                start: p2,
                stop: p3,
                quadrant: SineQuadrant::Third,
                amplitude: a,
                quarter_wavelength: w,
            }
        } else {
            QuarterSine {
                start: p3,
                stop: p4,
                quadrant: SineQuadrant::Fourth,
                amplitude: a,
                quarter_wavelength: w,
            }
        }
    }

    /// `(a, b)` is visited by the plain draw of this period.
    pub open spec fn on_sine_plain(self, a: int, b: int) -> bool {
        exists|i: int| 0 <= i < 4 && on_walk(&self.spec_quarter(i), a, b)
    }

    /// `(a, b)` is covered by the thick draw of this period.
    pub open spec fn on_sine_thick(self, extent: int, x_limit: int, a: int, b: int) -> bool {
        exists|i: int| 0 <= i < 4 && on_thick_walk(&self.spec_quarter(i), extent, x_limit, a, b)
    }

    /// `(a, b)` is painted by the anti-aliased draw of this period.
    pub open spec fn on_sine_aa(self, a: int, b: int) -> bool {
        exists|i: int| 0 <= i < 4 && on_aa_walk(&self.spec_quarter(i), a, b)
    }

    /// The intensity left at `(a, b)` by the anti-aliased draw: the value
    /// of the last quarter that paints the pixel.
    pub open spec fn sine_aa_value(self, a: int, b: int) -> int {
        let p = Point { x: a as u32, y: b as u32 };
        if on_aa_walk(&self.spec_quarter(3), a, b) {
            spec_aa_value(&self.spec_quarter(3), p)
        } else if on_aa_walk(&self.spec_quarter(2), a, b) {
            spec_aa_value(&self.spec_quarter(2), p)
        } else if on_aa_walk(&self.spec_quarter(1), a, b) {
            spec_aa_value(&self.spec_quarter(1), p)
        } else {
            spec_aa_value(&self.spec_quarter(0), p)
        }
    }

    /// Each quarter of a well-formed period is itself a well-formed,
    /// non-degenerate curve whose walk box stays inside the period's
    /// bounding box.
    pub proof fn lemma_quarter_boxes(self)
        requires
            self.sine_wf(),
        ensures
            forall|i: int| 0 <= i < 4 ==> (#[trigger] self.spec_quarter(i)).inv(),
            forall|i: int|
                0 <= i < 4 ==> (#[trigger] self.spec_quarter(i)).spec_start()
                    != self.spec_quarter(i).spec_stop(),
            forall|i: int|
                0 <= i < 4 ==> crate::curves::box_x_max(
                    (#[trigger] self.spec_quarter(i)).spec_start(),
                    self.spec_quarter(i).spec_stop(),
                ) <= self.start.x + 4 * self.quarter_wavelength,
            forall|i: int|
                0 <= i < 4 ==> crate::curves::box_y_max(
                    (#[trigger] self.spec_quarter(i)).spec_start(),
                    self.spec_quarter(i).spec_stop(),
                ) <= self.start.y + self.amplitude,
    {
        assert(self.spec_quarter(0).inv());
        assert(self.spec_quarter(1).inv());
        assert(self.spec_quarter(2).inv());
        assert(self.spec_quarter(3).inv());
        assert(self.spec_quarter(0).spec_stop().x == self.start.x + self.quarter_wavelength);
        assert(self.spec_quarter(1).spec_stop().x == self.start.x + 2 * self.quarter_wavelength);
        assert(self.spec_quarter(2).spec_stop().x == self.start.x + 3 * self.quarter_wavelength);
        assert(self.spec_quarter(3).spec_stop().x == self.start.x + 4 * self.quarter_wavelength);
    }

    /// With one spare pixel of room beyond the period's bounding box, every
    /// quarter has the room its anti-aliased draw needs.
    pub proof fn lemma_quarter_aa_room(self, x_limit: int, y_limit: int)
        requires
            self.sine_wf(),
            self.amplitude + 1 <= self.start.y,
            self.start.y + self.amplitude + 1 <= u32::MAX,
            self.start.x + 4 * self.quarter_wavelength + 1 <= u32::MAX,
            self.start.x + 4 * self.quarter_wavelength + 1 < x_limit,
            self.start.y + self.amplitude + 1 < y_limit,
        ensures
            forall|i: int|
                0 <= i < 4 ==> aa_room(
                    (#[trigger] self.spec_quarter(i)).spec_start(),
                    self.spec_quarter(i).spec_stop(),
                    x_limit,
                    y_limit,
                ),
    {
        self.lemma_quarter_boxes();
        assert(aa_room(
            self.spec_quarter(0).spec_start(),
            self.spec_quarter(0).spec_stop(),
            x_limit,
            y_limit,
        ));
        assert(aa_room(
            self.spec_quarter(1).spec_start(),
            self.spec_quarter(1).spec_stop(),
            x_limit,
            y_limit,
        ));
        assert(aa_room(
            self.spec_quarter(2).spec_start(),
            self.spec_quarter(2).spec_stop(),
            x_limit,
            y_limit,
        ));
        assert(aa_room(
            self.spec_quarter(3).spec_start(),
            self.spec_quarter(3).spec_stop(),
            x_limit,
            y_limit,
        ));
    }

    pub fn new(start: Point, amplitude: u32, quarter_wavelength: u32) -> (r: Self)
        ensures
            r == (Sine { start, amplitude, quarter_wavelength }),
    {
        Sine { start, amplitude, quarter_wavelength }
    }

    /// Stopping point of the sine.
    pub fn stop(&self) -> (r: Point)
        requires
            self.start.x + 4 * self.quarter_wavelength <= u32::MAX,
        ensures
            r == self.spec_stop(),
    {
        Point::new(self.start.x + 4 * self.quarter_wavelength, self.start.y)
    }

    /// Creates the next sine: the immediately following period.
    pub fn next(&self) -> (r: Self)
        requires
            self.start.x + 4 * self.quarter_wavelength <= u32::MAX,
        ensures
            r == (Sine {
                start: self.spec_stop(),
                amplitude: self.amplitude,
                quarter_wavelength: self.quarter_wavelength,
            }),
    {
        Sine::new(self.stop(), self.amplitude, self.quarter_wavelength)
    }

    /// Return the four comprising quarters, chained start to stop.
    pub fn quarters(&self) -> (r: [QuarterSine; 4])
        requires
            self.sine_wf(),
        ensures
            forall|i: int| 0 <= i < 4 ==> r@[i] == self.spec_quarter(i),
            forall|i: int| 0 <= i < 4 ==> (#[trigger] r@[i]).inv(),
    {
        let q1 = QuarterSine::new(
            self.start,
            SineQuadrant::First,
            self.amplitude,
            self.quarter_wavelength,
        );
        let q2 = QuarterSine::new(
            q1.stop,
            SineQuadrant::Second,
            self.amplitude,
            self.quarter_wavelength,
        );
        let q3 = QuarterSine::new(
            q2.stop,
            SineQuadrant::Third,
            self.amplitude,
            self.quarter_wavelength,
        );
        let q4 = QuarterSine::new(
            q3.stop,
            SineQuadrant::Fourth,
            self.amplitude,
            self.quarter_wavelength,
        );
        let r = [q1, q2, q3, q4];
        proof {
            assert(r@[0] == self.spec_quarter(0));
            assert(r@[1] == self.spec_quarter(1));
            assert(r@[2] == self.spec_quarter(2));
            assert(r@[3] == self.spec_quarter(3));
        }
        r
    }

    /// Draw the full period, quarter by quarter.
    pub fn draw<D: XYDrawable>(&self, canvas: &mut D)
        requires
            self.sine_wf(),
            self.start.x + 4 * self.quarter_wavelength < old(canvas).x_limit(),
            self.start.y + self.amplitude < old(canvas).y_limit(),
        ensures
            final(canvas).x_limit() == old(canvas).x_limit(),
            final(canvas).y_limit() == old(canvas).y_limit(),
            final(canvas).geometry() == old(canvas).geometry(),
            forall|a: int, b: int|
                self.on_sine_plain(a, b) ==> #[trigger] final(canvas).pix_at(a, b) == 0,
            forall|a: int, b: int|
                !self.on_sine_plain(a, b) ==> #[trigger] final(canvas).pix_at(a, b) == old(
                    canvas,
                ).pix_at(a, b),
    {
        let qs = self.quarters();
        proof {
            self.lemma_quarter_boxes();
            assert(qs@[0] == self.spec_quarter(0));
            assert(qs@[1] == self.spec_quarter(1));
            assert(qs@[2] == self.spec_quarter(2));
            assert(qs@[3] == self.spec_quarter(3));
        }
        draw(&qs[0], canvas);
        let ghost c1 = *canvas;
        draw(&qs[1], canvas);
        let ghost c2 = *canvas;
        draw(&qs[2], canvas);
        let ghost c3 = *canvas;
        draw(&qs[3], canvas);
        proof {
            assert forall|a: int, b: int| self.on_sine_plain(a, b) implies canvas.pix_at(a, b)
                == 0 by {
                if on_walk(&self.spec_quarter(3), a, b) {
                } else if on_walk(&self.spec_quarter(2), a, b) {
                    assert(c3.pix_at(a, b) == 0);
                } else if on_walk(&self.spec_quarter(1), a, b) {
                    assert(c2.pix_at(a, b) == 0);
                } else {
                    assert(on_walk(&self.spec_quarter(0), a, b));
                    assert(c1.pix_at(a, b) == 0);
                }
            }
            assert forall|a: int, b: int| !self.on_sine_plain(a, b) implies canvas.pix_at(a, b)
                == old(canvas).pix_at(a, b) by {
                assert(!on_walk(&self.spec_quarter(0), a, b));
                assert(!on_walk(&self.spec_quarter(1), a, b));
                assert(!on_walk(&self.spec_quarter(2), a, b));
                assert(!on_walk(&self.spec_quarter(3), a, b));
            }
        }
    }

    /// Draw the full period with a horizontal thickness of
    /// `2 * thickness + 1` pixels around every visited pixel.
    pub fn draw_thick<D: XYDrawable>(&self, canvas: &mut D, thickness: u32)
        requires
            self.sine_wf(),
            self.start.x + 4 * self.quarter_wavelength < old(canvas).x_limit(),
            self.start.y + self.amplitude < old(canvas).y_limit(),
        ensures
            final(canvas).x_limit() == old(canvas).x_limit(),
            final(canvas).y_limit() == old(canvas).y_limit(),
            final(canvas).geometry() == old(canvas).geometry(),
            forall|a: int, b: int|
                self.on_sine_thick(thickness as int, old(canvas).x_limit(), a, b)
                    ==> #[trigger] final(canvas).pix_at(a, b) == 0,
            forall|a: int, b: int|
                !self.on_sine_thick(thickness as int, old(canvas).x_limit(), a, b)
                    ==> #[trigger] final(canvas).pix_at(a, b) == old(canvas).pix_at(a, b),
    {
        let qs = self.quarters();
        proof {
            self.lemma_quarter_boxes();
            assert(qs@[0] == self.spec_quarter(0));
            assert(qs@[1] == self.spec_quarter(1));
            assert(qs@[2] == self.spec_quarter(2));
            assert(qs@[3] == self.spec_quarter(3));
        }
        let ghost t = thickness as int;
        let ghost xl = old(canvas).x_limit();
        draw_thick(&qs[0], canvas, thickness);
        let ghost c1 = *canvas;
        draw_thick(&qs[1], canvas, thickness);
        let ghost c2 = *canvas;
        draw_thick(&qs[2], canvas, thickness);
        let ghost c3 = *canvas;
        draw_thick(&qs[3], canvas, thickness);
        proof {
            assert forall|a: int, b: int| self.on_sine_thick(t, xl, a, b) implies canvas.pix_at(
                a,
                b,
            ) == 0 by {
                if on_thick_walk(&self.spec_quarter(3), t, xl, a, b) {
                } else if on_thick_walk(&self.spec_quarter(2), t, xl, a, b) {
                    assert(c3.pix_at(a, b) == 0);
                } else if on_thick_walk(&self.spec_quarter(1), t, xl, a, b) {
                    assert(c2.pix_at(a, b) == 0);
                } else {
                    assert(on_thick_walk(&self.spec_quarter(0), t, xl, a, b));
                    assert(c1.pix_at(a, b) == 0);
                }
            }
            assert forall|a: int, b: int| !self.on_sine_thick(t, xl, a, b) implies canvas.pix_at(
                a,
                b,
            ) == old(canvas).pix_at(a, b) by {
                assert(!on_thick_walk(&self.spec_quarter(0), t, xl, a, b));
                assert(!on_thick_walk(&self.spec_quarter(1), t, xl, a, b));
                assert(!on_thick_walk(&self.spec_quarter(2), t, xl, a, b));
                assert(!on_thick_walk(&self.spec_quarter(3), t, xl, a, b));
            }
        }
    }

    /// Draw the full period with anti-aliasing.  The anti-aliased draw
    /// also paints one pixel around each quarter's bounding box, so it
    /// needs one spare pixel of room beyond the period on every side the
    /// candidates can reach.
    pub fn draw_antialiased<D: XYDrawable>(&self, canvas: &mut D)
        requires
            self.sine_wf(),
            self.amplitude + 1 <= self.start.y,
            self.start.y + self.amplitude + 1 <= u32::MAX,
            self.start.x + 4 * self.quarter_wavelength + 1 <= u32::MAX,
            self.start.x + 4 * self.quarter_wavelength + 1 < old(canvas).x_limit(),
            self.start.y + self.amplitude + 1 < old(canvas).y_limit(),
        ensures
            final(canvas).x_limit() == old(canvas).x_limit(),
            final(canvas).y_limit() == old(canvas).y_limit(),
            final(canvas).geometry() == old(canvas).geometry(),
            forall|a: int, b: int|
                self.on_sine_aa(a, b) ==> #[trigger] final(canvas).pix_at(a, b)
                    == self.sine_aa_value(a, b),
            forall|a: int, b: int|
                !self.on_sine_aa(a, b) ==> #[trigger] final(canvas).pix_at(a, b) == old(
                    canvas,
                ).pix_at(a, b),
    {
        let qs = self.quarters();
        proof {
            self.lemma_quarter_boxes();
            self.lemma_quarter_aa_room(old(canvas).x_limit(), old(canvas).y_limit());
            assert(qs@[0] == self.spec_quarter(0));
            assert(qs@[1] == self.spec_quarter(1));
            assert(qs@[2] == self.spec_quarter(2));
            assert(qs@[3] == self.spec_quarter(3));
        }
        draw_antialiased(&qs[0], canvas);
        let ghost c1 = *canvas;
        draw_antialiased(&qs[1], canvas);
        let ghost c2 = *canvas;
        draw_antialiased(&qs[2], canvas);
        let ghost c3 = *canvas;
        draw_antialiased(&qs[3], canvas);
        proof {
            assert forall|a: int, b: int| self.on_sine_aa(a, b) implies canvas.pix_at(a, b)
                == self.sine_aa_value(a, b) by {
                let p = Point { x: a as u32, y: b as u32 };
                if on_aa_walk(&self.spec_quarter(3), a, b) {
                } else if on_aa_walk(&self.spec_quarter(2), a, b) {
                    assert(c3.pix_at(a, b) == spec_aa_value(&self.spec_quarter(2), p));
                } else if on_aa_walk(&self.spec_quarter(1), a, b) {
                    assert(c2.pix_at(a, b) == spec_aa_value(&self.spec_quarter(1), p));
                } else {
                    assert(on_aa_walk(&self.spec_quarter(0), a, b));
                    assert(c1.pix_at(a, b) == spec_aa_value(&self.spec_quarter(0), p));
                }
            }
            assert forall|a: int, b: int| !self.on_sine_aa(a, b) implies canvas.pix_at(a, b)
                == old(canvas).pix_at(a, b) by {
                assert(!on_aa_walk(&self.spec_quarter(0), a, b));
                assert(!on_aa_walk(&self.spec_quarter(1), a, b));
                assert(!on_aa_walk(&self.spec_quarter(2), a, b));
                assert(!on_aa_walk(&self.spec_quarter(3), a, b));
            }
        }
    }
}

/// Chaining the four quadrants in order from a given start returns to the
/// starting height, with a total horizontal displacement of four quarter
/// wavelengths.
pub proof fn lemma_quarter_chain(start: Point, amplitude: u32, quarter_wavelength: u32)
    requires
        amplitude <= start.y,
        start.y + amplitude <= u32::MAX,
        start.x + 4 * quarter_wavelength <= u32::MAX,
    ensures
        ({
            let p1 = SineQuadrant::First.spec_stop(start, quarter_wavelength, amplitude);
            let p2 = SineQuadrant::Second.spec_stop(p1, quarter_wavelength, amplitude);
            let p3 = SineQuadrant::Third.spec_stop(p2, quarter_wavelength, amplitude);
            let p4 = SineQuadrant::Fourth.spec_stop(p3, quarter_wavelength, amplitude);
            p1.y == start.y + amplitude && p2.y == start.y && p3.y == start.y - amplitude
                && p4.x == start.x + 4 * quarter_wavelength && p4.y == start.y
        }),
{
}

/// A row of consecutive sine periods: the first period plus
/// `num_oscillations` further ones, each starting where the previous
/// stopped.
pub struct SineWave {
    pub start: Point,
    pub amplitude: u32,
    pub quarter_wavelength: u32,
    pub num_oscillations: usize,
}

impl SineWave {
    /// Period `k` of the wave.
    pub open spec fn spec_osc(self, k: int) -> Sine {
        Sine {
            start: Point {
                x: (self.start.x + k * 4 * self.quarter_wavelength) as u32,
                y: self.start.y,
            },
            amplitude: self.amplitude,
            quarter_wavelength: self.quarter_wavelength,
        }
    }

    /// The whole row fits in coordinate space.
    pub open spec fn wave_wf(self) -> bool {
        &&& 1 <= self.quarter_wavelength <= 0xFFFF
        &&& self.amplitude <= 0xFFFF
        &&& self.amplitude <= self.start.y
        &&& self.start.y + self.amplitude <= u32::MAX
        &&& self.start.x + (self.num_oscillations + 1) * 4 * self.quarter_wavelength <= u32::MAX
    }

    /// `(a, b)` is visited by the plain draw of one of the first `k + 1`
    /// periods.
    pub open spec fn on_wave_prefix(self, k: int, a: int, b: int) -> bool {
        exists|j: int| 0 <= j <= k && self.spec_osc(j).on_sine_plain(a, b)
    }

    /// `(a, b)` is visited by the plain draw of the wave.
    pub open spec fn on_wave_plain(self, a: int, b: int) -> bool {
        self.on_wave_prefix(self.num_oscillations as int, a, b)
    }

    /// `(a, b)` is painted by the anti-aliased draw of one of the first
    /// `k + 1` periods.
    pub open spec fn on_wave_aa_prefix(self, k: int, a: int, b: int) -> bool {
        exists|j: int| 0 <= j <= k && self.spec_osc(j).on_sine_aa(a, b)
    }

    /// `(a, b)` is painted by the anti-aliased draw of the wave.
    pub open spec fn on_wave_aa(self, a: int, b: int) -> bool {
        self.on_wave_aa_prefix(self.num_oscillations as int, a, b)
    }

    /// Intensity left at `(a, b)` after the anti-aliased draw of the first
    /// `k + 1` periods: the value of the last period painting the pixel.
    pub open spec fn wave_aa_value(self, k: int, a: int, b: int) -> int
        decreases k,
    {
        if k <= 0 {
            self.spec_osc(0).sine_aa_value(a, b)
        } else if self.spec_osc(k).on_sine_aa(a, b) {
            self.spec_osc(k).sine_aa_value(a, b)
        } else {
            self.wave_aa_value(k - 1, a, b)
        }
    }

    pub fn new(
        start: Point,
        amplitude: u32,
        quarter_wavelength: u32,
        num_oscillations: usize,
    ) -> (r: Self)
        ensures
            r == (SineWave { start, amplitude, quarter_wavelength, num_oscillations }),
    {
        SineWave { start, amplitude, quarter_wavelength, num_oscillations }
    }

    /// Draw every period of the wave.
    pub fn draw<D: XYDrawable>(&self, canvas: &mut D)
        requires
            self.wave_wf(),
            self.start.x + (self.num_oscillations + 1) * 4 * self.quarter_wavelength < old(
                canvas,
            ).x_limit(),
            self.start.y + self.amplitude < old(canvas).y_limit(),
        ensures
            final(canvas).x_limit() == old(canvas).x_limit(),
            final(canvas).y_limit() == old(canvas).y_limit(),
            final(canvas).geometry() == old(canvas).geometry(),
            forall|a: int, b: int|
                self.on_wave_plain(a, b) ==> #[trigger] final(canvas).pix_at(a, b) == 0,
            forall|a: int, b: int|
                !self.on_wave_plain(a, b) ==> #[trigger] final(canvas).pix_at(a, b) == old(
                    canvas,
                ).pix_at(a, b),
    {
        let mut sine = Sine::new(self.start, self.amplitude, self.quarter_wavelength);
        proof {
            assert(0 * 4 * self.quarter_wavelength == 0) by (nonlinear_arith);
            assert(self.spec_osc(0).start.x == self.start.x);
            assert(self.spec_osc(0).start == self.start);
            assert(sine == self.spec_osc(0));
            assert(4 * self.quarter_wavelength <= (self.num_oscillations + 1) * 4
                * self.quarter_wavelength) by (nonlinear_arith)
                requires
                    self.num_oscillations >= 0,
                    self.quarter_wavelength >= 1,
            ;
        }
        sine.draw(canvas);
        proof {
            assert(forall|a: int, b: int|
                #[trigger] self.on_wave_prefix(0, a, b) <==> self.spec_osc(0).on_sine_plain(
                    a,
                    b,
                ));
        }
        let mut i: usize = 0;
        while i < self.num_oscillations
            invariant
                self.wave_wf(),
                self.start.x + (self.num_oscillations + 1) * 4 * self.quarter_wavelength < old(
                    canvas,
                ).x_limit(),
                self.start.y + self.amplitude < old(canvas).y_limit(),
                0 <= i <= self.num_oscillations,
                sine == self.spec_osc(i as int),
                canvas.x_limit() == old(canvas).x_limit(),
                canvas.y_limit() == old(canvas).y_limit(),
                canvas.geometry() == old(canvas).geometry(),
                forall|a: int, b: int|
                    self.on_wave_prefix(i as int, a, b) ==> #[trigger] canvas.pix_at(a, b) == 0,
                forall|a: int, b: int|
                    !self.on_wave_prefix(i as int, a, b) ==> #[trigger] canvas.pix_at(a, b)
                        == old(canvas).pix_at(a, b),
            decreases self.num_oscillations - i,
        {
            proof {
                assert((i + 1) * 4 * self.quarter_wavelength == i * 4 * self.quarter_wavelength
                    + 4 * self.quarter_wavelength) by (nonlinear_arith);
                assert((i + 2) * 4 * self.quarter_wavelength == (i + 1) * 4
                    * self.quarter_wavelength + 4 * self.quarter_wavelength) by (nonlinear_arith);
                assert((i + 2) * 4 * self.quarter_wavelength <= (self.num_oscillations + 1) * 4
                    * self.quarter_wavelength) by (nonlinear_arith)
                    requires
                        i + 2 <= self.num_oscillations + 1,
                        self.quarter_wavelength >= 1,
                ;
            }
            sine = sine.next();
            proof {
                assert(sine == self.spec_osc(i + 1));
            }
            sine.draw(canvas);
            let ghost iw = i as int;
            proof {
                assert forall|a: int, b: int| #[trigger] self.on_wave_prefix(iw + 1, a, b)
                    implies canvas.pix_at(a, b) == 0 by {
                    if self.spec_osc(iw + 1).on_sine_plain(a, b) {
                    } else {
                        assert(self.on_wave_prefix(iw, a, b));
                    }
                }
                assert forall|a: int, b: int| !self.on_wave_prefix(iw + 1, a, b)
                    implies canvas.pix_at(a, b) == old(canvas).pix_at(a, b) by {
                    assert(!self.spec_osc(iw + 1).on_sine_plain(a, b));
                    assert(!self.on_wave_prefix(iw, a, b));
                }
            }
            i += 1;
        }
    }

    /// Draw every period of the wave with anti-aliasing, with one spare
    /// pixel of room beyond the row for the candidate neighbours.
    pub fn draw_antialiased<D: XYDrawable>(&self, canvas: &mut D)
        requires
            self.wave_wf(),
            self.amplitude + 1 <= self.start.y,
            self.start.y + self.amplitude + 1 <= u32::MAX,
            self.start.x + (self.num_oscillations + 1) * 4 * self.quarter_wavelength + 1
                <= u32::MAX,
            self.start.x + (self.num_oscillations + 1) * 4 * self.quarter_wavelength + 1 < old(
                canvas,
            ).x_limit(),
            self.start.y + self.amplitude + 1 < old(canvas).y_limit(),
        ensures
            final(canvas).x_limit() == old(canvas).x_limit(),
            final(canvas).y_limit() == old(canvas).y_limit(),
            final(canvas).geometry() == old(canvas).geometry(),
            forall|a: int, b: int|
                self.on_wave_aa(a, b) ==> #[trigger] final(canvas).pix_at(a, b)
                    == self.wave_aa_value(self.num_oscillations as int, a, b),
            forall|a: int, b: int|
                !self.on_wave_aa(a, b) ==> #[trigger] final(canvas).pix_at(a, b) == old(
                    canvas,
                ).pix_at(a, b),
    {
        let mut sine = Sine::new(self.start, self.amplitude, self.quarter_wavelength);
        proof {
            assert(0 * 4 * self.quarter_wavelength == 0) by (nonlinear_arith);
            assert(self.spec_osc(0).start.x == self.start.x);
            assert(self.spec_osc(0).start == self.start);
            assert(sine == self.spec_osc(0));
            assert(4 * self.quarter_wavelength <= (self.num_oscillations + 1) * 4
                * self.quarter_wavelength) by (nonlinear_arith)
                requires
                    self.num_oscillations >= 0,
                    self.quarter_wavelength >= 1,
            ;
        }
        sine.draw_antialiased(canvas);
        proof {
            assert(forall|a: int, b: int|
                #[trigger] self.on_wave_aa_prefix(0, a, b) <==> self.spec_osc(0).on_sine_aa(
                    a,
                    b,
                ));
        }
        let mut i: usize = 0;
        while i < self.num_oscillations
            invariant
                self.wave_wf(),
                self.amplitude + 1 <= self.start.y,
                self.start.y + self.amplitude + 1 <= u32::MAX,
                self.start.x + (self.num_oscillations + 1) * 4 * self.quarter_wavelength + 1
                    <= u32::MAX,
                self.start.x + (self.num_oscillations + 1) * 4 * self.quarter_wavelength + 1
                    < old(canvas).x_limit(),
                self.start.y + self.amplitude + 1 < old(canvas).y_limit(),
                0 <= i <= self.num_oscillations,
                sine == self.spec_osc(i as int),
                canvas.x_limit() == old(canvas).x_limit(),
                canvas.y_limit() == old(canvas).y_limit(),
                canvas.geometry() == old(canvas).geometry(),
                forall|a: int, b: int|
                    self.on_wave_aa_prefix(i as int, a, b) ==> #[trigger] canvas.pix_at(a, b)
                        == self.wave_aa_value(i as int, a, b),
                forall|a: int, b: int|
                    !self.on_wave_aa_prefix(i as int, a, b) ==> #[trigger] canvas.pix_at(a, b)
                        == old(canvas).pix_at(a, b),
            decreases self.num_oscillations - i,
        {
            proof {
                assert((i + 1) * 4 * self.quarter_wavelength == i * 4 * self.quarter_wavelength
                    + 4 * self.quarter_wavelength) by (nonlinear_arith);
                assert((i + 2) * 4 * self.quarter_wavelength == (i + 1) * 4
                    * self.quarter_wavelength + 4 * self.quarter_wavelength) by (nonlinear_arith);
                assert((i + 2) * 4 * self.quarter_wavelength <= (self.num_oscillations + 1) * 4
                    * self.quarter_wavelength) by (nonlinear_arith)
                    requires
                        i + 2 <= self.num_oscillations + 1,
                        self.quarter_wavelength >= 1,
                ;
            }
            sine = sine.next();
            proof {
                assert(sine == self.spec_osc(i + 1));
            }
            sine.draw_antialiased(canvas);
            let ghost iw = i as int;
            proof {
                assert forall|a: int, b: int| #[trigger] self.on_wave_aa_prefix(iw + 1, a, b)
                    implies canvas.pix_at(a, b) == self.wave_aa_value(iw + 1, a, b) by {
                    if self.spec_osc(iw + 1).on_sine_aa(a, b) {
                    } else {
                        assert(self.on_wave_aa_prefix(iw, a, b));
                    }
                }
                assert forall|a: int, b: int| !self.on_wave_aa_prefix(iw + 1, a, b)
                    implies canvas.pix_at(a, b) == old(canvas).pix_at(a, b) by {
                    assert(!self.spec_osc(iw + 1).on_sine_aa(a, b));
                    assert(!self.on_wave_aa_prefix(iw, a, b));
                }
            }
            i += 1;
        }
    }
}

} // verus!
