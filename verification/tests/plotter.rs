use image::{DynamicImage, GrayImage, Luma};
use sine_art::plotter::Plotter;

fn flat_image(width: u32, height: u32, value: u8) -> DynamicImage {
    DynamicImage::ImageLuma8(GrayImage::from_pixel(width, height, Luma([value])))
}

#[test]
fn plotter_geometry() {
    let plotter = Plotter::new(50, 50, flat_image(600, 600, 128), 100);
    // inner width is a whole number of four-quarter cells plus one column
    assert_eq!((plotter.canvas.iw - 1) % (4 * 50), 0);
    let cell_width = (plotter.canvas.iw - 1) / 50;
    assert!(cell_width * 50 <= plotter.canvas.iw - 1);
    // 600 source columns at scale 100 need four cells of 200 plus one
    assert_eq!(plotter.canvas.iw, 801);
    assert_eq!(plotter.canvas.ih, 801);
}

#[test]
fn fresh_canvas_is_white() {
    let plotter = Plotter::new(1, 1, flat_image(1, 1, 0), 100);
    let raw = plotter.canvas.raw();
    assert_eq!(
        raw.len(),
        (plotter.canvas.fw as usize) * (plotter.canvas.fh as usize)
    );
    assert!(raw.iter().all(|v| *v == 255));
}

#[test]
fn flat_wave_on_white() {
    // an all-white single cell gives amplitude zero: a flat line across
    // the full inner width at the row's centreline
    let mut plotter = Plotter::new(1, 1, flat_image(1, 1, 255), 100);
    assert_eq!(plotter.canvas.iw, 5);
    assert_eq!(plotter.canvas.ih, 5);
    plotter.draw(1);
    for x in 0..5 {
        assert_eq!(plotter.canvas.get_xy(x, 2), 0);
    }
    for x in 0..5 {
        assert_eq!(plotter.canvas.get_xy(x, 0), 255);
        assert_eq!(plotter.canvas.get_xy(x, 4), 255);
    }
}

#[test]
fn full_wave_on_black() {
    // an all-black single cell gives the maximum amplitude: the peak and
    // the trough are drawn and stay within the inner region
    let mut plotter = Plotter::new(1, 1, flat_image(1, 1, 0), 100);
    assert_eq!(plotter.canvas.iw, 5);
    assert_eq!(plotter.canvas.ih, 5);
    // cell height 5 gives max amplitude 5 * 9 / 20 = 2, centreline 2
    plotter.draw(1);
    assert_eq!(plotter.canvas.get_xy(0, 2), 0);
    // peak at one quarter wavelength, trough at three
    assert_eq!(plotter.canvas.get_xy(1, 4), 0);
    assert_eq!(plotter.canvas.get_xy(3, 0), 0);
    assert_eq!(plotter.canvas.get_xy(4, 2), 0);
}
