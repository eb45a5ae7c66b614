//! The plotter: downsamples a source image to a brightness grid and draws
//! every grid row as one multi-cell sine wave, the amplitude of each cell
//! driven by its darkness.

use vstd::prelude::*;

use crate::canvas::{
    dyn_height, dyn_height_of, dyn_width, dyn_width_of, gray_get, gray_height, gray_height_of,
    gray_pixels, gray_width, gray_width_of, resize_triangle, resized_luma, to_luma, Canvas,
    GrayBuffer, XYDrawable,
};
use crate::curves::sine::Sine;
use crate::curves::Point;

verus! {

/// Width in pixels of the inner canvas region: the scaled source width
/// rounded up to a whole number of four-quarter cells, plus one closing
/// column.
pub open spec fn spec_target_width(sw: int, scale: int, nw: int) -> int {
    (sw * scale / 100 / (4 * nw) + 1) * (4 * nw) + 1
}

/// Height of the inner canvas region, preserving the source aspect ratio.
pub open spec fn spec_target_height(sw: int, sh: int, tw: int) -> int {
    sh * tw / sw
}

/// The topmost row's centreline leaves room for a full maximum amplitude
/// below the inner height.
proof fn lemma_row_top(h: int, n: int)
    requires
        1 <= h,
        1 <= n,
    ensures
        (h / 2 + h * (n - 1)) / n + (h / n) * 9 / 20 <= h - 1,
{
    let c = h / n;
    let r = h % n;
    let h2 = h / 2;
    let r2 = h % 2;
    let s = (h2 + h * (n - 1)) / n;
    let rs = (h2 + h * (n - 1)) % n;
    let a = (c * 9) / 20;
    let ra = (c * 9) % 20;
    vstd::arithmetic::div_mod::lemma_fundamental_div_mod(h, n);
    vstd::arithmetic::div_mod::lemma_mod_division_less_than_divisor(h, n);
    vstd::arithmetic::div_mod::lemma_fundamental_div_mod(h, 2);
    vstd::arithmetic::div_mod::lemma_mod_division_less_than_divisor(h, 2);
    vstd::arithmetic::div_mod::lemma_fundamental_div_mod(h2 + h * (n - 1), n);
    vstd::arithmetic::div_mod::lemma_mod_division_less_than_divisor(h2 + h * (n - 1), n);
    vstd::arithmetic::div_mod::lemma_fundamental_div_mod(c * 9, 20);
    vstd::arithmetic::div_mod::lemma_mod_division_less_than_divisor(c * 9, 20);
    assert(s + a <= h - 1) by (nonlinear_arith)
        requires
            h == n * c + r,
            0 <= r < n,
            h == 2 * h2 + r2,
            0 <= r2 < 2,
            h2 + h * (n - 1) == n * s + rs,
            0 <= rs < n,
            c * 9 == 20 * a + ra,
            0 <= ra < 20,
            1 <= h,
            1 <= n,
    ;
}

/// The bottom row's centreline is still at least a full maximum amplitude
/// above zero.
proof fn lemma_row_bottom(h: int, n: int)
    requires
        1 <= h,
        1 <= n,
    ensures
        (h / n) * 9 / 20 <= (h / 2) / n,
{
    let c = h / n;
    let r = h % n;
    let h2 = h / 2;
    let r2 = h % 2;
    let s = h2 / n;
    let rs = h2 % n;
    let a = (c * 9) / 20;
    let ra = (c * 9) % 20;
    vstd::arithmetic::div_mod::lemma_fundamental_div_mod(h, n);
    vstd::arithmetic::div_mod::lemma_mod_division_less_than_divisor(h, n);
    vstd::arithmetic::div_mod::lemma_fundamental_div_mod(h, 2);
    vstd::arithmetic::div_mod::lemma_mod_division_less_than_divisor(h, 2);
    vstd::arithmetic::div_mod::lemma_fundamental_div_mod(h2, n);
    vstd::arithmetic::div_mod::lemma_mod_division_less_than_divisor(h2, n);
    vstd::arithmetic::div_mod::lemma_fundamental_div_mod(c * 9, 20);
    vstd::arithmetic::div_mod::lemma_mod_division_less_than_divisor(c * 9, 20);
    assert(a <= s) by (nonlinear_arith)
        requires
            h == n * c + r,
            0 <= r < n,
            h == 2 * h2 + r2,
            0 <= r2 < 2,
            h2 == n * s + rs,
            0 <= rs < n,
            c * 9 == 20 * a + ra,
            0 <= ra < 20,
            1 <= h,
            1 <= n,
    ;
}

/// Every row's centreline sits between one maximum amplitude above zero
/// and one below the inner height.
proof fn lemma_row_bounds(h: int, n: int, cy: int)
    requires
        1 <= h,
        1 <= n,
        0 <= cy < n,
    ensures
        (h / n) * 9 / 20 <= (h / 2 + h * (n - cy - 1)) / n,
        (h / 2 + h * (n - cy - 1)) / n + (h / n) * 9 / 20 <= h - 1,
{
    lemma_row_top(h, n);
    lemma_row_bottom(h, n);
    assert(0 <= h * (n - cy - 1) <= h * (n - 1)) by (nonlinear_arith)
        requires
            1 <= h,
            0 <= cy < n,
    ;
    vstd::arithmetic::div_mod::lemma_div_is_ordered(
        h / 2,
        h / 2 + h * (n - cy - 1),
        n,
    );
    vstd::arithmetic::div_mod::lemma_div_is_ordered(
        h / 2 + h * (n - cy - 1),
        h / 2 + h * (n - 1),
        n,
    );
}

/// Core crate component, takes a source image, resizes it to a number of
/// cells, and plots those cells to the canvas using sine waves.
pub struct Plotter {
    /// Downsampled brightness grid.
    pub source: GrayBuffer,
    /// Output canvas.
    pub canvas: Canvas,
}

impl Plotter {
    /// Number of grid columns.
    pub open spec fn grid_w(&self) -> int {
        gray_width(&self.source)
    }

    /// Number of grid rows.
    pub open spec fn grid_h(&self) -> int {
        gray_height(&self.source)
    }

    /// Geometry invariant: the inner width splits into whole grid columns
    /// of four quarter wavelengths plus a closing column, dimensions fit
    /// in sixteen bits, and the row-placement arithmetic cannot overflow.
    pub open spec fn wf(&self) -> bool {
        &&& self.canvas.buffer_ok()
        &&& 1 <= self.grid_w()
        &&& 1 <= self.grid_h()
        &&& 1 <= self.canvas.ih <= 0xFFFF
        &&& self.canvas.iw <= 0xFFFF
        &&& 4 * self.grid_w() + 1 <= self.canvas.iw
        &&& (self.canvas.iw - 1) % (4 * self.grid_w()) == 0
        &&& self.canvas.ih * self.grid_h() <= u32::MAX
    }

    pub open spec fn spec_cell_height(&self) -> int {
        self.canvas.ih as int / self.grid_h()
    }

    pub open spec fn spec_cell_width(&self) -> int {
        (self.canvas.iw - 1) / self.grid_w()
    }

    pub open spec fn spec_max_amplitude(&self) -> int {
        self.spec_cell_height() * 9 / 20
    }

    pub open spec fn spec_quarter_wavelength(&self) -> int {
        self.spec_cell_width() / 4
    }

    /// Centreline height of the wave for grid row `cy`: rows are placed
    /// evenly, the top image row at the top of the canvas.
    pub open spec fn spec_start_y(&self, cy: int) -> int {
        (self.canvas.ih as int / 2 + self.canvas.ih * (self.grid_h() - cy - 1)) / self.grid_h()
    }

    /// Amplitude for the cell at `(cx, cy)`: darker pixels give larger
    /// amplitudes, a white pixel gives zero.
    pub open spec fn spec_amplitude(&self, cx: int, cy: int) -> int {
        self.spec_max_amplitude() - self.spec_max_amplitude() * gray_pixels(&self.source)[
            (cx, cy)
        ] / 255
    }

    /// The sine period drawn for the cell at `(cx, cy)`.
    pub open spec fn cell_sine(&self, cx: int, cy: int) -> Sine {
        Sine {
            start: Point {
                x: (self.spec_cell_width() * cx) as u32,
                y: self.spec_start_y(cy) as u32,
            },
            amplitude: self.spec_amplitude(cx, cy) as u32,
            quarter_wavelength: self.spec_quarter_wavelength() as u32,
        }
    }

    /// `(a, b)` is covered by the thick wave of some grid cell.
    pub open spec fn on_plot(&self, extent: int, a: int, b: int) -> bool {
        exists|cx: int, cy: int|
            0 <= cx < self.grid_w() && 0 <= cy < self.grid_h() && self.cell_sine(
                cx,
                cy,
            ).on_sine_thick(extent, self.canvas.x_limit(), a, b)
    }

    /// `(a, b)` is covered by a cell drawn strictly before `(cx, cy)` in
    /// row-major order.
    pub open spec fn on_plot_before(&self, extent: int, cy: int, cx: int, a: int, b: int) -> bool {
        exists|i: int, j: int|
            0 <= i < self.grid_w() && 0 <= j < self.grid_h() && (j < cy || (j == cy && i < cx))
                && self.cell_sine(i, j).on_sine_thick(extent, self.canvas.x_limit(), a, b)
    }

    fn cell_height(&self) -> (r: u32)
        requires
            self.wf(),
        ensures
            r as int == self.spec_cell_height(),
    {
        self.canvas.ih / gray_height_of(&self.source)
    }

    fn cell_width(&self) -> (r: u32)
        requires
            self.wf(),
        ensures
            r as int == self.spec_cell_width(),
    {
        (self.canvas.iw - 1) / gray_width_of(&self.source)
    }

    /// Return the max amplitude a sine wave can have: nine tenths of half
    /// the cell height.
    fn max_amplitude(&self) -> (r: u32)
        requires
            self.wf(),
        ensures
            r as int == self.spec_max_amplitude(),
    {
        self.cell_height() * 9 / 20
    }

    fn quarter_wavelength(&self) -> (r: u32)
        requires
            self.wf(),
        ensures
            r as int == self.spec_quarter_wavelength(),
    {
        self.cell_width() / 4
    }

    fn cell_to_sine_start_y(&self, cell_y: u32) -> (r: u32)
        requires
            self.wf(),
            (cell_y as int) < self.grid_h(),
        ensures
            r as int == self.spec_start_y(cell_y as int),
    {
        let h = gray_height_of(&self.source);
        row_start_y(self.canvas.ih, h, cell_y)
    }
}

/// Centreline height for one grid row, computed from the inner height and
/// the number of rows alone.
fn row_start_y(ih: u32, h: u32, cell_y: u32) -> (r: u32)
    requires
        1 <= h,
        ih * h <= u32::MAX,
        cell_y < h,
    ensures
        r as int == (ih as int / 2 + ih * (h - cell_y - 1)) / (h as int),
{
    proof {
        assert(ih as int / 2 + ih * (h - cell_y - 1) <= ih * h) by (nonlinear_arith)
            requires
                0 <= cell_y < h,
                ih >= 0,
                ih as int / 2 <= ih,
        ;
        vstd::arithmetic::div_mod::lemma_div_pos_is_pos(ih as int, 2);
        vstd::arithmetic::div_mod::lemma_div_nonincreasing(ih as int, 2);
        assert(ih * (h - cell_y - 1) >= 0) by (nonlinear_arith)
            requires
                0 <= cell_y < h,
                ih >= 0,
        ;
    }
    (ih / 2 + ih * (h - cell_y - 1)) / h
}

/// A percentage markup of a non-negative quantity is no smaller than the
/// quantity.
proof fn lemma_pct(n: int)
    requires
        0 <= n,
    ensures
        n <= n * 105 / 100,
{
    assert(n * 100 <= n * 105) by (nonlinear_arith)
        requires
            n >= 0,
    ;
    vstd::arithmetic::div_mod::lemma_div_is_ordered(n * 100, n * 105, 100);
    vstd::arithmetic::div_mod::lemma_div_by_multiple(n, 100);
}

impl Plotter {
    /// Decode geometry from the source dimensions and build the canvas
    /// and the downsampled brightness grid.
    pub fn new(nw: u32, nh: u32, source: image::DynamicImage, scale: u32) -> (r: Self)
        requires
            1 <= nw,
            1 <= nh,
            1 <= dyn_width(&source),
            dyn_width(&source) * scale <= u32::MAX,
            spec_target_width(dyn_width(&source), scale as int, nw as int) <= 0xFFFF,
            dyn_height(&source) * spec_target_width(dyn_width(&source), scale as int, nw as int)
                <= u32::MAX,
            1 <= spec_target_height(
                dyn_width(&source),
                dyn_height(&source),
                spec_target_width(dyn_width(&source), scale as int, nw as int),
            ) <= 0xFFFF,
            spec_target_height(
                dyn_width(&source),
                dyn_height(&source),
                spec_target_width(dyn_width(&source), scale as int, nw as int),
            ) * nh <= u32::MAX,
        ensures
            r.wf(),
            r.grid_w() == nw as int,
            r.grid_h() == nh as int,
            r.canvas.iw as int == spec_target_width(dyn_width(&source), scale as int, nw as int),
            r.canvas.ih as int == spec_target_height(
                dyn_width(&source),
                dyn_height(&source),
                spec_target_width(dyn_width(&source), scale as int, nw as int),
            ),
            r.canvas.fw as int == r.canvas.iw * 105 / 100,
            r.canvas.fh as int == r.canvas.ih * 105 / 100,
            (r.canvas.iw - 1) % (4 * nw as int) == 0,
            gray_pixels(&r.source) == resized_luma(&source, nw as int, nh as int),
    {
        let sw = dyn_width_of(&source);
        let sh = dyn_height_of(&source);
        proof {
            let q = sw as int * scale / 100 / (4 * nw as int);
            vstd::arithmetic::div_mod::lemma_div_pos_is_pos(sw as int * scale / 100, 4 * nw as int);
            vstd::arithmetic::div_mod::lemma_div_pos_is_pos(sw as int * scale, 100);
            assert(sw as int * scale >= 0) by (nonlinear_arith)
                requires
                    sw >= 0,
                    scale >= 0,
            ;
            assert((q + 1) * (4 * nw as int) >= 1 * (4 * nw as int)) by (nonlinear_arith)
                requires
                    q >= 0,
                    nw >= 1,
            ;
            assert(nw * 4 <= spec_target_width(dyn_width(&source), scale as int, nw as int) - 1);
        }
        let nw_scale = nw * 4;
        let target_width = (sw * scale / 100 / nw_scale + 1) * nw_scale + 1;
        proof {
            assert(target_width as int == spec_target_width(
                dyn_width(&source),
                scale as int,
                nw as int,
            ));
        }
        let target_height = sh * target_width / sw;
        let fh = target_height * 105 / 100;
        let fw = target_width * 105 / 100;
        proof {
            lemma_pct(target_height as int);
            lemma_pct(target_width as int);
        }
        let canvas = Canvas::new([fh, fw], [target_height, target_width]);
        let resized = resize_triangle(&source, nw, nh);
        let grid = to_luma(resized);
        let r = Plotter { source: grid, canvas };
        proof {
            let q = sw as int * scale / 100 / (4 * nw as int);
            vstd::arithmetic::div_mod::lemma_mod_multiples_basic(q + 1, 4 * nw as int);
            assert((q + 1) * (4 * nw as int) == (4 * nw as int) * (q + 1)) by (nonlinear_arith);
            assert((r.canvas.iw - 1) % (4 * nw as int) == 0);
        }
        r
    }

    /// For every grid cell, draw one full sine period whose amplitude
    /// follows the cell's darkness, with the requested line thickness.
    pub fn draw(&mut self, thickness: u32)
        requires
            old(self).wf(),
        ensures
            final(self).wf(),
            final(self).source == old(self).source,
            final(self).canvas.fw == old(self).canvas.fw,
            final(self).canvas.fh == old(self).canvas.fh,
            final(self).canvas.iw == old(self).canvas.iw,
            final(self).canvas.ih == old(self).canvas.ih,
            final(self).canvas.ow == old(self).canvas.ow,
            final(self).canvas.oh == old(self).canvas.oh,
            final(self).canvas.x_limit() == old(self).canvas.x_limit(),
            final(self).canvas.y_limit() == old(self).canvas.y_limit(),
            forall|a: int, b: int|
                old(self).on_plot(thickness as int, a, b)
                    ==> #[trigger] final(self).canvas.pix_at(a, b) == 0,
            forall|a: int, b: int|
                !old(self).on_plot(thickness as int, a, b)
                    ==> #[trigger] final(self).canvas.pix_at(a, b) == old(self).canvas.pix_at(a, b),
    {
        let cw = self.cell_width();
        let qwave = self.quarter_wavelength();
        let amax = self.max_amplitude();
        let ih = self.canvas.ih;
        let w = gray_width_of(&self.source);
        let h = gray_height_of(&self.source);
        let ghost t = thickness as int;
        proof {
            lemma_geometry(ih as int, self.canvas.iw as int, w as int, h as int);
        }
        let mut cell_y: u32 = 0;
        while cell_y < h
            invariant
                old(self).wf(),
                self.source == old(self).source,
                w as int == old(self).grid_w(),
                h as int == old(self).grid_h(),
                ih == old(self).canvas.ih,
                cw as int == old(self).spec_cell_width(),
                qwave as int == old(self).spec_quarter_wavelength(),
                amax as int == old(self).spec_max_amplitude(),
                t == thickness as int,
                0 <= cell_y <= h,
                self.canvas.x_limit() == old(self).canvas.x_limit(),
                self.canvas.y_limit() == old(self).canvas.y_limit(),
                self.canvas.geometry() == old(self).canvas.geometry(),
                forall|a: int, b: int|
                    old(self).on_plot_before(t, cell_y as int, 0, a, b) ==> #[trigger] self.canvas.pix_at(
                        a,
                        b,
                    ) == 0,
                forall|a: int, b: int|
                    !old(self).on_plot_before(t, cell_y as int, 0, a, b)
                        ==> #[trigger] self.canvas.pix_at(a, b) == old(self).canvas.pix_at(a, b),
            decreases h - cell_y,
        {
            let y = row_start_y(ih, h, cell_y);
            proof {
                assert(y as int == old(self).spec_start_y(cell_y as int));
                lemma_row_bounds(ih as int, h as int, cell_y as int);
            }
            let mut cell_x: u32 = 0;
            while cell_x < w
                invariant
                    old(self).wf(),
                    self.source == old(self).source,
                    w as int == old(self).grid_w(),
                    h as int == old(self).grid_h(),
                    ih == old(self).canvas.ih,
                    cw as int == old(self).spec_cell_width(),
                    qwave as int == old(self).spec_quarter_wavelength(),
                    amax as int == old(self).spec_max_amplitude(),
                    t == thickness as int,
                    0 <= cell_y < h,
                    y as int == old(self).spec_start_y(cell_y as int),
                    amax <= y,
                    y + amax <= ih - 1,
                    0 <= cell_x <= w,
                    self.canvas.x_limit() == old(self).canvas.x_limit(),
                    self.canvas.y_limit() == old(self).canvas.y_limit(),
                    self.canvas.geometry() == old(self).canvas.geometry(),
                    forall|a: int, b: int|
                        old(self).on_plot_before(t, cell_y as int, cell_x as int, a, b)
                            ==> #[trigger] self.canvas.pix_at(a, b) == 0,
                    forall|a: int, b: int|
                        !old(self).on_plot_before(t, cell_y as int, cell_x as int, a, b)
                            ==> #[trigger] self.canvas.pix_at(a, b) == old(self).canvas.pix_at(
                            a,
                            b,
                        ),
                decreases w - cell_x,
            {
                proof {
                    lemma_geometry(
                        ih as int,
                        old(self).canvas.iw as int,
                        w as int,
                        h as int,
                    );
                    assert(cw * (cell_x + 1) <= cw * w) by (nonlinear_arith)
                        requires
                            0 <= cell_x < w,
                            cw >= 0,
                    ;
                    assert(cw * cell_x + cw == cw * (cell_x + 1)) by (nonlinear_arith);
                }
                let x = cw * cell_x;
                let p = gray_get(&self.source, cell_x, cell_y);
                proof {
                    assert(amax * p <= amax * 255) by (nonlinear_arith)
                        requires
                            0 <= p <= 255,
                            amax >= 0,
                    ;
                    vstd::arithmetic::div_mod::lemma_div_is_ordered(
                        amax as int * p,
                        amax as int * 255,
                        255,
                    );
                    vstd::arithmetic::div_mod::lemma_div_by_multiple(amax as int, 255);
                    vstd::arithmetic::div_mod::lemma_div_pos_is_pos(amax as int * p, 255);
                    assert(amax as int * p >= 0) by (nonlinear_arith)
                        requires
                            p >= 0,
                            amax >= 0,
                    ;
                }
                let amp = amax - amax * (p as u32) / 255;
                let sine = Sine::new(Point::new(x, y), amp, qwave);
                proof {
                    assert(sine == old(self).cell_sine(cell_x as int, cell_y as int));
                    assert(sine.sine_wf());
                    assert(sine.start.x + 4 * sine.quarter_wavelength < self.canvas.x_limit());
                    assert(sine.start.y + sine.amplitude < self.canvas.y_limit());
                }
                sine.draw_thick(&mut self.canvas, thickness);
                let ghost cyi = cell_y as int;
                let ghost cxi = cell_x as int;
                proof {
                    assert forall|a: int, b: int|
                        #[trigger] old(self).on_plot_before(t, cyi, cxi + 1, a, b)
                            implies self.canvas.pix_at(a, b) == 0 by {
                        if sine.on_sine_thick(t, old(self).canvas.x_limit(), a, b) {
                        } else {
                            assert(old(self).on_plot_before(t, cyi, cxi, a, b));
                        }
                    }
                    assert forall|a: int, b: int|
                        !old(self).on_plot_before(t, cyi, cxi + 1, a, b)
                            implies self.canvas.pix_at(a, b) == old(self).canvas.pix_at(a, b) by {
                        assert(!old(self).cell_sine(cxi, cyi).on_sine_thick(
                            t,
                            old(self).canvas.x_limit(),
                            a,
                            b,
                        ));
                        assert(!old(self).on_plot_before(t, cyi, cxi, a, b));
                    }
                }
                cell_x += 1;
            }
            proof {
                let ghost cyi = cell_y as int;
                assert forall|a: int, b: int|
                    old(self).on_plot_before(t, cyi + 1, 0, a, b) == old(self).on_plot_before(
                        t,
                        cyi,
                        w as int,
                        a,
                        b,
                    ) by {
                    if old(self).on_plot_before(t, cyi + 1, 0, a, b) {
                        let (i, j) = choose|i: int, j: int|
                            0 <= i < old(self).grid_w() && 0 <= j < old(self).grid_h() && (j < cyi
                                + 1 || (j == cyi + 1 && i < 0)) && old(self).cell_sine(
                                i,
                                j,
                            ).on_sine_thick(t, old(self).canvas.x_limit(), a, b);
                        assert(j < cyi || (j == cyi && i < w as int));
                        assert(old(self).on_plot_before(t, cyi, w as int, a, b));
                    }
                    if old(self).on_plot_before(t, cyi, w as int, a, b) {
                        assert(old(self).on_plot_before(t, cyi + 1, 0, a, b));
                    }
                }
            }
            cell_y += 1;
        }
        proof {
            assert forall|a: int, b: int|
                old(self).on_plot(t, a, b) == old(self).on_plot_before(t, h as int, 0, a, b) by {
            }
            assert(self.canvas.geometry()[0] == old(self).canvas.geometry()[0]);
            assert(self.canvas.geometry()[1] == old(self).canvas.geometry()[1]);
            assert(self.canvas.geometry()[2] == old(self).canvas.geometry()[2]);
            assert(self.canvas.geometry()[3] == old(self).canvas.geometry()[3]);
            assert(self.canvas.geometry()[4] == old(self).canvas.geometry()[4]);
            assert(self.canvas.geometry()[5] == old(self).canvas.geometry()[5]);
            assert(self.canvas.x_limit() > 0);
            assert(self.canvas.buffer_ok());
            assert(self.wf());
        }
    }
}

/// Plotter geometry: the inner width is one more than a whole number of
/// four-quarter-wavelength cells, a whole row of cells fits inside it,
/// and every cell is wide enough for a positive quarter wavelength.
pub proof fn lemma_plotter_geometry(p: &Plotter)
    requires
        p.wf(),
    ensures
        (p.canvas.iw - 1) % (4 * p.grid_w()) == 0,
        p.spec_cell_width() * p.grid_w() <= p.canvas.iw - 1,
        4 <= p.spec_cell_width(),
        1 <= p.spec_quarter_wavelength(),
        4 * p.spec_quarter_wavelength() <= p.spec_cell_width(),
{
    lemma_geometry(p.canvas.ih as int, p.canvas.iw as int, p.grid_w(), p.grid_h());
}

/// Derived facts of the geometry invariant: the cell width covers at
/// least four pixels, whole rows of cells fit inside the inner width, and
/// the inner region fits inside the settable region.
proof fn lemma_geometry(ih: int, iw: int, w: int, h: int)
    requires
        1 <= w,
        1 <= h,
        1 <= ih,
        4 * w + 1 <= iw,
        (iw - 1) % (4 * w) == 0,
    ensures
        4 <= (iw - 1) / w,
        1 <= ((iw - 1) / w) / 4,
        ((iw - 1) / w) * w <= iw - 1,
        4 * (((iw - 1) / w) / 4) <= (iw - 1) / w,
{
    vstd::arithmetic::div_mod::lemma_fundamental_div_mod(iw - 1, w);
    vstd::arithmetic::div_mod::lemma_mod_division_less_than_divisor(iw - 1, w);
    let cw = (iw - 1) / w;
    assert(4 <= cw) by (nonlinear_arith)
        requires
            iw - 1 == w * cw + (iw - 1) % w,
            0 <= (iw - 1) % w < w,
            4 * w <= iw - 1,
            1 <= w,
    ;
    vstd::arithmetic::div_mod::lemma_fundamental_div_mod(cw, 4);
    vstd::arithmetic::div_mod::lemma_mod_division_less_than_divisor(cw, 4);
    assert(cw * w <= iw - 1) by (nonlinear_arith)
        requires
            iw - 1 == w * cw + (iw - 1) % w,
            0 <= (iw - 1) % w,
    ;
    assert(1 <= cw / 4) by (nonlinear_arith)
        requires
            cw == 4 * (cw / 4) + cw % 4,
            0 <= cw % 4 < 4,
            4 <= cw,
    ;
    assert(4 * (cw / 4) <= cw) by (nonlinear_arith)
        requires
            cw == 4 * (cw / 4) + cw % 4,
            0 <= cw % 4,
    ;
}

} // verus!
