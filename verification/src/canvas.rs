//! The drawing surface: a capability for setting pixels in cartesian
//! coordinates, and its implementation on a grayscale pixel buffer.

use vstd::prelude::*;

use crate::curves::Point;

verus! {

/// Pixels covered by a horizontal run centred on `p` with half-width
/// `extent`, clamped to coordinates `0 ..< x_limit`.
pub open spec fn hline_covers(p: Point, extent: int, x_limit: int, a: int, b: int) -> bool {
    b == p.y && p.x - extent <= a <= p.x + extent && 0 <= a < x_limit
}

/// Pixels covered by a vertical run centred on `p` with half-height
/// `extent`, clamped to coordinates `0 ..< y_limit`.
pub open spec fn vline_covers(p: Point, extent: int, y_limit: int, a: int, b: int) -> bool {
    a == p.x && p.y - extent <= b <= p.y + extent && 0 <= b < y_limit
}

/// A surface that can be drawn on in cartesian coordinates: `x` grows to
/// the right, `y` grows upward.  Coordinates below the two limits are
/// settable; everything outside is untouched by every operation.
pub trait XYDrawable: Sized {
    /// Exclusive upper bound on settable `x` coordinates.
    spec fn x_limit(&self) -> int;

    /// The fixed shape of the surface (its dimensions and offsets);
    /// drawing never changes it.
    spec fn geometry(&self) -> Seq<int>;

    /// Exclusive upper bound on settable `y` coordinates.
    spec fn y_limit(&self) -> int;

    /// Intensity stored at cartesian coordinates `(x, y)`.
    spec fn pix_at(&self, x: int, y: int) -> u8;

    /// Set the pixel at cartesian `(x, y)`: raster column `x`, raster
    /// row counted from the bottom.
    fn set_xy(&mut self, x: u32, y: u32, value: u8)
        requires
            (x as int) < old(self).x_limit(),
            (y as int) < old(self).y_limit(),
        ensures
            final(self).x_limit() == old(self).x_limit(),
            final(self).y_limit() == old(self).y_limit(),
            final(self).geometry() == old(self).geometry(),
            final(self).pix_at(x as int, y as int) == value,
            forall|a: int, b: int|
                !(a == x as int && b == y as int) ==> final(self).pix_at(a, b) == old(self).pix_at(a, b),
    ;

    /// Set a point in cartesian coordinates.
    fn set_point(&mut self, point: &Point, value: u8)
        requires
            (point.x as int) < old(self).x_limit(),
            (point.y as int) < old(self).y_limit(),
        ensures
            final(self).x_limit() == old(self).x_limit(),
            final(self).y_limit() == old(self).y_limit(),
            final(self).geometry() == old(self).geometry(),
            final(self).pix_at(point.x as int, point.y as int) == value,
            forall|a: int, b: int|
                !(a == point.x as int && b == point.y as int) ==> final(self).pix_at(a, b) == old(
                    self,
                ).pix_at(a, b),
    ;

    /// Set a vertical run of `2 * extent + 1` pixels centred on `point`,
    /// clamped to the settable region.
    fn set_vertical_line(&mut self, point: &Point, value: u8, extent: u32)
        requires
            (point.x as int) < old(self).x_limit(),
            (point.y as int) < old(self).y_limit(),
        ensures
            final(self).x_limit() == old(self).x_limit(),
            final(self).y_limit() == old(self).y_limit(),
            final(self).geometry() == old(self).geometry(),
            forall|a: int, b: int|
                vline_covers(*point, extent as int, final(self).y_limit(), a, b) ==> final(self).pix_at(a, b)
                    == value,
            forall|a: int, b: int|
                !vline_covers(*point, extent as int, final(self).y_limit(), a, b) ==> final(self).pix_at(a, b)
                    == old(self).pix_at(a, b),
    ;

    /// Set a horizontal run of `2 * extent + 1` pixels centred on `point`,
    /// clamped to the settable region.
    fn set_horizontal_line(&mut self, point: &Point, value: u8, extent: u32)
        requires
            (point.x as int) < old(self).x_limit(),
            (point.y as int) < old(self).y_limit(),
        ensures
            final(self).x_limit() == old(self).x_limit(),
            final(self).y_limit() == old(self).y_limit(),
            final(self).geometry() == old(self).geometry(),
            forall|a: int, b: int|
                hline_covers(*point, extent as int, final(self).x_limit(), a, b) ==> final(self).pix_at(a, b)
                    == value,
            forall|a: int, b: int|
                !hline_covers(*point, extent as int, final(self).x_limit(), a, b) ==> final(self).pix_at(a, b)
                    == old(self).pix_at(a, b),
    ;
}

#[verifier::external_type_specification]
#[verifier::external_body]
pub struct ExDynamicImage(image::DynamicImage);

/// A grayscale pixel buffer of the image crate, held opaquely; its
/// contents are exposed to specifications only through the names below.
#[verifier::external_body]
pub struct GrayBuffer {
    buf: image::GrayImage,
}

/// The grayscale intensity stored at each raster coordinate of a buffer.
pub uninterp spec fn gray_pixels(img: &GrayBuffer) -> Map<(int, int), u8>;

/// Width in pixels of a grayscale buffer.
pub uninterp spec fn gray_width(img: &GrayBuffer) -> int;

/// Height in pixels of a grayscale buffer.
pub uninterp spec fn gray_height(img: &GrayBuffer) -> int;

/// Width in pixels of a decoded image.
pub uninterp spec fn dyn_width(img: &image::DynamicImage) -> int;

/// Height in pixels of a decoded image.
pub uninterp spec fn dyn_height(img: &image::DynamicImage) -> int;

/// The grayscale content of a decoded image: what converting it to 8-bit
/// luminance yields at each raster coordinate.
pub uninterp spec fn luma_of(img: &image::DynamicImage) -> Map<(int, int), u8>;

/// Relies on image::ImageBuffer::from_pixel: a buffer of the given
/// dimensions with every pixel set to the given value.  It panics only
/// when the buffer length overflows usize, which a single-channel image
/// with 32-bit dimensions cannot do on a 64-bit target.
#[verifier::external_body]
fn gray_new(width: u32, height: u32, value: u8) -> (r: GrayBuffer)
    ensures
        gray_width(&r) == width as int,
        gray_height(&r) == height as int,
        forall|a: int, b: int|
            0 <= a < width && 0 <= b < height ==> gray_pixels(&r)[(a, b)] == value,
{
    GrayBuffer { buf: image::GrayImage::from_pixel(width, height, image::Luma([value])) }
}

/// Relies on image::ImageBuffer::put_pixel: sets exactly the addressed
/// pixel and panics only when `(x, y)` is out of bounds.
#[verifier::external_body]
fn gray_put(img: &mut GrayBuffer, x: u32, y: u32, value: u8)
    requires
        (x as int) < gray_width(&*old(img)),
        (y as int) < gray_height(&*old(img)),
    ensures
        gray_width(&*final(img)) == gray_width(&*old(img)),
        gray_height(&*final(img)) == gray_height(&*old(img)),
        gray_pixels(&*final(img))[(x as int, y as int)] == value,
        forall|a: int, b: int|
            !(a == x as int && b == y as int) ==> gray_pixels(&*final(img))[(a, b)] == gray_pixels(
                &*old(img),
            )[(a, b)],
{
    img.buf.put_pixel(x, y, image::Luma([value]));
}

/// Relies on image::ImageBuffer::get_pixel: returns the addressed pixel
/// and panics only when `(x, y)` is out of bounds.
#[verifier::external_body]
pub(crate) fn gray_get(img: &GrayBuffer, x: u32, y: u32) -> (r: u8)
    requires
        (x as int) < gray_width(img),
        (y as int) < gray_height(img),
    ensures
        r == gray_pixels(img)[(x as int, y as int)],
{
    img.buf.get_pixel(x, y).0[0]
}

/// Relies on image::ImageBuffer::width.
#[verifier::external_body]
pub(crate) fn gray_width_of(img: &GrayBuffer) -> (r: u32)
    ensures
        r as int == gray_width(img),
{
    img.buf.width()
}

/// Relies on image::ImageBuffer::height.
#[verifier::external_body]
pub(crate) fn gray_height_of(img: &GrayBuffer) -> (r: u32)
    ensures
        r as int == gray_height(img),
{
    img.buf.height()
}

/// Relies on image::ImageBuffer::as_raw: the underlying container, whose
/// pixel bytes lie in row-major order, one byte per pixel.  The container
/// holds at least width times height bytes but may be longer, since
/// buffers can be built over an oversized container.
#[verifier::external_body]
pub(crate) fn gray_raw(img: &GrayBuffer) -> (r: Vec<u8>)
    ensures
        r@.len() >= gray_width(img) * gray_height(img),
        forall|a: int, b: int|
            0 <= a < gray_width(img) && 0 <= b < gray_height(img) ==> r@[b * gray_width(img) + a]
                == gray_pixels(img)[(a, b)],
{
    img.buf.as_raw().clone()
}

/// Relies on image::DynamicImage::width.
#[verifier::external_body]
pub fn dyn_width_of(img: &image::DynamicImage) -> (r: u32)
    ensures
        r as int == dyn_width(img),
{
    img.width()
}

/// Relies on image::DynamicImage::height.
#[verifier::external_body]
pub fn dyn_height_of(img: &image::DynamicImage) -> (r: u32)
    ensures
        r as int == dyn_height(img),
{
    img.height()
}

/// The grayscale content of triangle-filter resampling an image to the
/// given dimensions: deterministic in the image and the dimensions alone.
pub uninterp spec fn resized_luma(img: &image::DynamicImage, width: int, height: int) -> Map<
    (int, int),
    u8,
>;

/// Relies on image::DynamicImage::resize_exact with the triangle filter:
/// deterministic resampling to exactly the requested dimensions.
#[verifier::external_body]
pub fn resize_triangle(img: &image::DynamicImage, width: u32, height: u32) -> (r:
    image::DynamicImage)
    ensures
        dyn_width(&r) == width as int,
        dyn_height(&r) == height as int,
        luma_of(&r) == resized_luma(img, width as int, height as int),
{
    img.resize_exact(width, height, image::imageops::FilterType::Triangle)
}

/// Relies on image::DynamicImage::into_luma8: converts to an 8-bit
/// grayscale buffer of the same dimensions, with the luminance values that
/// depend on the image alone.
#[verifier::external_body]
pub fn to_luma(img: image::DynamicImage) -> (r: GrayBuffer)
    ensures
        gray_width(&r) == dyn_width(&img),
        gray_height(&r) == dyn_height(&img),
        gray_pixels(&r) == luma_of(&img),
{
    GrayBuffer { buf: img.into_luma8() }
}

/// A full-size grayscale pixel buffer with a centred inner drawable
/// region, addressed in cartesian coordinates.
pub struct Canvas {
    /// Full width of image, in pixels.
    pub fw: u32,
    /// Full height of image, in pixels.
    pub fh: u32,
    /// Inner width of image, in pixels.
    pub iw: u32,
    /// Inner height of image, in pixels.
    pub ih: u32,
    /// Plotting offset width: a point (x, y) lands at raster column x + ow.
    pub ow: u32,
    /// Plotting offset height: a point (x, y) lands at raster row
    /// fh - 1 - y - oh.
    pub oh: u32,
    /// Image buffer.
    pub image: GrayBuffer,
}

impl Canvas {
    /// The stored buffer has the declared dimensions.
    pub open spec fn buffer_ok(&self) -> bool {
        &&& gray_width(&self.image) == self.fw as int
        &&& gray_height(&self.image) == self.fh as int
        &&& self.iw <= self.fw
        &&& self.ih <= self.fh
        &&& self.ow == (self.fw - self.iw) / 2
        &&& self.oh == (self.fh - self.ih) / 2
    }

    /// Allocate a white canvas of the given full size, with the inner
    /// region centred in it.
    pub fn new(full_hw: [u32; 2], inner_hw: [u32; 2]) -> (r: Self)
        requires
            inner_hw[0] <= full_hw[0],
            inner_hw[1] <= full_hw[1],
        ensures
            r.buffer_ok(),
            r.fh == full_hw[0],
            r.fw == full_hw[1],
            r.ih == inner_hw[0],
            r.iw == inner_hw[1],
            r.oh == (full_hw[0] - inner_hw[0]) / 2,
            r.ow == (full_hw[1] - inner_hw[1]) / 2,
            r.x_limit() == r.fw - r.ow,
            r.y_limit() == r.fh - r.oh,
            forall|a: int, b: int|
                0 <= a < r.x_limit() && 0 <= b < r.y_limit() ==> #[trigger] r.pix_at(a, b) == 255,
            forall|a: int, b: int|
                0 <= a < r.fw && 0 <= b < r.fh ==> gray_pixels(&r.image)[(a, b)] == 255,
    {
        let fh = full_hw[0];
        let fw = full_hw[1];
        let ih = inner_hw[0];
        let iw = inner_hw[1];
        let image = gray_new(fw, fh, 255);
        Canvas { fw, fh, iw, ih, ow: (fw - iw) / 2, oh: (fh - ih) / 2, image }
    }

    /// The pixel bytes of the whole canvas in row-major raster order,
    /// for encoding or saving.
    pub fn raw(&self) -> (r: Vec<u8>)
        requires
            self.buffer_ok(),
        ensures
            r@.len() >= self.fw * self.fh,
            forall|a: int, b: int|
                0 <= a < self.fw && 0 <= b < self.fh ==> r@[b * self.fw + a] == gray_pixels(
                    &self.image,
                )[(a, b)],
    {
        gray_raw(&self.image)
    }

    /// Read back the intensity at cartesian coordinates.
    pub fn get_xy(&self, x: u32, y: u32) -> (r: u8)
        requires
            (x as int) < self.x_limit(),
            (y as int) < self.y_limit(),
        ensures
            r == self.pix_at(x as int, y as int),
    {
        gray_get(&self.image, x + self.ow, self.fh - 1 - y - self.oh)
    }
}

impl XYDrawable for Canvas {
    open spec fn geometry(&self) -> Seq<int> {
        seq![
            self.fw as int,
            self.fh as int,
            self.iw as int,
            self.ih as int,
            self.ow as int,
            self.oh as int,
        ]
    }

    /// Nothing is settable on a canvas whose buffer does not match its
    /// declared dimensions.
    open spec fn x_limit(&self) -> int {
        if self.buffer_ok() {
            self.fw - self.ow
        } else {
            0
        }
    }

    open spec fn y_limit(&self) -> int {
        if self.buffer_ok() {
            self.fh - self.oh
        } else {
            0
        }
    }

    open spec fn pix_at(&self, x: int, y: int) -> u8 {
        if 0 <= x < self.x_limit() && 0 <= y < self.y_limit() {
            gray_pixels(&self.image)[(x + self.ow, self.fh - 1 - y - self.oh)]
        } else {
            255
        }
    }

    fn set_xy(&mut self, x: u32, y: u32, value: u8) {
        proof {
            assert(old(self).buffer_ok());
        }
        let rx = x + self.ow;
        let ry = self.fh - 1 - y - self.oh;
        gray_put(&mut self.image, rx, ry, value);
        proof {
            assert(self.buffer_ok());
            assert(self.geometry() =~= old(self).geometry());
            assert forall|a: int, b: int| !(a == x as int && b == y as int) implies self.pix_at(
                a,
                b,
            ) == old(self).pix_at(a, b) by {
                if 0 <= a < self.x_limit() && 0 <= b < self.y_limit() {
                    assert(!(a + self.ow == rx as int && self.fh - 1 - b - self.oh == ry as int));
                }
            }
        }
    }

    fn set_point(&mut self, point: &Point, value: u8) {
        self.set_xy(point.x, point.y, value);
    }

    fn set_vertical_line(&mut self, point: &Point, value: u8, extent: u32) {
        proof {
            assert(self.geometry() =~= old(self).geometry());
        }
        let yl = self.fh - self.oh;
        let lo: u32 = if point.y >= extent {
            point.y - extent
        } else {
            0
        };
        let hi: u32 = if (point.y as u64) + (extent as u64) >= (yl as u64) {
            yl - 1
        } else {
            point.y + extent
        };
        let mut y = lo;
        while y <= hi
            invariant
                self.buffer_ok(),
                self.x_limit() == old(self).x_limit(),
                self.y_limit() == old(self).y_limit(),
                self.geometry() == old(self).geometry(),
                self.y_limit() == yl,
                point.y - extent <= lo <= point.y,
                lo == if point.y >= extent {
                    point.y - extent
                } else {
                    0
                },
                hi < yl,
                point.y <= hi <= point.y + extent,
                hi == point.y + extent || hi == yl - 1,
                (point.x as int) < self.x_limit(),
                (point.y as int) < self.y_limit(),
                lo <= y <= hi + 1,
                forall|a: int, b: int|
                    a == point.x as int && lo <= b < y ==> #[trigger] self.pix_at(a, b) == value,
                forall|a: int, b: int|
                    !(a == point.x as int && lo <= b < y) ==> #[trigger] self.pix_at(a, b) == old(
                        self,
                    ).pix_at(a, b),
            decreases hi + 1 - y,
        {
            self.set_xy(point.x, y, value);
            y += 1;
        }
        proof {
            assert forall|a: int, b: int|
                vline_covers(*point, extent as int, self.y_limit(), a, b) == (a == point.x as int
                    && lo <= b <= hi) by {
            }
        }
    }

    fn set_horizontal_line(&mut self, point: &Point, value: u8, extent: u32) {
        proof {
            assert(self.geometry() =~= old(self).geometry());
        }
        let xl = self.fw - self.ow;
        let lo: u32 = if point.x >= extent {
            point.x - extent
        } else {
            0
        };
        let hi: u32 = if (point.x as u64) + (extent as u64) >= (xl as u64) {
            xl - 1
        } else {
            point.x + extent
        };
        let mut x = lo;
        while x <= hi
            invariant
                self.buffer_ok(),
                self.x_limit() == old(self).x_limit(),
                self.y_limit() == old(self).y_limit(),
                self.geometry() == old(self).geometry(),
                self.x_limit() == xl,
                point.x - extent <= lo <= point.x,
                lo == if point.x >= extent {
                    point.x - extent
                } else {
                    0
                },
                hi < xl,
                point.x <= hi <= point.x + extent,
                hi == point.x + extent || hi == xl - 1,
                (point.x as int) < self.x_limit(),
                (point.y as int) < self.y_limit(),
                lo <= x <= hi + 1,
                forall|a: int, b: int|
                    b == point.y as int && lo <= a < x ==> #[trigger] self.pix_at(a, b) == value,
                forall|a: int, b: int|
                    !(b == point.y as int && lo <= a < x) ==> #[trigger] self.pix_at(a, b) == old(
                        self,
                    ).pix_at(a, b),
            decreases hi + 1 - x,
        {
            self.set_xy(x, point.y, value);
            x += 1;
        }
        proof {
            assert forall|a: int, b: int|
                hline_covers(*point, extent as int, self.x_limit(), a, b) == (b == point.y as int
                    && lo <= a <= hi) by {
            }
        }
    }
}

} // verus!
