//! Owned, row-major 8-bit grayscale images.
use vstd::prelude::*;

verus! {

/// A `width` x `height` grid of 8-bit intensities, stored row by row.
#[derive(Clone, Debug)]
pub struct GrayImage {
    pub width: u32,
    pub height: u32,
    pub data: Vec<u8>,
}

/// The mathematical content of a grayscale image.
pub struct Raster {
    pub width: int,
    pub height: int,
    pub pixels: Seq<u8>,
}

impl Raster {
    /// The intensity at column `x`, row `y`.
    pub open spec fn at(self, x: int, y: int) -> u8 {
        self.pixels[pixel_index(self.width, x, y)]
    }
}

impl View for GrayImage {
    type V = Raster;

    open spec fn view(&self) -> Raster {
        Raster { width: self.width as int, height: self.height as int, pixels: self.data@ }
    }
}

/// The luma byte of one pixel: `(2126 r + 7152 g + 722 b) / 10000`, alpha ignored.
pub open spec fn luma(r: u8, g: u8, b: u8) -> u8 {
    ((2126 * r + 7152 * g + 722 * b) / 10000) as u8
}

/// The luma bytes, one per pixel, of the RGBA bytes `rgba`.
pub open spec fn luma_of(rgba: Seq<u8>) -> Seq<u8> {
    Seq::new(rgba.len() / 4, |i: int| luma(rgba[4 * i], rgba[4 * i + 1], rgba[4 * i + 2]))
}

/// Relies on `image::imageops::grayscale`: for each RGBA pixel, in row-major
/// order, the luma byte `(2126 r + 7152 g + 722 b) / 10000` computed in `u32`.
#[verifier::external_body]
fn grayscale_rgba(width: u32, height: u32, rgba: &Vec<u8>) -> (r: Vec<u8>)
    requires
        rgba@.len() == 4 * (width as int * height as int),
    ensures
        r@.len() == width as int * height as int,
        r@ == luma_of(rgba@),
{
    let img = image::RgbaImage::from_raw(width, height, rgba.clone()).unwrap();
    image::imageops::grayscale(&img).into_raw()
}

/// The position of column `x` of row `y` in a row-major buffer of rows `w` wide.
pub open spec fn pixel_index(w: int, x: int, y: int) -> int {
    y * w + x
}

/// A cell of a `w` x `h` grid lies inside a buffer of `w * h` cells.
pub proof fn lemma_pixel_index_bounds(w: int, h: int, x: int, y: int)
    requires
        0 <= x < w,
        0 <= y < h,
    ensures
        0 <= pixel_index(w, x, y) < w * h,
        pixel_index(w, x, y) + w == pixel_index(w, x, y + 1),
{
    assert(0 <= y * w + x < w * h) by (nonlinear_arith)
        requires
            0 <= x < w,
            0 <= y < h,
    ;
    assert(y * w + w == (y + 1) * w) by (nonlinear_arith);
}

impl GrayImage {
    /// The buffer holds exactly one byte per pixel.
    pub open spec fn wf(&self) -> bool {
        self.data@.len() == self.width as int * self.height as int
    }

    /// Builds an image from a row-major buffer; `None` when the buffer does not
    /// hold exactly `width * height` bytes.
    pub fn from_vec(width: u32, height: u32, data: Vec<u8>) -> (r: Option<GrayImage>)
        ensures
            r is Some <==> data@.len() == width as int * height as int,
            r matches Some(img) ==> img.wf() && img.width == width && img.height == height
                && img.data@ == data@,
    {
        assert(width as u64 * height as u64 <= u64::MAX) by (nonlinear_arith);
        let n = width as u64 * height as u64;
        if data.len() as u64 == n {
            Some(GrayImage { width, height, data })
        } else {
            None
        }
    }

    /// Converts a `width` x `height` image of RGBA bytes to grayscale; `None`
    /// when the buffer does not hold exactly four bytes per pixel.
    pub fn from_rgba(width: u32, height: u32, rgba: &Vec<u8>) -> (r: Option<GrayImage>)
        ensures
            r is Some <==> rgba@.len() == 4 * (width as int * height as int),
            r matches Some(img) ==> img.wf() && img.width == width && img.height == height
                && img.data@ == luma_of(rgba@),
    {
        assert(4 * (width as u128 * height as u128) <= u128::MAX) by (nonlinear_arith);
        if rgba.len() as u128 == 4 * (width as u128 * height as u128) {
            let data = grayscale_rgba(width, height, rgba);
            Some(GrayImage { width, height, data })
        } else {
            None
        }
    }

    pub fn width(&self) -> (r: u32)
        ensures
            r == self.width,
    {
        self.width
    }

    pub fn height(&self) -> (r: u32)
        ensures
            r == self.height,
    {
        self.height
    }

    pub fn as_raw(&self) -> (r: &Vec<u8>)
        ensures
            r@ == self.data@,
    {
        &self.data
    }
}

} // verus!
