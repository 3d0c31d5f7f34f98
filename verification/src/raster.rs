//! Decoded pictures as plain RGB samples, their resampling and their gray levels.

use vstd::prelude::*;
use crate::table::{gray_level, rgb_to_luma};

verus! {

/// A picture of `width * height` pixels, row by row, three bytes (red, green,
/// blue) per pixel.
pub struct Raster {
    pub width: u32,
    pub height: u32,
    pub data: Vec<u8>,
}

impl Raster {
    /// The samples are exactly three per pixel.
    pub open spec fn wf(&self) -> bool {
        self.data@.len() == 3 * self.width * self.height
    }
}

/// How a picture is resampled to a new size.
#[derive(Clone, Copy, Debug, PartialEq, Eq)]
pub enum ResizeFilter {
    /// Each new pixel takes the nearest old pixel.
    Nearest,
    /// Linear interpolation between neighboring pixels.
    Triangle,
}

/// The RGB samples of the `width` by `height` picture that `image` makes of the
/// `src_width` by `src_height` picture `src` with `filter` (`image::imageops::resize`).
pub uninterp spec fn resampled(src_width: u32, src_height: u32, src: Seq<u8>, width: u32, height: u32, filter: ResizeFilter) -> Seq<u8>;

/// Whether resampling `src` to `width` by `height` stays within the buffer sizes
/// that `image` can allocate: the new picture's bytes, and the intermediate
/// picture of `src.width` by `height` pixels of four `f32` channels.
pub open spec fn resample_fits(src: &Raster, width: u32, height: u32) -> bool {
    &&& 3 * width * height <= isize::MAX
    &&& (src.width > 0 && src.height > 0 && (width != src.width || height != src.height)) ==> 16
        * src.width * height <= isize::MAX
}

/// Resamples `src` to `width` by `height` pixels with `image::imageops::resize`.
/// Claimed: the result has the requested size and three samples per pixel; its
/// samples are a function of the arguments (named [`resampled`]); at the same
/// size they are the source's samples, and from an empty source they are all
/// zero. What the filters compute otherwise is not stated here.
#[verifier::external_body]
pub(crate) fn resize_exact(src: &Raster, width: u32, height: u32, filter: ResizeFilter) -> (out: Raster)
    requires
        src.wf(),
        resample_fits(src, width, height),
    ensures
        out.width == width,
        out.height == height,
        out.wf(),
        out.data@ == resampled(src.width, src.height, src.data@, width, height, filter),
        width == src.width && height == src.height ==> out.data@ == src.data@,
        src.width == 0 || src.height == 0 ==> out.data@ == Seq::new((3 * width * height) as nat, |i: int| 0u8),
{
    let buf: image::RgbImage = image::ImageBuffer::from_raw(src.width, src.height, src.data.clone())
        .expect("three samples per pixel");
    let f = match filter {
        ResizeFilter::Nearest => image::imageops::FilterType::Nearest,
        ResizeFilter::Triangle => image::imageops::FilterType::Triangle,
    };
    let out = image::imageops::resize(&buf, width, height, f);
    Raster { width, height, data: out.into_raw() }
}

/// The gray level of pixel `i` of RGB samples `rgb`.
pub open spec fn pixel_gray(rgb: Seq<u8>, i: int) -> u8 {
    gray_level(rgb[3 * i], rgb[3 * i + 1], rgb[3 * i + 2])
}

/// The color of pixel `i` of RGB samples `rgb`.
pub open spec fn pixel_color(rgb: Seq<u8>, i: int) -> (u8, u8, u8) {
    (rgb[3 * i], rgb[3 * i + 1], rgb[3 * i + 2])
}

/// The gray levels of the first `n` pixels of RGB samples `rgb`.
pub open spec fn grays(rgb: Seq<u8>, n: nat) -> Seq<u8> {
    Seq::new(n, |i: int| pixel_gray(rgb, i))
}

/// The gray level of every pixel, in order.
pub fn gray_levels(img: &Raster) -> (g: Vec<u8>)
    requires
        img.wf(),
    ensures
        g@ == grays(img.data@, (img.width * img.height) as nat),
{
    let len = img.data.len();
    let n = len / 3;
    assert(n == img.width * img.height && img.data@.len() == 3 * n) by (nonlinear_arith)
        requires
            img.data@.len() == 3 * img.width * img.height,
            n == img.data@.len() / 3,
    ;
    let mut g: Vec<u8> = Vec::new();
    let mut i: usize = 0;
    while i < n
        invariant
            n == img.width * img.height,
            img.data@.len() == 3 * n,
            img.data@.len() == len,
            i <= n,
            g@ == grays(img.data@, i as nat),
        decreases n - i,
    {
        let l = rgb_to_luma(img.data[3 * i], img.data[3 * i + 1], img.data[3 * i + 2]);
        g.push(l);
        i = i + 1;
        assert(g@ =~= grays(img.data@, i as nat));
    }
    g
}

/// The gray level of each pixel is the ITU-R BT.709 luma of that pixel's own
/// three samples, rounded down: `(2126 r + 7152 g + 722 b) / 10000`, which is
/// never above 255.
pub proof fn law_gray_of_own_pixel(rgb: Seq<u8>, n: nat, i: int)
    requires
        0 <= i < n,
    ensures
        grays(rgb, n).len() == n,
        grays(rgb, n)[i] as int == (2126 * rgb[3 * i] + 7152 * rgb[3 * i + 1] + 722 * rgb[3 * i + 2]) / 10000,
{
    let r = rgb[3 * i];
    let g = rgb[3 * i + 1];
    let b = rgb[3 * i + 2];
    assert((2126 * r + 7152 * g + 722 * b) / 10000 <= 255) by (nonlinear_arith)
        requires
            r <= 255,
            g <= 255,
            b <= 255,
    ;
}

} // verus!
