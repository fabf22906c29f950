//! Pixel buffers: the plain values that the image operations work on.

use vstd::arithmetic::mul::*;
use vstd::prelude::*;

verus! {

/// An 8-bit grayscale image, row by row.
#[derive(Debug, Clone, PartialEq, Eq)]
pub struct GrayRaster {
    pub width: u32,
    pub height: u32,
    pub data: Vec<u8>,
}

/// An 8-bit RGBA image, row by row, four bytes per pixel.
#[derive(Debug, Clone, PartialEq, Eq)]
pub struct RgbaRaster {
    pub width: u32,
    pub height: u32,
    pub data: Vec<u8>,
}

/// Index of pixel `(x, y)` in a row-major buffer of the given width.
pub open spec fn pixel_index(width: int, x: int, y: int) -> int {
    y * width + x
}

/// A pixel index inside a `width` by `height` buffer stays below `width * height`.
pub proof fn lemma_pixel_index_bound(width: int, height: int, x: int, y: int)
    requires
        0 <= x < width,
        0 <= y < height,
    ensures
        0 <= pixel_index(width, x, y) < width * height,
        pixel_index(width, x, y) + 1 <= width * height,
{
    lemma_mul_nonnegative(y, width);
    lemma_mul_is_distributive_add_other_way(width, y, 1);
    lemma_mul_inequality(y + 1, height, width);
}

impl GrayRaster {
    /// The buffer holds exactly one byte per pixel.
    pub open spec fn wf(&self) -> bool {
        self.data.len() == self.width * self.height
    }

    /// The gray value of pixel `(x, y)`.
    pub open spec fn at(&self, x: int, y: int) -> u8 {
        self.data@[pixel_index(self.width as int, x, y)]
    }

    /// The gray value of pixel `(x, y)`.
    pub fn get_pixel(&self, x: u32, y: u32) -> (v: u8)
        requires
            self.wf(),
            x < self.width,
            y < self.height,
        ensures
            v == self.at(x as int, y as int),
    {
        proof {
            lemma_pixel_index_bound(self.width as int, self.height as int, x as int, y as int);
        }
        self.data[y as usize * self.width as usize + x as usize]
    }
}

impl RgbaRaster {
    /// The buffer holds exactly four bytes per pixel.
    pub open spec fn wf(&self) -> bool {
        self.data.len() == self.width * self.height * 4
    }

    /// Channel `c` (0 red, 1 green, 2 blue, 3 alpha) of pixel `(x, y)`.
    pub open spec fn channel(&self, x: int, y: int, c: int) -> u8 {
        self.data@[pixel_index(self.width as int, x, y) * 4 + c]
    }
}

/// Where channel `c` of pixel `(x, y)` lies in an RGBA buffer.
pub proof fn lemma_channel_index_bound(width: int, height: int, x: int, y: int, c: int)
    requires
        0 <= x < width,
        0 <= y < height,
        0 <= c < 4,
    ensures
        0 <= pixel_index(width, x, y) * 4 + c < width * height * 4,
{
    lemma_pixel_index_bound(width, height, x, y);
    lemma_mul_inequality(pixel_index(width, x, y) + 1, width * height, 4);
    lemma_mul_is_distributive_add_other_way(4, pixel_index(width, x, y), 1);
}


/// Distinct channels of distinct pixels lie at distinct places of an RGBA buffer.
pub proof fn lemma_channel_index_injective(
    width: int,
    height: int,
    x1: int,
    y1: int,
    c1: int,
    x2: int,
    y2: int,
    c2: int,
)
    requires
        0 <= x1 < width,
        0 <= y1 < height,
        0 <= c1 < 4,
        0 <= x2 < width,
        0 <= y2 < height,
        0 <= c2 < 4,
        pixel_index(width, x1, y1) * 4 + c1 == pixel_index(width, x2, y2) * 4 + c2,
    ensures
        x1 == x2,
        y1 == y2,
        c1 == c2,
{
    let i = pixel_index(width, x1, y1) * 4 + c1;
    lemma_pixel_index_bound(width, height, x1, y1);
    lemma_pixel_index_bound(width, height, x2, y2);
    vstd::arithmetic::div_mod::lemma_fundamental_div_mod_converse(i, 4, pixel_index(width, x1, y1), c1);
    vstd::arithmetic::div_mod::lemma_fundamental_div_mod_converse(i, 4, pixel_index(width, x2, y2), c2);
    let p = pixel_index(width, x1, y1);
    vstd::arithmetic::div_mod::lemma_fundamental_div_mod_converse(p, width, y1, x1);
    vstd::arithmetic::div_mod::lemma_fundamental_div_mod_converse(p, width, y2, x2);
}

impl RgbaRaster {
    /// Sets channel `c` of pixel `(x, y)`.
    pub fn set_channel(&mut self, x: u32, y: u32, c: u32, v: u8)
        requires
            old(self).wf(),
            x < old(self).width,
            y < old(self).height,
            c < 4,
        ensures
            final(self).width == old(self).width,
            final(self).height == old(self).height,
            final(self).wf(),
            forall|qx: int, qy: int, qc: int|
                0 <= qx < old(self).width && 0 <= qy < old(self).height && 0 <= qc < 4
                    ==> #[trigger] final(self).channel(qx, qy, qc) == if qx == x && qy == y && qc
                    == c {
                    v
                } else {
                    old(self).channel(qx, qy, qc)
                },
    {
        proof {
            lemma_channel_index_bound(self.width as int, self.height as int, x as int, y as int, c as int);
        }
        let i = (y as usize * self.width as usize + x as usize) * 4 + c as usize;
        self.data.set(i, v);
        proof {
            assert forall|qx: int, qy: int, qc: int|
                0 <= qx < old(self).width && 0 <= qy < old(self).height && 0 <= qc < 4
                    implies #[trigger] self.channel(qx, qy, qc) == if qx == x && qy == y && qc
                    == c {
                    v
                } else {
                    old(self).channel(qx, qy, qc)
                } by {
                lemma_channel_index_bound(self.width as int, self.height as int, qx, qy, qc);
                if pixel_index(self.width as int, qx, qy) * 4 + qc == i {
                    lemma_channel_index_injective(
                        self.width as int,
                        self.height as int,
                        qx,
                        qy,
                        qc,
                        x as int,
                        y as int,
                        c as int,
                    );
                }
            }
        }
    }

    /// Channel `c` of pixel `(x, y)`.
    pub fn get_channel(&self, x: u32, y: u32, c: u32) -> (v: u8)
        requires
            self.wf(),
            x < self.width,
            y < self.height,
            c < 4,
        ensures
            v == self.channel(x as int, y as int, c as int),
    {
        proof {
            lemma_channel_index_bound(self.width as int, self.height as int, x as int, y as int, c as int);
        }
        self.data[(y as usize * self.width as usize + x as usize) * 4 + c as usize]
    }
}

/// The grayscale buffer that the `image` crate makes of an RGBA buffer of the
/// given size.
pub uninterp spec fn spec_luma_of_rgba(width: u32, height: u32, data: Seq<u8>) -> Seq<u8>;

/// Calls `image::DynamicImage::to_luma8` on the RGBA8 image made of `data`
/// (`image::RgbaImage::from_raw`, which accepts a buffer of exactly
/// `width * height * 4` bytes). Trusted: the result is named by
/// `spec_luma_of_rgba` of the size and the bytes, and has one byte per pixel,
/// as the crate's conversion maps each pixel to one luma pixel. How each gray
/// value is computed (the crate's colour-space conversion) is not stated.
#[verifier::external_body]
fn luma_of_rgba(width: u32, height: u32, data: &Vec<u8>) -> (luma: Vec<u8>)
    requires
        data.len() == width * height * 4,
    ensures
        luma@ == spec_luma_of_rgba(width, height, data@),
        luma.len() == width * height,
{
    let buffer = image::RgbaImage::from_raw(width, height, data.clone()).unwrap();
    image::DynamicImage::ImageRgba8(buffer).to_luma8().into_raw()
}

impl RgbaRaster {
    /// The grayscale version of the image, as the `image` crate computes it.
    pub fn to_luma8(&self) -> (gray: GrayRaster)
        requires
            self.wf(),
        ensures
            gray.wf(),
            gray.width == self.width,
            gray.height == self.height,
            gray.data@ == spec_luma_of_rgba(self.width, self.height, self.data@),
    {
        let data = luma_of_rgba(self.width, self.height, &self.data);
        GrayRaster { width: self.width, height: self.height, data }
    }
}

impl RgbaRaster {
    /// A `width` by `height` image with every channel 0.
    pub fn new(width: u32, height: u32) -> (img: RgbaRaster)
        requires
            width * height * 4 <= usize::MAX,
        ensures
            img.wf(),
            img.width == width,
            img.height == height,
            forall|i: int| 0 <= i < img.data.len() ==> img.data@[i] == 0,
    {
        let n = width as usize * height as usize * 4;
        let data = vec![0u8; n];
        RgbaRaster { width, height, data }
    }
}
} // verus!
