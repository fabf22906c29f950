//! Alpha maps: the per-pixel opacity of the watermark logo, as levels `0..=255`
//! standing for `level / 255`.

use crate::raster::RgbaRaster;
use vstd::prelude::*;

verus! {

/// The largest of three channel values.
pub open spec fn max_channel(r: u8, g: u8, b: u8) -> u8 {
    if r >= g && r >= b {
        r
    } else if g >= b {
        g
    } else {
        b
    }
}

/// The level is the largest colour channel: at least each of the three, and one
/// of them.
pub proof fn lemma_max_channel_is_maximum(r: u8, g: u8, b: u8)
    ensures
        max_channel(r, g, b) >= r,
        max_channel(r, g, b) >= g,
        max_channel(r, g, b) >= b,
        max_channel(r, g, b) == r || max_channel(r, g, b) == g || max_channel(r, g, b) == b,
{
}

/// The file that holds the calibrated alpha map of a logo size: `bg_48.png` for
/// 48 and `bg_96.png` for 96; no other size has one.
pub fn alpha_map_file(size: u32) -> (file: Option<&'static str>)
    ensures
        size == 48 ==> (file matches Some(f) && f@ == "bg_48.png"@),
        size == 96 ==> (file matches Some(f) && f@ == "bg_96.png"@),
        size != 48 && size != 96 ==> file is None,
{
    if size == 48 {
        Some("bg_48.png")
    } else if size == 96 {
        Some("bg_96.png")
    } else {
        None
    }
}

/// The alpha map read from a calibration image of side `size`: each pixel's
/// level is its largest colour channel.
pub fn alpha_map_from_rgba(image: &RgbaRaster, size: u32) -> (alpha: Vec<u8>)
    requires
        image.wf(),
        image.width == size,
        image.height == size,
        size * size <= u32::MAX,
    ensures
        alpha.len() == size * size,
        forall|i: int|
            0 <= i < alpha.len() ==> #[trigger] alpha@[i] == max_channel(
                image.data@[4 * i],
                image.data@[4 * i + 1],
                image.data@[4 * i + 2],
            ),
        forall|i: int|
            0 <= i < alpha.len() ==> {
                &&& #[trigger] alpha@[i] >= image.data@[4 * i]
                &&& alpha@[i] >= image.data@[4 * i + 1]
                &&& alpha@[i] >= image.data@[4 * i + 2]
                &&& (alpha@[i] == image.data@[4 * i] || alpha@[i] == image.data@[4 * i + 1]
                    || alpha@[i] == image.data@[4 * i + 2])
            },
{
    let n = (size * size) as usize;
    let mut alpha: Vec<u8> = Vec::new();
    for i in 0..n
        invariant
            n == size * size,
            image.data.len() == n * 4,
            alpha.len() == i,
            forall|j: int|
                0 <= j < i ==> #[trigger] alpha@[j] == max_channel(
                    image.data@[4 * j],
                    image.data@[4 * j + 1],
                    image.data@[4 * j + 2],
                ),
    {
        let r = image.data[4 * i];
        let g = image.data[4 * i + 1];
        let b = image.data[4 * i + 2];
        let level = if r >= g && r >= b {
            r
        } else if g >= b {
            g
        } else {
            b
        };
        alpha.push(level);
    }
    alpha
}

} // verus!
