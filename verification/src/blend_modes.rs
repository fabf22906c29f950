//! Reverse alpha blending: recovering the pixels under a semi-transparent white logo.
//!
//! Gemini draws its logo as `watermarked = alpha * 255 + (1 - alpha) * underlying`.
//! An alpha map gives `alpha` per logo pixel as a level `0..=255` standing for
//! `level / 255`. Solving for the underlying value gives
//! `underlying = (watermarked - alpha * 255) / (1 - alpha)`, which is computed here
//! exactly, with alpha capped at 0.99 so the division stays away from zero and
//! levels of 0 left alone as noise.

use crate::raster::RgbaRaster;
pub use crate::watermark::Position;
use crate::watermark::abs_diff;
use vstd::prelude::*;

verus! {

/// `v` limited to the range of a byte.
pub open spec fn clamp_byte(v: int) -> int {
    if v < 0 {
        0
    } else if v > 255 {
        255
    } else {
        v
    }
}

/// The alpha used for a level, as `(numerator, denominator)`: `level / 255`,
/// capped at `99 / 100`.
pub open spec fn effective_alpha(level: int) -> (int, int) {
    if 100 * level > 99 * 255 {
        (99, 100)
    } else {
        (level, 255)
    }
}

/// The underlying channel value recovered from the watermarked value `w` under
/// alpha level `level`: `(w - alpha * 255) / (1 - alpha)`, rounded down and
/// limited to `0..=255`.
pub open spec fn restored_channel(w: int, level: int) -> int {
    let (an, ad) = effective_alpha(level);
    clamp_byte((w * ad - 255 * an) / (ad - an))
}

/// Recovers one channel value from its watermarked value and the alpha level.
pub fn restore_channel(watermarked: u8, level: u8) -> (underlying: u8)
    ensures
        underlying == restored_channel(watermarked as int, level as int),
{
    let (an, ad): (i32, i32) = if 100 * (level as i32) > 99 * 255 {
        (99, 100)
    } else {
        (level as i32, 255)
    };
    let num: i32 = watermarked as i32 * ad - 255 * an;
    let den: i32 = ad - an;
    if num < 0 {
        assert(num / den < 0) by (nonlinear_arith)
            requires
                num < 0,
                den > 0,
        ;
        0
    } else {
        let q = num / den;
        if q > 255 {
            255
        } else {
            q as u8
        }
    }
}

/// Pixel `(px, py)` lies in the rectangle.
pub open spec fn in_box(pos: Position, px: int, py: int) -> bool {
    pos.x <= px < pos.x + pos.width && pos.y <= py < pos.y + pos.height
}

/// Where pixel `(px, py)` of the rectangle is in a row-major alpha map of the
/// rectangle's width.
pub open spec fn box_index(pos: Position, px: int, py: int) -> int {
    (py - pos.y) * pos.width + (px - pos.x)
}

/// Channel `c` of pixel `(px, py)` after the watermark is removed: the colour
/// channels of pixels in the rectangle with a nonzero alpha level are restored,
/// everything else stays.
pub open spec fn cleaned_channel(
    img: RgbaRaster,
    alpha_map: Seq<u8>,
    pos: Position,
    px: int,
    py: int,
    c: int,
) -> int {
    if c < 3 && in_box(pos, px, py) && alpha_map[box_index(pos, px, py)] != 0 {
        restored_channel(img.channel(px, py, c) as int, alpha_map[box_index(pos, px, py)] as int)
    } else {
        img.channel(px, py, c) as int
    }
}

/// Every pixel of the rectangle that lies inside the image has an alpha level,
/// and its index into the map fits in 32 bits.
pub open spec fn alpha_map_covers(
    img: RgbaRaster,
    alpha_map: Seq<u8>,
    pos: Position,
) -> bool {
    forall|px: int, py: int|
        0 <= px < img.width && 0 <= py < img.height && in_box(pos, px, py) ==> 0 <= #[trigger] box_index(
            pos,
            px,
            py,
        ) < alpha_map.len() && box_index(pos, px, py) <= u32::MAX
}

/// Removes the watermark in the rectangle `position` by reverse alpha blending,
/// with `alpha_map` holding the alpha level of each rectangle pixel row by row.
/// Parts of the rectangle outside the image are skipped; the alpha channel and all
/// pixels outside the rectangle are left as they are.
pub fn remove_watermark(img: &mut RgbaRaster, alpha_map: &[u8], position: &Position)
    requires
        old(img).wf(),
        position.width > 0 && position.height > 0 ==> {
            &&& position.x + position.width - 1 <= u32::MAX
            &&& position.y + position.height - 1 <= u32::MAX
        },
        alpha_map_covers(*old(img), alpha_map@, *position),
    ensures
        final(img).width == old(img).width,
        final(img).height == old(img).height,
        final(img).wf(),
        forall|px: int, py: int, c: int|
            0 <= px < old(img).width && 0 <= py < old(img).height && 0 <= c < 4
                ==> #[trigger] final(img).channel(px, py, c) == cleaned_channel(
                *old(img),
                alpha_map@,
                *position,
                px,
                py,
                c,
            ),
{
    let ghost orig = *img;
    let img_width = img.width;
    let img_height = img.height;
    let pos = *position;
    for row in 0..pos.height
        invariant
            img.width == orig.width,
            img.height == orig.height,
            img.wf(),
            img_width == orig.width,
            img_height == orig.height,
            pos == *position,
            pos.width > 0 && pos.height > 0 ==> {
                &&& pos.x + pos.width - 1 <= u32::MAX
                &&& pos.y + pos.height - 1 <= u32::MAX
            },
            alpha_map_covers(orig, alpha_map@, pos),
            forall|px: int, py: int, c: int|
                0 <= px < orig.width && 0 <= py < orig.height && 0 <= c < 4 ==> #[trigger] img.channel(
                    px,
                    py,
                    c,
                ) == if in_box(pos, px, py) && py - pos.y < row {
                    cleaned_channel(orig, alpha_map@, pos, px, py, c)
                } else {
                    orig.channel(px, py, c) as int
                },
    {
        for col in 0..pos.width
            invariant
                img.width == orig.width,
                img.height == orig.height,
                img.wf(),
                img_width == orig.width,
                img_height == orig.height,
                pos == *position,
                row < pos.height,
                pos.width > 0 ==> pos.x + pos.width - 1 <= u32::MAX,
                pos.width > 0 ==> pos.y + pos.height - 1 <= u32::MAX,
                alpha_map_covers(orig, alpha_map@, pos),
                forall|px: int, py: int, c: int|
                    0 <= px < orig.width && 0 <= py < orig.height && 0 <= c < 4
                        ==> #[trigger] img.channel(px, py, c) == if in_box(pos, px, py) && (py
                        - pos.y < row || (py - pos.y == row && px - pos.x < col)) {
                        cleaned_channel(orig, alpha_map@, pos, px, py, c)
                    } else {
                        orig.channel(px, py, c) as int
                    },
        {
            let img_x = pos.x + col;
            let img_y = pos.y + row;
            if img_x < img_width && img_y < img_height {
                proof {
                    assert(in_box(pos, img_x as int, img_y as int));
                    assert(box_index(pos, img_x as int, img_y as int) == row * pos.width + col);
                }
                let alpha_idx = row * pos.width + col;
                let level = alpha_map[alpha_idx as usize];
                if level != 0 {
                    let ghost before = *img;
                    for c in 0..3u32
                        invariant
                            img.width == orig.width,
                            img.height == orig.height,
                            img.wf(),
                            img_x < orig.width,
                            img_y < orig.height,
                            forall|px: int, py: int, ch: int|
                                0 <= px < orig.width && 0 <= py < orig.height && 0 <= ch < 4
                                    ==> #[trigger] img.channel(px, py, ch) == if px == img_x && py
                                    == img_y && ch < c {
                                    restored_channel(before.channel(px, py, ch) as int, level as int)
                                } else {
                                    before.channel(px, py, ch) as int
                                },
                    {
                        let w = img.get_channel(img_x, img_y, c);
                        let v = restore_channel(w, level);
                        img.set_channel(img_x, img_y, c, v);
                    }
                }
            }
        }
    }
}


/// Restoring a value that is exactly the blend of `p` under alpha level `level`
/// gives `p` back, for every level that is not capped (1 to 252).
pub proof fn lemma_restore_inverts_blend(p: int, level: int, w: int)
    requires
        0 <= p <= 255,
        1 <= level <= 252,
        255 * w == 255 * level + (255 - level) * p,
    ensures
        restored_channel(w, level) == p,
{
    assert(effective_alpha(level) == (level, 255int));
    assert(w * 255 - 255 * level == (255 - level) * p) by (nonlinear_arith)
        requires
            255 * w == 255 * level + (255 - level) * p,
    ;
    vstd::arithmetic::div_mod::lemma_div_multiples_vanish(p, 255 - level);
    vstd::arithmetic::mul::lemma_mul_is_commutative(p, 255 - level);
}

/// Restoring a blend that was rounded down never gives more than the underlying
/// value, for every level that is not capped (1 to 252).
pub proof fn lemma_restore_never_overshoots(p: int, level: int, w: int)
    requires
        0 <= p <= 255,
        1 <= level <= 252,
        255 * w <= 255 * level + (255 - level) * p,
    ensures
        restored_channel(w, level) <= p,
{
    assert(effective_alpha(level) == (level, 255int));
    let d = 255 - level;
    assert(w * 255 - 255 * level <= d * p) by (nonlinear_arith)
        requires
            255 * w <= 255 * level + (255 - level) * p,
            d == 255 - level,
    ;
    vstd::arithmetic::div_mod::lemma_div_is_ordered(w * 255 - 255 * level, d * p, d);
    vstd::arithmetic::div_mod::lemma_div_multiples_vanish(p, d);
}

/// A larger watermarked value never restores to a smaller one.
pub proof fn lemma_restore_monotone(w1: int, w2: int, level: int)
    requires
        0 <= level <= 255,
        w1 <= w2,
    ensures
        restored_channel(w1, level) <= restored_channel(w2, level),
{
    let (an, ad) = effective_alpha(level);
    assert(w1 * ad - 255 * an <= w2 * ad - 255 * an) by (nonlinear_arith)
        requires
            w1 <= w2,
            ad > 0,
    ;
    vstd::arithmetic::div_mod::lemma_div_is_ordered(w1 * ad - 255 * an, w2 * ad - 255 * an, ad - an);
}

/// Restoring a blend that was rounded to the nearest integer recovers the
/// underlying value to within `1 + 0.5 / (1 - alpha)`, for every level that is
/// not capped (1 to 252): with `d = 255 - level` (so `1 - alpha = d / 255`),
/// `2 * d * |restored - p| <= 2 * d + 255`.
pub proof fn lemma_restore_rounded_blend(p: int, level: int, w: int)
    requires
        0 <= p <= 255,
        1 <= level <= 252,
        2 * abs_diff(255 * w, 255 * level + (255 - level) * p) <= 255,
    ensures
        2 * (255 - level) * abs_diff(restored_channel(w, level), p) <= 2 * (255 - level) + 255,
{
    assert(effective_alpha(level) == (level, 255int));
    let d = 255 - level;
    let n = w * 255 - 255 * level;
    let delta = 255 * w - (255 * level + d * p);
    assert(n == d * p + delta);
    assert(-127 <= delta <= 127);
    let q = n / d;
    vstd::arithmetic::div_mod::lemma_fundamental_div_mod(n, d);
    let r = n % d;
    assert(n == d * q + r && 0 <= r < d);
    assert(d * abs_diff(q, p) <= d + 127) by (nonlinear_arith)
        requires
            n == d * q + r,
            0 <= r < d,
            n == d * p + delta,
            -127 <= delta <= 127,
            d > 0,
    {
        if q >= p {
            assert(d * (q - p) == d * q - d * p);
            assert(d * (q - p) <= 127);
        } else {
            assert(d * (p - q) == d * p - d * q);
            assert(d * (p - q) < d + 127);
        }
    }
    let c = clamp_byte(q);
    assert(restored_channel(w, level) == c);
    assert(abs_diff(c, p) <= abs_diff(q, p));
    assert(2 * d * abs_diff(c, p) <= 2 * d + 255) by (nonlinear_arith)
        requires
            d * abs_diff(q, p) <= d + 127,
            0 <= abs_diff(c, p) <= abs_diff(q, p),
            d > 0,
    {
        assert(d * abs_diff(c, p) <= d * abs_diff(q, p));
    }
}

/// Removal undoes blending rounded to the nearest integer: where a colour
/// channel of `img` is the blend of the channel of `underlying` under an
/// uncapped alpha level (1 to 252), rounded to nearest, the cleaned channel is
/// within `1 + 0.5 / (1 - alpha)` of the underlying one.
pub proof fn lemma_removal_recovers_rounded_blend(
    img: RgbaRaster,
    underlying: RgbaRaster,
    alpha_map: Seq<u8>,
    pos: Position,
    px: int,
    py: int,
    c: int,
)
    requires
        0 <= c < 3,
        in_box(pos, px, py),
        0 <= box_index(pos, px, py) < alpha_map.len(),
        1 <= alpha_map[box_index(pos, px, py)] <= 252,
        2 * abs_diff(
            255 * img.channel(px, py, c),
            255 * alpha_map[box_index(pos, px, py)] + (255 - alpha_map[box_index(pos, px, py)])
                * underlying.channel(px, py, c),
        ) <= 255,
    ensures
        ({
            let d = 255 - alpha_map[box_index(pos, px, py)];
            2 * d * abs_diff(
                cleaned_channel(img, alpha_map, pos, px, py, c),
                underlying.channel(px, py, c) as int,
            ) <= 2 * d + 255
        }),
{
    lemma_restore_rounded_blend(
        underlying.channel(px, py, c) as int,
        alpha_map[box_index(pos, px, py)] as int,
        img.channel(px, py, c) as int,
    );
}

/// Cleaning changes only the colour channels of pixels inside the rectangle
/// whose alpha level (the map entry at row `py - y`, column `px - x`) is not
/// zero, and restores exactly those from their watermarked value.
pub proof fn lemma_cleaning_scope(
    img: RgbaRaster,
    alpha_map: Seq<u8>,
    pos: Position,
    px: int,
    py: int,
    c: int,
)
    ensures
        c == 3 || !(pos.x <= px < pos.x + pos.width && pos.y <= py < pos.y + pos.height)
            ==> cleaned_channel(img, alpha_map, pos, px, py, c) == img.channel(px, py, c),
        pos.x <= px < pos.x + pos.width && pos.y <= py < pos.y + pos.height && alpha_map[(py
            - pos.y) * pos.width + (px - pos.x)] == 0 ==> cleaned_channel(
            img,
            alpha_map,
            pos,
            px,
            py,
            c,
        ) == img.channel(px, py, c),
        0 <= c < 3 && pos.x <= px < pos.x + pos.width && pos.y <= py < pos.y + pos.height
            && alpha_map[(py - pos.y) * pos.width + (px - pos.x)] != 0 ==> cleaned_channel(
            img,
            alpha_map,
            pos,
            px,
            py,
            c,
        ) == restored_channel(
            img.channel(px, py, c) as int,
            alpha_map[(py - pos.y) * pos.width + (px - pos.x)] as int,
        ),
{
}
} // verus!
