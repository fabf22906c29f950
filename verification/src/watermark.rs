//! Where the watermark sits in an image, by Gemini's margin rules.

use vstd::prelude::*;

verus! {

/// Side length of the small watermark.
pub const SMALL_LOGO: u32 = 48;

/// Side length of the large watermark.
pub const LARGE_LOGO: u32 = 96;

/// A rectangle of the image, by its top-left corner and its size.
#[derive(Debug, Clone, Copy, PartialEq, Eq, Structural)]
pub struct Position {
    pub x: u32,
    pub y: u32,
    pub width: u32,
    pub height: u32,
}

/// The watermark side length that Gemini uses for an image of the given size.
pub open spec fn spec_watermark_size(width: int, height: int) -> u32 {
    if width > 1024 && height > 1024 {
        LARGE_LOGO
    } else {
        SMALL_LOGO
    }
}

/// The right and bottom margin that goes with a logo size.
pub open spec fn spec_margin(logo_size: int) -> int {
    if logo_size == 96 {
        64
    } else {
        32
    }
}

/// `a - b`, or 0 where that is negative.
pub open spec fn sat_sub(a: int, b: int) -> int {
    if a >= b {
        a - b
    } else {
        0
    }
}

/// The logo's rectangle: bottom-right, `spec_margin` away from both edges,
/// clamped at 0.
pub open spec fn spec_watermark_position(image_width: int, image_height: int, logo_size: u32) -> Position {
    Position {
        x: sat_sub(image_width, spec_margin(logo_size as int) + logo_size) as u32,
        y: sat_sub(image_height, spec_margin(logo_size as int) + logo_size) as u32,
        width: logo_size,
        height: logo_size,
    }
}

/// Picks the watermark size from the image size: 96 when both sides exceed 1024
/// pixels, 48 otherwise.
pub fn detect_watermark_size(width: u32, height: u32) -> (size: u32)
    ensures
        size == spec_watermark_size(width as int, height as int),
{
    if width > 1024 && height > 1024 {
        LARGE_LOGO
    } else {
        SMALL_LOGO
    }
}

/// Places a square logo of side `logo_size` at the bottom-right corner, leaving
/// the margin of its size (64 for the 96 logo, 32 otherwise); a coordinate that
/// would be negative is 0.
pub fn calculate_watermark_position(image_width: u32, image_height: u32, logo_size: u32) -> (pos:
    Position)
    requires
        spec_margin(logo_size as int) + logo_size <= u32::MAX,
    ensures
        pos == spec_watermark_position(image_width as int, image_height as int, logo_size),
{
    let margin: u32 = if logo_size == LARGE_LOGO {
        64
    } else {
        32
    };
    let span = margin + logo_size;
    Position {
        x: image_width.saturating_sub(span),
        y: image_height.saturating_sub(span),
        width: logo_size,
        height: logo_size,
    }
}


/// The watermark size to use: 48 when forced small, else 96 when forced large,
/// else the size that the image dimensions call for.
pub fn choose_watermark_size(force_small: bool, force_large: bool, width: u32, height: u32) -> (size:
    u32)
    ensures
        size == if force_small {
            SMALL_LOGO
        } else if force_large {
            LARGE_LOGO
        } else {
            spec_watermark_size(width as int, height as int)
        },
{
    if force_small {
        SMALL_LOGO
    } else if force_large {
        LARGE_LOGO
    } else {
        detect_watermark_size(width, height)
    }
}

/// `|a - b|`.
pub open spec fn abs_diff(a: int, b: int) -> int {
    if a >= b {
        a - b
    } else {
        b - a
    }
}

/// How far a detected watermark offset lies from the expected position, per
/// axis, with both coordinates read as 32-bit signed integers.
pub fn position_offset(detected: (u32, u32), expected: &Position) -> (offset: (u32, u32))
    requires
        i32::MIN <= (detected.0 as i32) - (expected.x as i32) <= i32::MAX,
        i32::MIN <= (detected.1 as i32) - (expected.y as i32) <= i32::MAX,
    ensures
        offset.0 == abs_diff(detected.0 as i32 as int, expected.x as i32 as int),
        offset.1 == abs_diff(detected.1 as i32 as int, expected.y as i32 as int),
{
    let dx: i64 = detected.0 as i32 as i64 - expected.x as i32 as i64;
    let dy: i64 = detected.1 as i32 as i64 - expected.y as i32 as i64;
    let ox: u32 = if dx >= 0 {
        dx as u32
    } else {
        (-dx) as u32
    };
    let oy: u32 = if dy >= 0 {
        dy as u32
    } else {
        (-dy) as u32
    };
    (ox, oy)
}

/// In an image with room for the logo and its margin, the logo ends exactly its
/// margin away from the right and bottom edges, and lies inside the image.
pub proof fn lemma_logo_keeps_margin(image_width: u32, image_height: u32, logo_size: u32)
    requires
        image_width >= spec_margin(logo_size as int) + logo_size,
        image_height >= spec_margin(logo_size as int) + logo_size,
    ensures
        ({
            let pos = spec_watermark_position(image_width as int, image_height as int, logo_size);
            &&& pos.x + pos.width + spec_margin(logo_size as int) == image_width
            &&& pos.y + pos.height + spec_margin(logo_size as int) == image_height
            &&& pos.x + pos.width <= image_width
            &&& pos.y + pos.height <= image_height
        }),
{
}

/// The size the image calls for always comes with its own margin: 64 for the
/// large logo and 32 for the small one.
pub proof fn lemma_size_and_margin(width: int, height: int)
    ensures
        spec_watermark_size(width, height) == LARGE_LOGO ==> spec_margin(
            spec_watermark_size(width, height) as int,
        ) == 64,
        spec_watermark_size(width, height) == SMALL_LOGO ==> spec_margin(
            spec_watermark_size(width, height) as int,
        ) == 32,
        spec_watermark_size(width, height) == LARGE_LOGO <==> (width > 1024 && height > 1024),
{
}
} // verus!
