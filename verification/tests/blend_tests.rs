use gemini_watermark_remover::blend_modes::{remove_watermark, restore_channel};
use gemini_watermark_remover::raster::RgbaRaster;
use gemini_watermark_remover::watermark::Position;

fn blend(underlying: u32, level: u32) -> u8 {
    // alpha * 255 + (1 - alpha) * underlying with alpha = level / 255, exact here
    ((255 * level + (255 - level) * underlying) / 255) as u8
}

#[test]
fn restoring_an_exact_blend_gives_the_underlying_value_back() {
    assert_eq!(blend(100, 51), 131);
    assert_eq!(restore_channel(131, 51), 100);
    assert_eq!(restore_channel(blend(0, 85), 85), 0);
    assert_eq!(restore_channel(blend(255, 85), 85), 255);
}

#[test]
fn level_zero_restores_the_value_itself() {
    assert_eq!(restore_channel(0, 0), 0);
    assert_eq!(restore_channel(77, 0), 77);
    assert_eq!(restore_channel(255, 0), 255);
}

#[test]
fn restoration_rounds_down() {
    // (200 - 128) / (1 - 128/255) = 144.57
    assert_eq!(restore_channel(200, 128), 144);
    // (2 - 1) / (1 - 1/255) = 1.0039
    assert_eq!(restore_channel(2, 1), 1);
}

#[test]
fn values_below_the_logo_clamp_to_zero() {
    assert_eq!(restore_channel(100, 200), 0);
    assert_eq!(restore_channel(1, 1), 0);
}

#[test]
fn alpha_is_capped_at_99_percent() {
    // alpha 0.99: underlying = (w - 252.45) / 0.01
    assert_eq!(restore_channel(255, 255), 255);
    assert_eq!(restore_channel(254, 253), 155);
    assert_eq!(restore_channel(253, 254), 55);
    assert_eq!(restore_channel(252, 255), 0);
    // 252 is the last level that is not capped: (253 - 252) / (3 / 255) = 85
    assert_eq!(restore_channel(253, 252), 85);
}

fn image(width: u32, height: u32, fill: [u8; 4]) -> RgbaRaster {
    let mut data = Vec::new();
    for _ in 0..width * height {
        data.extend_from_slice(&fill);
    }
    RgbaRaster { width, height, data }
}

fn pixel(img: &RgbaRaster, x: u32, y: u32) -> [u8; 4] {
    let i = ((y * img.width + x) * 4) as usize;
    [img.data[i], img.data[i + 1], img.data[i + 2], img.data[i + 3]]
}

#[test]
fn removal_touches_only_the_box_and_nonzero_levels() {
    let mut img = image(4, 4, [131, 200, 255, 77]);
    let before = img.clone();
    let position = Position { x: 1, y: 1, width: 2, height: 2 };
    let alpha = [0u8, 51, 255, 128];
    remove_watermark(&mut img, &alpha, &position);
    assert_eq!(img.width, 4);
    assert_eq!(img.height, 4);
    assert_eq!(img.data.len(), before.data.len());
    // level 0 at (1, 1): untouched
    assert_eq!(pixel(&img, 1, 1), [131, 200, 255, 77]);
    // level 51 at (2, 1)
    assert_eq!(
        pixel(&img, 2, 1),
        [restore_channel(131, 51), restore_channel(200, 51), restore_channel(255, 51), 77]
    );
    assert_eq!(pixel(&img, 2, 1), [100, 186, 255, 77]);
    // level 255 at (1, 2): alpha capped at 0.99
    assert_eq!(pixel(&img, 1, 2), [0, 0, 255, 77]);
    // level 128 at (2, 2)
    assert_eq!(pixel(&img, 2, 2), [6, 144, 255, 77]);
    for y in 0..4 {
        for x in 0..4 {
            if !(1..3).contains(&x) || !(1..3).contains(&y) {
                assert_eq!(pixel(&img, x, y), pixel(&before, x, y));
            }
        }
    }
}

#[test]
fn parts_of_the_box_outside_the_image_are_skipped() {
    let mut img = image(3, 3, [131, 131, 131, 255]);
    let position = Position { x: 2, y: 2, width: 2, height: 2 };
    // only (2, 2) lies inside; it uses the first level of the map
    let alpha = [51u8, 255, 255, 255];
    remove_watermark(&mut img, &alpha, &position);
    assert_eq!(pixel(&img, 2, 2), [100, 100, 100, 255]);
    assert_eq!(pixel(&img, 1, 1), [131, 131, 131, 255]);
    assert_eq!(pixel(&img, 2, 1), [131, 131, 131, 255]);
}

#[test]
fn empty_box_changes_nothing() {
    let mut img = image(2, 2, [10, 20, 30, 40]);
    let before = img.clone();
    remove_watermark(&mut img, &[], &Position { x: 0, y: 0, width: 0, height: 0 });
    assert_eq!(img, before);
}

#[test]
fn restoring_a_rounded_down_blend_never_overshoots() {
    // exact blend of 100 under level 50 is 130.39, stored as 130
    assert_eq!(blend(100, 50), 130);
    assert_eq!(restore_channel(130, 50), 99);
    for level in 1..=252u32 {
        for p in 0..=255u32 {
            let w = blend(p, level);
            assert!(u32::from(restore_channel(w, level as u8)) <= p);
        }
    }
}

#[test]
fn exact_blends_restore_exactly_for_all_uncapped_levels() {
    for level in 1..=252u32 {
        for p in 0..=255u32 {
            if (255 * level + (255 - level) * p) % 255 == 0 {
                assert_eq!(u32::from(restore_channel(blend(p, level), level as u8)), p);
            }
        }
    }
}

#[test]
fn restoration_is_monotone_in_the_watermarked_value() {
    for level in 0..=255u8 {
        for w in 0..255u8 {
            assert!(restore_channel(w, level) <= restore_channel(w + 1, level));
        }
    }
}

#[test]
fn restoring_a_blend_rounded_to_nearest_stays_close() {
    // |restored - p| <= 1 + 0.5 / (1 - alpha) for every uncapped level
    for level in 1..=252u32 {
        let d = 255 - level;
        for p in 0..=255u32 {
            let exact2 = 2 * (255 * level + d * p); // twice 255 * blend
            let w = (exact2 + 255) / 510; // blend rounded to nearest
            let r = u32::from(restore_channel(w as u8, level as u8));
            let diff = if r > p { r - p } else { p - r };
            assert!(2 * d * diff <= 2 * d + 255, "level {} p {} w {} r {}", level, p, w, r);
        }
    }
}
