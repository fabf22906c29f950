use gemini_watermark_remover::watermark::{
    calculate_watermark_position, choose_watermark_size, detect_watermark_size, position_offset,
    Position,
};

#[test]
fn large_logo_only_when_both_sides_exceed_1024() {
    assert_eq!(detect_watermark_size(1025, 1025), 96);
    assert_eq!(detect_watermark_size(2048, 1536), 96);
    assert_eq!(detect_watermark_size(1024, 2000), 48);
    assert_eq!(detect_watermark_size(2000, 1024), 48);
    assert_eq!(detect_watermark_size(1024, 1024), 48);
    assert_eq!(detect_watermark_size(0, 0), 48);
}

#[test]
fn small_logo_sits_32_pixels_from_the_corner() {
    let pos = calculate_watermark_position(1920, 1080, 48);
    assert_eq!(pos, Position { x: 1840, y: 1000, width: 48, height: 48 });
    assert_eq!(pos.x + pos.width + 32, 1920);
    assert_eq!(pos.y + pos.height + 32, 1080);
}

#[test]
fn large_logo_sits_64_pixels_from_the_corner() {
    let pos = calculate_watermark_position(2048, 2048, 96);
    assert_eq!(pos, Position { x: 1888, y: 1888, width: 96, height: 96 });
    assert_eq!(pos.x + pos.width + 64, 2048);
}

#[test]
fn position_is_clamped_at_zero_in_tiny_images() {
    let pos = calculate_watermark_position(50, 100, 48);
    assert_eq!(pos, Position { x: 0, y: 20, width: 48, height: 48 });
    let pos = calculate_watermark_position(0, 0, 96);
    assert_eq!(pos, Position { x: 0, y: 0, width: 96, height: 96 });
}

#[test]
fn forced_sizes_override_detection() {
    assert_eq!(choose_watermark_size(true, false, 4000, 4000), 48);
    assert_eq!(choose_watermark_size(false, true, 100, 100), 96);
    assert_eq!(choose_watermark_size(true, true, 100, 100), 48);
    assert_eq!(choose_watermark_size(false, false, 4000, 4000), 96);
    assert_eq!(choose_watermark_size(false, false, 400, 4000), 48);
}

#[test]
fn offset_is_the_distance_per_axis() {
    let expected = Position { x: 15, y: 5, width: 48, height: 48 };
    assert_eq!(position_offset((10, 20), &expected), (5, 15));
    assert_eq!(position_offset((15, 5), &expected), (0, 0));
}

#[test]
fn offset_reads_coordinates_as_signed() {
    let expected = Position { x: 2_999_999_990, y: 0, width: 48, height: 48 };
    assert_eq!(position_offset((3_000_000_000, 7), &expected), (10, 7));
}
