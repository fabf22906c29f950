use gemini_watermark_remover::alpha_map::{alpha_map_file, alpha_map_from_rgba};
use gemini_watermark_remover::batch::{
    choose_run_mode, comparison_path_beside, comparison_path_in_parent, compose_comparison,
    generate_output_path, single_output_path, summarize_results, BatchConfig, ProcessResult,
    RunMode,
};
use gemini_watermark_remover::ncc::NccScore;
use gemini_watermark_remover::blend_modes::restore_channel;
use gemini_watermark_remover::raster::RgbaRaster;
use gemini_watermark_remover::watermark::Position;

#[test]
fn default_batch_config_is_parallel_and_quiet() {
    let config = BatchConfig::default();
    assert_eq!(config.output_dir, None);
    assert!(!config.compare);
    assert!(!config.verbose);
    assert!(config.parallel);
}

#[test]
fn cleaned_image_goes_beside_its_input() {
    assert_eq!(generate_output_path("/tmp/a/photo.jpg", &None), "/tmp/a/photo_clean.jpg");
    assert_eq!(generate_output_path("photo.webp", &None), "photo_clean.webp");
    assert_eq!(generate_output_path("noext", &None), "noext_clean.");
}

#[test]
fn cleaned_image_goes_into_the_output_directory() {
    let dir = Some("out".to_string());
    assert_eq!(generate_output_path("/tmp/a/photo.jpg", &dir), "out/photo_clean.jpg");
}

#[test]
fn single_output_follows_the_given_path() {
    assert_eq!(single_output_path("a/p.png", &None, false), "a/p_clean.png");
    assert_eq!(single_output_path("a/p.png", &Some("x.png".to_string()), false), "x.png");
    assert_eq!(single_output_path("a/p.png", &Some("dir".to_string()), true), "dir/p_clean.png");
}

#[test]
fn comparison_names() {
    assert_eq!(comparison_path_beside("/x/y_clean.png"), "/x/y_clean_compare.png");
    assert_eq!(comparison_path_in_parent("/x/y.png"), "/x/y_compare.png");
    assert_eq!(comparison_path_in_parent("y.png"), "y_compare.png");
}

#[test]
fn run_mode_by_inputs() {
    assert_eq!(choose_run_mode(0, false), RunMode::MissingInput);
    assert_eq!(choose_run_mode(0, true), RunMode::MissingInput);
    assert_eq!(choose_run_mode(1, false), RunMode::Single);
    assert_eq!(choose_run_mode(1, true), RunMode::Batch);
    assert_eq!(choose_run_mode(3, false), RunMode::Batch);
}

#[test]
fn alpha_map_files() {
    assert_eq!(alpha_map_file(48), Some("bg_48.png"));
    assert_eq!(alpha_map_file(96), Some("bg_96.png"));
    assert_eq!(alpha_map_file(64), None);
}

#[test]
fn alpha_level_is_the_brightest_channel() {
    let img = RgbaRaster {
        width: 2,
        height: 2,
        data: vec![10, 200, 30, 255, 0, 0, 0, 0, 90, 80, 70, 1, 5, 6, 7, 255],
    };
    assert_eq!(alpha_map_from_rgba(&img, 2), vec![200, 0, 90, 7]);
}

fn solid(width: u32, height: u32, fill: [u8; 4]) -> RgbaRaster {
    let mut data = Vec::new();
    for _ in 0..width * height {
        data.extend_from_slice(&fill);
    }
    RgbaRaster { width, height, data }
}

fn pixel(img: &RgbaRaster, x: u32, y: u32) -> [u8; 4] {
    let i = ((y * img.width + x) * 4) as usize;
    [img.data[i], img.data[i + 1], img.data[i + 2], img.data[i + 3]]
}

#[test]
fn comparison_puts_images_side_by_side_with_a_red_divider() {
    let left = solid(6, 2, [1, 2, 3, 4]);
    let right = solid(6, 2, [9, 8, 7, 6]);
    let c = compose_comparison(&left, &right);
    assert_eq!(c.width, 12);
    assert_eq!(c.height, 2);
    for y in 0..2 {
        for x in 0..12 {
            let expected = if (4..8).contains(&x) {
                [255, 0, 0, 255]
            } else if x < 6 {
                [1, 2, 3, 4]
            } else {
                [9, 8, 7, 6]
            };
            assert_eq!(pixel(&c, x, y), expected);
        }
    }
}

#[test]
fn narrow_comparison_is_all_divider() {
    let c = compose_comparison(&solid(1, 1, [1, 1, 1, 1]), &solid(1, 1, [2, 2, 2, 2]));
    assert_eq!(c.width, 2);
    assert_eq!(pixel(&c, 0, 0), [255, 0, 0, 255]);
    assert_eq!(pixel(&c, 1, 0), [255, 0, 0, 255]);
}

fn result(success: bool, found: bool, ms: u128) -> ProcessResult {
    ProcessResult {
        input: "in.png".to_string(),
        output: "in_clean.png".to_string(),
        success,
        watermark_found: found,
        confidence: NccScore::zero(),
        duration_ms: ms,
    }
}

#[test]
fn summary_counts_and_totals() {
    let results =
        vec![result(true, true, 10), result(false, false, 5), result(true, false, 7)];
    let s = summarize_results(&results);
    assert_eq!(s.total, 3);
    assert_eq!(s.successful, 2);
    assert_eq!(s.failed, 1);
    assert_eq!(s.watermarks_found, 1);
    assert_eq!(s.total_duration_ms, 22);
    let empty = summarize_results(&[]);
    assert_eq!(empty.total, 0);
    assert_eq!(empty.failed, 0);
    assert_eq!(empty.total_duration_ms, 0);
}

#[test]
fn processing_reports_the_search_and_cleans_the_logo() {
    // a 4x4 gray image whose bottom-right 2x2 corner carries the logo pattern
    let alpha = vec![0u8, 51, 51, 0];
    let mut data = Vec::new();
    for y in 0..4u32 {
        for x in 0..4u32 {
            let v = if x >= 2 && y >= 2 && alpha[((y - 2) * 2 + (x - 2)) as usize] != 0 {
                131
            } else {
                100
            };
            data.extend_from_slice(&[v, v, v, 255]);
        }
    }
    let mut img = RgbaRaster { width: 4, height: 4, data };
    let position = Position { x: 2, y: 2, width: 2, height: 2 };
    let report = gemini_watermark_remover::batch::process_image(&mut img, &alpha, 2, &position);
    assert_eq!(report.position, Some((2, 2)));
    assert!(report.found);
    let at = |x: u32, y: u32| img.data[((y * 4 + x) * 4) as usize];
    assert_eq!(at(3, 2), restore_channel(131, 51));
    assert_eq!(at(3, 2), 100);
    assert_eq!(at(2, 2), 100);
    assert_eq!(at(0, 0), 100);
}
