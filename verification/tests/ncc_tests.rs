use gemini_watermark_remover::ncc::{
    create_template_from_alpha_map, detect_watermark, Fraction, NccConfig, NccScore,
};
use gemini_watermark_remover::raster::{GrayRaster, RgbaRaster};

fn gray(width: u32, height: u32, data: &[u8]) -> GrayRaster {
    GrayRaster { width, height, data: data.to_vec() }
}

fn as_f64(score: &NccScore) -> f64 {
    let den = (score.image_spread as f64 * score.template_spread as f64).sqrt();
    if den == 0.0 {
        0.0
    } else {
        score.covariance as f64 / den
    }
}

#[test]
fn default_config_has_threshold_seven_tenths() {
    let config = NccConfig::default();
    assert_eq!(config.threshold, Fraction { numerator: 7, denominator: 10 });
    assert_eq!(config.search_scale, Fraction { numerator: 1, denominator: 1 });
}

#[test]
fn template_keeps_the_alpha_levels() {
    let alpha = [0u8, 51, 255, 128, 9];
    let template = create_template_from_alpha_map(&alpha, 2, 2);
    assert_eq!(template.width, 2);
    assert_eq!(template.height, 2);
    assert_eq!(template.data, vec![0, 51, 255, 128]);
}

#[test]
fn exact_copy_of_the_template_is_found_where_it_is() {
    let template = gray(2, 2, &[0, 255, 255, 0]);
    let image = gray(4, 3, &[
        10, 10, 10, 10,
        10, 10,  0, 255,
        10, 10, 255, 0,
    ]);
    let result = detect_watermark(&image, &template, &NccConfig::default());
    assert_eq!(result.position, Some((2, 1)));
    assert!(result.found);
    assert!((as_f64(&result.confidence) - 1.0).abs() < 1e-12);
}

#[test]
fn scaled_and_shifted_copy_scores_one_too() {
    let template = gray(2, 1, &[10, 20]);
    let image = gray(3, 1, &[50, 100, 150]);
    let result = detect_watermark(&image, &template, &NccConfig::default());
    // both windows correlate perfectly; the first one is kept
    assert_eq!(result.position, Some((0, 0)));
    assert!(result.found);
    assert!((as_f64(&result.confidence) - 1.0).abs() < 1e-12);
}

#[test]
fn template_larger_than_image_is_never_found() {
    let template = gray(3, 3, &[1; 9]);
    let image = gray(2, 5, &[1; 10]);
    let result = detect_watermark(&image, &template, &NccConfig::default());
    assert!(!result.found);
    assert_eq!(result.position, None);
    assert_eq!(result.confidence, NccScore::zero());
}

#[test]
fn flat_image_has_no_positive_window() {
    let template = gray(2, 2, &[0, 255, 255, 0]);
    let image = gray(3, 3, &[7; 9]);
    let result = detect_watermark(&image, &template, &NccConfig::default());
    assert!(!result.found);
    assert_eq!(result.position, None);
    assert_eq!(result.confidence, NccScore::zero());
}

#[test]
fn anticorrelated_image_is_not_found() {
    let template = gray(2, 1, &[0, 255]);
    let image = gray(2, 1, &[255, 0]);
    let result = detect_watermark(&image, &template, &NccConfig::default());
    assert_eq!(result.position, None);
    assert!(!result.found);
}

#[test]
fn weak_match_is_below_the_threshold() {
    let template = gray(3, 1, &[0, 100, 200]);
    let image = gray(3, 1, &[0, 200, 100]);
    let result = detect_watermark(&image, &template, &NccConfig::default());
    // correlation 0.5
    assert_eq!(result.position, Some((0, 0)));
    assert!((as_f64(&result.confidence) - 0.5).abs() < 1e-12);
    assert!(!result.found);
    let lenient = NccConfig {
        threshold: Fraction { numerator: 1, denominator: 2 },
        search_scale: Fraction { numerator: 1, denominator: 1 },
    };
    let result = detect_watermark(&image, &template, &lenient);
    assert!(result.found);
}

#[test]
fn best_window_wins_over_earlier_ones() {
    let template = gray(3, 1, &[0, 100, 200]);
    let image = gray(5, 1, &[0, 200, 100, 150, 200]);
    // windows: [0,200,100] -> 0.5, [200,100,150] -> -0.5, [100,150,200] -> 1
    let result = detect_watermark(&image, &template, &NccConfig::default());
    assert_eq!(result.position, Some((2, 0)));
    assert!(result.found);
}

#[test]
fn scores_compare_by_value() {
    let half = NccScore { covariance: 1, image_spread: 2, template_spread: 2 };
    let one = NccScore { covariance: 3, image_spread: 9, template_spread: 1 };
    let minus_half = NccScore { covariance: -2, image_spread: 4, template_spread: 4 };
    let zero = NccScore::zero();
    assert!(one.gt(&half));
    assert!(!half.gt(&one));
    assert!(half.gt(&zero));
    assert!(zero.gt(&minus_half));
    assert!(half.gt(&minus_half));
    assert!(!minus_half.gt(&minus_half));
    let minus_one = NccScore { covariance: -5, image_spread: 5, template_spread: 5 };
    assert!(minus_half.gt(&minus_one));
    assert!(!minus_one.gt(&minus_half));
}

#[test]
fn threshold_is_inclusive() {
    let seven_tenths = NccScore { covariance: 7, image_spread: 10, template_spread: 10 };
    let just_below = NccScore { covariance: 699, image_spread: 1000, template_spread: 1000 };
    let t = Fraction { numerator: 7, denominator: 10 };
    assert!(seven_tenths.reaches_fraction(t));
    assert!(!just_below.reaches_fraction(t));
    assert!(NccScore::zero().reaches_fraction(Fraction { numerator: 0, denominator: 1 }));
    assert!(!NccScore::zero().reaches_fraction(t));
}

#[test]
fn luma_comes_from_the_image_crate() {
    let rgba = RgbaRaster {
        width: 3,
        height: 1,
        data: vec![255, 0, 0, 255, 255, 255, 255, 255, 0, 0, 0, 255],
    };
    let luma = rgba.to_luma8();
    assert_eq!(luma.width, 3);
    assert_eq!(luma.height, 1);
    assert_eq!(luma.data.len(), 3);
    assert_eq!(luma.data[1], 255);
    assert_eq!(luma.data[2], 0);
    assert_ne!(luma.data[0], 255);
    assert_eq!(luma.data[0], 54);
}

#[test]
fn every_window_scores_between_minus_one_and_one() {
    let template = gray(3, 2, &[0, 40, 200, 255, 13, 90]);
    let mut data = Vec::new();
    for i in 0..64u32 {
        data.push(((i * 37 + 11) % 256) as u8);
    }
    let image = gray(8, 8, &data);
    let result = detect_watermark(&image, &template, &NccConfig::default());
    let value = as_f64(&result.confidence);
    assert!(value > 0.0 && value <= 1.0 + 1e-12);
    let c = result.confidence;
    // cov^2 <= spread product
    let cov = c.covariance.unsigned_abs();
    assert!(cov * cov <= c.image_spread * c.template_spread);
}

fn inverted(img: &GrayRaster) -> GrayRaster {
    GrayRaster {
        width: img.width,
        height: img.height,
        data: img.data.iter().map(|p| 255 - p).collect(),
    }
}

#[test]
fn inverting_the_image_negates_the_score() {
    let template = gray(3, 1, &[0, 100, 200]);
    let image = gray(3, 1, &[0, 200, 100]);
    let direct = detect_watermark(&image, &template, &NccConfig::default());
    assert_eq!(direct.position, Some((0, 0)));
    // inverting the image alone makes the only window score -0.5
    let flipped = detect_watermark(&inverted(&image), &template, &NccConfig::default());
    assert_eq!(flipped.position, None);
    // inverting both negates twice
    let both = detect_watermark(&inverted(&image), &inverted(&template), &NccConfig::default());
    assert_eq!(both.confidence, direct.confidence);
}

#[test]
fn swapping_window_and_template_keeps_the_score() {
    let template = gray(3, 1, &[0, 100, 200]);
    let image = gray(3, 1, &[0, 200, 100]);
    let a = detect_watermark(&image, &template, &NccConfig::default()).confidence;
    let b = detect_watermark(&template, &image, &NccConfig::default()).confidence;
    assert_eq!(a.covariance, b.covariance);
    assert_eq!(a.image_spread, b.template_spread);
    assert_eq!(a.template_spread, b.image_spread);
}

#[test]
fn threshold_changes_only_found() {
    let template = gray(3, 1, &[0, 100, 200]);
    let image = gray(5, 1, &[0, 200, 100, 150, 190]);
    let mut results = Vec::new();
    for numerator in [0u32, 3, 5, 7, 9, 10] {
        let config = NccConfig {
            threshold: Fraction { numerator, denominator: 10 },
            search_scale: Fraction { numerator: 1, denominator: 1 },
        };
        results.push(detect_watermark(&image, &template, &config));
    }
    for pair in results.windows(2) {
        assert_eq!(pair[0].confidence, pair[1].confidence);
        assert_eq!(pair[0].position, pair[1].position);
        assert!(!pair[1].found || pair[0].found);
    }
    assert!(results[0].found);
    assert!(!results[5].found);
}
