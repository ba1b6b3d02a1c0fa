use lucky_star::config::{AppConfig, PartialAppConfig};
use lucky_star::double::Double;
use lucky_star::helpers::median;
use std::collections::HashMap;

fn d(x: f64) -> Double {
    Double::from_bits(x.to_bits())
}

fn nothing() -> PartialAppConfig {
    PartialAppConfig {
        gain_to_adu: None,
        min_photons_to_detect_star: None,
        min_central_photons_to_detect_star: None,
        psf_size: None,
        min_photons_quality: None,
        rolling_avg_window: None,
        log_quality_window_t: None,
        star_pattern_position_tolerance_px: None,
        background_bias_adu: None,
    }
}

#[test]
fn defaults_are_complete() {
    let c = AppConfig::default();
    let expected: HashMap<u32, Double> = [
        (5200, 27.5),
        (7000, 40.0),
        (9000, 61.5),
        (12000, 143.0),
        (15000, 250.0),
        (0, 250.0),
    ]
    .into_iter()
    .map(|(g, a)| (g, d(a)))
    .collect();
    assert_eq!(c.gain_to_adu, expected);
    assert_eq!(c.min_photons_to_detect_star, 300);
    assert_eq!(c.min_central_photons_to_detect_star, 30);
    assert_eq!(c.psf_size, 13);
    assert_eq!(c.min_photons_quality, d(450.0));
    assert_eq!(c.rolling_avg_window, 100);
    assert_eq!(c.log_quality_window_t, d(300.0));
    assert_eq!(c.star_pattern_position_tolerance_px, d(7.0));
    assert_eq!(c.background_bias_adu, d(1000.0));
    assert_eq!(c.validate(), Ok(()));
}

#[test]
fn files_replace_only_what_they_give() {
    let mut p = nothing();
    p.psf_size = Some(7);
    p.gain_to_adu = Some(HashMap::from([(5200, d(27.5))]));
    p.background_bias_adu = Some(d(0.0));
    let c = AppConfig::from_partial(p);
    assert_eq!(c.psf_size, 7);
    assert_eq!(c.gain_to_adu.len(), 1);
    assert_eq!(c.background_bias_adu, d(0.0));
    assert_eq!(c.rolling_avg_window, 100);
    assert_eq!(AppConfig::from_partial(nothing()).gain_to_adu.len(), 6);
}

#[test]
fn invalid_settings_are_named() {
    for bias in [-1.0, f64::NAN, f64::INFINITY] {
        let c = AppConfig { background_bias_adu: d(bias), ..AppConfig::default() };
        assert_eq!(
            c.validate(),
            Err("background_bias_adu must be finite and must not be negative".to_string())
        );
    }
    for tolerance in [0.0, -7.0, f64::NAN, f64::INFINITY] {
        let c = AppConfig {
            star_pattern_position_tolerance_px: d(tolerance),
            ..AppConfig::default()
        };
        assert_eq!(
            c.validate(),
            Err("star_pattern_position_tolerance_px must be greater than zero".to_string())
        );
    }
}

#[test]
fn settings_beside_the_program_come_first() {
    let with = |psf_size: usize| AppConfig { psf_size, ..AppConfig::default() };
    assert_eq!(AppConfig::load_or_default(Some(with(3)), Some(with(5))).psf_size, 3);
    assert_eq!(AppConfig::load_or_default(None, Some(with(5))).psf_size, 5);
    assert_eq!(AppConfig::load_or_default(None, None).psf_size, 13);
}

#[test]
fn sorted_values_have_a_median() {
    assert_eq!(median::<u32>(&[]), None);
    assert_eq!(median(&[1u32, 5, 9]), Some(5));
    assert_eq!(median(&[1u32, 4, 7, 9]), Some(5));
    assert_eq!(median(&[d(1.0), d(2.0)]), Some(d(1.5)));
    assert_eq!(median(&[1i32, 2, 5, 100]), Some(3));
    assert_eq!(median(&[-3i32, -2]), Some(-2));
    assert_eq!(median(&[-4i16, 8]), Some(2));
    assert_eq!(median(&[1i64, 2, 5, 100]), Some(3));
    assert_eq!(median(&[-9i128, 1]), Some(-4));
    assert_eq!(median(&[2isize, 4]), Some(3));
    assert_eq!(median(&[1u8, 2, 5, 100]), Some(3));
}
