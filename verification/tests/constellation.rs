use lucky_star::astro_image::{AstroImage, ImageHeader};
use lucky_star::config::AppConfig;
use lucky_star::constellation::{
    load_stars_from_json, star_pattern_brightness_adu, star_pattern_snr, Constellation,
    RegisteredStar, Transform,
};
use lucky_star::double::Double;
use lucky_star::pixels::Point;
use lucky_star::session::{analyse_image, apply_constellation_quality};
use lucky_star::star::Star;
use std::collections::{HashMap, HashSet};
use vector2d::Vector2D;

fn d(x: f64) -> Double {
    Double::from_bits(x.to_bits())
}

fn f(x: Double) -> f64 {
    f64::from_bits(x.to_bits())
}

fn v(p: Point) -> Vector2D<f32> {
    Vector2D::new(p.x as f32, p.y as f32)
}

fn near(star: Point, first: Point, image_first: Point, image: Point, tolerance: Double) -> bool {
    let length = (v(star) - v(first)).length();
    ((v(image_first) - v(image)).length() - length).abs() <= f(tolerance) as f32
}

fn transform(first: Point, second: Point, image_first: Point, image_second: Point) -> Transform {
    let shift = v(image_first) - v(first);
    let angle = (v(image_second) - v(image_first)).angle() - (v(second) - v(first)).angle();
    Transform { dx: d(shift.x as f64), dy: d(shift.y as f64), angle: d(angle as f64) }
}

fn placed(star: Point, first: Point, t: Transform, image: Point, tolerance: Double) -> bool {
    let delta = v(star) - v(first);
    let length = delta.length();
    let angle = delta.angle() + f(t.angle) as f32;
    let origin = v(first) + Vector2D::new(f(t.dx) as f32, f(t.dy) as f32);
    let expected = origin + Vector2D::new(length * angle.cos(), length * angle.sin());
    (v(image) - expected).length() <= f(tolerance) as f32
}

fn power(x: Double) -> Double {
    d(f(x).powf(-0.186645))
}

fn registered(x: usize, y: usize, used: bool) -> RegisteredStar {
    RegisteredStar {
        pos: Point { x, y },
        magnitude: d(1.0),
        use_in_quality: used,
        median_brightness_adu: None,
        median_brightest_pixel_part: None,
    }
}

fn star(x: usize, y: usize, magnitude: f64) -> Star {
    Star {
        pos: Point { x, y },
        magnitude: d(magnitude),
        magnitude_adu: d(magnitude * 10.0),
        brightest_pixel_adu: d(1.0),
        brightest_pixel_part: d(1.0),
        top_4_pixels_part: d(0.5),
        ill_defined: false,
    }
}

fn image(stars: Vec<Star>) -> AstroImage {
    let header = ImageHeader { width: 500, height: 500, exposure: None, gain: None };
    let mut img = AstroImage::from_header(header, &AppConfig::default());
    img.detected_stars = stars;
    img.background_level_adu = 1200;
    img.sigma_adu = 25;
    img.quality = d(0.25);
    img.fwhm = d(3.0);
    img
}

#[test]
fn disabled_pattern_stars_do_not_affect_brightness_or_snr() {
    let stars = vec![
        Star {
            pos: Point { x: 1, y: 1 },
            magnitude: d(1.0),
            magnitude_adu: d(100.0),
            brightest_pixel_adu: d(1.0),
            brightest_pixel_part: d(1.0),
            top_4_pixels_part: d(1.0),
            ill_defined: false,
        },
        Star {
            pos: Point { x: 2, y: 2 },
            magnitude: d(1.0),
            magnitude_adu: d(900.0),
            brightest_pixel_adu: d(1.0),
            brightest_pixel_part: d(1.0),
            top_4_pixels_part: d(1.0),
            ill_defined: false,
        },
    ];
    let constellation = Constellation {
        registered_stars: vec![
            RegisteredStar {
                pos: Point { x: 1, y: 1 },
                magnitude: d(1.0),
                use_in_quality: true,
                median_brightness_adu: Some(d(100.0)),
                median_brightest_pixel_part: None,
            },
            RegisteredStar {
                pos: Point { x: 2, y: 2 },
                magnitude: d(1.0),
                use_in_quality: false,
                median_brightness_adu: Some(d(900.0)),
                median_brightest_pixel_part: None,
            },
        ],
        found: true,
        star_mapping: HashMap::from([(0, 0), (1, 1)]),
        transform: None,
        position_tolerance_px: d(7.0),
    };
    let signal = star_pattern_brightness_adu(&stars, &constellation);
    assert_eq!(signal, Some(d(100.0)));
    assert_eq!(star_pattern_snr(signal, d(25.0)), Some(d(4.0)));
}

#[test]
fn noise_free_images_have_no_snr() {
    for noise in [0.0, -1.0, f64::NAN, f64::INFINITY] {
        assert_eq!(star_pattern_snr(Some(d(1.0)), d(noise)), None);
    }
    assert_eq!(star_pattern_snr(None, d(1.0)), None);
}

#[test]
fn shifted_and_turned_patterns_are_found() {
    let pattern = vec![
        registered(100, 100, true),
        registered(160, 100, false),
        registered(100, 180, true),
    ];
    // Turned by a right angle and shifted, among other stars.
    let img = image(vec![
        star(20, 400, 9.0),
        star(300, 200, 8.0),
        star(450, 50, 7.0),
        star(300, 260, 6.0),
        star(220, 200, 5.0),
    ]);
    let c = Constellation::find_in_image(pattern.clone(), &img, &near, &transform, &placed);
    assert!(c.found);
    assert_eq!(c.star_mapping, HashMap::from([(0, 1), (1, 3), (2, 4)]));
    let t = c.transform.unwrap();
    assert_eq!((f(t.dx), f(t.dy)), (200.0, 100.0));
    assert!((f(t.angle) - std::f64::consts::FRAC_PI_2).abs() < 1e-6);
    assert_eq!(c.position_tolerance_px, d(7.0));
    assert_eq!(c.quality_indices(), HashSet::from([1, 4]));
    assert_eq!(star_pattern_brightness_adu(img.stars(), &c), Some(d(130.0)));
}

#[test]
fn the_first_fitting_assignment_is_taken() {
    let pattern = vec![registered(0, 0, true), registered(50, 0, true)];
    let img = image(vec![star(100, 100, 3.0), star(400, 400, 2.0), star(100, 150, 1.0)]);
    let c = Constellation::find_in_image_with_tolerance(
        pattern.clone(),
        &img,
        d(1.0),
        &near,
        &transform,
        &placed,
    );
    assert_eq!(c.star_mapping, HashMap::from([(0, 0), (1, 2)]));
    let alone = Constellation::find_in_image(pattern[..1].to_vec(), &img, &near, &transform, &placed);
    assert_eq!(alone.star_mapping, HashMap::from([(0, 0)]));
    assert_eq!(alone.transform, None);
    let none = Constellation::find_in_image(vec![], &img, &near, &transform, &placed);
    assert!(none.found);
}

#[test]
fn missing_patterns_leave_nothing() {
    let pattern = vec![registered(0, 0, true), registered(50, 0, true), registered(0, 70, true)];
    let img = image(vec![star(100, 100, 3.0), star(150, 100, 2.0), star(400, 400, 1.0)]);
    let c = Constellation::find_in_image(pattern.clone(), &img, &near, &transform, &placed);
    assert!(!c.found);
    assert!(c.star_mapping.is_empty());
    assert_eq!(c.transform, None);
    assert_eq!(star_pattern_brightness_adu(img.stars(), &c), None);
    let empty = image(vec![]);
    assert!(!Constellation::find_in_image(pattern, &empty, &near, &transform, &placed).found);
}

#[test]
fn patterns_need_a_star_for_the_quality() {
    assert_eq!(
        load_stars_from_json(Ok(vec![registered(1, 2, false)])).unwrap_err(),
        "star pattern must contain at least one star with use_in_quality: true"
    );
    assert_eq!(load_stars_from_json(Ok(vec![registered(1, 2, true)])).unwrap().len(), 1);
    assert_eq!(load_stars_from_json(Err("bad".to_string())).unwrap_err(), "bad");
}

#[test]
fn images_are_analysed_with_their_pattern() {
    let pattern = vec![registered(0, 0, true), registered(50, 0, false)];
    let img = image(vec![star(100, 100, 900.0), star(400, 400, 800.0), star(100, 150, 700.0)]);
    let config = AppConfig::default();
    let info = analyse_image(
        "a.fits".to_string(),
        &img,
        Some(pattern.clone()),
        &config,
        &near,
        &transform,
        &placed,
    );
    assert_eq!(info.constellation_found, Some(true));
    assert_eq!(info.matched_star_count, 2);
    assert_eq!(info.star_brightness_adu, Some(d(9000.0)));
    assert_eq!(info.snr, Some(d(360.0)));
    assert_eq!(info.quality, d(0.25));
    assert_eq!(info.quality_image, Some(d(0.5)));
    assert_eq!(info.background_raw_adu, d(1200.0));
    assert_eq!(info.background_corrected_adu, d(200.0));
    assert_eq!(info.brightest_star_photons, d(900.0));
    assert_eq!(info.brightest_star_adu, d(9000.0));
    assert_eq!(info.star5_photons, d(0.0));
    let plain = analyse_image(
        "a.fits".to_string(),
        &img,
        None,
        &AppConfig { background_bias_adu: d(5000.0), ..AppConfig::default() },
        &near,
        &transform,
        &placed,
    );
    assert_eq!(plain.constellation_found, None);
    assert_eq!(plain.snr, None);
    assert_eq!(plain.quality_image, None);
    assert_eq!(plain.background_corrected_adu, d(0.0));
}

#[test]
fn patterns_decide_the_quality_where_they_are_found() {
    let pattern = vec![registered(0, 0, true), registered(50, 0, false)];
    let config = AppConfig::default();
    let mut img = image(vec![star(100, 100, 900.0), star(100, 150, 700.0)]);
    assert!(apply_constellation_quality(
        &mut img, pattern.clone(), &config, &near, &transform, &placed, &power
    ));
    assert_eq!(img.quality(), d(0.5));
    assert_eq!(img.quality_image(), Some(d(0.25)));
    assert_eq!(img.quality_star_indices(), Some(&vec![0]));
    let mut other = image(vec![star(100, 100, 900.0)]);
    assert!(!apply_constellation_quality(
        &mut other, pattern, &config, &near, &transform, &placed, &power
    ));
    assert_eq!(other.quality(), d(0.25));
    assert_eq!(other.quality_star_indices(), None);
}
