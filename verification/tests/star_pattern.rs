use lucky_star::double::Double;
use lucky_star::paths::{FilePath, PathPart};
use lucky_star::pixels::Point;
use lucky_star::star::Star;
use lucky_star::star_pattern::{
    aggregate_samples, check_stable_stars, default_pattern_path, make_pattern, median,
    pattern_numbers, recommend_stars, recommended_numbers, samples_of, select_sample_paths,
    validate_pattern, AggregatedStar, PatternStarSample, StarPatternEntry,
};
use lucky_star::text::read_numbers;

fn d(x: f64) -> Double {
    Double::from_bits(x.to_bits())
}

fn named(name: &str) -> FilePath {
    FilePath { parts: vec![PathPart::Name(name.as_bytes().to_vec())] }
}

fn sample(x: usize, y: usize, magnitude: f64) -> PatternStarSample {
    PatternStarSample {
        x,
        y,
        magnitude: d(magnitude),
        magnitude_adu: d(magnitude * 10.0),
        brightest_pixel_part: d(0.2),
    }
}

#[test]
fn median_is_robust_and_even() {
    let mut v = [d(10.0), d(1.0), d(2.0), d(1000.0)];
    assert_eq!(median(&mut v), Some(d(6.0)));
}

#[test]
fn sampling_is_deterministic_and_bounded() {
    let p: Vec<FilePath> = (0..30).map(|i| named(&format!("{i:02}.fits"))).collect();
    assert_eq!(select_sample_paths(p.clone(), 20, 7), select_sample_paths(p.clone(), 20, 7));
    let chosen = select_sample_paths(p.clone(), 20, 7);
    assert_eq!(chosen.len(), 20);
    let mut reversed = p.clone();
    reversed.reverse();
    assert_eq!(select_sample_paths(reversed, 20, 7), chosen);
    for c in &chosen {
        assert!(p.contains(c));
    }
    assert_ne!(select_sample_paths(p.clone(), 20, 8), chosen);
    assert_eq!(select_sample_paths(p.clone(), 30, 7), p);
    assert_eq!(select_sample_paths(p, 0, 7), Vec::new());
}

#[test]
fn sampling_draws_as_the_generator_says() {
    let names: Vec<String> = (0..9).map(|i| format!("{i}")).collect();
    let mut expected = names.clone();
    let mut state: u64 = 5 ^ 0x9e3779b97f4a7c15;
    for i in (1..expected.len()).rev() {
        state ^= state << 7;
        state ^= state >> 9;
        state ^= state << 8;
        let j = (state as usize) % (i + 1);
        expected.swap(i, j);
    }
    expected.truncate(4);
    expected.sort();
    let drawn = select_sample_paths(names.iter().map(|n| named(n)).collect(), 4, 5);
    assert_eq!(drawn, expected.iter().map(|n| named(n)).collect::<Vec<_>>());
}

#[test]
fn paths_sort_part_by_part() {
    let a = FilePath { parts: vec![PathPart::Name(b"a".to_vec()), PathPart::Name(b"z".to_vec())] };
    let b = FilePath { parts: vec![PathPart::Name(b"a-b".to_vec())] };
    let c = FilePath { parts: vec![PathPart::Parent, PathPart::Name(b"a".to_vec())] };
    let r = FilePath { parts: vec![PathPart::Root, PathPart::Name(b"z".to_vec())] };
    let h = FilePath { parts: vec![PathPart::Current, PathPart::Name(b"0".to_vec())] };
    let sorted = select_sample_paths(
        vec![b.clone(), a.clone(), c.clone(), r.clone(), h.clone()],
        9,
        0,
    );
    assert_eq!(sorted, vec![r, h, c, a, b]);
}

#[test]
fn recommendation_has_three_non_collinear_stars() {
    let s = vec![(0, 0), (10, 0), (0, 10), (50, 50)]
        .into_iter()
        .map(|(x, y)| sample(x, y, 100.0))
        .collect::<Vec<_>>();
    assert_eq!(recommend_stars(&s, 50, 50).len(), 3);
}

#[test]
fn recommendation_prefers_the_centre_and_then_the_brighter() {
    let s = vec![
        sample(0, 0, 9.0),
        sample(50, 60, 1.0),
        sample(50, 40, 5.0),
        sample(40, 50, 3.0),
        sample(50, 50, 1.0),
    ];
    assert_eq!(recommend_stars(&s, 100, 100), vec![4, 2, 3]);
    let line = vec![sample(1, 1, 1.0), sample(2, 2, 1.0), sample(3, 3, 1.0), sample(9, 9, 1.0)];
    assert!(recommend_stars(&line, 10, 10).is_empty());
    assert!(recommend_stars(&s[..2], 100, 100).is_empty());
    // Twice the area has to be above one.
    let thin = vec![sample(0, 0, 1.0), sample(1, 0, 1.0), sample(0, 1, 1.0)];
    assert!(recommend_stars(&thin, 2, 2).is_empty());
}

#[test]
fn pattern_validation_is_explicit() {
    let p = vec![StarPatternEntry {
        x: 1,
        y: 2,
        magnitude: d(3.0),
        use_in_quality: false,
        median_brightness: None,
        median_brightest_pixel_part: None,
    }];
    assert!(validate_pattern(&p, d(7.0)).is_err());
    assert!(validate_pattern(&[], d(0.0)).is_err());
}

#[test]
fn pattern_faults_are_named() {
    let entry = |magnitude: f64, used: bool| StarPatternEntry {
        x: 1,
        y: 2,
        magnitude: d(magnitude),
        use_in_quality: used,
        median_brightness: None,
        median_brightest_pixel_part: None,
    };
    for tolerance in [0.0, -1.0, f64::NAN, f64::INFINITY] {
        assert_eq!(
            validate_pattern(&[entry(1.0, true)], d(tolerance)),
            Err("star_pattern_position_tolerance_px must be greater than zero".to_string())
        );
    }
    assert_eq!(
        validate_pattern(&[entry(1.0, false)], d(7.0)),
        Err("star pattern must contain at least one star with use_in_quality: true".to_string())
    );
    for magnitude in [-1.0, f64::NAN, f64::INFINITY] {
        assert_eq!(
            validate_pattern(&[entry(1.0, true), entry(magnitude, false)], d(7.0)),
            Err("star pattern contains invalid magnitude".to_string())
        );
    }
    assert_eq!(validate_pattern(&[entry(0.0, true)], d(7.0)), Ok(()));
}

#[test]
fn default_patterns_are_looked_up_in_order() {
    let session = FilePath { parts: vec![PathPart::Root, PathPart::Name(b"s".to_vec())] };
    let only = |name: &'static str, parts: usize| {
        move |p: &FilePath| {
            p.parts.len() == parts && p.parts[parts - 1] == PathPart::Name(name.as_bytes().to_vec())
        }
    };
    assert_eq!(
        default_pattern_path(&session, |_: &FilePath| true),
        Some(session.join("stars_pattern.json"))
    );
    assert_eq!(
        default_pattern_path(&session, only("stars.json", 3)),
        Some(session.join("stars.json"))
    );
    assert_eq!(
        default_pattern_path(&session, only("star_pattern.json", 1)),
        Some(named("star_pattern.json"))
    );
    assert_eq!(default_pattern_path(&session, |_: &FilePath| false), None);
}

#[test]
fn samples_measure_the_sensor_range() {
    let star = |x: usize, brightest: f64| Star {
        pos: Point { x, y: 2 },
        magnitude: d(5.0),
        magnitude_adu: d(50.0),
        brightest_pixel_adu: d(brightest),
        brightest_pixel_part: d(0.9),
        top_4_pixels_part: d(0.5),
        ill_defined: false,
    };
    let s = samples_of(&vec![star(1, 65535.0), star(3, 13107.0), star(4, -5.0)]);
    assert_eq!(s[0].brightest_pixel_part, d(1.0));
    assert_eq!(s[1].brightest_pixel_part, d(13107.0 / 65535.0));
    assert_eq!(s[2].brightest_pixel_part, d(0.0));
    assert_eq!((s[1].x, s[1].y), (3, 2));
    assert_eq!(s[1].magnitude_adu, d(50.0));
}

#[test]
fn only_stars_of_all_frames_are_aggregated() {
    let reference = vec![sample(10, 10, 1.0), sample(50, 50, 2.0), sample(90, 10, 3.0)];
    let second = vec![sample(52, 50, 4.0), sample(11, 10, 9.0), sample(12, 10, 7.0)];
    let third = vec![sample(50, 53, 6.0), sample(10, 12, 5.0), sample(90, 10, 3.0)];
    let frames = vec![reference.clone(), second, third];
    let a = aggregate_samples(&reference, &frames, d(7.0));
    assert_eq!(a.iter().map(|s| s.reference_index).collect::<Vec<_>>(), vec![0, 1]);
    assert_eq!((a[0].sample.x, a[0].sample.y), (10, 10));
    assert_eq!(a[0].sample.magnitude, d(5.0));
    assert_eq!(a[1].sample.magnitude, d(4.0));
    assert_eq!(a[1].sample.magnitude_adu, d(40.0));
    assert_eq!(check_stable_stars(&a), Ok(()));
    assert_eq!(
        check_stable_stars(&a[..1].to_vec()),
        Err("unable to generate pattern: fewer than 2 stars remain in all sampled frames (1).".to_string())
    );
    assert_eq!(recommended_numbers(&vec![1, 0], &a), vec![2, 1]);
}

fn stable() -> Vec<AggregatedStar> {
    vec![
        AggregatedStar { sample: sample(10, 11, 1.0), reference_index: 0 },
        AggregatedStar { sample: sample(50, 51, 2.0), reference_index: 3 },
    ]
}

#[test]
fn patterns_are_made_of_selected_stars() {
    let p = make_pattern(&vec![4, 1], 5, &stable(), d(7.0)).unwrap();
    assert_eq!(p.len(), 2);
    assert_eq!((p[0].x, p[0].y), (50, 51));
    assert!(p[0].use_in_quality);
    assert_eq!(p[0].median_brightness, Some(d(20.0)));
    assert_eq!(p[1].median_brightest_pixel_part, Some(d(0.2)));
}

#[test]
fn selections_are_checked() {
    let fault = |selected: Vec<usize>| make_pattern(&selected, 5, &stable(), d(7.0)).unwrap_err();
    assert_eq!(fault(vec![1]), "a valid star pattern requires at least 2 selected stars");
    assert_eq!(fault(vec![1, 6]), "star number must be between 1 and 5 in the candidate JPEG");
    assert_eq!(fault(vec![0, 1]), "star number must be between 1 and 5 in the candidate JPEG");
    assert_eq!(
        fault(vec![1, 2]),
        "star 2 is a valid JPEG number but is unstable across sampled frames"
    );
    assert_eq!(
        make_pattern(&vec![1, 4], 5, &stable(), d(0.0)).unwrap_err(),
        "star_pattern_position_tolerance_px must be greater than zero"
    );
}

#[test]
fn answers_decide_the_numbers() {
    let rec = vec![3, 1, 12];
    assert_eq!(pattern_numbers("\n", &rec), Some("3,1,12".to_string()));
    assert_eq!(pattern_numbers(" Y \n", &rec), Some("3,1,12".to_string()));
    assert_eq!(pattern_numbers("n\n", &rec), None);
    assert_eq!(pattern_numbers("1,4\n", &rec), Some("1,4\n".to_string()));
    assert_eq!(read_numbers(&pattern_numbers("y", &rec).unwrap()), Ok(rec));
}
