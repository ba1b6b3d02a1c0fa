use lucky_star::chart::{chart_layout, draw_metric_chart, ChartLabels};
use lucky_star::canvas::Colour;
use lucky_star::config::AppConfig;
use lucky_star::double::Double;
use lucky_star::metrics::{FilterRule, Metric, MetricRecord, MetricValues};
use lucky_star::report::{
    any_without_pattern, percentile, quality_map, statistics, Note,
};
use lucky_star::rules::{build_rules, parse_divide, plan_division, FilterOptions};
use lucky_star::session::{
    collect_fits_files, files_to_analyse, image_from_record, image_to_metrics, is_fits,
    next_steps, plan_directory, DirectoryRequest, ImageInfo, Progress, Steps,
};

fn d(x: f64) -> Double {
    Double::from_bits(x.to_bits())
}

fn f(x: Double) -> f64 {
    f64::from_bits(x.to_bits())
}

fn names(list: &[&str]) -> Vec<Vec<u8>> {
    list.iter().map(|n| n.as_bytes().to_vec()).collect()
}

fn texts(list: &[&str]) -> Vec<String> {
    list.iter().map(|n| n.to_string()).collect()
}

fn values(quality: f64, snr: Option<f64>) -> MetricValues {
    MetricValues {
        quality: d(quality),
        fwhm: d(2.0),
        star_count: 3,
        brightest_star_adu: d(10.0),
        brightest_star_photons: d(1.0),
        star5_photons: d(0.0),
        background_raw_adu: d(20.0),
        background_corrected_adu: d(20.0),
        quality_star_pattern: snr.map(d),
        quality_star_pattern_source: snr.is_some(),
        star_brightness_adu: snr.map(d),
        snr: snr.map(d),
        star_pattern_found: snr.is_some(),
        matched_star_count: usize::from(snr.is_some()),
    }
}

fn record(name: &str, modified_ns: u128, quality: f64, snr: Option<f64>) -> MetricRecord {
    MetricRecord { file_name: name.to_string(), modified_ns, metrics: values(quality, snr) }
}

fn options(filter: bool) -> FilterOptions {
    FilterOptions {
        filter,
        snr: None,
        quality_star_pattern: None,
        background: None,
        star_brightness: None,
        quality: None,
        fwhm: None,
        snr_absolute: None,
        quality_star_pattern_absolute: None,
        background_absolute: None,
        star_brightness_absolute: None,
        quality_absolute: None,
        fwhm_absolute: None,
    }
}

fn image(name: &str, quality: f64, fwhm: f64, pattern: Option<f64>) -> ImageInfo {
    let r = record(name, 0, quality, pattern);
    let mut i = image_from_record(&r);
    i.fwhm = d(fwhm);
    i
}

#[test]
fn fits_files_are_collected_by_name() {
    let list = names(&["b.fits", "a.FITS", "c.fit", ".fits", "x.Fits", "afits", "a.fits.txt"]);
    assert_eq!(collect_fits_files(&list), vec![1, 0, 4]);
    assert!(!is_fits(&b".fits".to_vec()));
    assert!(is_fits(&b"..fits".to_vec()));
}

#[test]
fn quick_checks_take_the_newest_files() {
    let list = names(&["b.fits", "a.fits", "d.fits", "z.txt", "c.fits"]);
    let times = vec![40, 50, 10, 90, 40];
    assert_eq!(files_to_analyse(&list, &times, None), Ok(vec![1, 0, 4, 2]));
    assert_eq!(files_to_analyse(&list, &times, Some(1)), Ok(vec![1]));
    assert_eq!(files_to_analyse(&list, &times, Some(3)), Ok(vec![1, 0, 4]));
    assert_eq!(files_to_analyse(&list, &times, Some(9)), Ok(vec![1, 0, 4, 2]));
    assert_eq!(files_to_analyse(&list, &times, Some(0)), Ok(vec![]));
    let two = names(&["a.fits", "b.fits"]);
    assert_eq!(files_to_analyse(&two, &vec![2, 1], Some(1)), Ok(vec![0]));
    assert_eq!(
        files_to_analyse(&names(&["a.txt"]), &vec![1], None),
        Err("no FITS files found".to_string())
    );
}

#[test]
fn rules_are_built_in_order() {
    let mut o = options(true);
    o.fwhm = Some(d(1.2));
    o.snr_absolute = Some(d(10.0));
    o.background = Some(d(1.5));
    let rules = build_rules(&o, true).unwrap();
    assert_eq!(
        rules,
        vec![
            FilterRule::absolute(Metric::Snr, d(10.0)).unwrap(),
            FilterRule::relative(Metric::Background, d(1.5)).unwrap(),
            FilterRule::relative(Metric::Fwhm, d(1.2)).unwrap(),
        ]
    );
    assert_eq!(
        build_rules(&o, false).unwrap_err(),
        "filter requires a star pattern, but no pattern is available"
    );
    o.snr = Some(d(0.8));
    assert_eq!(
        build_rules(&o, true).unwrap_err(),
        "both relative and absolute thresholds supplied for snr"
    );
    o.snr_absolute = None;
    o.background = Some(d(-1.0));
    assert_eq!(
        build_rules(&o, true).unwrap_err(),
        "relative threshold must be greater than zero"
    );
}

#[test]
fn filters_without_limits_use_the_defaults() {
    let rules = build_rules(&options(true), true).unwrap();
    assert_eq!(
        rules,
        vec![
            FilterRule::relative(Metric::QualityStarPattern, d(0.8)).unwrap(),
            FilterRule::relative(Metric::Background, d(2.0)).unwrap(),
            FilterRule::relative(Metric::StarBrightness, d(0.7)).unwrap(),
        ]
    );
    assert!(build_rules(&options(false), false).unwrap().is_empty());
}

#[test]
fn divisions_are_parsed() {
    assert_eq!(parse_divide(&texts(&["snr", "1000"])), Ok((Metric::Snr, 1000)));
    assert_eq!(
        parse_divide(&texts(&["Quality-Star-Pattern", "+7"])),
        Ok((Metric::QualityStarPattern, 7))
    );
    assert_eq!(
        parse_divide(&texts(&["snr"])).unwrap_err(),
        "--divide requires METRIC and COUNT, e.g. --divide snr 1000"
    );
    assert_eq!(
        parse_divide(&texts(&["Seeing", "5"])).unwrap_err(),
        "unknown --divide metric 'Seeing'; choose quality, fwhm, quality_star_pattern, background, star_brightness or snr"
    );
    assert_eq!(
        parse_divide(&texts(&["snr", "x"])).unwrap_err(),
        "invalid --divide COUNT 'x'; COUNT must be a positive integer"
    );
    assert_eq!(
        parse_divide(&texts(&["snr", "0"])).unwrap_err(),
        "--divide COUNT must be greater than zero"
    );
}

#[test]
fn the_best_files_fill_the_first_folder() {
    let records: Vec<MetricRecord> = (0..3273u64)
        .map(|i| record(&format!("{i:04}.fits"), 0, 1.0, Some(((i * 7919) % 3273) as f64)))
        .collect();
    let present = vec![true; 3273];
    let batches = plan_division(&records, &present, Metric::Snr, 1000).unwrap();
    let sizes: Vec<usize> = batches.iter().map(|b| b.files.len()).collect();
    assert_eq!(sizes, vec![1000, 1000, 1000, 273]);
    assert_eq!(batches[0].folder, "1_snr");
    assert_eq!(batches[3].folder, "4_snr");
    let order: Vec<f64> = batches
        .iter()
        .flat_map(|b| b.files.iter().map(|i| f(records[*i].metrics.snr.unwrap())))
        .collect();
    assert!(order.windows(2).all(|w| w[0] > w[1]));
}

#[test]
fn divisions_leave_absent_files_and_refuse_missing_values() {
    let mut records = vec![
        record("b", 0, 0.5, Some(1.0)),
        record("a", 0, 0.5, None),
        record("c", 0, 0.9, Some(2.0)),
    ];
    records[2].metrics.fwhm = d(1.0);
    let by_quality = plan_division(&records, &vec![true, true, true], Metric::Quality, 2).unwrap();
    assert_eq!(by_quality[0].files, vec![2, 1]);
    assert_eq!(by_quality[1].files, vec![0]);
    let by_fwhm = plan_division(&records, &vec![true, false, true], Metric::Fwhm, 5).unwrap();
    assert_eq!(by_fwhm.len(), 1);
    assert_eq!(by_fwhm[0].files, vec![2, 0]);
    assert_eq!(by_fwhm[0].folder, "1_fwhm");
    assert_eq!(
        plan_division(&records, &vec![true, true, true], Metric::Snr, 5).unwrap_err(),
        "cannot divide files: metric 'snr' is unavailable for one or more kept files"
    );
    assert!(plan_division(&records, &vec![false; 3], Metric::Snr, 5).unwrap().is_empty());
}

#[test]
fn requests_are_checked_before_files_are_read() {
    let request = |divide: Option<&[&str]>, filter: bool| DirectoryRequest {
        divide: divide.map(texts),
        check_count: None,
        options: options(filter),
    };
    assert_eq!(
        plan_directory(&request(Some(&["snr", "5"]), false), true).unwrap_err(),
        "--divide must be used together with --filter"
    );
    assert!(plan_directory(&request(Some(&["snr", "x"]), true), true).is_err());
    let plan = plan_directory(&request(Some(&["snr", "5"]), true), true).unwrap();
    assert_eq!(plan.divide, Some((Metric::Snr, 5)));
    assert_eq!(plan.rules.unwrap().len(), 3);
    let plain = plan_directory(&request(None, false), false).unwrap();
    assert_eq!(plain.divide, None);
    assert_eq!(plain.rules, None);
    assert!(plan_directory(&request(None, true), false).is_err());
}

#[test]
fn steps_follow_the_request() {
    let mut request =
        DirectoryRequest { divide: None, check_count: None, options: options(false) };
    assert_eq!(
        next_steps(&request, false),
        Steps {
            write_quality_map: true,
            warn_of_limits: false,
            move_files: false,
            draw_charts: true
        }
    );
    request.options.fwhm = Some(d(1.2));
    assert!(next_steps(&request, false).warn_of_limits);
    request.options.filter = true;
    assert!(next_steps(&request, false).move_files);
    assert!(!next_steps(&request, false).warn_of_limits);
    request.check_count = Some(4);
    assert_eq!(
        next_steps(&request, false),
        Steps {
            write_quality_map: false,
            warn_of_limits: false,
            move_files: false,
            draw_charts: false
        }
    );
}

#[test]
fn metrics_and_images_convert() {
    let r = record("a.fits", 5, 0.5, Some(4.0));
    let i = image_from_record(&r);
    assert_eq!(i.constellation_found, Some(true));
    assert_eq!(i.quality_image, Some(d(4.0)));
    assert_eq!(image_to_metrics(&i), r.metrics);
    let mut hidden = r.clone();
    hidden.metrics.quality_star_pattern_source = false;
    assert_eq!(image_from_record(&hidden).quality_image, None);
    let mut unsought = i;
    unsought.constellation_found = None;
    assert!(!image_to_metrics(&unsought).star_pattern_found);
}

#[test]
fn progress_slides_over_the_last_images() {
    let config = AppConfig { log_quality_window_t: d(50.0), ..AppConfig::default() };
    let mut p = Progress::start();
    let m = p.record(d(0.2), d(3.0), d(20.0), &config);
    assert_eq!(p.images_in_window, 3);
    assert_eq!(f(m.avg_quality), 0.2 * 100.0);
    assert_eq!(f(m.last_time), 20.0 / 60.0);
    p.record(d(0.4), d(5.0), d(20.0), &config);
    p.record(d(f64::NAN), d(5.0), d(20.0), &config);
    p.record(d(0.6), d(4.0), d(20.0), &config);
    let m = p.record(d(0.8), d(4.0), d(20.0), &config);
    assert_eq!(p.quality_count, 4);
    assert_eq!(p.window.len(), 3);
    assert_eq!(f(m.last_quality), (0.4 + 0.6 + 0.8) / 3.0 * 100.0);
    assert_eq!(f(m.avg_fwhm), 16.0 / 4.0);
    assert_eq!(f(m.last_time), 3.0 * 20.0 / 60.0);
}

#[test]
fn windows_without_room_stay_empty() {
    let config = AppConfig { log_quality_window_t: d(0.0), ..AppConfig::default() };
    let mut p = Progress::start();
    let m = p.record(d(0.2), d(3.0), d(20.0), &config);
    assert_eq!(p.images_in_window, 0);
    assert!(p.window.is_empty());
    assert!(m.last_quality.is_nan());
    let mut q = Progress::start();
    q.record(d(0.2), d(3.0), d(-20.0), &AppConfig::default());
    assert_eq!(q.images_in_window, -15);
    assert_eq!(q.window.len(), 1);
}

#[test]
fn percentiles_pick_the_nearest_place() {
    let v: Vec<Double> = (0..11).map(|i| d(i as f64)).collect();
    for p in (0..=100usize).step_by(5) {
        let index = (10.0 * p as f64 / 100.0).round();
        assert_eq!(f(percentile(&v, p)), index);
    }
    assert_eq!(percentile(&vec![], 50), d(0.0));
}

#[test]
fn quality_maps_rank_the_images() {
    let images = vec![
        image("b.fits", 0.2, 3.0, None),
        image("a.fits", 0.6, 2.0, Some(0.5)),
        image("long_name.fits", 0.4, 4.0, Some(0.25)),
    ];
    let config = AppConfig { rolling_avg_window: 2, ..AppConfig::default() };
    let map = quality_map(&images, None, &config);
    assert_eq!(map.name_width, 14);
    assert_eq!(map.rows.iter().map(|r| r.image).collect::<Vec<_>>(), vec![1, 2, 0]);
    assert_eq!(f(map.rows[0].quality), 0.6 * 100.0);
    assert_eq!(map.rows[0].quality_image, Some(d(50.0)));
    assert_eq!(map.rows[2].quality_image, None);
    assert_eq!(map.rows[2].note, Note::NoConstellation);
    assert_eq!(map.rows[0].note, Note::Nothing);
    assert_eq!(map.rows[0].brightest, Some(d(1.0)));
    assert_eq!(map.rows[0].star5, None);
    assert_eq!(map.percentiles.len(), 21);
    assert_eq!(map.percentiles[0].fwhm, d(4.0));
    assert_eq!(map.percentiles[20].fwhm, d(2.0));
    assert_eq!(map.percentiles[20].p, 100);
    assert_eq!(map.percentiles[20].quality_image, Some(d(50.0)));
    assert_eq!(map.median_quality, d(0.4));
    let trend = map.trend.unwrap();
    assert_eq!(trend.len(), 2);
    assert_eq!((trend[0].first, trend[0].last), (1, 2));
    assert_eq!(f(trend[0].quality), (0.6 + 0.2) / 2.0 * 100.0);
    assert_eq!(trend[0].quality_image, Some(d(50.0)));
    assert_eq!((trend[1].first, trend[1].last), (3, 3));
    assert_eq!(f(trend[1].fwhm), 4.0);
    assert!(quality_map(&images, None, &AppConfig::default()).trend.is_none());
    let low = quality_map(&images, Some(4), &config);
    assert_eq!(low.rows[0].note, Note::LowStars);
    assert_eq!(quality_map(&vec![], None, &config).name_width, 8);
}

#[test]
fn statistics_sum_up_a_metric() {
    let records = vec![
        record("a", 0, 1.0, Some(10.0)),
        record("b", 0, 4.0, None),
        record("c", 0, f64::NAN, None),
        record("d", 0, 2.5, None),
    ];
    let s = statistics(&records, Metric::Quality).unwrap();
    assert_eq!(s.available, 3);
    assert_eq!((s.least, s.greatest), (d(1.0), d(4.0)));
    assert_eq!(s.median, d(2.5));
    assert_eq!(s.mean, d(2.5));
    assert!(statistics(&records[1..], Metric::Snr).is_none());
    assert!(any_without_pattern(&records));
    assert!(!any_without_pattern(&records[..1].to_vec()));
}

fn chart_records() -> Vec<MetricRecord> {
    let mut list = vec![
        record("c", 30, 1.0, Some(3.0)),
        record("a", 10, 1.0, Some(1.0)),
        record("b", 10, 1.0, None),
        record("d", 40, 1.0, Some(2.0)),
    ];
    for (r, v) in list.iter_mut().zip([300.0, 100.0, 50.0, 200.0]) {
        r.metrics.background_corrected_adu = d(v);
    }
    list
}

#[test]
fn charts_are_laid_out_in_time() {
    let l = chart_layout(&chart_records(), Metric::Snr).unwrap();
    assert_eq!(l.points, vec![(55, 384), (55 + 2 * 824 / 4, 35), (55 + 3 * 824 / 4, 209)]);
    assert_eq!(l.median, d(2.0));
    assert_eq!(l.median_y, 209);
    assert_eq!(l.threshold, None);
    let ticks: Vec<(u32, f64)> = l.ticks.iter().map(|t| (t.y, f(t.value))).collect();
    assert_eq!(ticks, vec![(384, 1.0), (297, 1.5), (209, 2.0), (122, 2.5), (35, 3.0)]);
    let b = chart_layout(&chart_records(), Metric::Background).unwrap();
    assert_eq!(b.median, d(150.0));
    assert_eq!(b.threshold, Some(d(300.0)));
    assert_eq!(b.threshold_y, 35);
    assert!(chart_layout(&chart_records()[2..3], Metric::Snr).is_none());
    let flat = chart_layout(&chart_records(), Metric::Quality).unwrap();
    assert!(flat.points.iter().all(|p| p.1 == 384));
}

#[test]
fn charts_show_axes_points_and_lines() {
    let l = chart_layout(&chart_records(), Metric::Background).unwrap();
    let labels = ChartLabels {
        ticks: l.ticks.iter().map(|t| format!("{:.2}", f(t.value))).collect(),
        median: format!("{:.2}", f(l.median)),
        threshold: format!("{:.2}", f(l.threshold.unwrap())),
    };
    let p = draw_metric_chart(&l, &labels, Metric::Background);
    assert_eq!(p.dimensions(), (900, 420));
    let at = |x: u32, y: u32| p.pixel(x, y).unwrap();
    let black = Colour { red: 0, green: 0, blue: 0 };
    let white = Colour { red: 255, green: 255, blue: 255 };
    let red = Colour { red: 220, green: 0, blue: 0 };
    let green = Colour { red: 0, green: 150, blue: 0 };
    let blue = Colour { red: 20, green: 70, blue: 180 };
    assert_eq!(at(0, 419), white);
    assert_eq!(at(300, 385), black);
    assert_eq!(at(55, 300), black);
    assert_eq!(at(880, 385), white);
    assert_eq!(at(51, 384), black);
    assert_eq!(at(50, 384), white);
    assert_eq!(at(879, l.median_y), red);
    assert_eq!(at(879, l.threshold_y), green);
    let (x, y) = l.points[0];
    assert_eq!(at(x + 4, y + 4), blue);
    // The first letter of the name: a B.
    assert_eq!(at(60, 5), black);
    assert_eq!(at(64, 5), white);
    assert_eq!(at(64, 6), black);
    // The first letter of the median: an M.
    assert_eq!(at(600, 5), red);
    assert_eq!(at(601, 5), white);
    assert_eq!(at(601, 6), red);
    // The first letter of the threshold: a T.
    assert_eq!(at(600, 15), green);
    assert_eq!(at(600, 16), white);
    assert_eq!(at(602, 16), green);
}
