use lucky_star::cache::{
    modified_ns, record_for, CacheRecord, FileStat, MetricsCache, ALGORITHM_VERSION,
    CACHE_FORMAT_VERSION,
};
use lucky_star::clock::{current_timestamp, seconds_or_zero};
use lucky_star::double::Double;
use lucky_star::metrics::{
    available, median, medians, passes_all_filters, FilterRule, Metric, MetricValues,
};
use lucky_star::rules::{plan_filter, unique_removed_folder};
use std::collections::BTreeMap;

fn d(x: f64) -> Double {
    Double::from_bits(x.to_bits())
}

fn f(x: Double) -> f64 {
    f64::from_bits(x.to_bits())
}

fn three_decimals(v: Double) -> String {
    format!("{:.3}", f(v))
}

fn values(quality: f64, snr: Option<f64>) -> MetricValues {
    MetricValues {
        quality: d(quality),
        fwhm: d(2.0),
        star_count: 3,
        brightest_star_adu: d(10.0),
        brightest_star_photons: d(1.0),
        star5_photons: d(0.0),
        background_raw_adu: d(20.0),
        background_corrected_adu: d(20.0),
        quality_star_pattern: snr.map(d),
        quality_star_pattern_source: snr.is_some(),
        star_brightness_adu: snr.map(|x| d(x * 10.0)),
        snr: snr.map(d),
        star_pattern_found: snr.is_some(),
        matched_star_count: usize::from(snr.is_some()),
    }
}

fn record(name: &str, quality: f64, snr: Option<f64>) -> CacheRecord {
    CacheRecord {
        file_name: name.into(),
        size: 1,
        modified_ns: 1,
        cache_format_version: CACHE_FORMAT_VERSION,
        algorithm_version: ALGORITHM_VERSION.into(),
        configuration_fingerprint: "config-a".into(),
        metrics: values(quality, snr),
    }
}

#[test]
fn cache_round_trip_and_stale_configuration_invalidates_everything() {
    let mut cache = MetricsCache::empty("config-a");
    cache.upsert(record("a.fits", 0.9, Some(10.0)));
    assert_eq!(
        MetricsCache::load(Ok(cache.clone()), "config-a").unwrap().records.len(),
        1
    );
    assert!(MetricsCache::load(Ok(cache), "config-b").unwrap().records.is_empty());
}

#[test]
fn unreadable_caches_are_reported() {
    assert_eq!(
        MetricsCache::load(Err("no such file".to_string()), "config-a"),
        Err("no such file".to_string())
    );
}

#[test]
fn relative_rules_use_median_and_are_and_combined() {
    let records = vec![
        record("a", 1.0, Some(10.0)),
        record("b", 0.4, Some(20.0)),
        record("c", 0.6, None),
    ];
    let med = medians(&records);
    let quality = FilterRule::relative(Metric::Quality, d(0.83)).unwrap();
    let snr = FilterRule::relative(Metric::Snr, d(0.707)).unwrap();
    assert!(passes_all_filters(&records[0], &[quality.clone()], &med).unwrap());
    assert!(!passes_all_filters(&records[1], &[quality, snr.clone()], &med).unwrap());
    assert!(!passes_all_filters(&records[2], &[snr], &med).unwrap());
}

#[test]
fn absolute_rules_obey_metric_direction_and_conflicts_are_rejected() {
    let r = record("a", 0.8, Some(10.0));
    let med = medians(std::slice::from_ref(&r));
    assert!(passes_all_filters(
        &r,
        &[FilterRule::absolute(Metric::Fwhm, d(2.0)).unwrap()],
        &med
    )
    .unwrap());
    assert!(!passes_all_filters(
        &r,
        &[FilterRule::absolute(Metric::Background, d(1.0)).unwrap()],
        &med
    )
    .unwrap());
    let mut both = FilterRule::relative(Metric::Snr, d(1.0)).unwrap();
    both.absolute = Some(d(2.0));
    assert!(both.threshold(Some(d(10.0))).is_err());
}

#[test]
fn cache_records_keep_missing_pattern_metrics_as_missing() {
    let r = record("cloudy.fits", 0.5, None);
    assert_eq!(r.metrics.quality_star_pattern, None);
    assert_eq!(r.metrics.star_brightness_adu, None);
    assert_eq!(r.metrics.snr, None);
    assert!(!r.metrics.star_pattern_found);
    assert!(!passes_all_filters(
        &r,
        &[FilterRule::absolute(Metric::Snr, d(1.0)).unwrap()],
        &BTreeMap::new()
    )
    .unwrap());
}

#[test]
fn removed_folder_never_overwrites_an_existing_folder() {
    let existing = vec!["removed_snr_0.707".to_string()];
    let rule = FilterRule::relative(Metric::Snr, d(0.707)).unwrap();
    let result = unique_removed_folder(&[rule], 42, &existing, &three_decimals);
    assert_ne!(result, "removed_snr_0.707");
    assert_eq!(result, "removed_snr_0.707_2");
}

#[test]
fn removed_folders_take_the_first_free_number() {
    let existing: Vec<String> = ["x", "removed_snr_10.000", "removed_snr_10.000_2", "removed_snr_10.000_4"]
        .iter()
        .map(|s| s.to_string())
        .collect();
    let rule = FilterRule::absolute(Metric::Snr, d(10.0)).unwrap();
    assert_eq!(
        unique_removed_folder(&[rule.clone()], 1, &existing, &three_decimals),
        "removed_snr_10.000_3"
    );
    assert_eq!(
        unique_removed_folder(&[rule.clone()], 1, &Vec::new(), &three_decimals),
        "removed_snr_10.000"
    );
    assert_eq!(
        unique_removed_folder(&[rule.clone(), rule], 1720000000, &existing, &three_decimals),
        "removed_combined_1720000000"
    );
    let open = FilterRule { metric: Metric::Fwhm, relative: None, absolute: None };
    assert_eq!(
        unique_removed_folder(&[open], 0, &Vec::new(), &three_decimals),
        "removed_fwhm_"
    );
}

#[test]
fn filter_does_not_create_removed_folder_when_every_record_passes() {
    let r = record("a.fits", 1.0, None);
    let rule = FilterRule::absolute(Metric::Quality, d(0.5)).unwrap();
    let plan = plan_filter(&[r], &[rule]).unwrap();
    assert!(plan.rejected.is_empty());
    assert_eq!(plan.reports.len(), 1);
    assert_eq!(plan.reports[0].threshold, d(0.5));
}

#[test]
fn rejected_records_are_listed_and_reported() {
    let records = vec![
        record("a", 1.0, Some(10.0)),
        record("b", 0.4, Some(20.0)),
        record("c", 0.6, None),
    ];
    let rules = vec![
        FilterRule::relative(Metric::Snr, d(0.5)).unwrap(),
        FilterRule::absolute(Metric::Quality, d(0.5)).unwrap(),
    ];
    let plan = plan_filter(&records, &rules).unwrap();
    assert_eq!(plan.rejected, vec![1, 2]);
    assert_eq!(plan.reports[0].median, d(15.0));
    assert_eq!(plan.reports[0].threshold, d(7.5));
    assert_eq!(plan.reports[0].multiplier, Some(d(0.5)));
    assert!(plan.reports[0].keeps_higher);
    assert_eq!(plan.reports[1].absolute, d(0.5));
}

#[test]
fn filters_without_values_are_reported() {
    let records = vec![record("c", 0.6, None)];
    let rules = vec![FilterRule::relative(Metric::Snr, d(0.5)).unwrap()];
    assert_eq!(
        plan_filter(&records, &rules).unwrap_err(),
        "no values available for snr"
    );
}

#[test]
fn rules_reject_impossible_limits() {
    for bad in [0.0, -1.0, f64::NAN, f64::INFINITY] {
        assert_eq!(
            FilterRule::relative(Metric::Snr, d(bad)),
            Err("relative threshold must be greater than zero".to_string())
        );
    }
    for bad in [f64::NAN, f64::INFINITY, f64::NEG_INFINITY] {
        assert_eq!(
            FilterRule::absolute(Metric::Snr, d(bad)),
            Err("absolute threshold must be finite".to_string())
        );
    }
    assert_eq!(
        FilterRule { metric: Metric::Fwhm, relative: None, absolute: None }.threshold(None),
        Err("filter rule has no threshold".to_string())
    );
    assert_eq!(
        FilterRule { metric: Metric::Fwhm, relative: Some(d(1.0)), absolute: Some(d(1.0)) }
            .threshold(None),
        Err("both relative and absolute thresholds supplied for fwhm".to_string())
    );
    assert_eq!(
        FilterRule::relative(Metric::Fwhm, d(1.2)).unwrap().threshold(Some(d(2.0))),
        Ok(d(2.4))
    );
}

#[test]
fn medians_skip_missing_and_infinite_values() {
    let mut records = vec![
        record("a", 3.0, Some(10.0)),
        record("b", f64::NAN, None),
        record("c", 1.0, None),
        record("d", f64::INFINITY, None),
        record("e", 2.0, None),
    ];
    records[0].metrics.fwhm = d(-1.0);
    let table = medians(&records);
    assert_eq!(table.get(&Metric::Quality.index()), Some(&d(2.0)));
    assert_eq!(table.get(&Metric::Snr.index()), Some(&d(10.0)));
    assert_eq!(table.get(&Metric::Fwhm.index()), Some(&d(2.0)));
    assert_eq!(available(&records, Metric::Quality).len(), 3);
    assert!(medians::<CacheRecord>(&[]).is_empty());
}

#[test]
fn medians_sort_their_values() {
    let mut v = [d(3.0), d(-0.0), d(0.0), d(1.0), d(2.0)];
    assert_eq!(median(&mut v), Some(d(1.0)));
    assert!(v[0].is_sign_negative() && !v[1].is_sign_negative());
    assert_eq!(median(&mut []), None);
}

#[test]
fn metrics_have_names_and_directions() {
    let all = [
        (Metric::Quality, "quality", true, false),
        (Metric::Fwhm, "fwhm", false, false),
        (Metric::QualityStarPattern, "quality_star_pattern", true, true),
        (Metric::Background, "background", false, false),
        (Metric::StarBrightness, "star_brightness", true, true),
        (Metric::Snr, "snr", true, true),
    ];
    let m = values(0.25, Some(4.0));
    for (metric, key, higher, pattern) in all {
        assert_eq!(metric.key(), key);
        assert_eq!(metric.higher_is_better(), higher);
        assert_eq!(metric.requires_pattern(), pattern);
    }
    assert_eq!(Metric::Quality.value(&m), Some(d(0.25)));
    assert_eq!(Metric::Background.value(&m), Some(d(20.0)));
    assert_eq!(Metric::StarBrightness.value(&m), Some(d(40.0)));
}

#[test]
fn caches_replace_and_sort_records() {
    let mut cache = MetricsCache::empty("config-a");
    cache.upsert(record("b.fits", 0.1, None));
    cache.upsert(record("a.fits", 0.2, None));
    cache.upsert(record("b.fits", 0.3, None));
    let names: Vec<&str> = cache.records.iter().map(|r| r.file_name.as_str()).collect();
    assert_eq!(names, vec!["a.fits", "b.fits"]);
    assert_eq!(cache.records[1].metrics.quality, d(0.3));
    assert!(cache.is_compatible("config-a"));
    cache.records[0].cache_format_version = 2;
    assert!(!cache.is_compatible("config-a"));
}

#[test]
fn records_are_current_while_the_file_is_unchanged() {
    let stat = FileStat { size: 7, modified_ns: 9 };
    let r = record_for(Some("a.fits"), Ok(stat), "config-a", values(1.0, None)).unwrap();
    let mut cache = MetricsCache::empty("config-a");
    cache.upsert(r);
    assert!(cache.record_is_current(Some("a.fits"), Some(stat), "config-a"));
    assert!(!cache.record_is_current(Some("b.fits"), Some(stat), "config-a"));
    assert!(!cache.record_is_current(None, Some(stat), "config-a"));
    assert!(!cache.record_is_current(Some("a.fits"), None, "config-a"));
    assert!(!cache.record_is_current(Some("a.fits"), Some(stat), "config-b"));
    let other = FileStat { size: 7, modified_ns: 10 };
    assert!(!cache.record_is_current(Some("a.fits"), Some(other), "config-a"));
    assert_eq!(
        record_for(None, Ok(stat), "config-a", values(1.0, None)).unwrap_err(),
        "invalid file name"
    );
    assert_eq!(
        record_for(Some("a"), Err("gone".to_string()), "c", values(1.0, None)).unwrap_err(),
        "gone"
    );
    assert_eq!(modified_ns(Some(5)), 5);
    assert_eq!(modified_ns(None), 0);
}

#[test]
fn the_clock_is_past_the_epoch() {
    assert!(current_timestamp() > 1_600_000_000);
    assert_eq!(seconds_or_zero(Some(12)), 12);
    assert_eq!(seconds_or_zero(None), 0);
}
