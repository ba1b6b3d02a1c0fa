//! Metrics of analysed images and the rules that images are filtered by.
use crate::double::{
    at_most, of_int, place, product, quotient, sum, total_order_separates_patterns, Double,
};
use crate::order::{
    arranged, arranging_forgets_the_order, arranging_keeps_a_sorted_sequence,
    arranging_keeps_the_elements, in_order, rising, sort_rising,
};
use std::collections::BTreeMap;
use vstd::prelude::*;

verus! {

/// What the analysis of one image gives.
#[derive(Clone, Debug, PartialEq)]
pub struct MetricValues {
    pub quality: Double,
    pub fwhm: Double,
    pub star_count: usize,
    pub brightest_star_adu: Double,
    pub brightest_star_photons: Double,
    pub star5_photons: Double,
    pub background_raw_adu: Double,
    pub background_corrected_adu: Double,
    pub quality_star_pattern: Option<Double>,
    pub quality_star_pattern_source: bool,
    pub star_brightness_adu: Option<Double>,
    pub snr: Option<Double>,
    pub star_pattern_found: bool,
    pub matched_star_count: usize,
}

/// Something that metrics belong to.
pub trait Measured {
    /// The metrics.
    spec fn values(&self) -> MetricValues;

    fn metrics(&self) -> (r: &MetricValues)
        ensures
            *r == self.values(),
    ;
}

/// The metrics of one file of a session.
#[derive(Clone, Debug, PartialEq)]
pub struct MetricRecord {
    pub file_name: String,
    pub modified_ns: u128,
    pub metrics: MetricValues,
}

impl Measured for MetricRecord {
    open spec fn values(&self) -> MetricValues {
        self.metrics
    }

    fn metrics(&self) -> (r: &MetricValues) {
        &self.metrics
    }
}

#[derive(Clone, Copy, Debug, PartialEq, Eq, Structural, PartialOrd, Ord, Hash)]
pub enum Metric {
    Quality,
    Fwhm,
    QualityStarPattern,
    Background,
    StarBrightness,
    Snr,
}

impl Metric {
    /// The name of the metric.
    pub open spec fn name(self) -> Seq<char> {
        match self {
            Metric::Quality => "quality"@,
            Metric::Fwhm => "fwhm"@,
            Metric::QualityStarPattern => "quality_star_pattern"@,
            Metric::Background => "background"@,
            Metric::StarBrightness => "star_brightness"@,
            Metric::Snr => "snr"@,
        }
    }

    pub fn key(self) -> (r: &'static str)
        ensures
            r@ == self.name(),
    {
        match self {
            Metric::Quality => "quality",
            Metric::Fwhm => "fwhm",
            Metric::QualityStarPattern => "quality_star_pattern",
            Metric::Background => "background",
            Metric::StarBrightness => "star_brightness",
            Metric::Snr => "snr",
        }
    }

    /// A larger value means a better image.
    pub open spec fn rises(self) -> bool {
        self != Metric::Background && self != Metric::Fwhm
    }

    pub fn higher_is_better(self) -> (r: bool)
        ensures
            r == self.rises(),
    {
        !matches!(self, Metric::Background | Metric::Fwhm)
    }

    /// Only a matched star pattern gives a value.
    pub open spec fn of_pattern(self) -> bool {
        self == Metric::QualityStarPattern || self == Metric::StarBrightness || self == Metric::Snr
    }

    pub fn requires_pattern(self) -> (r: bool)
        ensures
            r == self.of_pattern(),
    {
        matches!(self, Metric::QualityStarPattern | Metric::StarBrightness | Metric::Snr)
    }

    /// The value that the metric has for an image.
    pub open spec fn reading(self, m: MetricValues) -> Option<Double> {
        match self {
            Metric::Quality => Some(m.quality),
            Metric::Fwhm => Some(m.fwhm),
            Metric::QualityStarPattern => m.quality_star_pattern,
            Metric::Background => Some(m.background_corrected_adu),
            Metric::StarBrightness => m.star_brightness_adu,
            Metric::Snr => m.snr,
        }
    }

    pub fn value(self, m: &MetricValues) -> (r: Option<Double>)
        ensures
            r == self.reading(*m),
    {
        match self {
            Metric::Quality => Some(m.quality),
            Metric::Fwhm => Some(m.fwhm),
            Metric::QualityStarPattern => m.quality_star_pattern,
            Metric::Background => Some(m.background_corrected_adu),
            Metric::StarBrightness => m.star_brightness_adu,
            Metric::Snr => m.snr,
        }
    }

    /// The number that stands for the metric where metrics are keys.
    pub open spec fn number(self) -> u8 {
        match self {
            Metric::Quality => 0,
            Metric::Fwhm => 1,
            Metric::QualityStarPattern => 2,
            Metric::Background => 3,
            Metric::StarBrightness => 4,
            Metric::Snr => 5,
        }
    }

    pub fn index(self) -> (r: u8)
        ensures
            r == self.number(),
    {
        match self {
            Metric::Quality => 0,
            Metric::Fwhm => 1,
            Metric::QualityStarPattern => 2,
            Metric::Background => 3,
            Metric::StarBrightness => 4,
            Metric::Snr => 5,
        }
    }
}

/// A limit that a metric has to keep: a multiple of the median, or a value.
#[derive(Clone, Debug, PartialEq)]
pub struct FilterRule {
    pub metric: Metric,
    pub relative: Option<Double>,
    pub absolute: Option<Double>,
}

/// The value of a fallible call, with the text of the error.
pub open spec fn outcome<T>(r: Result<T, String>) -> Result<T, Seq<char>> {
    match r {
        Ok(v) => Ok(v),
        Err(e) => Err(e@),
    }
}

impl FilterRule {
    pub fn relative(metric: Metric, multiplier: Double) -> (r: Result<FilterRule, String>)
        ensures
            outcome(r) == (if multiplier.finite() && multiplier.units() > 0 {
                Ok::<FilterRule, Seq<char>>(
                    FilterRule { metric, relative: Some(multiplier), absolute: None },
                )
            } else {
                Err("relative threshold must be greater than zero"@)
            }),
    {
        if !multiplier.is_finite() || multiplier.at_most(Double::from_bits(0)) {
            return Err("relative threshold must be greater than zero".to_owned());
        }
        Ok(FilterRule { metric, relative: Some(multiplier), absolute: None })
    }

    pub fn absolute(metric: Metric, threshold: Double) -> (r: Result<FilterRule, String>)
        ensures
            outcome(r) == (if threshold.finite() {
                Ok::<FilterRule, Seq<char>>(
                    FilterRule { metric, relative: None, absolute: Some(threshold) },
                )
            } else {
                Err("absolute threshold must be finite"@)
            }),
    {
        if !threshold.is_finite() {
            return Err("absolute threshold must be finite".to_owned());
        }
        Ok(FilterRule { metric, relative: None, absolute: Some(threshold) })
    }

    /// The limit that the rule sets where the metric has this median.
    pub open spec fn limit(self, median: Option<Double>) -> Result<Double, Seq<char>> {
        match (self.relative, self.absolute) {
            (Some(_), Some(_)) => Err(
                "both relative and absolute thresholds supplied for "@ + self.metric.name(),
            ),
            (Some(factor), None) => match median {
                Some(m) => Ok(product(factor, m)),
                None => Err("no values available for "@ + self.metric.name()),
            },
            (None, Some(value)) => Ok(value),
            (None, None) => Err("filter rule has no threshold"@),
        }
    }

    pub fn threshold(&self, median: Option<Double>) -> (r: Result<Double, String>)
        ensures
            outcome(r) == self.limit(median),
    {
        match (self.relative, self.absolute) {
            (Some(_), Some(_)) => Err(
                "both relative and absolute thresholds supplied for ".to_owned().concat(
                    self.metric.key(),
                ),
            ),
            (Some(factor), None) => match median {
                Some(m) => Ok(factor.product(m)),
                None => Err("no values available for ".to_owned().concat(self.metric.key())),
            },
            (None, Some(value)) => Ok(value),
            (None, None) => Err("filter rule has no threshold".to_owned()),
        }
    }

    /// An image with these metrics keeps the limit.
    pub open spec fn kept_by(self, m: MetricValues, median: Option<Double>) -> bool {
        match (self.metric.reading(m), self.limit(median)) {
            (Some(value), Ok(limit)) => if self.metric.rises() {
                at_most(limit, value)
            } else {
                at_most(value, limit)
            },
            _ => false,
        }
    }
}

/// The median of the numbers: the one in the middle of the total order, or
/// half of the sum of the two in the middle.
pub open spec fn median_of(s: Seq<Double>) -> Option<Double> {
    let sorted = arranged(s, rising());
    let n = sorted.len() as int;
    if n == 0 {
        None
    } else if n % 2 == 0 {
        Some(quotient(sum(sorted[n / 2 - 1], sorted[n / 2]), of_int(2)))
    } else {
        Some(sorted[n / 2])
    }
}

/// The median of the numbers, which are sorted in the process.
pub(crate) fn median_of_all(values: Vec<Double>) -> (r: (Option<Double>, Vec<Double>))
    ensures
        r.0 == median_of(values@),
        r.1@ == arranged(values@, rising()),
        r.1@.len() == values@.len(),
{
    let sorted = sort_rising(values);
    let n: usize = sorted.len();
    let m = if n == 0 {
        None
    } else if n % 2 == 0 {
        Some(sorted[n / 2 - 1].sum(sorted[n / 2]).quotient(Double::of_u64(2)))
    } else {
        Some(sorted[n / 2])
    };
    (m, sorted)
}

/// Sorts the values and gives their median; `None` when there are none.
pub fn median(values: &mut [Double]) -> (r: Option<Double>)
    ensures
        final(values)@ == arranged(old(values)@, rising()),
        r == median_of(old(values)@),
{
    let n: usize = values.len();
    let mut copy: Vec<Double> = Vec::new();
    let mut i: usize = 0;
    while i < n
        invariant
            i <= n == values@.len(),
            copy@ == values@.take(i as int),
        decreases n - i,
    {
        copy.push(values[i]);
        i = i + 1;
    }
    assert(copy@ == values@);
    let ghost before = values@;
    let (m, sorted) = median_of_all(copy);
    i = 0;
    while i < n
        invariant
            i <= n == values@.len(),
            sorted@.len() == n,
            values@ == sorted@.take(i as int) + before.skip(i as int),
            before.len() == n,
        decreases n - i,
    {
        values[i] = sorted[i];
        i = i + 1;
    }
    assert(values@ == sorted@);
    m
}

/// The finite values that a metric has among the records, in their order.
pub open spec fn finite_readings<R: Measured>(records: Seq<R>, metric: Metric) -> Seq<Double>
    decreases records.len(),
{
    if records.len() == 0 {
        Seq::empty()
    } else {
        let rest = finite_readings(records.drop_last(), metric);
        match metric.reading(records.last().values()) {
            Some(v) => if v.finite() {
                rest.push(v)
            } else {
                rest
            },
            None => rest,
        }
    }
}

/// The finite values that a metric has among the records, in their order.
pub fn available<R: Measured>(records: &[R], metric: Metric) -> (r: Vec<Double>)
    ensures
        r@ == finite_readings(records@, metric),
{
    let mut values: Vec<Double> = Vec::new();
    let mut i: usize = 0;
    assert(records@.take(0) == Seq::<R>::empty());
    while i < records.len()
        invariant
            i <= records@.len(),
            values@ == finite_readings(records@.take(i as int), metric),
        decreases records@.len() - i,
    {
        proof {
            let t = records@.take(i + 1);
            assert(t.drop_last() == records@.take(i as int));
            assert(t.last() == records@[i as int]);
        }
        if let Some(v) = metric.value(records[i].metrics()) {
            if v.is_finite() {
                values.push(v);
            }
        }
        i = i + 1;
    }
    assert(records@.take(i as int) == records@);
    values
}

/// The median that a table holds for a metric.
pub open spec fn median_in(medians: Map<u8, Double>, metric: Metric) -> Option<Double> {
    if medians.contains_key(metric.number()) {
        Some(medians[metric.number()])
    } else {
        None
    }
}

pub(crate) fn look_up(medians: &BTreeMap<u8, Double>, metric: Metric) -> (r: Option<Double>)
    ensures
        r == median_in(medians@, metric),
{
    match medians.get(&metric.index()) {
        Some(m) => Some(*m),
        None => None,
    }
}

fn add_median<R: Measured>(table: &mut BTreeMap<u8, Double>, records: &[R], metric: Metric)
    ensures
        final(table)@ == (match median_of(finite_readings(records@, metric)) {
            Some(m) => old(table)@.insert(metric.number(), m),
            None => old(table)@,
        }),
{
    let values = available(records, metric);
    let (m, _) = median_of_all(values);
    if let Some(m) = m {
        table.insert(metric.index(), m);
    }
}

/// The metric with this number.
pub open spec fn numbered(k: u8) -> Metric {
    if k == 0 {
        Metric::Quality
    } else if k == 1 {
        Metric::Fwhm
    } else if k == 2 {
        Metric::QualityStarPattern
    } else if k == 3 {
        Metric::Background
    } else if k == 4 {
        Metric::StarBrightness
    } else {
        Metric::Snr
    }
}

/// The median of every metric over its finite values, by the number of the
/// metric. A metric without any has no entry.
pub open spec fn median_table<R: Measured>(records: Seq<R>) -> Map<u8, Double> {
    Map::new(
        |k: u8| k < 6 && median_of(finite_readings(records, numbered(k))) is Some,
        |k: u8| median_of(finite_readings(records, numbered(k)))->0,
    )
}

/// The table holds the median of each metric.
pub proof fn the_table_holds_the_medians<R: Measured>(records: Seq<R>, metric: Metric)
    ensures
        median_in(median_table(records), metric) == median_of(finite_readings(records, metric)),
{
}

/// The median of every metric over its finite values, by the number of the
/// metric. A metric without any has no entry.
pub fn medians<R: Measured>(records: &[R]) -> (r: BTreeMap<u8, Double>)
    ensures
        r@ == median_table(records@),
{
    let mut r: BTreeMap<u8, Double> = BTreeMap::new();
    add_median(&mut r, records, Metric::Quality);
    add_median(&mut r, records, Metric::Fwhm);
    add_median(&mut r, records, Metric::QualityStarPattern);
    add_median(&mut r, records, Metric::Background);
    add_median(&mut r, records, Metric::StarBrightness);
    add_median(&mut r, records, Metric::Snr);
    assert(r@ =~= median_table(records@));
    r
}

/// What the rules from `i` on say of an image: the first one that it does not
/// keep, or whose limit cannot be told, decides.
pub open spec fn verdict(
    m: MetricValues,
    rules: Seq<FilterRule>,
    medians: Map<u8, Double>,
    i: int,
) -> Result<bool, Seq<char>>
    decreases rules.len() - i,
{
    if i >= rules.len() {
        Ok(true)
    } else {
        let median = median_in(medians, rules[i].metric);
        match rules[i].metric.reading(m) {
            None => Ok(false),
            Some(_) => match rules[i].limit(median) {
                Err(e) => Err(e),
                Ok(_) => if rules[i].kept_by(m, median) {
                    verdict(m, rules, medians, i + 1)
                } else {
                    Ok(false)
                },
            },
        }
    }
}

/// Whether an image keeps every rule.
pub fn passes_all_filters<R: Measured>(
    record: &R,
    rules: &[FilterRule],
    medians: &BTreeMap<u8, Double>,
) -> (r: Result<bool, String>)
    ensures
        outcome(r) == verdict(record.values(), rules@, medians@, 0),
{
    let ghost m = record.values();
    let mut i: usize = 0;
    while i < rules.len()
        invariant
            i <= rules@.len(),
            m == record.values(),
            verdict(m, rules@, medians@, 0) == verdict(m, rules@, medians@, i as int),
        decreases rules@.len() - i,
    {
        let rule = &rules[i];
        let value = match rule.metric.value(record.metrics()) {
            Some(v) => v,
            None => {
                return Ok(false);
            },
        };
        let limit = match rule.threshold(look_up(medians, rule.metric)) {
            Ok(t) => t,
            Err(e) => {
                return Err(e);
            },
        };
        let passes = if rule.metric.higher_is_better() {
            limit.at_most(value)
        } else {
            value.at_most(limit)
        };
        if !passes {
            return Ok(false);
        }
        i = i + 1;
    }
    Ok(true)
}

proof fn lemma_verdict(
    m: MetricValues,
    rules: Seq<FilterRule>,
    medians: Map<u8, Double>,
    i: int,
)
    requires
        0 <= i <= rules.len(),
    ensures
        verdict(m, rules, medians, i) == Ok::<bool, Seq<char>>(true) <==> forall|j: int|
            i <= j < rules.len() ==> #[trigger] rules[j].kept_by(
                m,
                median_in(medians, rules[j].metric),
            ),
    decreases rules.len() - i,
{
    if i < rules.len() {
        lemma_verdict(m, rules, medians, i + 1);
        let kept = rules[i].kept_by(m, median_in(medians, rules[i].metric));
        if kept && verdict(m, rules, medians, i + 1) == Ok::<bool, Seq<char>>(true) {
            assert forall|j: int| i <= j < rules.len() implies #[trigger] rules[j].kept_by(
                m,
                median_in(medians, rules[j].metric),
            ) by {
                if j > i {
                    assert(i + 1 <= j);
                }
            }
        }
    }
}

/// An image passes exactly when it keeps each of the rules.
pub proof fn passing_is_keeping_every_rule(
    m: MetricValues,
    rules: Seq<FilterRule>,
    medians: Map<u8, Double>,
)
    ensures
        verdict(m, rules, medians, 0) == Ok::<bool, Seq<char>>(true) <==> forall|j: int|
            0 <= j < rules.len() ==> #[trigger] rules[j].kept_by(
                m,
                median_in(medians, rules[j].metric),
            ),
{
    lemma_verdict(m, rules, medians, 0);
}

/// An image without a value for a metric passes no filter that has a rule on
/// that metric.
pub proof fn a_missing_value_never_passes(
    m: MetricValues,
    rules: Seq<FilterRule>,
    medians: Map<u8, Double>,
    j: int,
)
    requires
        0 <= j < rules.len(),
        rules[j].metric.reading(m) is None,
    ensures
        verdict(m, rules, medians, 0) != Ok::<bool, Seq<char>>(true),
{
    lemma_verdict(m, rules, medians, 0);
    assert(!rules[j].kept_by(m, median_in(medians, rules[j].metric)));
}

/// A relative rule on a metric that rises keeps an image exactly when its value
/// is at least the multiplier times the median; one on a metric that falls,
/// when its value is at most that.
pub proof fn relative_rules_scale_the_median(
    metric: Metric,
    multiplier: Double,
    m: MetricValues,
    value: Double,
    median: Double,
)
    requires
        metric.reading(m) == Some(value),
    ensures
        ({
            let rule = FilterRule { metric, relative: Some(multiplier), absolute: None };
            rule.kept_by(m, Some(median)) <==> (if metric.rises() {
                at_most(product(multiplier, median), value)
            } else {
                at_most(value, product(multiplier, median))
            })
        }),
{
}

/// An absolute rule does not look at the median.
pub proof fn absolute_rules_ignore_the_median(
    metric: Metric,
    threshold: Double,
    m: MetricValues,
    one: Option<Double>,
    other: Option<Double>,
)
    ensures
        ({
            let rule = FilterRule { metric, relative: None, absolute: Some(threshold) };
            &&& rule.limit(one) == Ok::<Double, Seq<char>>(threshold)
            &&& rule.kept_by(m, one) == rule.kept_by(m, other)
        }),
{
}

/// Each metric is its own field of the metrics, and has no value exactly where
/// that field has none.
pub proof fn metrics_are_their_fields(m: MetricValues)
    ensures
        Metric::Quality.reading(m) == Some(m.quality),
        Metric::Fwhm.reading(m) == Some(m.fwhm),
        Metric::QualityStarPattern.reading(m) == m.quality_star_pattern,
        Metric::Background.reading(m) == Some(m.background_corrected_adu),
        Metric::StarBrightness.reading(m) == m.star_brightness_adu,
        Metric::Snr.reading(m) == m.snr,
{
}

/// Quality, the quality of a pattern, brightness and signal to noise are better
/// the larger they are; background and width are better the smaller.
pub proof fn only_background_and_width_fall(metric: Metric)
    ensures
        metric.rises() <==> metric == Metric::Quality || metric == Metric::QualityStarPattern
            || metric == Metric::StarBrightness || metric == Metric::Snr,
        metric.of_pattern() <==> metric != Metric::Quality && metric != Metric::Fwhm && metric
            != Metric::Background,
{
}

/// What a filter with one absolute limit lets pass, metric by metric: it
/// compares the field of that metric with the limit, and a field without a value
/// does not pass.
pub proof fn absolute_filters_compare_their_field(
    m: MetricValues,
    limit: Double,
    medians: Map<u8, Double>,
)
    ensures
        ({
            let passes = |metric: Metric|
                verdict(
                    m,
                    seq![FilterRule { metric, relative: None, absolute: Some(limit) }],
                    medians,
                    0,
                ) == Ok::<bool, Seq<char>>(true);
            &&& passes(Metric::Quality) <==> at_most(limit, m.quality)
            &&& passes(Metric::Fwhm) <==> at_most(m.fwhm, limit)
            &&& passes(Metric::Background) <==> at_most(m.background_corrected_adu, limit)
            &&& passes(Metric::QualityStarPattern) <==> m.quality_star_pattern is Some && at_most(
                limit,
                m.quality_star_pattern->0,
            )
            &&& passes(Metric::StarBrightness) <==> m.star_brightness_adu is Some && at_most(
                limit,
                m.star_brightness_adu->0,
            )
            &&& passes(Metric::Snr) <==> m.snr is Some && at_most(limit, m.snr->0)
        }),
{
    lemma_absolute_rule(m, Metric::Quality, limit, medians);
    lemma_absolute_rule(m, Metric::Fwhm, limit, medians);
    lemma_absolute_rule(m, Metric::Background, limit, medians);
    lemma_absolute_rule(m, Metric::QualityStarPattern, limit, medians);
    lemma_absolute_rule(m, Metric::StarBrightness, limit, medians);
    lemma_absolute_rule(m, Metric::Snr, limit, medians);
}

proof fn lemma_absolute_rule(
    m: MetricValues,
    metric: Metric,
    limit: Double,
    medians: Map<u8, Double>,
)
    ensures
        ({
            let rule = FilterRule { metric, relative: None, absolute: Some(limit) };
            verdict(m, seq![rule], medians, 0) == Ok::<bool, Seq<char>>(true) <==> rule.kept_by(
                m,
                None,
            )
        }),
{
    lemma_one_rule(m, FilterRule { metric, relative: None, absolute: Some(limit) }, medians);
}

proof fn lemma_one_rule(m: MetricValues, rule: FilterRule, medians: Map<u8, Double>)
    ensures
        verdict(m, seq![rule], medians, 0) == Ok::<bool, Seq<char>>(true) <==> rule.kept_by(
            m,
            median_in(medians, rule.metric),
        ),
{
    let rules = seq![rule];
    lemma_verdict(m, rules, medians, 0);
    assert(rules[0] == rule);
    if rule.kept_by(m, median_in(medians, rule.metric)) {
        assert forall|j: int| 0 <= j < rules.len() implies #[trigger] rules[j].kept_by(
            m,
            median_in(medians, rules[j].metric),
        ) by {}
    }
}

/// What a filter with one relative limit lets pass among records: it compares
/// the field of its metric with the multiple of the median of that field.
pub proof fn relative_filters_compare_with_the_median<R: Measured>(
    records: Seq<R>,
    rule: FilterRule,
    factor: Double,
    m: MetricValues,
)
    requires
        rule.relative == Some(factor),
        rule.absolute is None,
    ensures
        ({
            let passes = verdict(m, seq![rule], median_table(records), 0) == Ok::<bool, Seq<char>>(
                true,
            );
            let middle = median_of(finite_readings(records, rule.metric));
            let limit = product(factor, middle->0);
            &&& middle is None ==> !passes
            &&& middle is Some ==> (passes <==> match rule.metric {
                Metric::Quality => at_most(limit, m.quality),
                Metric::Fwhm => at_most(m.fwhm, limit),
                Metric::Background => at_most(m.background_corrected_adu, limit),
                Metric::QualityStarPattern => m.quality_star_pattern is Some && at_most(
                    limit,
                    m.quality_star_pattern->0,
                ),
                Metric::StarBrightness => m.star_brightness_adu is Some && at_most(
                    limit,
                    m.star_brightness_adu->0,
                ),
                Metric::Snr => m.snr is Some && at_most(limit, m.snr->0),
            })
        }),
{
    the_table_holds_the_medians(records, rule.metric);
    lemma_one_rule(m, rule, median_table(records));
}

/// A filter with several rules lets pass exactly what each of them alone does.
pub proof fn filters_are_combined(
    m: MetricValues,
    rules: Seq<FilterRule>,
    medians: Map<u8, Double>,
)
    ensures
        verdict(m, rules, medians, 0) == Ok::<bool, Seq<char>>(true) <==> forall|j: int|
            #![trigger rules[j]]
            0 <= j < rules.len() ==> verdict(m, seq![rules[j]], medians, 0) == Ok::<
                bool,
                Seq<char>,
            >(true),
{
    lemma_verdict(m, rules, medians, 0);
    if verdict(m, rules, medians, 0) == Ok::<bool, Seq<char>>(true) {
        assert forall|j: int| #![trigger rules[j]] 0 <= j < rules.len() implies verdict(
            m,
            seq![rules[j]],
            medians,
            0,
        ) == Ok::<bool, Seq<char>>(true) by {
            lemma_one_rule(m, rules[j], medians);
            assert(rules[j].kept_by(m, median_in(medians, rules[j].metric)));
        }
    }
    if forall|j: int|
        #![trigger rules[j]]
        0 <= j < rules.len() ==> verdict(m, seq![rules[j]], medians, 0) == Ok::<bool, Seq<char>>(
            true,
        ) {
        assert forall|j: int| 0 <= j < rules.len() implies #[trigger] rules[j].kept_by(
            m,
            median_in(medians, rules[j].metric),
        ) by {
            lemma_one_rule(m, rules[j], medians);
        }
    }
}

/// The median is the value in the middle of the values in rising order, or half
/// of the sum of the two in the middle, whatever order the values come in.
pub proof fn medians_are_in_the_middle(values: Seq<Double>, sorted: Seq<Double>)
    requires
        values.len() > 0,
        sorted.to_multiset() == values.to_multiset(),
        forall|i: int, j: int|
            0 <= i < j < sorted.len() ==> place(#[trigger] sorted[i]) <= place(#[trigger] sorted[j]),
    ensures
        ({
            let n = sorted.len() as int;
            median_of(values) == Some(
                if n % 2 == 1 {
                    sorted[(n - 1) / 2]
                } else {
                    quotient(sum(sorted[n / 2 - 1], sorted[n / 2]), of_int(2))
                },
            )
        }),
{
    lemma_rising_unique(values, sorted);
    arranging_keeps_the_elements(values, rising());
}

/// Sorting gives the one arrangement of the values that rises.
pub(crate) proof fn lemma_rising_unique(values: Seq<Double>, sorted: Seq<Double>)
    requires
        sorted.to_multiset() == values.to_multiset(),
        forall|i: int, j: int|
            0 <= i < j < sorted.len() ==> place(#[trigger] sorted[i]) <= place(#[trigger] sorted[j]),
    ensures
        arranged(values, rising()) == sorted,
        values.len() == sorted.len(),
{
    let leq = rising();
    assert forall|a: Double, b: Double| #[trigger] leq(a, b) && leq(b, a) implies a == b by {
        total_order_separates_patterns(a, b);
    }
    arranging_forgets_the_order(values, sorted, leq);
    assert(in_order(sorted, leq));
    arranging_keeps_a_sorted_sequence(sorted, leq);
    arranging_keeps_the_elements(values, leq);
}

/// The values of a metric are those of the records that have a finite one, each
/// as often as it occurs, in the order of the records.
pub proof fn values_come_from_the_records<R: Measured>(records: Seq<R>, metric: Metric, last: R)
    ensures
        ({
            let more = finite_readings(records.push(last), metric);
            let value = match metric {
                Metric::Quality => Some(last.values().quality),
                Metric::Fwhm => Some(last.values().fwhm),
                Metric::QualityStarPattern => last.values().quality_star_pattern,
                Metric::Background => Some(last.values().background_corrected_adu),
                Metric::StarBrightness => last.values().star_brightness_adu,
                Metric::Snr => last.values().snr,
            };
            if value is Some && value->0.finite() {
                more == finite_readings(records, metric).push(value->0)
            } else {
                more == finite_readings(records, metric)
            }
        }),
        finite_readings(Seq::<R>::empty(), metric) == Seq::<Double>::empty(),
{
    let s = records.push(last);
    assert(s.drop_last() =~= records);
    assert(s.last() == last);
}

/// An image whose pattern was not found, so that the fields of the pattern have
/// no value, passes no filter with a rule on one of them.
pub proof fn images_without_a_pattern_fail(
    m: MetricValues,
    rules: Seq<FilterRule>,
    medians: Map<u8, Double>,
    j: int,
)
    requires
        0 <= j < rules.len(),
        match rules[j].metric {
            Metric::QualityStarPattern => m.quality_star_pattern is None,
            Metric::StarBrightness => m.star_brightness_adu is None,
            Metric::Snr => m.snr is None,
            _ => false,
        },
    ensures
        verdict(m, rules, medians, 0) != Ok::<bool, Seq<char>>(true),
{
    a_missing_value_never_passes(m, rules, medians, j);
}

/// No values have no median.
pub proof fn nothing_has_no_median(values: Seq<Double>)
    ensures
        median_of(values) is None <==> values.len() == 0,
{
    arranging_keeps_the_elements(values, rising());
}

/// What one rule says of an image: without a value it does not pass, whatever
/// the rule is; a rule with two limits or none, or relative to a median that
/// there is not, is an error; else the comparison decides.
pub proof fn one_rule_says(m: MetricValues, rule: FilterRule, medians: Map<u8, Double>)
    ensures
        ({
            let said = verdict(m, seq![rule], medians, 0);
            let value = match rule.metric {
                Metric::Quality => Some(m.quality),
                Metric::Fwhm => Some(m.fwhm),
                Metric::QualityStarPattern => m.quality_star_pattern,
                Metric::Background => Some(m.background_corrected_adu),
                Metric::StarBrightness => m.star_brightness_adu,
                Metric::Snr => m.snr,
            };
            let middle = median_in(medians, rule.metric);
            let falls = rule.metric == Metric::Background || rule.metric == Metric::Fwhm;
            &&& value is None ==> said == Ok::<bool, Seq<char>>(false)
            &&& value is Some && rule.relative is Some && rule.absolute is Some ==> said == Err::<
                bool,
                Seq<char>,
            >("both relative and absolute thresholds supplied for "@ + rule.metric.name())
            &&& value is Some && rule.relative is None && rule.absolute is None ==> said == Err::<
                bool,
                Seq<char>,
            >("filter rule has no threshold"@)
            &&& value is Some && rule.relative is Some && rule.absolute is None && middle is None
                ==> said == Err::<bool, Seq<char>>(
                "no values available for "@ + rule.metric.name(),
            )
            &&& value is Some && rule.relative is None && rule.absolute is Some ==> said == Ok::<
                bool,
                Seq<char>,
            >(
                if falls {
                    at_most(value->0, rule.absolute->0)
                } else {
                    at_most(rule.absolute->0, value->0)
                },
            )
            &&& value is Some && rule.relative is Some && rule.absolute is None && middle is Some
                ==> said == Ok::<bool, Seq<char>>(
                if falls {
                    at_most(value->0, product(rule.relative->0, middle->0))
                } else {
                    at_most(product(rule.relative->0, middle->0), value->0)
                },
            )
        }),
{
    reveal_with_fuel(verdict, 2);
    let rules = seq![rule];
    assert(rules.len() == 1 && rules[0] == rule);
}

/// Rules are asked one after the other: the first one that an image does not
/// pass says what all of them say, and no rules let everything pass.
pub proof fn the_first_failing_rule_decides(
    m: MetricValues,
    rules: Seq<FilterRule>,
    medians: Map<u8, Double>,
    j: int,
)
    requires
        0 <= j < rules.len(),
        verdict(m, seq![rules[j]], medians, 0) != Ok::<bool, Seq<char>>(true),
        forall|i: int|
            #![trigger rules[i]]
            0 <= i < j ==> verdict(m, seq![rules[i]], medians, 0) == Ok::<bool, Seq<char>>(true),
    ensures
        verdict(m, rules, medians, 0) == verdict(m, seq![rules[j]], medians, 0),
        verdict(m, Seq::<FilterRule>::empty(), medians, 0) == Ok::<bool, Seq<char>>(true),
{
    lemma_rules_in_turn(m, rules, medians, 0, j);
}

proof fn lemma_rules_in_turn(
    m: MetricValues,
    rules: Seq<FilterRule>,
    medians: Map<u8, Double>,
    i: int,
    j: int,
)
    requires
        0 <= i <= j < rules.len(),
        verdict(m, seq![rules[j]], medians, 0) != Ok::<bool, Seq<char>>(true),
        forall|k: int|
            #![trigger rules[k]]
            0 <= k < j ==> verdict(m, seq![rules[k]], medians, 0) == Ok::<bool, Seq<char>>(true),
    ensures
        verdict(m, rules, medians, i) == verdict(m, seq![rules[j]], medians, 0),
    decreases j - i,
{
    reveal_with_fuel(verdict, 2);
    let one = seq![rules[i]];
    assert(one.len() == 1 && one[0] == rules[i]);
    if i < j {
        assert(verdict(m, seq![rules[i]], medians, 0) == Ok::<bool, Seq<char>>(true));
        lemma_rules_in_turn(m, rules, medians, i + 1, j);
    }
}

} // verus!
