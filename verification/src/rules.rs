//! Which images are rejected, and how those that are kept are divided.
use crate::double::{at_most, of_int, place, product, ratio, Double};
use crate::metrics::{
    look_up, median_in, median_table, medians, outcome, passes_all_filters, verdict, FilterRule,
    Measured, Metric, MetricRecord, MetricValues,
};
use crate::order::{
    arrange, arranged, arranging_keeps_the_elements, bytes_at_most, compare_bytes,
};
use crate::star_pattern::list_outcome;
use crate::text::{
    characters, decimal, is_name, names, number_in, numbers_are_written_differently, read_number,
    write_number,
};
use vstd::prelude::*;
use vstd::utf8::encode_utf8;

verus! {

/// The limits that were asked for.
#[derive(Clone, Copy, Debug)]
pub struct FilterOptions {
    pub filter: bool,
    pub snr: Option<Double>,
    pub quality_star_pattern: Option<Double>,
    pub background: Option<Double>,
    pub star_brightness: Option<Double>,
    pub quality: Option<Double>,
    pub fwhm: Option<Double>,
    pub snr_absolute: Option<Double>,
    pub quality_star_pattern_absolute: Option<Double>,
    pub background_absolute: Option<Double>,
    pub star_brightness_absolute: Option<Double>,
    pub quality_absolute: Option<Double>,
    pub fwhm_absolute: Option<Double>,
}

/// The rules that the limits for one metric make.
pub open spec fn rules_for(
    metric: Metric,
    relative: Option<Double>,
    absolute: Option<Double>,
) -> Result<Seq<FilterRule>, Seq<char>> {
    match (relative, absolute) {
        (Some(_), Some(_)) => Err(
            "both relative and absolute thresholds supplied for "@ + metric.name(),
        ),
        (Some(v), None) => if v.finite() && v.units() > 0 {
            Ok(seq![FilterRule { metric, relative: Some(v), absolute: None }])
        } else {
            Err("relative threshold must be greater than zero"@)
        },
        (None, Some(v)) => if v.finite() {
            Ok(seq![FilterRule { metric, relative: None, absolute: Some(v) }])
        } else {
            Err("absolute threshold must be finite"@)
        },
        (None, None) => Ok(Seq::empty()),
    }
}

/// The rules of the one and then those of the other; the first error decides.
pub open spec fn followed_by(
    one: Result<Seq<FilterRule>, Seq<char>>,
    other: Result<Seq<FilterRule>, Seq<char>>,
) -> Result<Seq<FilterRule>, Seq<char>> {
    match one {
        Err(e) => Err(e),
        Ok(a) => match other {
            Err(e) => Err(e),
            Ok(b) => Ok(a + b),
        },
    }
}

impl FilterOptions {
    /// The rules that were asked for.
    pub open spec fn requested(self) -> Result<Seq<FilterRule>, Seq<char>> {
        let a = rules_for(Metric::Snr, self.snr, self.snr_absolute);
        let b = followed_by(
            a,
            rules_for(
                Metric::QualityStarPattern,
                self.quality_star_pattern,
                self.quality_star_pattern_absolute,
            ),
        );
        let c = followed_by(
            b,
            rules_for(Metric::Background, self.background, self.background_absolute),
        );
        let d = followed_by(
            c,
            rules_for(
                Metric::StarBrightness,
                self.star_brightness,
                self.star_brightness_absolute,
            ),
        );
        let e = followed_by(d, rules_for(Metric::Quality, self.quality, self.quality_absolute));
        followed_by(e, rules_for(Metric::Fwhm, self.fwhm, self.fwhm_absolute))
    }
}

/// The rules that hold where a filter without limits is asked for.
pub open spec fn default_rules() -> Seq<FilterRule> {
    seq![
        FilterRule {
            metric: Metric::QualityStarPattern,
            relative: Some(ratio(8, 10)),
            absolute: None,
        },
        FilterRule { metric: Metric::Background, relative: Some(of_int(2)), absolute: None },
        FilterRule { metric: Metric::StarBrightness, relative: Some(ratio(7, 10)), absolute: None },
    ]
}

/// Some rule is on a metric that only a star pattern gives.
pub open spec fn any_of_pattern(rules: Seq<FilterRule>) -> bool {
    exists|i: int| 0 <= i < rules.len() && (#[trigger] rules[i]).metric.of_pattern()
}

/// The rules of a filter, or what is wrong with them.
pub open spec fn rules_of(options: FilterOptions, has_pattern: bool) -> Result<
    Seq<FilterRule>,
    Seq<char>,
> {
    match options.requested() {
        Err(e) => Err(e),
        Ok(asked) => {
            let rules = if options.filter && asked.len() == 0 {
                default_rules()
            } else {
                asked
            };
            if any_of_pattern(rules) && !has_pattern {
                Err("filter requires a star pattern, but no pattern is available"@)
            } else {
                Ok(rules)
            }
        },
    }
}

fn add_rules(
    rules: &mut Vec<FilterRule>,
    metric: Metric,
    relative: Option<Double>,
    absolute: Option<Double>,
) -> (r: Result<(), String>)
    ensures
        match rules_for(metric, relative, absolute) {
            Ok(more) => r is Ok && final(rules)@ == old(rules)@ + more,
            Err(e) => r is Err && r->Err_0@ == e,
        },
{
    if relative.is_some() && absolute.is_some() {
        return Err(
            "both relative and absolute thresholds supplied for ".to_owned().concat(metric.key()),
        );
    }
    if let Some(v) = relative {
        match FilterRule::relative(metric, v) {
            Ok(rule) => rules.push(rule),
            Err(e) => {
                return Err(e);
            },
        }
    }
    if let Some(v) = absolute {
        match FilterRule::absolute(metric, v) {
            Ok(rule) => rules.push(rule),
            Err(e) => {
                return Err(e);
            },
        }
    }
    assert(rules_for(metric, relative, absolute) is Ok ==> rules@ =~= old(rules)@ + rules_for(
        metric,
        relative,
        absolute,
    )->Ok_0);
    Ok(())
}

/// Makes the rules of a filter.
pub fn build_rules(options: &FilterOptions, has_pattern: bool) -> (r: Result<
    Vec<FilterRule>,
    String,
>)
    ensures
        list_outcome(r) == rules_of(*options, has_pattern),
{
    let mut rules: Vec<FilterRule> = Vec::new();
    let a = add_rules(&mut rules, Metric::Snr, options.snr, options.snr_absolute);
    if let Err(e) = a {
        return Err(e);
    }
    assert(rules@ =~= rules_for(Metric::Snr, options.snr, options.snr_absolute)->Ok_0);
    let b = add_rules(
        &mut rules,
        Metric::QualityStarPattern,
        options.quality_star_pattern,
        options.quality_star_pattern_absolute,
    );
    if let Err(e) = b {
        return Err(e);
    }
    let c = add_rules(
        &mut rules,
        Metric::Background,
        options.background,
        options.background_absolute,
    );
    if let Err(e) = c {
        return Err(e);
    }
    let d = add_rules(
        &mut rules,
        Metric::StarBrightness,
        options.star_brightness,
        options.star_brightness_absolute,
    );
    if let Err(e) = d {
        return Err(e);
    }
    let e = add_rules(&mut rules, Metric::Quality, options.quality, options.quality_absolute);
    if let Err(e) = e {
        return Err(e);
    }
    let f = add_rules(&mut rules, Metric::Fwhm, options.fwhm, options.fwhm_absolute);
    if let Err(e) = f {
        return Err(e);
    }
    assert(options.requested() == Ok::<Seq<FilterRule>, Seq<char>>(rules@));
    if options.filter && rules.len() == 0 {
        rules.push(
            FilterRule {
                metric: Metric::QualityStarPattern,
                relative: Some(Double::ratio(8, 10)),
                absolute: None,
            },
        );
        rules.push(
            FilterRule {
                metric: Metric::Background,
                relative: Some(Double::of_u64(2)),
                absolute: None,
            },
        );
        rules.push(
            FilterRule {
                metric: Metric::StarBrightness,
                relative: Some(Double::ratio(7, 10)),
                absolute: None,
            },
        );
        assert(rules@ =~= default_rules());
    }
    let ghost all = rules@;
    let mut i: usize = 0;
    while i < rules.len()
        invariant
            rules@ == all,
            i <= all.len(),
            options.requested() is Ok,
            all == (if options.filter && options.requested()->Ok_0.len() == 0 {
                default_rules()
            } else {
                options.requested()->Ok_0
            }),
            !has_pattern ==> forall|k: int| 0 <= k < i ==> !(#[trigger] all[k]).metric.of_pattern(),
        decreases all.len() - i,
    {
        if rules[i].metric.requires_pattern() && !has_pattern {
            assert(all[i as int].metric.of_pattern());
            return Err("filter requires a star pattern, but no pattern is available".to_owned());
        }
        i = i + 1;
    }
    Ok(rules)
}

/// A rule sets one limit and no other.
pub open spec fn sets_one_limit(rule: FilterRule) -> bool {
    rule.relative is Some <==> rule.absolute is None
}

spec fn set_one_limit(r: Result<Seq<FilterRule>, Seq<char>>) -> bool {
    r is Ok ==> forall|i: int| 0 <= i < r->Ok_0.len() ==> sets_one_limit(#[trigger] r->Ok_0[i])
}

proof fn lemma_rules_for(metric: Metric, relative: Option<Double>, absolute: Option<Double>)
    ensures
        set_one_limit(rules_for(metric, relative, absolute)),
{
}

proof fn lemma_followed_by(
    one: Result<Seq<FilterRule>, Seq<char>>,
    other: Result<Seq<FilterRule>, Seq<char>>,
)
    requires
        set_one_limit(one),
        set_one_limit(other),
    ensures
        set_one_limit(followed_by(one, other)),
{
}

/// Each rule of a filter sets one limit, relative or absolute.
pub proof fn rules_set_one_limit(options: FilterOptions, has_pattern: bool, i: int)
    requires
        rules_of(options, has_pattern) is Ok,
        0 <= i < rules_of(options, has_pattern)->Ok_0.len(),
    ensures
        sets_one_limit(rules_of(options, has_pattern)->Ok_0[i]),
{
    let o = options;
    let snr = rules_for(Metric::Snr, o.snr, o.snr_absolute);
    let pattern = rules_for(
        Metric::QualityStarPattern,
        o.quality_star_pattern,
        o.quality_star_pattern_absolute,
    );
    let background = rules_for(Metric::Background, o.background, o.background_absolute);
    let brightness = rules_for(
        Metric::StarBrightness,
        o.star_brightness,
        o.star_brightness_absolute,
    );
    let quality = rules_for(Metric::Quality, o.quality, o.quality_absolute);
    let fwhm = rules_for(Metric::Fwhm, o.fwhm, o.fwhm_absolute);
    lemma_rules_for(Metric::Snr, o.snr, o.snr_absolute);
    lemma_rules_for(
        Metric::QualityStarPattern,
        o.quality_star_pattern,
        o.quality_star_pattern_absolute,
    );
    lemma_rules_for(Metric::Background, o.background, o.background_absolute);
    lemma_rules_for(Metric::StarBrightness, o.star_brightness, o.star_brightness_absolute);
    lemma_rules_for(Metric::Quality, o.quality, o.quality_absolute);
    lemma_rules_for(Metric::Fwhm, o.fwhm, o.fwhm_absolute);
    let b = followed_by(snr, pattern);
    lemma_followed_by(snr, pattern);
    let c = followed_by(b, background);
    lemma_followed_by(b, background);
    let d = followed_by(c, brightness);
    lemma_followed_by(c, brightness);
    let e = followed_by(d, quality);
    lemma_followed_by(d, quality);
    lemma_followed_by(e, fwhm);
    assert(set_one_limit(options.requested()));
    let rules = rules_of(options, has_pattern)->Ok_0;
    if options.filter && options.requested()->Ok_0.len() == 0 {
        assert(rules == default_rules());
    } else {
        assert(rules == options.requested()->Ok_0);
    }
}

/// A filter has a rule wherever one is asked for.
pub proof fn filters_have_rules(options: FilterOptions, has_pattern: bool)
    requires
        options.filter,
        rules_of(options, has_pattern) is Ok,
    ensures
        rules_of(options, has_pattern)->Ok_0.len() > 0,
{
}

/// The metric that the text names.
pub open spec fn metric_named(text: Seq<char>) -> Option<Metric> {
    if names(text, Metric::Quality.name()) {
        Some(Metric::Quality)
    } else if names(text, Metric::Fwhm.name()) {
        Some(Metric::Fwhm)
    } else if names(text, Metric::QualityStarPattern.name()) {
        Some(Metric::QualityStarPattern)
    } else if names(text, Metric::Background.name()) {
        Some(Metric::Background)
    } else if names(text, Metric::StarBrightness.name()) {
        Some(Metric::StarBrightness)
    } else if names(text, Metric::Snr.name()) {
        Some(Metric::Snr)
    } else {
        None
    }
}

/// What the arguments of the division say.
pub open spec fn division(value: Seq<String>) -> Result<(Metric, usize), Seq<char>> {
    if value.len() != 2 {
        Err("--divide requires METRIC and COUNT, e.g. --divide snr 1000"@)
    } else {
        match metric_named(value[0]@) {
            None => Err(
                "unknown --divide metric '"@ + value[0]@
                    + "'; choose quality, fwhm, quality_star_pattern, background, star_brightness or snr"@,
            ),
            Some(metric) => match number_in(value[1]@) {
                Err(_) => Err(
                    "invalid --divide COUNT '"@ + value[1]@
                        + "'; COUNT must be a positive integer"@,
                ),
                Ok(count) => if count == 0 {
                    Err("--divide COUNT must be greater than zero"@)
                } else {
                    Ok((metric, count as usize))
                },
            },
        }
    }
}

fn find_metric(text: &Vec<char>) -> (r: Option<Metric>)
    ensures
        r == metric_named(text@),
{
    if is_name(text, "quality") {
        Some(Metric::Quality)
    } else if is_name(text, "fwhm") {
        Some(Metric::Fwhm)
    } else if is_name(text, "quality_star_pattern") {
        Some(Metric::QualityStarPattern)
    } else if is_name(text, "background") {
        Some(Metric::Background)
    } else if is_name(text, "star_brightness") {
        Some(Metric::StarBrightness)
    } else if is_name(text, "snr") {
        Some(Metric::Snr)
    } else {
        None
    }
}

/// Reads the arguments of the division: a metric and how many files go into one
/// folder.
pub fn parse_divide(value: &[String]) -> (r: Result<(Metric, usize), String>)
    ensures
        outcome(r) == division(value@),
{
    if value.len() != 2 {
        return Err("--divide requires METRIC and COUNT, e.g. --divide snr 1000".to_owned());
    }
    let metric = match find_metric(&characters(value[0].as_str())) {
        Some(m) => m,
        None => {
            return Err(
                "unknown --divide metric '".to_owned().concat(value[0].as_str()).concat(
                    "'; choose quality, fwhm, quality_star_pattern, background, star_brightness or snr",
                ),
            );
        },
    };
    match read_number(&characters(value[1].as_str())) {
        Ok(count) => {
            if count == 0 {
                return Err("--divide COUNT must be greater than zero".to_owned());
            }
            Ok((metric, count))
        },
        Err(_) => Err(
            "invalid --divide COUNT '".to_owned().concat(value[1].as_str()).concat(
                "'; COUNT must be a positive integer",
            ),
        ),
    }
}

/// The name of the folder for rejected files: after the rule where there is one,
/// else after the time. `digits` writes a number.
pub open spec fn folder_base<D: Fn(Double) -> String>(
    rules: Seq<FilterRule>,
    timestamp: u64,
    digits: D,
    base: Seq<char>,
) -> bool {
    if rules.len() == 1 {
        let head = "removed_"@ + rules[0].metric.name() + "_"@;
        match (rules[0].relative, rules[0].absolute) {
            (Some(v), _) => exists|t: String| #[trigger]
                call_ensures(digits, (v,), t) && base == head + t@,
            (None, Some(v)) => exists|t: String| #[trigger]
                call_ensures(digits, (v,), t) && base == head + t@,
            (None, None) => base == head,
        }
    } else {
        base == "removed_combined_"@ + decimal(timestamp as nat)
    }
}

/// Some entry has this name.
pub open spec fn taken(existing: Seq<String>, name: Seq<char>) -> bool {
    exists|i: int| 0 <= i < existing.len() && (#[trigger] existing[i])@ == name
}

/// The name with a number behind it.
pub open spec fn variant(base: Seq<char>, n: nat) -> Seq<char> {
    base + "_"@ + decimal(n)
}

/// `name` is the base where that is free, else the base with the least number
/// from two on that is free.
pub open spec fn free_name(base: Seq<char>, existing: Seq<String>, name: Seq<char>) -> bool {
    if !taken(existing, base) {
        name == base
    } else {
        exists|n: nat|
            {
                &&& n >= 2
                &&& name == #[trigger] variant(base, n)
                &&& !taken(existing, name)
                &&& forall|m: nat| 2 <= m < n ==> taken(existing, #[trigger] variant(base, m))
            }
    }
}

fn is_taken(existing: &Vec<String>, name: &String) -> (r: bool)
    ensures
        r == taken(existing@, name@),
{
    let mut i: usize = 0;
    while i < existing.len()
        invariant
            i <= existing@.len(),
            forall|k: int| 0 <= k < i ==> (#[trigger] existing@[k])@ != name@,
        decreases existing@.len() - i,
    {
        if existing[i] == *name {
            assert(existing@[i as int]@ == name@);
            return true;
        }
        i = i + 1;
    }
    false
}

proof fn lemma_variants_differ(base: Seq<char>, m: nat, n: nat)
    requires
        variant(base, m) == variant(base, n),
    ensures
        m == n,
{
    let k = (base + "_"@).len() as int;
    assert(variant(base, m).skip(k) =~= decimal(m));
    assert(variant(base, n).skip(k) =~= decimal(n));
    numbers_are_written_differently(m, n);
}

/// Where all variants up to a number are taken, there are as many entries.
proof fn lemma_taken_variants(base: Seq<char>, existing: Seq<String>, n: nat)
    requires
        n >= 2,
        forall|m: nat| 2 <= m < n ==> taken(existing, #[trigger] variant(base, m)),
    ensures
        n - 2 <= existing.len(),
{
    let contents = existing.map_values(|s: String| s@);
    let list = Seq::new((n - 2) as nat, |i: int| variant(base, (i + 2) as nat));
    assert(list.no_duplicates()) by {
        assert forall|i: int, j: int| 0 <= i < list.len() && 0 <= j < list.len() && i != j implies
            list[i] != list[j] by {
            if list[i] == list[j] {
                lemma_variants_differ(base, (i + 2) as nat, (j + 2) as nat);
            }
        }
    }
    list.unique_seq_to_set();
    contents.lemma_cardinality_of_set();
    assert(list.to_set().subset_of(contents.to_set())) by {
        assert forall|x: Seq<char>| list.to_set().contains(x) implies contents.to_set().contains(
            x,
        ) by {
            let i = list.index_of(x);
            assert(list[i] == variant(base, (i + 2) as nat));
            let k = choose|k: int|
                0 <= k < existing.len() && (#[trigger] existing[k])@ == variant(
                    base,
                    (i + 2) as nat,
                );
            assert(contents[k] == x);
        }
    }
    vstd::set_lib::lemma_len_subset(list.to_set(), contents.to_set());
}

/// The name of a new folder for rejected files, which none of the existing
/// entries has. `digits` writes a number.
pub fn unique_removed_folder<D: Fn(Double) -> String>(
    rules: &[FilterRule],
    timestamp: u64,
    existing: &Vec<String>,
    digits: &D,
) -> (r: String)
    requires
        forall|v: Double| call_requires(*digits, (v,)),
        existing@.len() <= isize::MAX,
    ensures
        exists|base: Seq<char>| #[trigger]
            folder_base(rules@, timestamp, *digits, base) && free_name(base, existing@, r@),
        !taken(existing@, r@),
{
    let base: String = if rules.len() == 1 {
        let rule = &rules[0];
        let head = "removed_".to_owned().concat(rule.metric.key()).concat("_");
        match rule.relative {
            Some(v) => {
                let t = digits(v);
                assert(call_ensures(*digits, (v,), t));
                head.concat(t.as_str())
            },
            None => match rule.absolute {
                Some(v) => {
                    let t = digits(v);
                    assert(call_ensures(*digits, (v,), t));
                    head.concat(t.as_str())
                },
                None => head,
            },
        }
    } else {
        "removed_combined_".to_owned().concat(write_number(timestamp).as_str())
    };
    assert(folder_base(rules@, timestamp, *digits, base@));
    if !is_taken(existing, &base) {
        return base;
    }
    let mut n: u64 = 2;
    loop
        invariant
            existing@.len() <= isize::MAX,
            taken(existing@, base@),
            folder_base(rules@, timestamp, *digits, base@),
            2 <= n <= existing@.len() + 2,
            forall|m: nat| 2 <= m < n ==> taken(existing@, #[trigger] variant(base@, m)),
        decreases existing@.len() + 3 - n,
    {
        let candidate = base.as_str().to_owned().concat("_").concat(write_number(n).as_str());
        assert(candidate@ == variant(base@, n as nat));
        if !is_taken(existing, &candidate) {
            return candidate;
        }
        proof {
            assert forall|m: nat| 2 <= m < n + 1 implies taken(
                existing@,
                #[trigger] variant(base@, m),
            ) by {}
            lemma_taken_variants(base@, existing@, (n + 1) as nat);
        }
        n = n + 1;
    }
}

/// What is reported of a rule before files are moved.
#[derive(Clone, Copy, Debug)]
pub struct RuleReport {
    pub metric: Metric,
    pub median: Double,
    /// The multiplier of a relative rule.
    pub multiplier: Option<Double>,
    /// The limit as it was given; for a relative rule the computed one.
    pub absolute: Double,
    pub threshold: Double,
    pub keeps_higher: bool,
}

/// What is done to the files of a session.
#[derive(Clone, Debug)]
pub struct FilterPlan {
    pub reports: Vec<RuleReport>,
    /// The numbers of the records whose files are moved away.
    pub rejected: Vec<usize>,
}

/// What is reported of a rule whose limit is known.
pub open spec fn report_of(rule: FilterRule, medians: Map<u8, Double>, limit: Double) -> RuleReport {
    RuleReport {
        metric: rule.metric,
        median: match median_in(medians, rule.metric) {
            Some(m) => m,
            None => of_int(0),
        },
        multiplier: rule.relative,
        absolute: match rule.absolute {
            Some(v) => v,
            None => limit,
        },
        threshold: limit,
        keeps_higher: rule.metric.rises(),
    }
}

/// What is reported of the first `n` rules; the first of them whose limit cannot
/// be told decides.
pub open spec fn reports_of(
    rules: Seq<FilterRule>,
    medians: Map<u8, Double>,
    n: int,
) -> Result<Seq<RuleReport>, Seq<char>>
    decreases n,
{
    if n <= 0 {
        Ok(Seq::empty())
    } else {
        match reports_of(rules, medians, n - 1) {
            Err(e) => Err(e),
            Ok(list) => match rules[n - 1].limit(median_in(medians, rules[n - 1].metric)) {
                Err(e) => Err(e),
                Ok(limit) => Ok(list.push(report_of(rules[n - 1], medians, limit))),
            },
        }
    }
}

/// The image does not keep every rule.
pub open spec fn rejects(rules: Seq<FilterRule>, medians: Map<u8, Double>, m: MetricValues) -> bool {
    verdict(m, rules, medians, 0) != Ok::<bool, Seq<char>>(true)
}

/// The numbers of those of the first `n` records that are rejected.
pub open spec fn rejected_among<R: Measured>(
    records: Seq<R>,
    rules: Seq<FilterRule>,
    medians: Map<u8, Double>,
    n: int,
) -> Seq<usize>
    decreases n,
{
    if n <= 0 {
        Seq::empty()
    } else {
        let rest = rejected_among(records, rules, medians, n - 1);
        if rejects(rules, medians, records[n - 1].values()) {
            rest.push((n - 1) as usize)
        } else {
            rest
        }
    }
}

proof fn lemma_reports_fail(rules: Seq<FilterRule>, medians: Map<u8, Double>, i: int, n: int)
    requires
        0 <= i <= n,
        reports_of(rules, medians, i) is Err,
    ensures
        reports_of(rules, medians, n) == reports_of(rules, medians, i),
    decreases n - i,
{
    if i < n {
        lemma_reports_fail(rules, medians, i, n - 1);
    }
}

/// Decides which files are moved away.
pub fn plan_filter<R: Measured>(records: &[R], rules: &[FilterRule]) -> (r: Result<
    FilterPlan,
    String,
>)
    ensures
        match reports_of(rules@, median_table(records@), rules@.len() as int) {
            Err(e) => r is Err && r->Err_0@ == e,
            Ok(reports) => {
                &&& r is Ok
                &&& r->Ok_0.reports@ == reports
                &&& r->Ok_0.rejected@ == rejected_among(
                    records@,
                    rules@,
                    median_table(records@),
                    records@.len() as int,
                )
            },
        },
{
    let table = medians(records);
    let mut reports: Vec<RuleReport> = Vec::new();
    let mut i: usize = 0;
    while i < rules.len()
        invariant
            table@ == median_table(records@),
            i <= rules@.len(),
            reports_of(rules@, table@, i as int) is Ok,
            reports_of(rules@, table@, i as int)->Ok_0 == reports@,
        decreases rules@.len() - i,
    {
        let rule = &rules[i];
        let known = look_up(&table, rule.metric);
        match rule.threshold(known) {
            Ok(threshold) => {
                let median = match known {
                    Some(m) => m,
                    None => Double::of_u64(0),
                };
                let absolute = match rule.absolute {
                    Some(v) => v,
                    None => threshold,
                };
                reports.push(
                    RuleReport {
                        metric: rule.metric,
                        median,
                        multiplier: rule.relative,
                        absolute,
                        threshold,
                        keeps_higher: rule.metric.higher_is_better(),
                    },
                );
            },
            Err(e) => {
                proof {
                    lemma_reports_fail(rules@, table@, i + 1, rules@.len() as int);
                }
                return Err(e);
            },
        }
        i = i + 1;
    }
    let mut rejected: Vec<usize> = Vec::new();
    i = 0;
    while i < records.len()
        invariant
            table@ == median_table(records@),
            i <= records@.len(),
            rejected@ == rejected_among(records@, rules@, table@, i as int),
        decreases records@.len() - i,
    {
        let passes = match passes_all_filters(&records[i], rules, &table) {
            Ok(p) => p,
            Err(_) => false,
        };
        if !passes {
            rejected.push(i);
        }
        i = i + 1;
    }
    Ok(FilterPlan { reports, rejected })
}

proof fn lemma_rejected_members<R: Measured>(
    records: Seq<R>,
    rules: Seq<FilterRule>,
    medians: Map<u8, Double>,
    n: int,
    i: usize,
)
    requires
        0 <= n <= records.len() <= usize::MAX,
    ensures
        rejected_among(records, rules, medians, n).contains(i) <==> i < n && rejects(
            rules,
            medians,
            records[i as int].values(),
        ),
    decreases n,
{
    if n > 0 {
        lemma_rejected_members(records, rules, medians, n - 1, i);
        let rest = rejected_among(records, rules, medians, n - 1);
        let all = rejected_among(records, rules, medians, n);
        if rejects(rules, medians, records[n - 1].values()) {
            assert(all[rest.len() as int] == (n - 1) as usize);
            if rest.contains(i) {
                let k = rest.index_of(i);
                assert(all[k] == i);
            }
            if all.contains(i) {
                let k = all.index_of(i);
                if k < rest.len() {
                    assert(rest[k] == i);
                }
            }
        }
    }
}

/// Exactly the records that do not pass all filters are moved away; a record
/// that passes stays.
pub proof fn only_failing_records_are_rejected<R: Measured>(
    records: Seq<R>,
    rules: Seq<FilterRule>,
    medians: Map<u8, Double>,
    i: usize,
)
    requires
        i < records.len() <= usize::MAX,
    ensures
        rejected_among(records, rules, medians, records.len() as int).contains(i) <==> verdict(
            records[i as int].values(),
            rules,
            medians,
            0,
        ) != Ok::<bool, Seq<char>>(true),
{
    lemma_rejected_members(records, rules, medians, records.len() as int, i);
}

proof fn lemma_none_rejected<R: Measured>(
    records: Seq<R>,
    rules: Seq<FilterRule>,
    medians: Map<u8, Double>,
    n: int,
)
    requires
        0 <= n <= records.len(),
        forall|i: int|
            0 <= i < records.len() ==> !rejects(
                rules,
                medians,
                (#[trigger] records[i]).values(),
            ),
    ensures
        rejected_among(records, rules, medians, n).len() == 0,
    decreases n,
{
    if n > 0 {
        lemma_none_rejected(records, rules, medians, n - 1);
        assert(!rejects(rules, medians, records[n - 1].values()));
    }
}

/// Where every record passes, no file is moved.
pub proof fn nothing_moves_where_all_pass<R: Measured>(
    records: Seq<R>,
    rules: Seq<FilterRule>,
    medians: Map<u8, Double>,
)
    requires
        forall|i: int|
            0 <= i < records.len() ==> verdict((#[trigger] records[i]).values(), rules, medians, 0)
                == Ok::<bool, Seq<char>>(true),
    ensures
        rejected_among(records, rules, medians, records.len() as int).len() == 0,
{
    assert forall|i: int| 0 <= i < records.len() implies !rejects(
        rules,
        medians,
        (#[trigger] records[i]).values(),
    ) by {}
    lemma_none_rejected(records, rules, medians, records.len() as int);
}

/// The finite value that a record has for a metric.
pub open spec fn finite_reading(metric: Metric, m: MetricValues) -> Option<Double> {
    match metric.reading(m) {
        Some(v) => if v.finite() {
            Some(v)
        } else {
            None
        },
        None => None,
    }
}

pub(crate) fn finite_value(metric: Metric, m: &MetricValues) -> (r: Option<Double>)
    ensures
        r == finite_reading(metric, *m),
{
    match metric.value(m) {
        Some(v) => if v.is_finite() {
            Some(v)
        } else {
            None
        },
        None => None,
    }
}

/// The bytes of a name, by which names are ordered.
pub open spec fn name_bytes(r: MetricRecord) -> Seq<u8> {
    encode_utf8(r.file_name@)
}

/// The numbers of records, the best first; of equally good ones the one whose
/// name comes first. Records without a value come last.
pub open spec fn best_first(records: Seq<MetricRecord>, metric: Metric) -> spec_fn(
    usize,
    usize,
) -> bool {
    |a: usize, b: usize|
        {
            let ra = records[a as int];
            let rb = records[b as int];
            let named = bytes_at_most(name_bytes(ra), name_bytes(rb));
            match (finite_reading(metric, ra.metrics), finite_reading(metric, rb.metrics)) {
                (Some(x), Some(y)) => if metric.rises() {
                    place(y) < place(x) || (place(y) == place(x) && named)
                } else {
                    place(x) < place(y) || (place(x) == place(y) && named)
                },
                (Some(_), None) => true,
                (None, Some(_)) => false,
                (None, None) => named,
            }
        }
}

/// The numbers of those of the first `n` files that are there.
pub open spec fn present_among(present: Seq<bool>, n: int) -> Seq<usize>
    decreases n,
{
    if n <= 0 {
        Seq::empty()
    } else if present[n - 1] {
        present_among(present, n - 1).push((n - 1) as usize)
    } else {
        present_among(present, n - 1)
    }
}

/// The records whose files are there, the best first.
pub open spec fn kept_in_order(
    records: Seq<MetricRecord>,
    present: Seq<bool>,
    metric: Metric,
) -> Seq<usize> {
    arranged(present_among(present, records.len() as int), best_first(records, metric))
}

/// A folder and the numbers of the records whose files go there.
#[derive(Clone, Debug)]
pub struct Batch {
    pub folder: String,
    pub files: Vec<usize>,
}

/// How many folders `n` files need.
pub open spec fn batch_count(n: int, size: int) -> int {
    (n + size - 1) / size
}

/// The files of the folder `k`, counted from zero.
pub open spec fn batch_files(kept: Seq<usize>, size: int, k: int) -> Seq<usize> {
    let end = if (k + 1) * size < kept.len() {
        (k + 1) * size
    } else {
        kept.len() as int
    };
    kept.subrange(k * size, end)
}

/// The batch is the folder `k` of the division.
pub open spec fn is_batch(batch: Batch, kept: Seq<usize>, metric: Metric, size: int, k: int) -> bool {
    &&& batch.folder@ == decimal((k + 1) as nat) + "_"@ + metric.name()
    &&& batch.files@ == batch_files(kept, size, k)
}

/// Some record has no value for the metric.
pub open spec fn any_missing(records: Seq<MetricRecord>, kept: Seq<usize>, metric: Metric) -> bool {
    exists|i: int|
        0 <= i < kept.len() && finite_reading(
            metric,
            records[#[trigger] kept[i] as int].metrics,
        ) is None
}

fn order_kept(records: &[MetricRecord], kept: Vec<usize>, metric: Metric) -> (r: Vec<usize>)
    requires
        forall|i: int| 0 <= i < kept@.len() ==> #[trigger] kept@[i] < records@.len(),
    ensures
        r@ == arranged(kept@, best_first(records@, metric)),
        forall|i: int| 0 <= i < r@.len() ==> #[trigger] r@[i] < records@.len(),
{
    let f = |a: &usize, b: &usize| -> (c: bool)
        requires
            *a < records@.len(),
            *b < records@.len(),
        ensures
            c == best_first(records@, metric)(*a, *b),
        {
            let ra = &records[*a];
            let rb = &records[*b];
            let named = compare_bytes(
                ra.file_name.as_str().as_bytes(),
                rb.file_name.as_str().as_bytes(),
            );
            match (finite_value(metric, &ra.metrics), finite_value(metric, &rb.metrics)) {
                (Some(x), Some(y)) => {
                    let forth = x.total_at_most(y);
                    let back = y.total_at_most(x);
                    if forth && back {
                        named
                    } else if metric.higher_is_better() {
                        back
                    } else {
                        forth
                    }
                },
                (Some(_), None) => true,
                (None, Some(_)) => false,
                (None, None) => named,
            }
        };
    let ghost leq = best_first(records@, metric);
    proof {
        arranging_keeps_the_elements(kept@, leq);
        let r = arranged(kept@, leq);
        assert forall|i: int| 0 <= i < r.len() implies #[trigger] r[i] < records@.len() by {
            crate::order::lemma_same_members(r, kept@, r[i]);
            assert(r.contains(r[i]));
            let m = kept@.index_of(r[i]);
            assert(kept@[m] == r[i]);
        }
    }
    arrange(kept, f, Ghost(best_first(records@, metric)))
}

/// Decides into which folders the files go that are there: the best ones into
/// the first folder, `batch_size` into each.
pub fn plan_division(
    records: &[MetricRecord],
    present: &Vec<bool>,
    metric: Metric,
    batch_size: usize,
) -> (r: Result<Vec<Batch>, String>)
    requires
        present@.len() == records@.len(),
        batch_size > 0,
    ensures
        ({
            let kept = kept_in_order(records@, present@, metric);
            if any_missing(records@, kept, metric) {
                r is Err && r->Err_0@ == "cannot divide files: metric '"@ + metric.name()
                    + "' is unavailable for one or more kept files"@
            } else {
                &&& r is Ok
                &&& r->Ok_0@.len() == batch_count(kept.len() as int, batch_size as int)
                &&& forall|k: int|
                    0 <= k < r->Ok_0@.len() ==> is_batch(
                        #[trigger] r->Ok_0@[k],
                        kept,
                        metric,
                        batch_size as int,
                        k,
                    )
            }
        }),
{
    let mut there: Vec<usize> = Vec::new();
    let mut i: usize = 0;
    while i < records.len()
        invariant
            present@.len() == records@.len(),
            i <= records@.len(),
            there@ == present_among(present@, i as int),
            forall|k: int| 0 <= k < there@.len() ==> #[trigger] there@[k] < records@.len(),
        decreases records@.len() - i,
    {
        if present[i] {
            there.push(i);
        }
        i = i + 1;
    }
    let kept = order_kept(records, there, metric);
    let n: usize = kept.len();
    i = 0;
    while i < n
        invariant
            kept@ == kept_in_order(records@, present@, metric),
            n == kept@.len(),
            i <= n,
            forall|k: int| 0 <= k < n ==> #[trigger] kept@[k] < records@.len(),
            forall|k: int|
                0 <= k < i ==> finite_reading(
                    metric,
                    records@[#[trigger] kept@[k] as int].metrics,
                ) is Some,
        decreases n - i,
    {
        if finite_value(metric, &records[kept[i]].metrics).is_none() {
            assert(finite_reading(metric, records@[kept@[i as int] as int].metrics) is None);
            return Err(
                "cannot divide files: metric '".to_owned().concat(metric.key()).concat(
                    "' is unavailable for one or more kept files",
                ),
            );
        }
        i = i + 1;
    }
    let ghost size = batch_size as int;
    let mut batches: Vec<Batch> = Vec::new();
    let mut start: usize = 0;
    proof {
        assert(n == 0 ==> (n + size - 1) / size == 0) by (nonlinear_arith)
            requires
                size > 0,
        ;
        assert(n > 0 ==> (n + size - 1) / size > 0) by (nonlinear_arith)
            requires
                size > 0,
        ;
        assert(0 * size == 0) by (nonlinear_arith);
        assert(batches@.len() * size == 0);
    }
    while start < n
        invariant
            kept@ == kept_in_order(records@, present@, metric),
            n == kept@.len(),
            size == batch_size,
            size > 0,
            start <= n,
            start == n || start == batches@.len() * size,
            start == n ==> batches@.len() == batch_count(n as int, size),
            start < n ==> batches@.len() < batch_count(n as int, size),
            forall|k: int|
                0 <= k < batches@.len() ==> is_batch(
                    #[trigger] batches@[k],
                    kept@,
                    metric,
                    size,
                    k,
                ),
        decreases n - start,
    {
        let ghost b = batches@.len() as int;
        assert(b < n) by (nonlinear_arith)
            requires
                b * size < n,
                size > 0,
                b >= 0,
        ;
        let end: usize = if batch_size < n - start {
            start + batch_size
        } else {
            n
        };
        let mut files: Vec<usize> = Vec::new();
        let mut j: usize = start;
        while j < end
            invariant
                n == kept@.len(),
                start <= j <= end <= n,
                files@ == kept@.subrange(start as int, j as int),
            decreases end - j,
        {
            files.push(kept[j]);
            j = j + 1;
            assert(files@ =~= kept@.subrange(start as int, j as int));
        }
        let folder = write_number((batches.len() + 1) as u64).concat("_").concat(metric.key());
        let batch = Batch { folder, files };
        proof {
            assert((b + 1) * size == b * size + size) by (nonlinear_arith);
            assert(is_batch(batch, kept@, metric, size, b));
            // b * size < n, so b < batch_count; the next start is behind the end
            // exactly when this was the last batch.
            if end < n {
                assert(b + 1 < batch_count(n as int, size)) by (nonlinear_arith)
                    requires
                        (b + 1) * size < n,
                        size > 0,
                        batch_count(n as int, size) == (n + size - 1) / size,
                ;
            } else {
                assert(b + 1 == batch_count(n as int, size)) by (nonlinear_arith)
                    requires
                        b * size < n,
                        n <= (b + 1) * size,
                        size > 0,
                        batch_count(n as int, size) == (n + size - 1) / size,
                ;
            }
        }
        let ghost before = batches@;
        batches.push(batch);
        proof {
            assert forall|k: int| 0 <= k < batches@.len() implies is_batch(
                #[trigger] batches@[k],
                kept@,
                metric,
                size,
                k,
            ) by {
                if k < b {
                    assert(batches@[k] == before[k]);
                }
            }
        }
        start = end;
    }
    Ok(batches)
}

/// Each kept file goes into one place of one folder: the file that is `i`-th in
/// order goes to place `i % size` of folder `i / size`.
pub proof fn every_file_has_one_place(kept: Seq<usize>, size: int, i: int)
    requires
        0 <= i < kept.len(),
        size > 0,
    ensures
        0 <= i / size < batch_count(kept.len() as int, size),
        0 <= i % size < batch_files(kept, size, i / size).len(),
        batch_files(kept, size, i / size)[i % size] == kept[i],
{
    let n = kept.len() as int;
    let k = i / size;
    vstd::arithmetic::div_mod::lemma_fundamental_div_mod(i, size);
    assert(i == size * k + i % size);
    assert(k * size == size * k) by (nonlinear_arith);
    assert((k + 1) * size == k * size + size) by (nonlinear_arith);
    vstd::arithmetic::div_mod::lemma_mod_bound(i, size);
    vstd::arithmetic::div_mod::lemma_div_pos_is_pos(i, size);
    assert(k < (n + size - 1) / size) by (nonlinear_arith)
        requires
            k * size < n,
            size > 0,
    ;
}

/// All folders but the last hold `size` files; the last holds the rest, at least
/// one and at most `size`.
pub proof fn folders_are_filled(kept: Seq<usize>, size: int, k: int)
    requires
        size > 0,
        0 <= k < batch_count(kept.len() as int, size),
    ensures
        k + 1 < batch_count(kept.len() as int, size) ==> batch_files(kept, size, k).len() == size,
        0 < batch_files(kept, size, k).len() <= size,
{
    let n = kept.len() as int;
    assert((k + 1) * size == k * size + size) by (nonlinear_arith);
    assert(k * size < n && k * size >= 0) by (nonlinear_arith)
        requires
            0 <= k < (n + size - 1) / size,
            size > 0,
            n >= 0,
    ;
    if k + 1 < batch_count(n, size) {
        assert((k + 1) * size < n) by (nonlinear_arith)
            requires
                0 <= k + 1 < (n + size - 1) / size,
                size > 0,
                n >= 0,
        ;
    }
}

proof fn lemma_best_first_total(records: Seq<MetricRecord>, metric: Metric)
    ensures
        crate::order::preorder(best_first(records, metric)),
{
    let leq = best_first(records, metric);
    assert forall|a: usize, b: usize| #[trigger] leq(a, b) || leq(b, a) by {
        crate::order::dictionary_order_is_total(
            name_bytes(records[a as int]),
            name_bytes(records[b as int]),
        );
    }
    assert forall|a: usize, b: usize, c: usize| #[trigger] leq(a, b) && #[trigger] leq(
        b,
        c,
    ) implies leq(a, c) by {
        let x = name_bytes(records[a as int]);
        let y = name_bytes(records[b as int]);
        let z = name_bytes(records[c as int]);
        if bytes_at_most(x, y) && bytes_at_most(y, z) {
            crate::order::dictionary_order_is_transitive(x, y, z);
        }
    }
}

/// No file of an earlier folder, or of an earlier place, is worse than a later
/// one: where larger values are better the values fall, else they rise.
pub proof fn better_files_come_first(
    records: Seq<MetricRecord>,
    present: Seq<bool>,
    metric: Metric,
    i: int,
    j: int,
)
    requires
        0 <= i < j < kept_in_order(records, present, metric).len(),
        !any_missing(records, kept_in_order(records, present, metric), metric),
    ensures
        ({
            let kept = kept_in_order(records, present, metric);
            let x = finite_reading(metric, records[kept[i] as int].metrics)->0;
            let y = finite_reading(metric, records[kept[j] as int].metrics)->0;
            if metric.rises() {
                place(y) <= place(x)
            } else {
                place(x) <= place(y)
            }
        }),
{
    let kept = kept_in_order(records, present, metric);
    lemma_best_first_total(records, metric);
    crate::order::arranging_sorts(
        present_among(present, records.len() as int),
        best_first(records, metric),
    );
    assert(best_first(records, metric)(kept[i], kept[j]));
    assert(finite_reading(metric, records[kept[i] as int].metrics) is Some);
    assert(finite_reading(metric, records[kept[j] as int].metrics) is Some);
}

/// The rule that the limits for a metric ask for.
pub open spec fn asked_rule(metric: Metric, options: FilterOptions) -> FilterRule {
    match metric {
        Metric::Snr => FilterRule {
            metric,
            relative: options.snr,
            absolute: options.snr_absolute,
        },
        Metric::QualityStarPattern => FilterRule {
            metric,
            relative: options.quality_star_pattern,
            absolute: options.quality_star_pattern_absolute,
        },
        Metric::Background => FilterRule {
            metric,
            relative: options.background,
            absolute: options.background_absolute,
        },
        Metric::StarBrightness => FilterRule {
            metric,
            relative: options.star_brightness,
            absolute: options.star_brightness_absolute,
        },
        Metric::Quality => FilterRule {
            metric,
            relative: options.quality,
            absolute: options.quality_absolute,
        },
        Metric::Fwhm => FilterRule {
            metric,
            relative: options.fwhm,
            absolute: options.fwhm_absolute,
        },
    }
}

/// Limits that make a rule, or none at all: not both kinds, a multiplier above
/// zero, a finite value.
pub open spec fn sound_limits(rule: FilterRule) -> bool {
    match (rule.relative, rule.absolute) {
        (Some(_), Some(_)) => false,
        (Some(v), None) => v.finite() && v.units() > 0,
        (None, Some(v)) => v.finite(),
        (None, None) => true,
    }
}

spec fn metric_in_turn(k: int) -> Metric {
    if k == 0 {
        Metric::Snr
    } else if k == 1 {
        Metric::QualityStarPattern
    } else if k == 2 {
        Metric::Background
    } else if k == 3 {
        Metric::StarBrightness
    } else if k == 4 {
        Metric::Quality
    } else {
        Metric::Fwhm
    }
}

spec fn has_limit(rule: FilterRule) -> bool {
    rule.relative is Some || rule.absolute is Some
}

spec fn rules_up_to(r: Result<Seq<FilterRule>, Seq<char>>, o: FilterOptions, n: int) -> bool {
    &&& r is Ok <==> forall|k: int|
        0 <= k < n ==> sound_limits(asked_rule(#[trigger] metric_in_turn(k), o))
    &&& r is Ok ==> {
        &&& forall|i: int|
            0 <= i < r->Ok_0.len() ==> (#[trigger] r->Ok_0[i]) == asked_rule(r->Ok_0[i].metric, o)
                && has_limit(r->Ok_0[i])
        &&& forall|k: int|
            0 <= k < n && has_limit(asked_rule(#[trigger] metric_in_turn(k), o))
                ==> r->Ok_0.contains(asked_rule(metric_in_turn(k), o))
    }
}

proof fn lemma_one_more_metric(
    one: Result<Seq<FilterRule>, Seq<char>>,
    o: FilterOptions,
    n: int,
)
    requires
        0 <= n < 6,
        rules_up_to(one, o, n),
    ensures
        ({
            let rule = asked_rule(metric_in_turn(n), o);
            let other = rules_for(rule.metric, rule.relative, rule.absolute);
            rules_up_to(followed_by(one, other), o, n + 1)
        }),
{
    let rule = asked_rule(metric_in_turn(n), o);
    let other = rules_for(rule.metric, rule.relative, rule.absolute);
    let r = followed_by(one, other);
    assert(other is Ok <==> sound_limits(rule));
    if r is Ok {
        let x = one->Ok_0;
        let y = other->Ok_0;
        let all = r->Ok_0;
        assert(all == x + y);
        assert forall|i: int| 0 <= i < all.len() implies (#[trigger] all[i]) == asked_rule(
            all[i].metric,
            o,
        ) && has_limit(all[i]) by {
            if i < x.len() {
                assert(all[i] == x[i]);
            } else {
                assert(all[i] == y[i - x.len()]);
            }
        }
        assert forall|k: int|
            0 <= k < n + 1 && has_limit(asked_rule(#[trigger] metric_in_turn(k), o)) implies all.contains(
            asked_rule(metric_in_turn(k), o),
        ) by {
            if k < n {
                let i = x.index_of(asked_rule(metric_in_turn(k), o));
                assert(all[i] == x[i]);
            } else {
                assert(y[0] == rule);
                assert(all[x.len() as int] == rule);
            }
        }
    }
}

/// The rules that are asked for are exactly those of the metrics with a limit,
/// each on the metric that the limit was given for; they are refused exactly
/// where the limits of some metric are unsound.
pub proof fn rules_follow_their_options(options: FilterOptions, metric: Metric, i: int)
    ensures
        options.requested() is Ok <==> (forall|m: Metric| sound_limits(
            #[trigger] asked_rule(m, options),
        )),
        options.requested() is Ok && 0 <= i < options.requested()->Ok_0.len() ==> {
            let rule = options.requested()->Ok_0[i];
            &&& rule == asked_rule(rule.metric, options)
            &&& rule.relative is Some || rule.absolute is Some
        },
        options.requested() is Ok ==> {
            let rule = asked_rule(metric, options);
            options.requested()->Ok_0.contains(rule) <==> rule.relative is Some
                || rule.absolute is Some
        },
{
    let o = options;
    let empty = Ok::<Seq<FilterRule>, Seq<char>>(Seq::empty());
    assert(rules_up_to(empty, o, 0));
    lemma_one_more_metric(empty, o, 0);
    let a = rules_for(Metric::Snr, o.snr, o.snr_absolute);
    assert(followed_by(empty, a) == a) by {
        if a is Ok {
            assert(Seq::<FilterRule>::empty() + a->Ok_0 =~= a->Ok_0);
        }
    }
    lemma_one_more_metric(a, o, 1);
    let b = followed_by(
        a,
        rules_for(
            Metric::QualityStarPattern,
            o.quality_star_pattern,
            o.quality_star_pattern_absolute,
        ),
    );
    lemma_one_more_metric(b, o, 2);
    let c = followed_by(b, rules_for(Metric::Background, o.background, o.background_absolute));
    lemma_one_more_metric(c, o, 3);
    let d = followed_by(
        c,
        rules_for(Metric::StarBrightness, o.star_brightness, o.star_brightness_absolute),
    );
    lemma_one_more_metric(d, o, 4);
    let e = followed_by(d, rules_for(Metric::Quality, o.quality, o.quality_absolute));
    lemma_one_more_metric(e, o, 5);
    let r = options.requested();
    assert(rules_up_to(r, o, 6));
    assert forall|m: Metric| #[trigger] asked_rule(m, o).metric == m && exists|k: int|
        0 <= k < 6 && #[trigger] metric_in_turn(k) == m by {
        let k = match m {
            Metric::Snr => 0int,
            Metric::QualityStarPattern => 1,
            Metric::Background => 2,
            Metric::StarBrightness => 3,
            Metric::Quality => 4,
            Metric::Fwhm => 5,
        };
        assert(metric_in_turn(k) == m);
    }
    if r is Ok {
        assert forall|m: Metric| sound_limits(#[trigger] asked_rule(m, o)) by {
            assert(asked_rule(m, o).metric == m);
            let k = choose|k: int| 0 <= k < 6 && #[trigger] metric_in_turn(k) == m;
            assert(sound_limits(asked_rule(metric_in_turn(k), o)));
        }
        assert(asked_rule(metric, o).metric == metric);
        let k = choose|k: int| 0 <= k < 6 && #[trigger] metric_in_turn(k) == metric;
        assert(metric_in_turn(k) == metric);
        if r->Ok_0.contains(asked_rule(metric, o)) {
            let m = r->Ok_0.index_of(asked_rule(metric, o));
            assert(has_limit(r->Ok_0[m]));
        }
    }
}

/// A filter without limits asks for at least eight tenths of the median quality
/// of the pattern, at most twice the median background, and at least seven
/// tenths of the median brightness. Any limit takes the place of all of these.
/// Without a filter there is nothing that was not asked for, and rules on a
/// pattern need one.
pub proof fn default_limits_hold_where_none_is_given(options: FilterOptions, has_pattern: bool)
    requires
        options.requested() is Ok,
    ensures
        ({
            let asked = options.requested()->Ok_0;
            let rules = rules_of(options, has_pattern);
            &&& options.filter && asked.len() == 0 && has_pattern ==> rules is Ok
                && rules->Ok_0.len() == 3 && rules->Ok_0[0] == (FilterRule {
                metric: Metric::QualityStarPattern,
                relative: Some(ratio(8, 10)),
                absolute: None,
            }) && rules->Ok_0[1] == (FilterRule {
                metric: Metric::Background,
                relative: Some(of_int(2)),
                absolute: None,
            }) && rules->Ok_0[2] == (FilterRule {
                metric: Metric::StarBrightness,
                relative: Some(ratio(7, 10)),
                absolute: None,
            })
            &&& asked.len() > 0 && rules is Ok ==> rules->Ok_0 == asked
            &&& !options.filter && rules is Ok ==> rules->Ok_0 == asked
            &&& has_pattern ==> rules is Ok
            &&& !has_pattern ==> (rules is Err <==> (options.filter && asked.len() == 0) || exists|
                i: int,
            |
                0 <= i < asked.len() && ((#[trigger] asked[i]).metric == Metric::Snr
                    || asked[i].metric == Metric::QualityStarPattern || asked[i].metric
                    == Metric::StarBrightness))
        }),
{
    let asked = options.requested()->Ok_0;
    assert(default_rules()[0].metric.of_pattern());
    if any_of_pattern(asked) {
        let i = choose|i: int| 0 <= i < asked.len() && (#[trigger] asked[i]).metric.of_pattern();
        assert(asked[i].metric.of_pattern());
    }
    if exists|i: int|
        0 <= i < asked.len() && ((#[trigger] asked[i]).metric == Metric::Snr || asked[i].metric
            == Metric::QualityStarPattern || asked[i].metric == Metric::StarBrightness) {
        let i = choose|i: int|
            0 <= i < asked.len() && ((#[trigger] asked[i]).metric == Metric::Snr
                || asked[i].metric == Metric::QualityStarPattern || asked[i].metric
                == Metric::StarBrightness);
        assert(asked[i].metric.of_pattern());
    }
}

proof fn lemma_reports(rules: Seq<FilterRule>, medians: Map<u8, Double>, n: int, i: int)
    requires
        0 <= i < n <= rules.len(),
        reports_of(rules, medians, n) is Ok,
    ensures
        reports_of(rules, medians, n)->Ok_0.len() == n,
        rules[i].limit(median_in(medians, rules[i].metric)) is Ok,
        reports_of(rules, medians, n)->Ok_0[i] == report_of(
            rules[i],
            medians,
            rules[i].limit(median_in(medians, rules[i].metric))->Ok_0,
        ),
    decreases n,
{
    if n > 1 {
        let m = if i < n - 1 {
            i
        } else {
            0
        };
        lemma_reports(rules, medians, n - 1, m);
    } else {
        assert(reports_of(rules, medians, 0) == Ok::<Seq<RuleReport>, Seq<char>>(Seq::empty()));
    }
}

/// What is reported of the rules of a filter is what they do: the metric of each
/// rule, its limit as a multiple of the median or as given, and whether values
/// above or below it are kept.
pub proof fn reports_tell_the_limits<R: Measured>(records: Seq<R>, rules: Seq<FilterRule>, i: int)
    requires
        0 <= i < rules.len(),
        reports_of(rules, median_table(records), rules.len() as int) is Ok,
    ensures
        ({
            let reports = reports_of(rules, median_table(records), rules.len() as int)->Ok_0;
            let report = reports[i];
            let rule = rules[i];
            let middle = crate::metrics::median_of(
                crate::metrics::finite_readings(records, rule.metric),
            );
            &&& reports.len() == rules.len()
            &&& report.metric == rule.metric
            &&& middle is Some ==> report.median == middle->0
            &&& rule.relative is Some ==> middle is Some && report.multiplier == rule.relative
                && report.threshold == product(rule.relative->0, middle->0)
            &&& rule.relative is None ==> report.multiplier is None && rule.absolute == Some(
                report.threshold,
            ) && report.absolute == report.threshold
            &&& report.keeps_higher <==> rule.metric != Metric::Background && rule.metric
                != Metric::Fwhm
        }),
{
    let medians = median_table(records);
    lemma_reports(rules, medians, rules.len() as int, i);
    crate::metrics::the_table_holds_the_medians(records, rules[i].metric);
}

/// Of a record rejected or kept by one absolute limit the field of its metric
/// alone decides.
pub proof fn one_limit_decides_by_its_field<R: Measured>(
    records: Seq<R>,
    limit: Double,
    i: usize,
)
    requires
        i < records.len() <= usize::MAX,
    ensures
        ({
            let m = records[i as int].values();
            let moved = |metric: Metric|
                rejected_among(
                    records,
                    seq![FilterRule { metric, relative: None, absolute: Some(limit) }],
                    median_table(records),
                    records.len() as int,
                ).contains(i);
            &&& moved(Metric::Quality) <==> !at_most(limit, m.quality)
            &&& moved(Metric::Fwhm) <==> !at_most(m.fwhm, limit)
            &&& moved(Metric::Background) <==> !at_most(m.background_corrected_adu, limit)
            &&& moved(Metric::QualityStarPattern) <==> !(m.quality_star_pattern is Some && at_most(
                limit,
                m.quality_star_pattern->0,
            ))
            &&& moved(Metric::StarBrightness) <==> !(m.star_brightness_adu is Some && at_most(
                limit,
                m.star_brightness_adu->0,
            ))
            &&& moved(Metric::Snr) <==> !(m.snr is Some && at_most(limit, m.snr->0))
        }),
{
    let table = median_table(records);
    crate::metrics::absolute_filters_compare_their_field(
        records[i as int].values(),
        limit,
        table,
    );
    lemma_moved(records, Metric::Quality, limit, i);
    lemma_moved(records, Metric::Fwhm, limit, i);
    lemma_moved(records, Metric::Background, limit, i);
    lemma_moved(records, Metric::QualityStarPattern, limit, i);
    lemma_moved(records, Metric::StarBrightness, limit, i);
    lemma_moved(records, Metric::Snr, limit, i);
}

proof fn lemma_moved<R: Measured>(records: Seq<R>, metric: Metric, limit: Double, i: usize)
    requires
        i < records.len() <= usize::MAX,
    ensures
        ({
            let rules = seq![FilterRule { metric, relative: None, absolute: Some(limit) }];
            rejected_among(
                records,
                rules,
                median_table(records),
                records.len() as int,
            ).contains(i) <==> verdict(
                records[i as int].values(),
                rules,
                median_table(records),
                0,
            ) != Ok::<bool, Seq<char>>(true)
        }),
{
    only_failing_records_are_rejected(
        records,
        seq![FilterRule { metric, relative: None, absolute: Some(limit) }],
        median_table(records),
        i,
    );
}

/// The value that decides where a file goes when files are divided by a metric:
/// the field of that metric, where it is finite.
pub open spec fn dividing_value(metric: Metric, m: MetricValues) -> Option<Double> {
    let v = match metric {
        Metric::Quality => Some(m.quality),
        Metric::Fwhm => Some(m.fwhm),
        Metric::QualityStarPattern => m.quality_star_pattern,
        Metric::Background => Some(m.background_corrected_adu),
        Metric::StarBrightness => m.star_brightness_adu,
        Metric::Snr => m.snr,
    };
    if v is Some && v->0.finite() {
        v
    } else {
        None
    }
}

/// Files are divided by the field of their metric: where the metric is better
/// the smaller it is the values rise, else they fall, and files with the same
/// value come by their names. Only a file without a finite value stops the
/// division.
pub proof fn divisions_follow_the_field(
    records: Seq<MetricRecord>,
    present: Seq<bool>,
    metric: Metric,
    i: int,
    j: int,
)
    requires
        0 <= i < j < kept_in_order(records, present, metric).len(),
    ensures
        ({
            let kept = kept_in_order(records, present, metric);
            let a = records[kept[i] as int];
            let b = records[kept[j] as int];
            let x = dividing_value(metric, a.metrics);
            let y = dividing_value(metric, b.metrics);
            &&& any_missing(records, kept, metric) <==> exists|k: int|
                0 <= k < kept.len() && dividing_value(
                    metric,
                    records[#[trigger] kept[k] as int].metrics,
                ) is None
            &&& x is Some && y is Some ==> {
                &&& metric == Metric::Background || metric == Metric::Fwhm ==> place(x->0) <= place(
                    y->0,
                )
                &&& metric != Metric::Background && metric != Metric::Fwhm ==> place(y->0)
                    <= place(x->0)
                &&& place(x->0) == place(y->0) ==> bytes_at_most(
                    encode_utf8(a.file_name@),
                    encode_utf8(b.file_name@),
                )
            }
            &&& x is None ==> y is None
        }),
{
    let kept = kept_in_order(records, present, metric);
    lemma_best_first_total(records, metric);
    crate::order::arranging_sorts(
        present_among(present, records.len() as int),
        best_first(records, metric),
    );
    assert(best_first(records, metric)(kept[i], kept[j]));
    assert forall|m: MetricValues| #[trigger] finite_reading(metric, m) == dividing_value(
        metric,
        m,
    ) by {}
    if any_missing(records, kept, metric) {
        let k = choose|k: int|
            0 <= k < kept.len() && finite_reading(
                metric,
                records[#[trigger] kept[k] as int].metrics,
            ) is None;
        assert(dividing_value(metric, records[kept[k] as int].metrics) is None);
    }
    if exists|k: int|
        0 <= k < kept.len() && dividing_value(
            metric,
            records[#[trigger] kept[k] as int].metrics,
        ) is None {
        let k = choose|k: int|
            0 <= k < kept.len() && dividing_value(
                metric,
                records[#[trigger] kept[k] as int].metrics,
            ) is None;
        assert(finite_reading(metric, records[kept[k] as int].metrics) is None);
    }
}

proof fn lemma_present(present: Seq<bool>, n: int, i: usize)
    requires
        0 <= n <= present.len() <= usize::MAX,
    ensures
        present_among(present, n).contains(i) <==> i < n && present[i as int],
        present_among(present, n).no_duplicates(),
    decreases n,
{
    if n > 0 {
        lemma_present(present, n - 1, i);
        lemma_present(present, n - 1, (n - 1) as usize);
        let rest = present_among(present, n - 1);
        let all = present_among(present, n);
        if present[n - 1] {
            assert(all[rest.len() as int] == (n - 1) as usize);
            if rest.contains(i) {
                let k = rest.index_of(i);
                assert(all[k] == i);
            }
            if all.contains(i) {
                let k = all.index_of(i);
                if k < rest.len() {
                    assert(rest[k] == i);
                }
            }
            assert forall|a: int, b: int|
                0 <= a < all.len() && 0 <= b < all.len() && a != b implies all[a] != all[b] by {
                if a < rest.len() && b < rest.len() {
                    assert(rest[a] != rest[b]);
                } else if a < rest.len() {
                    assert(rest.contains(rest[a]));
                } else {
                    assert(rest.contains(rest[b]));
                }
            }
        }
    }
}

/// Exactly the files that are there are divided, each once.
pub proof fn files_that_are_there_are_divided(
    records: Seq<MetricRecord>,
    present: Seq<bool>,
    metric: Metric,
    i: usize,
)
    requires
        present.len() == records.len() <= usize::MAX,
    ensures
        kept_in_order(records, present, metric).contains(i) <==> i < records.len()
            && present[i as int],
        kept_in_order(records, present, metric).no_duplicates(),
{
    let there = present_among(present, records.len() as int);
    let leq = best_first(records, metric);
    lemma_present(present, records.len() as int, i);
    arranging_keeps_the_elements(there, leq);
    crate::order::lemma_same_members(arranged(there, leq), there, i);
    there.lemma_multiset_has_no_duplicates();
    arranged(there, leq).lemma_multiset_has_no_duplicates_conv();
}

/// The folders of a division are numbered from one and carry the metric; the
/// file at place `i` of the order goes into the folder after every `size` files.
pub proof fn folders_are_numbered(
    batch: Batch,
    kept: Seq<usize>,
    metric: Metric,
    size: int,
    i: int,
)
    requires
        0 <= i < kept.len(),
        size > 0,
        is_batch(batch, kept, metric, size, i / size),
    ensures
        batch.files@.contains(kept[i]),
        batch.folder@ == decimal((i / size + 1) as nat) + "_"@ + metric.name(),
        batch.files@.len() <= size,
{
    every_file_has_one_place(kept, size, i);
    folders_are_filled(kept, size, i / size);
    assert(batch.files@[i % size] == kept[i]);
}

/// The folder for rejected files says that the files were removed: with one rule
/// by what, else when. It has a number behind it only where the name is taken.
pub proof fn removed_folders_are_called_so<D: Fn(Double) -> String>(
    rules: Seq<FilterRule>,
    timestamp: u64,
    digits: D,
    base: Seq<char>,
    existing: Seq<String>,
    name: Seq<char>,
)
    requires
        folder_base(rules, timestamp, digits, base),
        free_name(base, existing, name),
    ensures
        "removed_"@.is_prefix_of(base),
        base.is_prefix_of(name),
        rules.len() == 1 ==> ("removed_"@ + rules[0].metric.name() + "_"@).is_prefix_of(base),
        rules.len() != 1 ==> base == "removed_combined_"@ + decimal(timestamp as nat),
        name == base <==> !(exists|i: int|
            0 <= i < existing.len() && (#[trigger] existing[i])@ == base),
        forall|i: int| 0 <= i < existing.len() ==> (#[trigger] existing[i])@ != name,
{
    reveal_strlit("removed_");
    reveal_strlit("removed_combined_");
    reveal_strlit("_");
    let p = "removed_"@;
    if rules.len() == 1 {
        let head = p + rules[0].metric.name() + "_"@;
        assert(head.is_prefix_of(base));
        assert(p.is_prefix_of(base)) by {
            assert(base.subrange(0, p.len() as int) =~= p);
        }
    } else {
        assert(base.subrange(0, p.len() as int) =~= p);
    }
    if taken(existing, base) {
        let n = choose|n: nat|
            {
                &&& n >= 2
                &&& name == #[trigger] variant(base, n)
                &&& !taken(existing, name)
                &&& forall|m: nat| 2 <= m < n ==> taken(existing, #[trigger] variant(base, m))
            };
        assert(name.subrange(0, base.len() as int) =~= base);
        assert(name.len() > base.len());
    } else {
        assert(name.subrange(0, base.len() as int) =~= base);
    }
}

/// Each metric is named by its own name and by no other metric's.
pub proof fn names_tell_metrics_apart(metric: Metric)
    ensures
        metric_named(metric.name()) == Some(metric),
{
    reveal_strlit("quality");
    reveal_strlit("fwhm");
    reveal_strlit("quality_star_pattern");
    reveal_strlit("background");
    reveal_strlit("star_brightness");
    reveal_strlit("snr");
}

/// A filter is reported where the limit of every rule can be told, else the
/// first that cannot says why. A rule relative to a median reports the limit
/// that this gives.
pub proof fn untellable_limits_are_told<R: Measured>(
    records: Seq<R>,
    rules: Seq<FilterRule>,
    j: int,
)
    requires
        0 <= j < rules.len(),
        forall|i: int|
            #![trigger rules[i]]
            0 <= i < j ==> rules[i].relative is Some != rules[i].absolute is Some && (
            rules[i].relative is Some ==> crate::metrics::median_of(
                crate::metrics::finite_readings(records, rules[i].metric),
            ) is Some),
    ensures
        ({
            let told = reports_of(rules, median_table(records), rules.len() as int);
            let rule = rules[j];
            let name = rule.metric.name();
            let middle = crate::metrics::median_of(
                crate::metrics::finite_readings(records, rule.metric),
            );
            &&& rule.relative is Some && rule.absolute is Some ==> told == Err::<
                Seq<RuleReport>,
                Seq<char>,
            >("both relative and absolute thresholds supplied for "@ + name)
            &&& rule.relative is None && rule.absolute is None ==> told == Err::<
                Seq<RuleReport>,
                Seq<char>,
            >("filter rule has no threshold"@)
            &&& rule.relative is Some && rule.absolute is None && middle is None ==> told == Err::<
                Seq<RuleReport>,
                Seq<char>,
            >("no values available for "@ + name)
            &&& j == rules.len() - 1 && rule.relative is Some && rule.absolute is None
                && middle is Some ==> told is Ok && told->Ok_0[j].absolute == product(
                rule.relative->0,
                middle->0,
            )
            &&& j == rules.len() - 1 && rule.relative is None && rule.absolute is Some ==> told is Ok
                && (middle is None ==> told->Ok_0[j].median == of_int(0))
        }),
{
    let medians = median_table(records);
    lemma_reports_so_far(records, rules, j);
    crate::metrics::the_table_holds_the_medians(records, rules[j].metric);
    if reports_of(rules, medians, j + 1) is Err {
        lemma_reports_fail(rules, medians, j + 1, rules.len() as int);
    }
}

proof fn lemma_reports_so_far<R: Measured>(records: Seq<R>, rules: Seq<FilterRule>, n: int)
    requires
        0 <= n <= rules.len(),
        forall|i: int|
            #![trigger rules[i]]
            0 <= i < n ==> rules[i].relative is Some != rules[i].absolute is Some && (
            rules[i].relative is Some ==> crate::metrics::median_of(
                crate::metrics::finite_readings(records, rules[i].metric),
            ) is Some),
    ensures
        reports_of(rules, median_table(records), n) is Ok,
        reports_of(rules, median_table(records), n)->Ok_0.len() == n,
    decreases n,
{
    if n > 0 {
        lemma_reports_so_far(records, rules, n - 1);
        crate::metrics::the_table_holds_the_medians(records, rules[n - 1].metric);
        assert(rules[n - 1].relative is Some != rules[n - 1].absolute is Some);
    }
}

/// Rejected records come in their order.
pub proof fn rejected_records_keep_their_order<R: Measured>(
    records: Seq<R>,
    rules: Seq<FilterRule>,
    medians: Map<u8, Double>,
    n: int,
)
    requires
        0 <= n <= records.len() <= usize::MAX,
    ensures
        forall|i: int, j: int|
            0 <= i < j < rejected_among(records, rules, medians, n).len() ==> #[trigger] rejected_among(
                records,
                rules,
                medians,
                n,
            )[i] < #[trigger] rejected_among(records, rules, medians, n)[j],
        forall|i: int|
            0 <= i < rejected_among(records, rules, medians, n).len() ==> #[trigger] rejected_among(
                records,
                rules,
                medians,
                n,
            )[i] < n,
    decreases n,
{
    if n > 0 {
        rejected_records_keep_their_order(records, rules, medians, n - 1);
        let rest = rejected_among(records, rules, medians, n - 1);
        let r = rejected_among(records, rules, medians, n);
        assert forall|i: int| 0 <= i < r.len() implies #[trigger] r[i] < n by {
            if i < rest.len() {
                assert(rest[i] < n - 1);
            }
        }
        assert forall|i: int, j: int| 0 <= i < j < r.len() implies #[trigger] r[i]
            < #[trigger] r[j] by {
            assert(rest[i] < n - 1);
            if j < rest.len() {
                assert(rest[i] < rest[j]);
            }
        }
    }
}

/// A text names a metric where it is its name, in whatever case and with dashes
/// for underscores, and no text names two.
pub proof fn metrics_go_by_their_names(text: Seq<char>, metric: Metric)
    ensures
        metric_named(text) == Some(metric) <==> names(text, metric.name()),
{
    reveal_strlit("quality");
    reveal_strlit("fwhm");
    reveal_strlit("quality_star_pattern");
    reveal_strlit("background");
    reveal_strlit("star_brightness");
    reveal_strlit("snr");
    if names(text, metric.name()) && metric_named(text) != Some(metric) {
        let other = metric_named(text)->0;
        assert(names(text, other.name()));
        assert(other.name().len() == metric.name().len());
        assert(false);
    }
}

/// A division takes two arguments: the name of a metric and a number above zero.
/// The first that is wrong is told.
pub proof fn divisions_are_read(value: Seq<String>, metric: Metric)
    ensures
        value.len() != 2 ==> division(value) == Err::<(Metric, usize), Seq<char>>(
            "--divide requires METRIC and COUNT, e.g. --divide snr 1000"@,
        ),
        value.len() == 2 && (forall|m: Metric| !names(value[0]@, #[trigger] m.name())) ==> division(
            value,
        ) == Err::<(Metric, usize), Seq<char>>(
            "unknown --divide metric '"@ + value[0]@
                + "'; choose quality, fwhm, quality_star_pattern, background, star_brightness or snr"@,
        ),
        value.len() == 2 && names(value[0]@, metric.name()) ==> match number_in(value[1]@) {
            Err(_) => division(value) == Err::<(Metric, usize), Seq<char>>(
                "invalid --divide COUNT '"@ + value[1]@ + "'; COUNT must be a positive integer"@,
            ),
            Ok(count) => if count == 0 {
                division(value) == Err::<(Metric, usize), Seq<char>>(
                    "--divide COUNT must be greater than zero"@,
                )
            } else {
                division(value) is Ok && (division(value)->Ok_0).0 == metric && (
                division(value)->Ok_0).1 == count as usize
            },
        },
{
    if value.len() == 2 {
        metrics_go_by_their_names(value[0]@, metric);
        if metric_named(value[0]@) is Some {
            let m = metric_named(value[0]@)->0;
            metrics_go_by_their_names(value[0]@, m);
            assert(names(value[0]@, m.name()));
        }
    }
}

/// The folder for files that one rule rejects is called after its metric and its
/// limit, the multiple where it is relative.
pub proof fn removed_folders_tell_the_limit<D: Fn(Double) -> String>(
    rule: FilterRule,
    timestamp: u64,
    digits: D,
    base: Seq<char>,
)
    requires
        folder_base(seq![rule], timestamp, digits, base),
        rule.relative is Some || rule.absolute is Some,
    ensures
        rule.relative is Some ==> exists|t: String| #[trigger]
            call_ensures(digits, (rule.relative->0,), t) && base == "removed_"@
                + rule.metric.name() + "_"@ + t@,
        rule.relative is None ==> exists|t: String| #[trigger]
            call_ensures(digits, (rule.absolute->0,), t) && base == "removed_"@
                + rule.metric.name() + "_"@ + t@,
{
    let rules = seq![rule];
    assert(rules.len() == 1 && rules[0] == rule);
}

/// A folder whose name is taken gets the least number from two on that makes it
/// free.
pub proof fn folder_numbers_are_least(base: Seq<char>, existing: Seq<String>, name: Seq<char>)
    requires
        free_name(base, existing, name),
        exists|i: int| 0 <= i < existing.len() && (#[trigger] existing[i])@ == base,
    ensures
        exists|n: nat|
            {
                &&& n >= 2
                &&& name == base + "_"@ + #[trigger] decimal(n)
                &&& forall|m: nat|
                    2 <= m < n ==> exists|i: int|
                        0 <= i < existing.len() && (#[trigger] existing[i])@ == base + "_"@
                            + #[trigger] decimal(m)
            },
{
    assert(taken(existing, base));
    let n = choose|n: nat|
        {
            &&& n >= 2
            &&& name == #[trigger] variant(base, n)
            &&& !taken(existing, name)
            &&& forall|m: nat| 2 <= m < n ==> taken(existing, #[trigger] variant(base, m))
        };
    assert(name == base + "_"@ + decimal(n));
    assert forall|m: nat| 2 <= m < n implies exists|i: int|
        0 <= i < existing.len() && (#[trigger] existing[i])@ == base + "_"@ + #[trigger] decimal(
            m,
        ) by {
        assert(taken(existing, variant(base, m)));
        let i = choose|i: int|
            0 <= i < existing.len() && (#[trigger] existing[i])@ == variant(base, m);
        assert(existing[i]@ == base + "_"@ + decimal(m));
    }
}

/// There are as many folders as the files fill, and no more.
pub proof fn folders_are_as_many_as_needed(n: int, size: int)
    requires
        0 <= n,
        size > 0,
    ensures
        (batch_count(n, size) - 1) * size < n <= batch_count(n, size) * size,
{
    let k = batch_count(n, size);
    vstd::arithmetic::div_mod::lemma_fundamental_div_mod(n + size - 1, size);
    vstd::arithmetic::div_mod::lemma_mod_bound(n + size - 1, size);
    assert((k - 1) * size < n <= k * size) by (nonlinear_arith)
        requires
            n + size - 1 == size * k + (n + size - 1) % size,
            0 <= (n + size - 1) % size < size,
    ;
}

} // verus!
