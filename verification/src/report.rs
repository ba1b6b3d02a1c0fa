//! The quality map and the statistics of a session.
use crate::astro_image::numbers_below;
use crate::config::AppConfig;
use crate::double::{
    below, lemma_nearest_part_of_count, lemma_none_and_all_of_count, lemma_part_of_count, mean,
    mean_of, nearest_int, of_int, place, product, quotient, sum, total, Double,
};
use crate::metrics::{available, finite_readings, median_of, median_of_all, Measured, Metric, MetricRecord};
use crate::order::{
    arrange, arranged, arranging_keeps_the_elements, bytes_at_most, compare_bytes, falling, rising,
    sort_falling, sort_rising,
};
use crate::session::ImageInfo;
use vstd::prelude::*;
use vstd::utf8::encode_utf8;

verus! {

/// The place of the percentile `p` among `n` sorted values.
pub open spec fn percentile_index(n: int, p: int) -> int {
    nearest_int(quotient(product(of_int(n - 1), of_int(p)), of_int(100)))
}

/// The percentile `p` of sorted values, zero where there are none.
pub open spec fn percentile_of(sorted: Seq<Double>, p: int) -> Double {
    if sorted.len() == 0 {
        of_int(0)
    } else {
        sorted[percentile_index(sorted.len() as int, p)]
    }
}

/// The percentile `p` of sorted values, zero where there are none.
pub fn percentile(sorted: &Vec<Double>, p: usize) -> (r: Double)
    requires
        p <= 100,
        sorted@.len() <= 0xffff_ffff,
    ensures
        r == percentile_of(sorted@, p as int),
{
    if sorted.len() == 0 {
        return Double::of_u64(0);
    }
    let last: usize = sorted.len() - 1;
    let index: u32 = Double::of_usize(last).product(Double::of_usize(p)).quotient(
        Double::of_u64(100),
    ).round_to_u32();
    proof {
        lemma_part_of_count(last as int, p as int);
    }
    sorted[index as usize]
}

/// The percentile 0 is the first of the sorted values, the percentile 100 the
/// last, and every percentile between is one of them.
pub proof fn percentiles_span_the_values(sorted: Seq<Double>, p: int)
    requires
        0 < sorted.len() <= 0xffff_ffff,
        0 <= p <= 100,
    ensures
        percentile_of(sorted, 0) == sorted[0],
        percentile_of(sorted, 100) == sorted[sorted.len() - 1],
        sorted.contains(percentile_of(sorted, p)),
{
    lemma_none_and_all_of_count(sorted.len() - 1);
    lemma_part_of_count(sorted.len() - 1, p);
    let i = percentile_index(sorted.len() as int, p);
    assert(sorted[i] == percentile_of(sorted, p));
}

/// What is remarkable about an image.
#[derive(Clone, Copy, Debug, PartialEq, Eq, Structural)]
pub enum Note {
    Nothing,
    LowStars,
    NoConstellation,
}

/// What is remarkable about an image.
pub open spec fn note_of(image: ImageInfo, low_star_threshold: Option<usize>) -> Note {
    if image.constellation_found == Some(false) {
        Note::NoConstellation
    } else {
        match low_star_threshold {
            Some(t) => if image.star_count < t {
                Note::LowStars
            } else {
                Note::Nothing
            },
            None => Note::Nothing,
        }
    }
}

/// A line of the quality map.
#[derive(Clone, Copy, Debug)]
pub struct MapRow {
    /// The number of the image.
    pub image: usize,
    pub fwhm: Double,
    /// In percent.
    pub quality: Double,
    /// In percent.
    pub quality_image: Option<Double>,
    pub star_count: usize,
    /// Nothing where it is not above zero.
    pub brightest: Option<Double>,
    /// Nothing where it is not above zero.
    pub star5: Option<Double>,
    pub note: Note,
}

/// A hundred times the part.
pub open spec fn percent_of(part: Option<Double>) -> Option<Double> {
    match part {
        Some(q) => Some(product(q, of_int(100))),
        None => None,
    }
}

/// The value where it is above zero.
pub open spec fn positive(v: Double) -> Option<Double> {
    if below(of_int(0), v) {
        Some(v)
    } else {
        None
    }
}

/// The line for an image.
pub open spec fn row_of(
    images: Seq<ImageInfo>,
    i: usize,
    low_star_threshold: Option<usize>,
) -> MapRow {
    let image = images[i as int];
    MapRow {
        image: i,
        fwhm: image.fwhm,
        quality: product(image.quality, of_int(100)),
        quality_image: percent_of(image.quality_image),
        star_count: image.star_count,
        brightest: positive(image.brightest_star_photons),
        star5: positive(image.star5_photons),
        note: note_of(image, low_star_threshold),
    }
}

/// The numbers of images, the best first.
pub open spec fn by_quality(images: Seq<ImageInfo>) -> spec_fn(usize, usize) -> bool {
    |a: usize, b: usize| place(images[b as int].quality) <= place(images[a as int].quality)
}

/// The lines of the quality map, the best image first.
pub open spec fn rows_of(images: Seq<ImageInfo>, low_star_threshold: Option<usize>) -> Seq<MapRow> {
    arranged(numbers_below(images.len() as int), by_quality(images)).map_values(
        |i: usize| row_of(images, i, low_star_threshold),
    )
}

/// A line of the table of percentiles.
#[derive(Clone, Copy, Debug)]
pub struct PercentileRow {
    pub p: usize,
    /// In percent.
    pub quality: Double,
    /// In percent.
    pub quality_image: Option<Double>,
    pub fwhm: Double,
}

/// The qualities of the images.
pub open spec fn qualities(images: Seq<ImageInfo>) -> Seq<Double> {
    images.map_values(|i: ImageInfo| i.quality)
}

/// The widths of the star profiles of the images.
pub open spec fn fwhms(images: Seq<ImageInfo>) -> Seq<Double> {
    images.map_values(|i: ImageInfo| i.fwhm)
}

/// The qualities that patterns give, of the images that have one.
pub open spec fn pattern_qualities(images: Seq<ImageInfo>) -> Seq<Double>
    decreases images.len(),
{
    if images.len() == 0 {
        Seq::empty()
    } else {
        let rest = pattern_qualities(images.drop_last());
        match images.last().quality_image {
            Some(q) => rest.push(q),
            None => rest,
        }
    }
}

/// The line for the percentile `p`. The widths count from the widest on.
pub open spec fn percentile_row(images: Seq<ImageInfo>, p: int) -> PercentileRow {
    let q = arranged(qualities(images), rising());
    let qi = arranged(pattern_qualities(images), rising());
    let f = arranged(fwhms(images), falling());
    PercentileRow {
        p: p as usize,
        quality: product(percentile_of(q, p), of_int(100)),
        quality_image: if qi.len() == 0 {
            None
        } else {
            Some(product(percentile_of(qi, p), of_int(100)))
        },
        fwhm: percentile_of(f, p),
    }
}

/// A line of the trend: the means over some images in the order of their names.
#[derive(Clone, Copy, Debug)]
pub struct TrendRow {
    /// Which images, counted from one.
    pub first: usize,
    pub last: usize,
    /// In percent.
    pub quality: Double,
    /// In percent.
    pub quality_image: Option<Double>,
    pub fwhm: Double,
}

/// The numbers of images by the names of their files.
pub open spec fn by_file_name(images: Seq<ImageInfo>) -> spec_fn(usize, usize) -> bool {
    |a: usize, b: usize|
        bytes_at_most(
            encode_utf8(images[a as int].file_name@),
            encode_utf8(images[b as int].file_name@),
        )
}

/// The images with these numbers.
pub open spec fn picked_images(images: Seq<ImageInfo>, numbers: Seq<usize>) -> Seq<ImageInfo> {
    numbers.map_values(|i: usize| images[i as int])
}

/// The line for the images from `start` to before `end`.
pub open spec fn trend_row(ordered: Seq<ImageInfo>, start: int, end: int) -> TrendRow {
    let part = ordered.subrange(start, end);
    let qi = pattern_qualities(part);
    TrendRow {
        first: (start + 1) as usize,
        last: end as usize,
        quality: product(mean(qualities(part)), of_int(100)),
        quality_image: if qi.len() == 0 {
            None
        } else {
            Some(product(mean(qi), of_int(100)))
        },
        fwhm: mean(fwhms(part)),
    }
}

/// The lines of the trend from the image `start` on, `window` images to each.
pub open spec fn trend_from(ordered: Seq<ImageInfo>, window: int, start: int) -> Seq<TrendRow>
    decreases
            (if start < ordered.len() {
                ordered.len() - start
            } else {
                0
            }),
{
    if window <= 0 || start >= ordered.len() {
        Seq::empty()
    } else {
        let end = if start + window < ordered.len() {
            start + window
        } else {
            ordered.len() as int
        };
        seq![trend_row(ordered, start, end)] + trend_from(ordered, window, start + window)
    }
}

/// The trend of a session that is longer than the window.
pub open spec fn trend_of(images: Seq<ImageInfo>, window: int) -> Option<Seq<TrendRow>> {
    if window > 0 && images.len() > window {
        let ordered = picked_images(
            images,
            arranged(numbers_below(images.len() as int), by_file_name(images)),
        );
        Some(trend_from(ordered, window, 0))
    } else {
        None
    }
}

/// The longest of the first `n` names, at least eight bytes.
pub open spec fn name_width(images: Seq<ImageInfo>, n: int) -> int
    decreases n,
{
    if n <= 0 {
        8
    } else {
        let rest = name_width(images, n - 1);
        let own = encode_utf8(images[n - 1].file_name@).len() as int;
        if own > rest {
            own
        } else {
            rest
        }
    }
}

/// The quality map of a session.
#[derive(Clone, Debug)]
pub struct QualityMap {
    pub name_width: usize,
    pub rows: Vec<MapRow>,
    /// For every fifth percentile.
    pub percentiles: Vec<PercentileRow>,
    pub median_quality: Double,
    pub trend: Option<Vec<TrendRow>>,
}

fn counted(n: usize) -> (r: Vec<usize>)
    ensures
        r@ == numbers_below(n as int),
{
    let mut r: Vec<usize> = Vec::new();
    let mut i: usize = 0;
    while i < n
        invariant
            i <= n,
            r@ == numbers_below(i as int),
        decreases n - i,
    {
        r.push(i);
        i = i + 1;
    }
    r
}

proof fn lemma_arranged_below(n: int, leq: spec_fn(usize, usize) -> bool)
    requires
        0 <= n <= usize::MAX,
    ensures
        arranged(numbers_below(n), leq).len() == n,
        forall|i: int|
            0 <= i < n ==> (#[trigger] arranged(numbers_below(n), leq)[i]) < n,
{
    let s = numbers_below(n);
    let r = arranged(s, leq);
    arranging_keeps_the_elements(s, leq);
    assert forall|i: int| 0 <= i < n implies (#[trigger] r[i]) < n by {
        crate::order::lemma_same_members(r, s, r[i]);
        assert(r.contains(r[i]));
        let m = s.index_of(r[i]);
        assert(s[m] == r[i]);
    }
}

fn percent_if(part: Option<Double>) -> (r: Option<Double>)
    ensures
        r == percent_of(part),
{
    match part {
        Some(q) => Some(q.product(Double::of_u64(100))),
        None => None,
    }
}

fn if_positive(v: Double) -> (r: Option<Double>)
    ensures
        r == positive(v),
{
    if Double::of_u64(0).below(v) {
        Some(v)
    } else {
        None
    }
}

fn map_rows(images: &Vec<ImageInfo>, low_star_threshold: Option<usize>) -> (r: Vec<MapRow>)
    ensures
        r@ == rows_of(images@, low_star_threshold),
{
    let f = |a: &usize, b: &usize| -> (c: bool)
        requires
            *a < images@.len(),
            *b < images@.len(),
        ensures
            c == by_quality(images@)(*a, *b),
        {
            images[*b].quality.total_at_most(images[*a].quality)
        };
    let n: usize = images.len();
    let order = arrange(counted(n), f, Ghost(by_quality(images@)));
    proof {
        lemma_arranged_below(n as int, by_quality(images@));
    }
    let ghost pick = |i: usize| row_of(images@, i, low_star_threshold);
    let mut r: Vec<MapRow> = Vec::new();
    let mut i: usize = 0;
    while i < n
        invariant
            n == images@.len(),
            n == order@.len(),
            forall|k: int| 0 <= k < n ==> (#[trigger] order@[k]) < n,
            i <= n,
            pick == (|i: usize| row_of(images@, i, low_star_threshold)),
            r@ == order@.take(i as int).map_values(pick),
        decreases n - i,
    {
        let k: usize = order[i];
        let image = &images[k];
        let note = match image.constellation_found {
            Some(false) => Note::NoConstellation,
            _ => match low_star_threshold {
                Some(t) => if image.star_count < t {
                    Note::LowStars
                } else {
                    Note::Nothing
                },
                None => Note::Nothing,
            },
        };
        r.push(
            MapRow {
                image: k,
                fwhm: image.fwhm,
                quality: image.quality.product(Double::of_u64(100)),
                quality_image: percent_if(image.quality_image),
                star_count: image.star_count,
                brightest: if_positive(image.brightest_star_photons),
                star5: if_positive(image.star5_photons),
                note,
            },
        );
        i = i + 1;
        assert(r@ =~= order@.take(i as int).map_values(pick));
    }
    assert(order@.take(n as int) =~= order@);
    r
}

fn ordered_by_name(images: &Vec<ImageInfo>) -> (r: Vec<usize>)
    ensures
        r@ == arranged(numbers_below(images@.len() as int), by_file_name(images@)),
        r@.len() == images@.len(),
        forall|i: int| 0 <= i < r@.len() ==> (#[trigger] r@[i]) < images@.len(),
{
    let f = |a: &usize, b: &usize| -> (c: bool)
        requires
            *a < images@.len(),
            *b < images@.len(),
        ensures
            c == by_file_name(images@)(*a, *b),
        {
            compare_bytes(
                images[*a].file_name.as_str().as_bytes(),
                images[*b].file_name.as_str().as_bytes(),
            )
        };
    let n: usize = images.len();
    proof {
        lemma_arranged_below(n as int, by_file_name(images@));
    }
    arrange(counted(n), f, Ghost(by_file_name(images@)))
}

fn picked_values(images: &Vec<ImageInfo>, order: &Vec<usize>, from: usize, to: usize) -> (r: (
    Vec<Double>,
    Vec<Double>,
    Vec<Double>,
))
    requires
        from <= to <= order@.len(),
        forall|i: int| 0 <= i < order@.len() ==> (#[trigger] order@[i]) < images@.len(),
    ensures
        ({
            let part = picked_images(images@, order@).subrange(from as int, to as int);
            &&& r.0@ == qualities(part)
            &&& r.1@ == pattern_qualities(part)
            &&& r.2@ == fwhms(part)
        }),
{
    let mut q: Vec<Double> = Vec::new();
    let mut qi: Vec<Double> = Vec::new();
    let mut f: Vec<Double> = Vec::new();
    let ghost part = picked_images(images@, order@).subrange(from as int, to as int);
    let mut i: usize = from;
    assert(part.take(0) =~= Seq::empty());
    while i < to
        invariant
            from <= i <= to <= order@.len(),
            forall|i: int| 0 <= i < order@.len() ==> (#[trigger] order@[i]) < images@.len(),
            part == picked_images(images@, order@).subrange(from as int, to as int),
            q@ == qualities(part.take(i - from)),
            qi@ == pattern_qualities(part.take(i - from)),
            f@ == fwhms(part.take(i - from)),
        decreases to - i,
    {
        proof {
            let t = part.take(i - from + 1);
            assert(t.drop_last() =~= part.take(i - from));
            assert(t.last() == images@[order@[i as int] as int]);
        }
        let image = &images[order[i]];
        q.push(image.quality);
        if let Some(v) = image.quality_image {
            qi.push(v);
        }
        f.push(image.fwhm);
        i = i + 1;
        proof {
            assert(q@ =~= qualities(part.take(i - from)));
            assert(f@ =~= fwhms(part.take(i - from)));
        }
    }
    assert(part.take(to - from) =~= part);
    (q, qi, f)
}

fn trend_rows(images: &Vec<ImageInfo>, window: usize) -> (r: Vec<TrendRow>)
    requires
        window > 0,
    ensures
        r@ == trend_from(
            picked_images(
                images@,
                arranged(numbers_below(images@.len() as int), by_file_name(images@)),
            ),
            window as int,
            0,
        ),
{
    let order = ordered_by_name(images);
    let n: usize = order.len();
    let ghost ordered = picked_images(images@, order@);
    let hundred = Double::of_u64(100);
    let mut r: Vec<TrendRow> = Vec::new();
    let mut start: usize = 0;
    assert(r@ + trend_from(ordered, window as int, 0) =~= trend_from(ordered, window as int, 0));
    while start < n
        invariant
            window > 0,
            n == order@.len(),
            ordered == picked_images(images@, order@),
            ordered.len() == n,
            hundred == of_int(100),
            forall|i: int| 0 <= i < order@.len() ==> (#[trigger] order@[i]) < images@.len(),
            start <= n,
            trend_from(ordered, window as int, 0) == r@ + trend_from(
                ordered,
                window as int,
                start as int,
            ),
        decreases n - start,
    {
        let end: usize = if window < n - start {
            start + window
        } else {
            n
        };
        let (q, qi, f) = picked_values(images, &order, start, end);
        let row = TrendRow {
            first: start + 1,
            last: end,
            quality: mean_of(&q).product(hundred),
            quality_image: if qi.len() == 0 {
                None
            } else {
                Some(mean_of(&qi).product(hundred))
            },
            fwhm: mean_of(&f),
        };
        proof {
            let rest = trend_from(ordered, window as int, start + window);
            assert(row == trend_row(ordered, start as int, end as int));
            assert(r@ + (seq![row] + rest) =~= r@.push(row) + rest);
            if end == n {
                assert(rest =~= Seq::empty());
                assert(trend_from(ordered, window as int, n as int) =~= Seq::empty());
            }
        }
        r.push(row);
        start = end;
    }
    assert(r@ + Seq::<TrendRow>::empty() =~= r@);
    r
}

/// The quality map of a session.
pub fn quality_map(
    images: &Vec<ImageInfo>,
    low_star_threshold: Option<usize>,
    config: &AppConfig,
) -> (r: QualityMap)
    requires
        images@.len() <= 0xffff_ffff,
    ensures
        r.name_width == name_width(images@, images@.len() as int),
        r.rows@ == rows_of(images@, low_star_threshold),
        r.percentiles@ == Seq::new(21, |i: int| percentile_row(images@, 5 * i)),
        r.median_quality == percentile_of(arranged(qualities(images@), rising()), 50),
        match trend_of(images@, config.rolling_avg_window as int) {
            Some(rows) => r.trend is Some && r.trend->0@ == rows,
            None => r.trend is None,
        },
{
    let n: usize = images.len();
    let mut width: usize = 8;
    let mut i: usize = 0;
    while i < n
        invariant
            n == images@.len(),
            i <= n,
            width == name_width(images@, i as int),
        decreases n - i,
    {
        let own: usize = images[i].file_name.as_str().as_bytes().len();
        if own > width {
            width = own;
        }
        i = i + 1;
    }
    let (q, qi, f) = picked_values(images, &counted(n), 0, n);
    proof {
        let all = picked_images(images@, numbers_below(n as int));
        assert(all.subrange(0, n as int) =~= images@);
        lemma_pattern_qualities_len(images@);
        arranging_keeps_the_elements(pattern_qualities(images@), rising());
    }
    let quality_vals = sort_rising(q);
    let quality_image_vals = sort_rising(qi);
    let fwhm_vals = sort_falling(f);
    let hundred = Double::of_u64(100);
    let mut percentiles: Vec<PercentileRow> = Vec::new();
    let mut k: usize = 0;
    while k < 21
        invariant
            n == images@.len(),
            n <= 0xffff_ffff,
            quality_vals@ == arranged(qualities(images@), rising()),
            quality_vals@.len() == n,
            quality_image_vals@ == arranged(pattern_qualities(images@), rising()),
            quality_image_vals@.len() <= n,
            fwhm_vals@ == arranged(fwhms(images@), falling()),
            fwhm_vals@.len() == n,
            hundred == of_int(100),
            k <= 21,
            percentiles@ == Seq::new(k as nat, |i: int| percentile_row(images@, 5 * i)),
        decreases 21 - k,
    {
        let p: usize = 5 * k;
        percentiles.push(
            PercentileRow {
                p,
                quality: percentile(&quality_vals, p).product(hundred),
                quality_image: if quality_image_vals.len() == 0 {
                    None
                } else {
                    Some(percentile(&quality_image_vals, p).product(hundred))
                },
                fwhm: percentile(&fwhm_vals, p),
            },
        );
        k = k + 1;
        assert(percentiles@ =~= Seq::new(k as nat, |i: int| percentile_row(images@, 5 * i)));
    }
    let window: usize = config.rolling_avg_window;
    QualityMap {
        name_width: width,
        rows: map_rows(images, low_star_threshold),
        percentiles,
        median_quality: percentile(&quality_vals, 50),
        trend: if window > 0 && n > window {
            Some(trend_rows(images, window))
        } else {
            None
        },
    }
}

proof fn lemma_pattern_qualities_len(images: Seq<ImageInfo>)
    ensures
        pattern_qualities(images).len() <= images.len(),
    decreases images.len(),
{
    if images.len() > 0 {
        lemma_pattern_qualities_len(images.drop_last());
    }
}

/// The quality map has a line for each image, and no image of a later line is
/// better than one of an earlier.
pub proof fn better_images_come_first(
    images: Seq<ImageInfo>,
    low_star_threshold: Option<usize>,
    i: int,
    j: int,
)
    requires
        images.len() <= usize::MAX,
        0 <= i < j < images.len(),
    ensures
        ({
            let rows = rows_of(images, low_star_threshold);
            &&& rows.len() == images.len()
            &&& rows[i].image < images.len()
            &&& rows[j].image < images.len()
            &&& rows[i].image != rows[j].image
            &&& place(images[rows[j].image as int].quality) <= place(
                images[rows[i].image as int].quality,
            )
        }),
{
    let n = images.len() as int;
    let leq = by_quality(images);
    let all = numbers_below(n);
    let order = arranged(all, leq);
    lemma_arranged_below(n, leq);
    assert(crate::order::preorder(leq));
    crate::order::arranging_sorts(all, leq);
    arranging_keeps_the_elements(all, leq);
    assert(all.no_duplicates());
    all.lemma_multiset_has_no_duplicates();
    order.lemma_multiset_has_no_duplicates_conv();
    assert(leq(order[i], order[j]));
}

/// The statistics of a metric over a session.
#[derive(Clone, Copy, Debug)]
pub struct Statistics {
    pub metric: Metric,
    pub available: usize,
    pub median: Double,
    pub mean: Double,
    pub least: Double,
    pub greatest: Double,
}

/// The statistics of a metric; nothing where no record has a finite value.
pub open spec fn statistics_of<R: Measured>(records: Seq<R>, metric: Metric) -> Option<Statistics> {
    let values = finite_readings(records, metric);
    let sorted = arranged(values, rising());
    if values.len() == 0 {
        None
    } else {
        Some(
            Statistics {
                metric,
                available: values.len() as usize,
                median: median_of(values)->0,
                mean: mean(values),
                least: sorted[0],
                greatest: sorted[sorted.len() - 1],
            },
        )
    }
}

/// The statistics of a metric; nothing where no record has a finite value.
pub fn statistics<R: Measured>(records: &[R], metric: Metric) -> (r: Option<Statistics>)
    ensures
        r == statistics_of(records@, metric),
{
    let values = available(records, metric);
    let n: usize = values.len();
    if n == 0 {
        return None;
    }
    let average = mean_of(&values);
    let (median, sorted) = median_of_all(values);
    match median {
        Some(m) => Some(
            Statistics {
                metric,
                available: n,
                median: m,
                mean: average,
                least: sorted[0],
                greatest: sorted[n - 1],
            },
        ),
        None => None,
    }
}

/// Whether some image has no pattern that was found.
pub fn any_without_pattern(records: &Vec<MetricRecord>) -> (r: bool)
    ensures
        r == exists|i: int|
            0 <= i < records@.len() && !(#[trigger] records@[i]).metrics.star_pattern_found,
{
    let mut i: usize = 0;
    while i < records.len()
        invariant
            i <= records@.len(),
            forall|k: int| 0 <= k < i ==> (#[trigger] records@[k]).metrics.star_pattern_found,
        decreases records@.len() - i,
    {
        if !records[i].metrics.star_pattern_found {
            assert(!records@[i as int].metrics.star_pattern_found);
            return true;
        }
        i = i + 1;
    }
    false
}

/// A percentile is the value at the nearest place to that part of the way from
/// the first value to the last.
pub proof fn percentiles_are_at_their_place(sorted: Seq<Double>, p: int)
    requires
        0 < sorted.len() <= 0xffff_ffff,
        0 <= p <= 100,
    ensures
        percentile_of(sorted, p) == sorted[((sorted.len() - 1) * p + 50) / 100],
{
    lemma_nearest_part_of_count(sorted.len() - 1, p);
}

/// Every line of the quality map tells of its image: its number, its width, its
/// qualities in percent, its number of stars, and the photons of its first and
/// its fifth star where there are any. A pattern that was looked for and not
/// found is told before too few stars. Every image has a line.
pub proof fn lines_tell_of_their_image(
    images: Seq<ImageInfo>,
    low_star_threshold: Option<usize>,
    k: int,
    j: int,
)
    requires
        images.len() <= usize::MAX,
        0 <= k < images.len(),
        0 <= j < images.len(),
    ensures
        ({
            let rows = rows_of(images, low_star_threshold);
            let row = rows[k];
            let image = images[row.image as int];
            let missing = image.constellation_found == Some(false);
            &&& row.image < images.len()
            &&& row.fwhm == image.fwhm
            &&& row.quality == product(image.quality, of_int(100))
            &&& row.quality_image is Some <==> image.quality_image is Some
            &&& image.quality_image is Some ==> row.quality_image == Some(
                product(image.quality_image->0, of_int(100)),
            )
            &&& row.star_count == image.star_count
            &&& row.brightest is Some <==> below(of_int(0), image.brightest_star_photons)
            &&& row.brightest is Some ==> row.brightest == Some(image.brightest_star_photons)
            &&& row.star5 is Some <==> below(of_int(0), image.star5_photons)
            &&& row.star5 is Some ==> row.star5 == Some(image.star5_photons)
            &&& row.note is NoConstellation <==> missing
            &&& row.note is LowStars <==> !missing && low_star_threshold is Some
                && image.star_count < low_star_threshold->0
            &&& exists|m: int| 0 <= m < rows.len() && (#[trigger] rows[m]).image == j
        }),
{
    let n = images.len() as int;
    let leq = by_quality(images);
    let all = numbers_below(n);
    let order = arranged(all, leq);
    lemma_arranged_below(n, leq);
    arranging_keeps_the_elements(all, leq);
    let rows = rows_of(images, low_star_threshold);
    assert(order[k] < n);
    assert(rows[k] == row_of(images, order[k], low_star_threshold));
    assert(all[j] == j as usize);
    assert(all.contains(j as usize));
    crate::order::lemma_same_members(order, all, j as usize);
    let m = order.index_of(j as usize);
    assert(rows[m] == row_of(images, order[m], low_star_threshold));
    assert(rows[m].image == j);
}

/// The qualities of patterns are those of the images that have one.
pub proof fn pattern_qualities_are_those_there_are(images: Seq<ImageInfo>)
    ensures
        pattern_qualities(images) == images.filter(
            |i: ImageInfo| i.quality_image is Some,
        ).map_values(|i: ImageInfo| i.quality_image->0),
    decreases images.len(),
{
    let there = |i: ImageInfo| i.quality_image is Some;
    let value = |i: ImageInfo| i.quality_image->0;
    reveal(Seq::filter);
    if images.len() > 0 {
        let rest = images.drop_last();
        pattern_qualities_are_those_there_are(rest);
        let last = images.last();
        assert(rest.filter(there).push(last).map_values(value) =~= rest.filter(there).map_values(
            value,
        ).push(value(last)));
    } else {
        assert(images.filter(there).map_values(value) =~= Seq::<Double>::empty());
    }
}

/// A line of the table of percentiles takes the qualities from the worst to the
/// best and the widths from the widest to the narrowest, so that a higher
/// percentile is a better image either way.
pub proof fn percentile_lines_go_from_bad_to_good(
    images: Seq<ImageInfo>,
    p: int,
    q: Seq<Double>,
    f: Seq<Double>,
)
    requires
        0 < images.len() <= 0xffff_ffff,
        0 <= p <= 100,
        q.to_multiset() == images.map_values(|i: ImageInfo| i.quality).to_multiset(),
        f.to_multiset() == images.map_values(|i: ImageInfo| i.fwhm).to_multiset(),
        forall|i: int, j: int|
            0 <= i < j < q.len() ==> place(#[trigger] q[i]) <= place(#[trigger] q[j]),
        forall|i: int, j: int|
            0 <= i < j < f.len() ==> place(#[trigger] f[j]) <= place(#[trigger] f[i]),
    ensures
        ({
            let row = percentile_row(images, p);
            let at = ((images.len() - 1) * p + 50) / 100;
            &&& row.p == p
            &&& row.quality == product(q[at], of_int(100))
            &&& row.fwhm == f[at]
        }),
{
    crate::metrics::lemma_rising_unique(qualities(images), q);
    crate::order::lemma_falling_unique(fwhms(images), f);
    percentiles_are_at_their_place(q, p);
    percentiles_are_at_their_place(f, p);
}

/// The same of the qualities that patterns give, over the images that have one;
/// without any, nothing is told.
pub proof fn percentile_lines_rank_the_patterns(images: Seq<ImageInfo>, p: int, q: Seq<Double>)
    requires
        images.len() <= 0xffff_ffff,
        0 <= p <= 100,
        q.to_multiset() == images.filter(|i: ImageInfo| i.quality_image is Some).map_values(
            |i: ImageInfo| i.quality_image->0,
        ).to_multiset(),
        forall|i: int, j: int|
            0 <= i < j < q.len() ==> place(#[trigger] q[i]) <= place(#[trigger] q[j]),
    ensures
        q.len() == 0 ==> percentile_row(images, p).quality_image is None,
        q.len() > 0 ==> percentile_row(images, p).quality_image == Some(
            product(q[((q.len() - 1) * p + 50) / 100], of_int(100)),
        ),
{
    pattern_qualities_are_those_there_are(images);
    lemma_pattern_qualities_len(images);
    crate::metrics::lemma_rising_unique(pattern_qualities(images), q);
    if q.len() > 0 {
        percentiles_are_at_their_place(q, p);
    }
}

/// The trend has a line for every window, one after the other; the last may be
/// shorter. A line gives the means over its images.
pub proof fn trends_go_window_by_window(ordered: Seq<ImageInfo>, window: int, k: int)
    requires
        window > 0,
        0 <= k,
        k * window < ordered.len(),
        ordered.len() <= usize::MAX,
    ensures
        ({
            let rows = trend_from(ordered, window, 0);
            let first = k * window;
            let end = if first + window <= ordered.len() {
                first + window
            } else {
                ordered.len() as int
            };
            let part = ordered.subrange(first, end);
            let own = part.filter(|i: ImageInfo| i.quality_image is Some).map_values(
                |i: ImageInfo| i.quality_image->0,
            );
            let mean_quality = quotient(
                total(part.map_values(|i: ImageInfo| i.quality)),
                of_int(end - first),
            );
            let mean_fwhm = quotient(
                total(part.map_values(|i: ImageInfo| i.fwhm)),
                of_int(end - first),
            );
            &&& k < rows.len()
            &&& (rows.len() - 1) * window < ordered.len() <= rows.len() * window
            &&& rows[k].first == first + 1
            &&& rows[k].last == end
            &&& rows[k].quality == product(mean_quality, of_int(100))
            &&& rows[k].fwhm == mean_fwhm
            &&& rows[k].quality_image is Some <==> own.len() > 0
            &&& own.len() > 0 ==> rows[k].quality_image == Some(
                product(quotient(total(own), of_int(own.len() as int)), of_int(100)),
            )
        }),
{
    lemma_trend_row(ordered, window, 0, k);
    let rows = trend_from(ordered, window, 0);
    assert(0 * window == 0) by (nonlinear_arith);
    let first = k * window;
    let end = if first + window <= ordered.len() {
        first + window
    } else {
        ordered.len() as int
    };
    pattern_qualities_are_those_there_are(ordered.subrange(first, end));
}

proof fn lemma_trend_row(ordered: Seq<ImageInfo>, window: int, done: int, k: int)
    requires
        window > 0,
        0 <= done <= k,
        k * window < ordered.len(),
    ensures
        ({
            let rows = trend_from(ordered, window, done * window);
            let end = if k * window + window <= ordered.len() {
                k * window + window
            } else {
                ordered.len() as int
            };
            &&& k - done < rows.len()
            &&& rows[k - done] == trend_row(ordered, k * window, end)
            &&& (rows.len() + done - 1) * window < ordered.len() <= (rows.len() + done) * window
        }),
    decreases ordered.len() - done,
{
    let start = done * window;
    assert(start <= k * window) by (nonlinear_arith)
        requires
            start == done * window,
            done <= k,
            window > 0,
    ;
    assert(done <= start && (done + 1) * window == start + window) by (nonlinear_arith)
        requires
            start == done * window,
            done >= 0,
            window > 0,
    ;
    let rest = trend_from(ordered, window, start + window);
    let rows = trend_from(ordered, window, start);
    let end = if start + window < ordered.len() {
        start + window
    } else {
        ordered.len() as int
    };
    assert(rows == seq![trend_row(ordered, start, end)] + rest);
    if start + window < ordered.len() {
        if k > done {
            lemma_trend_row(ordered, window, done + 1, k);
            assert(rows[k - done] == rest[k - done - 1]);
        } else {
            lemma_trend_row(ordered, window, done + 1, done + 1);
        }
        assert(rows.len() == rest.len() + 1);
    } else {
        assert(rest.len() == 0);
        assert(rows.len() == 1);
        if k > done {
            assert(k * window >= start + window) by (nonlinear_arith)
                requires
                    k >= done + 1,
                    (done + 1) * window == start + window,
                    window > 0,
            ;
        }
    }
}

/// Every image once, in the order of the names.
pub open spec fn in_order_of_names(images: Seq<ImageInfo>, order: Seq<usize>) -> bool {
    &&& order.len() == images.len()
    &&& order.no_duplicates()
    &&& forall|i: int| 0 <= i < order.len() ==> (#[trigger] order[i]) < images.len()
    &&& forall|i: int, j: int|
        0 <= i < j < order.len() ==> bytes_at_most(
            encode_utf8(images[#[trigger] order[i] as int].file_name@),
            encode_utf8(images[#[trigger] order[j] as int].file_name@),
        )
}

/// A trend is there for sessions longer than the window. It goes over all images
/// in the order of their names.
pub proof fn trends_follow_the_names(images: Seq<ImageInfo>, window: int)
    requires
        images.len() <= usize::MAX,
    ensures
        trend_of(images, window) is Some <==> 0 < window < images.len(),
        trend_of(images, window) is Some ==> exists|order: Seq<usize>|
            #[trigger] in_order_of_names(images, order) && trend_from(
                order.map_values(|i: usize| images[i as int]),
                window,
                0,
            ) == trend_of(images, window)->0,
{
    let n = images.len() as int;
    let leq = by_file_name(images);
    let all = numbers_below(n);
    let order = arranged(all, leq);
    lemma_arranged_below(n, leq);
    assert(crate::order::preorder(leq)) by {
        assert forall|a: usize, b: usize| #[trigger] leq(a, b) || leq(b, a) by {
            crate::order::dictionary_order_is_total(
                encode_utf8(images[a as int].file_name@),
                encode_utf8(images[b as int].file_name@),
            );
        }
        assert forall|a: usize, b: usize, c: usize| #[trigger] leq(a, b) && #[trigger] leq(
            b,
            c,
        ) implies leq(a, c) by {
            crate::order::dictionary_order_is_transitive(
                encode_utf8(images[a as int].file_name@),
                encode_utf8(images[b as int].file_name@),
                encode_utf8(images[c as int].file_name@),
            );
        }
    }
    crate::order::arranging_sorts(all, leq);
    arranging_keeps_the_elements(all, leq);
    assert(all.no_duplicates());
    all.lemma_multiset_has_no_duplicates();
    order.lemma_multiset_has_no_duplicates_conv();
    if 0 < window < n {
        let ordered = order.map_values(|i: usize| images[i as int]);
        assert(ordered =~= picked_images(images, order));
        assert forall|i: int, j: int| 0 <= i < j < order.len() implies bytes_at_most(
            encode_utf8(images[#[trigger] order[i] as int].file_name@),
            encode_utf8(images[#[trigger] order[j] as int].file_name@),
        ) by {
            assert(leq(order[i], order[j]));
        }
        assert(in_order_of_names(images, order));
        assert(trend_from(ordered, window, 0) == trend_of(images, window)->0);
    }
}

/// The column of names is as wide as the longest name, and eight at least.
pub proof fn names_fit_their_column(images: Seq<ImageInfo>, n: int, i: int)
    requires
        0 <= n <= images.len(),
    ensures
        name_width(images, n) >= 8,
        0 <= i < n ==> encode_utf8(images[i].file_name@).len() <= name_width(images, n),
        name_width(images, n) > 8 ==> exists|j: int|
            0 <= j < n && encode_utf8((#[trigger] images[j]).file_name@).len() == name_width(
                images,
                n,
            ),
    decreases n,
{
    if n > 0 {
        names_fit_their_column(images, n - 1, i);
        if name_width(images, n) == name_width(images, n - 1) {
            if name_width(images, n) > 8 {
                let j = choose|j: int|
                    0 <= j < n - 1 && encode_utf8((#[trigger] images[j]).file_name@).len()
                        == name_width(images, n - 1);
                assert(encode_utf8(images[j].file_name@).len() == name_width(images, n));
            }
        } else {
            assert(encode_utf8(images[n - 1].file_name@).len() == name_width(images, n));
        }
    }
}

/// The statistics of a metric are there where some record has a finite value.
/// They tell how many have one, the mean, and the ends and the middle of the
/// values in order.
pub proof fn statistics_are_of_the_values<R: Measured>(
    records: Seq<R>,
    metric: Metric,
    sorted: Seq<Double>,
)
    requires
        finite_readings(records, metric).len() <= usize::MAX,
        sorted.to_multiset() == finite_readings(records, metric).to_multiset(),
        forall|i: int, j: int|
            0 <= i < j < sorted.len() ==> place(#[trigger] sorted[i]) <= place(#[trigger] sorted[j]),
    ensures
        statistics_of(records, metric) is Some <==> sorted.len() > 0,
        sorted.len() > 0 ==> {
            let s = statistics_of(records, metric)->0;
            let n = sorted.len() as int;
            &&& s.metric == metric
            &&& s.available == n
            &&& s.least == sorted[0]
            &&& s.greatest == sorted[n - 1]
            &&& n % 2 == 1 ==> s.median == sorted[(n - 1) / 2]
            &&& n % 2 == 0 ==> s.median == quotient(
                sum(sorted[n / 2 - 1], sorted[n / 2]),
                of_int(2),
            )
            &&& s.mean == quotient(total(finite_readings(records, metric)), of_int(n))
        },
{
    let values = finite_readings(records, metric);
    crate::metrics::lemma_rising_unique(values, sorted);
    if sorted.len() > 0 {
        crate::metrics::medians_are_in_the_middle(values, sorted);
    }
}

} // verus!
