//! Charts of a metric over a session.
use crate::astro_image::numbers_below;
use crate::canvas::{Colour, Picture};
use crate::double::{
    at_most, below, difference, larger, lemma_fraction_of_count, nearest_int, of_int, product, quotient, ratio,
    saturated, smaller, sum, Double,
};
use crate::draw::{bitmap_text, fill, rectangle, text_shape};
use crate::metrics::{median_of, median_of_all, Metric, MetricRecord};
use crate::order::{arrange, arranged, arranging_keeps_the_elements, bytes_at_most, compare_bytes};
use crate::rules::{finite_reading, finite_value, name_bytes};
use vstd::prelude::*;
use vstd::utf8::encode_utf8;

verus! {

/// The numbers of records by the time of their files, and by name where that is
/// the same.
pub open spec fn by_time(records: Seq<MetricRecord>) -> spec_fn(usize, usize) -> bool {
    |a: usize, b: usize|
        {
            let ra = records[a as int];
            let rb = records[b as int];
            ra.modified_ns < rb.modified_ns || (ra.modified_ns == rb.modified_ns && bytes_at_most(
                name_bytes(ra),
                name_bytes(rb),
            ))
        }
}

/// The finite values of the metric in the order of time, with gaps.
pub open spec fn series(records: Seq<MetricRecord>, metric: Metric) -> Seq<Option<Double>> {
    arranged(numbers_below(records.len() as int), by_time(records)).map_values(
        |i: usize| finite_reading(metric, records[i as int].metrics),
    )
}

/// The values without the gaps.
pub open spec fn without_gaps(values: Seq<Option<Double>>) -> Seq<Double>
    decreases values.len(),
{
    if values.len() == 0 {
        Seq::empty()
    } else {
        let rest = without_gaps(values.drop_last());
        match values.last() {
            Some(v) => rest.push(v),
            None => rest,
        }
    }
}

/// The limit that is suggested for a metric with this median.
pub open spec fn suggested(metric: Metric, median: Double) -> Option<Double> {
    match metric {
        Metric::QualityStarPattern => Some(product(median, ratio(8, 10))),
        Metric::Background => Some(product(median, of_int(2))),
        Metric::StarBrightness => Some(product(median, ratio(7, 10))),
        _ => None,
    }
}

/// The smallest of the values, infinity where there are none.
pub open spec fn least(values: Seq<Double>) -> Double
    decreases values.len(),
{
    if values.len() == 0 {
        Double { bits: 0x7ff0_0000_0000_0000 }
    } else {
        smaller(least(values.drop_last()), values.last())
    }
}

/// The largest of the values, negative infinity where there are none.
pub open spec fn greatest(values: Seq<Double>) -> Double
    decreases values.len(),
{
    if values.len() == 0 {
        Double { bits: 0xfff0_0000_0000_0000 }
    } else {
        larger(greatest(values.drop_last()), values.last())
    }
}

/// The values that the scale has to hold: the values and the suggested limit.
pub open spec fn scale_values(metric: Metric, values: Seq<Double>) -> Seq<Double> {
    match median_of(values) {
        Some(m) => match suggested(metric, m) {
            Some(v) => values.push(v),
            None => values,
        },
        None => values,
    }
}

/// The scale of a chart: the value at its foot, and how much it spans.
#[derive(Clone, Copy, Debug)]
pub struct Scale {
    pub foot: Double,
    pub span: Double,
}

/// The scale that holds the values. It never spans nothing.
pub open spec fn scale_of(values: Seq<Double>) -> Scale {
    Scale {
        foot: least(values),
        span: larger(difference(greatest(values), least(values)), ratio(1, 1_000_000_000_000)),
    }
}

/// The row of a chart in which a value is shown.
pub open spec fn row_of(scale: Scale, value: Double) -> int {
    384 - saturated(
        nearest_int(
            product(quotient(difference(value, scale.foot), scale.span), of_int(349)),
        ),
        0,
        349,
    )
}

/// The column of a chart in which the value `i` of `n` is shown.
pub open spec fn column_of(i: int, n: int) -> int {
    55 + i * 824 / n
}

/// A mark of the scale.
#[derive(Clone, Copy, Debug)]
pub struct Tick {
    pub y: u32,
    pub value: Double,
}

/// The mark `t` of five.
pub open spec fn tick_of(scale: Scale, t: int) -> Tick {
    let fraction = quotient(of_int(t), of_int(4));
    Tick {
        y: (384 - nearest_int(product(fraction, of_int(349)))) as u32,
        value: sum(scale.foot, product(fraction, scale.span)),
    }
}

/// Where the first `n` values are shown.
pub open spec fn points_of(values: Seq<Option<Double>>, scale: Scale, n: int) -> Seq<(u32, u32)>
    decreases n,
{
    if n <= 0 {
        Seq::empty()
    } else {
        let rest = points_of(values, scale, n - 1);
        match values[n - 1] {
            Some(v) => rest.push(
                (column_of(n - 1, values.len() as int) as u32, row_of(scale, v) as u32),
            ),
            None => rest,
        }
    }
}

/// What a chart shows and where.
#[derive(Clone, Debug)]
pub struct ChartLayout {
    pub points: Vec<(u32, u32)>,
    pub ticks: Vec<Tick>,
    pub median: Double,
    pub median_y: u32,
    pub threshold: Option<Double>,
    pub threshold_y: u32,
}

impl ChartLayout {
    /// The layout of the chart of these values.
    pub open spec fn shows(self, metric: Metric, values: Seq<Option<Double>>) -> bool {
        let known = without_gaps(values);
        let scale = scale_of(scale_values(metric, known));
        let median = median_of(known)->0;
        &&& self.points@ == points_of(values, scale, values.len() as int)
        &&& self.ticks@ == Seq::new(5, |t: int| tick_of(scale, t))
        &&& self.median == median
        &&& self.median_y == row_of(scale, median)
        &&& self.threshold == suggested(metric, median)
        &&& self.threshold_y == (match suggested(metric, median) {
            Some(v) => row_of(scale, v),
            None => 0,
        })
    }

    /// Everything lies in the picture.
    pub open spec fn fits(self) -> bool {
        &&& self.ticks@.len() == 5
        &&& forall|i: int| 0 <= i < self.ticks@.len() ==> (#[trigger] self.ticks@[i]).y < 420
        &&& forall|i: int|
            0 <= i < self.points@.len() ==> (#[trigger] self.points@[i]).0 < 900
                && self.points@[i].1 < 420
        &&& self.median_y < 420
        &&& self.threshold_y < 420
    }
}

fn ordered_by_time(records: &[MetricRecord]) -> (r: Vec<usize>)
    ensures
        r@ == arranged(numbers_below(records@.len() as int), by_time(records@)),
        r@.len() == records@.len(),
        forall|i: int| 0 <= i < r@.len() ==> (#[trigger] r@[i]) < records@.len(),
{
    let n: usize = records.len();
    let mut numbers: Vec<usize> = Vec::new();
    let mut i: usize = 0;
    while i < n
        invariant
            i <= n,
            numbers@ == numbers_below(i as int),
        decreases n - i,
    {
        numbers.push(i);
        i = i + 1;
    }
    let f = |a: &usize, b: &usize| -> (c: bool)
        requires
            *a < records@.len(),
            *b < records@.len(),
        ensures
            c == by_time(records@)(*a, *b),
        {
            let ra = &records[*a];
            let rb = &records[*b];
            ra.modified_ns < rb.modified_ns || (ra.modified_ns == rb.modified_ns && compare_bytes(
                ra.file_name.as_str().as_bytes(),
                rb.file_name.as_str().as_bytes(),
            ))
        };
    proof {
        let leq = by_time(records@);
        let r = arranged(numbers@, leq);
        arranging_keeps_the_elements(numbers@, leq);
        assert forall|k: int| 0 <= k < r.len() implies (#[trigger] r[k]) < records@.len() by {
            crate::order::lemma_same_members(r, numbers@, r[k]);
            assert(r.contains(r[k]));
            let m = numbers@.index_of(r[k]);
            assert(numbers@[m] == r[k]);
        }
    }
    arrange(numbers, f, Ghost(by_time(records@)))
}

fn series_of(records: &[MetricRecord], metric: Metric) -> (r: Vec<Option<Double>>)
    ensures
        r@ == series(records@, metric),
        r@.len() == records@.len(),
{
    let order = ordered_by_time(records);
    let n: usize = order.len();
    let ghost pick = |i: usize| finite_reading(metric, records@[i as int].metrics);
    let mut r: Vec<Option<Double>> = Vec::new();
    let mut i: usize = 0;
    while i < n
        invariant
            n == order@.len(),
            forall|i: int| 0 <= i < order@.len() ==> (#[trigger] order@[i]) < records@.len(),
            pick == (|i: usize| finite_reading(metric, records@[i as int].metrics)),
            i <= n,
            r@ == order@.take(i as int).map_values(pick),
        decreases n - i,
    {
        r.push(finite_value(metric, &records[order[i]].metrics));
        i = i + 1;
        assert(r@ =~= order@.take(i as int).map_values(pick));
    }
    assert(order@.take(n as int) =~= order@);
    r
}

fn known_values(values: &Vec<Option<Double>>) -> (r: Vec<Double>)
    ensures
        r@ == without_gaps(values@),
{
    let mut r: Vec<Double> = Vec::new();
    let mut i: usize = 0;
    assert(values@.take(0) =~= Seq::empty());
    while i < values.len()
        invariant
            i <= values@.len(),
            r@ == without_gaps(values@.take(i as int)),
        decreases values@.len() - i,
    {
        proof {
            let t = values@.take(i + 1);
            assert(t.drop_last() =~= values@.take(i as int));
            assert(t.last() == values@[i as int]);
        }
        if let Some(v) = values[i] {
            r.push(v);
        }
        i = i + 1;
    }
    assert(values@.take(i as int) =~= values@);
    r
}

fn suggest(metric: Metric, median: Double) -> (r: Option<Double>)
    ensures
        r == suggested(metric, median),
{
    match metric {
        Metric::QualityStarPattern => Some(median.product(Double::ratio(8, 10))),
        Metric::Background => Some(median.product(Double::of_u64(2))),
        Metric::StarBrightness => Some(median.product(Double::ratio(7, 10))),
        _ => None,
    }
}

fn make_scale(values: &Vec<Double>) -> (r: Scale)
    ensures
        r == scale_of(values@),
{
    let mut low = Double::from_bits(0x7ff0_0000_0000_0000);
    let mut high = Double::from_bits(0xfff0_0000_0000_0000);
    let mut i: usize = 0;
    assert(values@.take(0) =~= Seq::empty());
    while i < values.len()
        invariant
            i <= values@.len(),
            low == least(values@.take(i as int)),
            high == greatest(values@.take(i as int)),
        decreases values@.len() - i,
    {
        proof {
            let t = values@.take(i + 1);
            assert(t.drop_last() =~= values@.take(i as int));
            assert(t.last() == values@[i as int]);
        }
        low = low.smaller(values[i]);
        high = high.larger(values[i]);
        i = i + 1;
    }
    assert(values@.take(i as int) =~= values@);
    Scale {
        foot: low,
        span: high.difference(low).larger(Double::ratio(1, 1_000_000_000_000)),
    }
}

fn find_row(scale: Scale, value: Double) -> (r: u32)
    ensures
        r == row_of(scale, value),
        r <= 384,
{
    let height: u32 = value.difference(scale.foot).quotient(scale.span).product(
        Double::of_u64(349),
    ).round_to_u32();
    if height > 349 {
        384 - 349
    } else {
        384 - height
    }
}

fn make_ticks(scale: Scale) -> (r: Vec<Tick>)
    ensures
        r@ == Seq::new(5, |t: int| tick_of(scale, t)),
        forall|i: int| 0 <= i < r@.len() ==> (#[trigger] r@[i]).y < 420,
{
    let mut r: Vec<Tick> = Vec::new();
    let mut t: u64 = 0;
    while t < 5
        invariant
            t <= 5,
            r@ == Seq::new(t as nat, |t: int| tick_of(scale, t)),
            forall|i: int| 0 <= i < r@.len() ==> (#[trigger] r@[i]).y < 420,
        decreases 5 - t,
    {
        let fraction = Double::of_u64(t).quotient(Double::of_u64(4));
        proof {
            lemma_fraction_of_count(349, t as int, 4);
        }
        let height: u32 = fraction.product(Double::of_u64(349)).round_to_u32();
        r.push(Tick { y: 384 - height, value: scale.foot.sum(fraction.product(scale.span)) });
        t = t + 1;
        assert(r@ =~= Seq::new(t as nat, |t: int| tick_of(scale, t)));
    }
    r
}

proof fn lemma_median_exists(values: Seq<Double>)
    requires
        values.len() > 0,
    ensures
        median_of(values) is Some,
{
    arranging_keeps_the_elements(values, crate::order::rising());
}

/// Decides what the chart of a metric shows and where; nothing where no record
/// has a finite value.
pub fn chart_layout(records: &[MetricRecord], metric: Metric) -> (r: Option<ChartLayout>)
    requires
        824 * records@.len() <= u32::MAX,
    ensures
        r is None <==> without_gaps(series(records@, metric)).len() == 0,
        r matches Some(l) ==> l.shows(metric, series(records@, metric)) && l.fits(),
{
    let values = series_of(records, metric);
    let known = known_values(&values);
    if known.len() == 0 {
        return None;
    }
    proof {
        lemma_median_exists(known@);
    }
    let mut held: Vec<Double> = Vec::new();
    let mut i: usize = 0;
    while i < known.len()
        invariant
            i <= known@.len(),
            held@ == known@.take(i as int),
        decreases known@.len() - i,
    {
        held.push(known[i]);
        i = i + 1;
    }
    assert(held@ =~= known@);
    let ghost all = known@;
    let (m, _) = median_of_all(known);
    let median = match m {
        Some(m) => m,
        None => Double::of_u64(0),
    };
    let threshold = suggest(metric, median);
    if let Some(v) = threshold {
        held.push(v);
    }
    assert(held@ =~= scale_values(metric, all));
    let scale = make_scale(&held);
    let n: usize = values.len();
    let mut points: Vec<(u32, u32)> = Vec::new();
    i = 0;
    while i < n
        invariant
            n == values@.len(),
            824 * n <= u32::MAX,
            i <= n,
            points@ == points_of(values@, scale, i as int),
            forall|k: int|
                0 <= k < points@.len() ==> (#[trigger] points@[k]).0 < 900 && points@[k].1 < 420,
        decreases n - i,
    {
        if let Some(v) = values[i] {
            proof {
                assert(0 <= (i * 824) / (n as int) < 824) by (nonlinear_arith)
                    requires
                        0 <= i < n,
                ;
            }
            let x: u32 = 55 + (i as u32 * 824) / (n as u32);
            points.push((x, find_row(scale, v)));
        }
        i = i + 1;
    }
    let threshold_y: u32 = match threshold {
        Some(v) => find_row(scale, v),
        None => 0,
    };
    let r = ChartLayout {
        points,
        ticks: make_ticks(scale),
        median,
        median_y: find_row(scale, median),
        threshold,
        threshold_y,
    };
    Some(r)
}

/// `base` with a shape painted over it.
pub open spec fn over(
    base: spec_fn(int, int) -> Colour,
    shape: spec_fn(int, int) -> bool,
    colour: Colour,
) -> spec_fn(int, int) -> Colour {
    |x: int, y: int|
        if shape(x, y) {
            colour
        } else {
            base(x, y)
        }
}

/// The numbers of a chart as text.
#[derive(Clone, Debug)]
pub struct ChartLabels {
    pub ticks: Vec<String>,
    pub median: String,
    pub threshold: String,
}

pub open spec fn black() -> Colour {
    Colour { red: 0, green: 0, blue: 0 }
}

pub open spec fn red() -> Colour {
    Colour { red: 220, green: 0, blue: 0 }
}

pub open spec fn green() -> Colour {
    Colour { red: 0, green: 150, blue: 0 }
}

pub open spec fn blue() -> Colour {
    Colour { red: 20, green: 70, blue: 180 }
}

/// An empty chart: its two axes on white.
pub open spec fn axes() -> spec_fn(int, int) -> Colour {
    over(
        over(
            |x: int, y: int| Colour { red: 255, green: 255, blue: 255 },
            rectangle(55, 385, 825, 1),
            black(),
        ),
        rectangle(55, 35, 1, 350),
        black(),
    )
}

/// The row in which the text of a mark begins.
pub open spec fn label_row(y: int) -> int {
    if y < 3 {
        0
    } else {
        y - 3
    }
}

/// `base` with the first `n` marks and their numbers.
pub open spec fn with_ticks(
    base: spec_fn(int, int) -> Colour,
    ticks: Seq<Tick>,
    labels: Seq<String>,
    n: int,
) -> spec_fn(int, int) -> Colour
    decreases n,
{
    if n <= 0 {
        base
    } else {
        let y = ticks[n - 1].y as int;
        over(
            over(
                with_ticks(base, ticks, labels, n - 1),
                rectangle(51, y, 5, 1),
                black(),
            ),
            text_shape(2, label_row(y), labels[n - 1]@),
            black(),
        )
    }
}

/// `base` with the first `n` values.
pub open spec fn with_points(
    base: spec_fn(int, int) -> Colour,
    points: Seq<(u32, u32)>,
    n: int,
) -> spec_fn(int, int) -> Colour
    decreases n,
{
    if n <= 0 {
        base
    } else {
        over(
            with_points(base, points, n - 1),
            rectangle(points[n - 1].0 as int, points[n - 1].1 as int, 5, 5),
            blue(),
        )
    }
}

/// What a chart looks like: marks, values, the name of the metric, and the
/// median and the suggested limit as text and as lines.
pub open spec fn chart_look(
    layout: ChartLayout,
    labels: ChartLabels,
    metric: Metric,
) -> spec_fn(int, int) -> Colour {
    let a = with_ticks(axes(), layout.ticks@, labels.ticks@, layout.ticks@.len() as int);
    let b = with_points(a, layout.points@, layout.points@.len() as int);
    let c = over(b, text_shape(60, 5, metric.name()), black());
    let d = over(c, text_shape(600, 5, "M MEDIAN "@ + labels.median@), red());
    let e = match layout.threshold {
        Some(_) => over(d, text_shape(600, 15, "T THRESHOLD "@ + labels.threshold@), green()),
        None => d,
    };
    let f = over(e, rectangle(55, layout.median_y as int, 825, 1), red());
    match layout.threshold {
        Some(_) => over(f, rectangle(55, layout.threshold_y as int, 825, 1), green()),
        None => f,
    }
}

fn paint_text(
    img: &mut Picture,
    x: u32,
    y: u32,
    text: &str,
    colour: Colour,
    Ghost(look): Ghost<spec_fn(int, int) -> Colour>,
)
    requires
        old(img).shows(900, 420, look),
        x + 6 * text@.len() <= u32::MAX,
        y <= 420,
    ensures
        final(img).shows(900, 420, over(look, text_shape(x as int, y as int, text@), colour)),
{
    let ghost before = *img;
    bitmap_text(img, x, y, text, colour);
    assert forall|u: int, v: int| img.has(u, v) implies #[trigger] img.at(u, v) == over(
        look,
        text_shape(x as int, y as int, text@),
        colour,
    )(u, v) by {
        assert(before.has(u, v));
        assert(before.at(u, v) == look(u, v));
    }
}

fn paint_rectangle(
    img: &mut Picture,
    x: i32,
    y: i32,
    width: i32,
    height: i32,
    colour: Colour,
    Ghost(look): Ghost<spec_fn(int, int) -> Colour>,
)
    requires
        old(img).shows(900, 420, look),
        0 <= x <= 900,
        0 <= y <= 420,
        0 <= width <= 900,
        0 <= height <= 420,
    ensures
        final(img).shows(
            900,
            420,
            over(look, rectangle(x as int, y as int, width as int, height as int), colour),
        ),
{
    let ghost before = *img;
    fill(img, x, y, width, height, colour);
    assert forall|u: int, v: int| img.has(u, v) implies #[trigger] img.at(u, v) == over(
        look,
        rectangle(x as int, y as int, width as int, height as int),
        colour,
    )(u, v) by {
        assert(before.has(u, v));
        assert(before.at(u, v) == look(u, v));
    }
}

/// Draws a chart.
pub fn draw_metric_chart(layout: &ChartLayout, labels: &ChartLabels, metric: Metric) -> (r: Picture)
    requires
        layout.fits(),
        labels.ticks@.len() == layout.ticks@.len(),
        forall|i: int|
            0 <= i < labels.ticks@.len() ==> 2 + 6 * (#[trigger] labels.ticks@[i])@.len()
                <= u32::MAX,
        600 + 6 * (9 + labels.median@.len()) <= u32::MAX,
        600 + 6 * (12 + labels.threshold@.len()) <= u32::MAX,
    ensures
        r.shows(900, 420, chart_look(*layout, *labels, metric)),
{
    let white = Colour { red: 255, green: 255, blue: 255 };
    let dark = Colour { red: 0, green: 0, blue: 0 };
    let of_median = Colour { red: 220, green: 0, blue: 0 };
    let of_threshold = Colour { red: 0, green: 150, blue: 0 };
    let of_point = Colour { red: 20, green: 70, blue: 180 };
    let mut img = Picture::filled(900, 420, white);
    let ghost plain = |x: int, y: int| Colour { red: 255, green: 255, blue: 255 };
    assert(img.shows(900, 420, plain));
    paint_rectangle(&mut img, 55, 385, 825, 1, dark, Ghost(plain));
    paint_rectangle(
        &mut img,
        55,
        35,
        1,
        350,
        dark,
        Ghost(over(plain, rectangle(55, 385, 825, 1), black())),
    );
    let ghost base = axes();
    let mut i: usize = 0;
    while i < layout.ticks.len()
        invariant
            layout.fits(),
            labels.ticks@.len() == layout.ticks@.len(),
            forall|i: int|
                0 <= i < labels.ticks@.len() ==> 2 + 6 * (#[trigger] labels.ticks@[i])@.len()
                    <= u32::MAX,
            base == axes(),
            dark == black(),
            i <= layout.ticks@.len(),
            img.shows(900, 420, with_ticks(base, layout.ticks@, labels.ticks@, i as int)),
        decreases layout.ticks@.len() - i,
    {
        let y: u32 = layout.ticks[i].y;
        let ghost look = with_ticks(base, layout.ticks@, labels.ticks@, i as int);
        assert(layout.ticks@[i as int].y < 420);
        paint_rectangle(&mut img, 51, y as i32, 5, 1, dark, Ghost(look));
        let row: u32 = if y < 3 {
            0
        } else {
            y - 3
        };
        assert(2 + 6 * labels.ticks@[i as int]@.len() <= u32::MAX);
        paint_text(
            &mut img,
            2,
            row,
            labels.ticks[i].as_str(),
            dark,
            Ghost(over(look, rectangle(51, y as int, 5, 1), black())),
        );
        i = i + 1;
    }
    let ghost ticked = with_ticks(axes(), layout.ticks@, labels.ticks@, layout.ticks@.len() as int);
    i = 0;
    while i < layout.points.len()
        invariant
            layout.fits(),
            of_point == blue(),
            i <= layout.points@.len(),
            img.shows(900, 420, with_points(ticked, layout.points@, i as int)),
        decreases layout.points@.len() - i,
    {
        let (x, y) = layout.points[i];
        assert(layout.points@[i as int].0 < 900);
        paint_rectangle(
            &mut img,
            x as i32,
            y as i32,
            5,
            5,
            of_point,
            Ghost(with_points(ticked, layout.points@, i as int)),
        );
        i = i + 1;
    }
    let ghost b = with_points(ticked, layout.points@, layout.points@.len() as int);
    proof {
        lemma_name_length(metric);
        reveal_strlit("M MEDIAN ");
        reveal_strlit("T THRESHOLD ");
    }
    paint_text(&mut img, 60, 5, metric.key(), dark, Ghost(b));
    let ghost c = over(b, text_shape(60, 5, metric.name()), black());
    let median_text = "M MEDIAN ".to_owned().concat(labels.median.as_str());
    paint_text(&mut img, 600, 5, median_text.as_str(), of_median, Ghost(c));
    let ghost d = over(c, text_shape(600, 5, "M MEDIAN "@ + labels.median@), red());
    let ghost mut e = d;
    if layout.threshold.is_some() {
        let text = "T THRESHOLD ".to_owned().concat(labels.threshold.as_str());
        paint_text(&mut img, 600, 15, text.as_str(), of_threshold, Ghost(d));
        proof {
            e = over(d, text_shape(600, 15, "T THRESHOLD "@ + labels.threshold@), green());
        }
    }
    paint_rectangle(&mut img, 55, layout.median_y as i32, 825, 1, of_median, Ghost(e));
    let ghost f = over(e, rectangle(55, layout.median_y as int, 825, 1), red());
    if layout.threshold.is_some() {
        paint_rectangle(&mut img, 55, layout.threshold_y as i32, 825, 1, of_threshold, Ghost(f));
    }
    img
}

proof fn lemma_name_length(metric: Metric)
    ensures
        metric.name().len() <= 20,
{
    reveal_strlit("quality");
    reveal_strlit("fwhm");
    reveal_strlit("quality_star_pattern");
    reveal_strlit("background");
    reveal_strlit("star_brightness");
    reveal_strlit("snr");
}

/// Every record has its place in a chart; earlier files come first, and of files
/// of one time the one whose name comes first. What is shown is the finite value
/// of the record.
pub proof fn charts_go_by_time(records: Seq<MetricRecord>, metric: Metric, i: int, j: int)
    requires
        records.len() <= usize::MAX,
        0 <= i < j < records.len(),
    ensures
        ({
            let order = arranged(numbers_below(records.len() as int), by_time(records));
            let a = records[order[i] as int];
            let b = records[order[j] as int];
            let value = match metric {
                Metric::Quality => Some(a.metrics.quality),
                Metric::Fwhm => Some(a.metrics.fwhm),
                Metric::QualityStarPattern => a.metrics.quality_star_pattern,
                Metric::Background => Some(a.metrics.background_corrected_adu),
                Metric::StarBrightness => a.metrics.star_brightness_adu,
                Metric::Snr => a.metrics.snr,
            };
            &&& order.len() == records.len()
            &&& order[i] < records.len()
            &&& order[j] < records.len()
            &&& order[i] != order[j]
            &&& a.modified_ns <= b.modified_ns
            &&& a.modified_ns == b.modified_ns ==> bytes_at_most(
                encode_utf8(a.file_name@),
                encode_utf8(b.file_name@),
            )
            &&& series(records, metric).len() == records.len()
            &&& series(records, metric)[i] == (if value is Some && value->0.finite() {
                value
            } else {
                None
            })
        }),
{
    let n = records.len() as int;
    let leq = by_time(records);
    let all = numbers_below(n);
    let order = arranged(all, leq);
    assert(crate::order::preorder(leq)) by {
        assert forall|a: usize, b: usize| #[trigger] leq(a, b) || leq(b, a) by {
            crate::order::dictionary_order_is_total(
                name_bytes(records[a as int]),
                name_bytes(records[b as int]),
            );
        }
        assert forall|a: usize, b: usize, c: usize| #[trigger] leq(a, b) && #[trigger] leq(
            b,
            c,
        ) implies leq(a, c) by {
            let x = records[a as int];
            let y = records[b as int];
            let z = records[c as int];
            if x.modified_ns == y.modified_ns && y.modified_ns == z.modified_ns {
                crate::order::dictionary_order_is_transitive(
                    name_bytes(x),
                    name_bytes(y),
                    name_bytes(z),
                );
            }
        }
    }
    crate::order::arranging_sorts(all, leq);
    arranging_keeps_the_elements(all, leq);
    assert(all.no_duplicates());
    all.lemma_multiset_has_no_duplicates();
    order.lemma_multiset_has_no_duplicates_conv();
    assert(leq(order[i], order[j]));
    assert forall|k: int| 0 <= k < n implies (#[trigger] order[k]) < n by {
        crate::order::lemma_same_members(order, all, order[k]);
        assert(order.contains(order[k]));
        let m = all.index_of(order[k]);
        assert(all[m] == order[k]);
    }
    assert(order[i] < n && order[j] < n);
}

/// What is known are the values that are there, in their order.
pub proof fn gaps_are_left_out(values: Seq<Option<Double>>)
    ensures
        without_gaps(values) == values.filter(|v: Option<Double>| v is Some).map_values(
            |v: Option<Double>| v->0,
        ),
    decreases values.len(),
{
    let there = |v: Option<Double>| v is Some;
    let value = |v: Option<Double>| v->0;
    reveal(Seq::filter);
    if values.len() > 0 {
        let rest = values.drop_last();
        gaps_are_left_out(rest);
        let last = values.last();
        assert(rest.filter(there).push(last).map_values(value) =~= rest.filter(there).map_values(
            value,
        ).push(value(last)));
    } else {
        assert(values.filter(there).map_values(value) =~= Seq::<Double>::empty());
    }
}

/// The limits that charts suggest are those of a filter without limits: the same
/// part of the median.
pub proof fn suggestions_are_the_default_limits(metric: Metric, median: Double)
    ensures
        ({
            let rules = crate::rules::default_rules();
            &&& suggested(metric, median) is Some <==> exists|i: int|
                0 <= i < rules.len() && (#[trigger] rules[i]).metric == metric
            &&& forall|i: int|
                0 <= i < rules.len() && (#[trigger] rules[i]).metric == metric
                    ==> rules[i].relative is Some && suggested(metric, median) == Some(
                    product(median, rules[i].relative->0),
                )
        }),
{
    let rules = crate::rules::default_rules();
    assert(rules.len() == 3);
    assert(rules[0].metric == Metric::QualityStarPattern);
    assert(rules[1].metric == Metric::Background);
    assert(rules[2].metric == Metric::StarBrightness);
}

/// The least and the greatest of finite values are among them, and no value lies
/// outside.
pub proof fn ends_hold_the_values(values: Seq<Double>, i: int)
    requires
        0 <= i < values.len(),
        forall|k: int| 0 <= k < values.len() ==> (#[trigger] values[k]).finite(),
    ensures
        values.contains(least(values)),
        values.contains(greatest(values)),
        at_most(least(values), values[i]),
        at_most(values[i], greatest(values)),
    decreases values.len(),
{
    let n = values.len() as int;
    let rest = values.drop_last();
    let last = values.last();
    assert(values[n - 1].finite());
    if n == 1 {
        crate::double::lemma_infinities_bound(last);
        assert(least(rest) == (Double { bits: 0x7ff0_0000_0000_0000 }));
        assert(greatest(rest) == (Double { bits: 0xfff0_0000_0000_0000 }));
        assert(values[0] == last);
    } else {
        assert forall|k: int| 0 <= k < rest.len() implies (#[trigger] rest[k]).finite() by {
            assert(values[k].finite());
        }
        let j = if i < n - 1 { i } else { 0 };
        ends_hold_the_values(rest, j);
        assert(rest[j] == values[j]);
        let a = rest.index_of(least(rest));
        let b = rest.index_of(greatest(rest));
        assert(values[a] == least(rest));
        assert(values[b] == greatest(rest));
        assert(values[n - 1] == last);
    }
}

/// The scale of a chart holds every value that is shown and the suggested limit:
/// its foot is the least of them, and it reaches to the greatest.
pub proof fn scales_hold_what_is_shown(metric: Metric, values: Seq<Double>, median: Double)
    requires
        median_of(values) == Some(median),
    ensures
        ({
            let held = scale_values(metric, values);
            let scale = scale_of(held);
            let extent = difference(greatest(held), least(held));
            &&& scale.foot == least(held)
            &&& below(ratio(1, 1_000_000_000_000), extent) ==> scale.span == extent
            &&& suggested(metric, median) is None ==> held == values
            &&& suggested(metric, median) is Some ==> held == values.push(
                suggested(metric, median)->0,
            )
        }),
{
}

/// The least value is shown at the foot of a chart and the greatest at its top.
pub proof fn charts_span_their_height(foot: Double, top: Double)
    requires
        foot.finite(),
        top.finite(),
        below(foot, top),
        difference(top, foot).finite(),
    ensures
        row_of((Scale { foot, span: difference(top, foot) }), foot) == 384,
        row_of((Scale { foot, span: difference(top, foot) }), top) == 35,
{
    crate::double::lemma_ends_of_scale(foot, top, 349);
}

/// A larger value is never shown further down, and every value is shown between
/// the foot and the top.
pub proof fn larger_values_are_shown_higher(scale: Scale, a: Double, b: Double)
    requires
        a.finite(),
        b.finite(),
        scale.foot.finite(),
        scale.span.finite(),
        at_most(scale.foot, a),
        at_most(a, b),
        scale.span.units() > 0,
    ensures
        35 <= row_of(scale, b) <= row_of(scale, a) <= 384,
{
    crate::double::lemma_shares_ordered(a, b, scale.foot, scale.span, 349);
}

/// The values are spread over the width of a chart in equal steps: the first one
/// is at its left, and no other is further left than one before it.
pub proof fn values_are_spread_over_the_width(i: int, j: int, n: int)
    requires
        0 <= i < j < n,
    ensures
        column_of(0, n) == 55,
        55 <= column_of(i, n) <= column_of(j, n) < 879,
        n * (column_of(i, n) - 55) <= 824 * i < n * (column_of(i, n) - 54),
{
    let a = i * 824 / n;
    let b = j * 824 / n;
    vstd::arithmetic::div_mod::lemma_fundamental_div_mod(i * 824, n);
    vstd::arithmetic::div_mod::lemma_mod_bound(i * 824, n);
    vstd::arithmetic::div_mod::lemma_div_is_ordered(i * 824, j * 824, n);
    vstd::arithmetic::div_mod::lemma_basic_div(0, n);
    assert(0 <= a) by (nonlinear_arith)
        requires
            a == i * 824 / n,
            0 <= i,
            n > 0,
    ;
    assert(b < 824) by (nonlinear_arith)
        requires
            b == j * 824 / n,
            0 <= j < n,
    ;
    assert(n * (a + 1) == n * a + n) by (nonlinear_arith);
}

/// Each value that is there has a point, in its column and its row; a gap has
/// none.
pub proof fn points_show_the_values(values: Seq<Option<Double>>, scale: Scale, n: int)
    requires
        0 < n <= values.len(),
    ensures
        points_of(values, scale, 0) == Seq::<(u32, u32)>::empty(),
        ({
            let before = points_of(values, scale, n - 1);
            let after = points_of(values, scale, n);
            &&& values[n - 1] is None ==> after == before
            &&& values[n - 1] is Some ==> after.len() == before.len() + 1 && after.drop_last()
                == before && after.last().0 == 55 + (n - 1) * 824 / values.len() as int
                && after.last().1 == row_of(scale, values[n - 1]->0)
        }),
{
    if values[n - 1] is Some {
        let m = values.len() as int;
        let i = n - 1;
        assert(0 <= i * 824 / m < 824) by (nonlinear_arith)
            requires
                0 <= i < m,
        ;
        let before = points_of(values, scale, n - 1);
        let after = points_of(values, scale, n);
        assert(after.drop_last() =~= before);
    }
}

/// The lines of the median and of the limit lie above everything else: the limit
/// is green and the median red all along.
pub proof fn lines_lie_on_top(layout: ChartLayout, labels: ChartLabels, metric: Metric, x: int)
    requires
        55 <= x < 880,
    ensures
        layout.threshold is Some ==> chart_look(layout, labels, metric)(
            x,
            layout.threshold_y as int,
        ) == (Colour { red: 0, green: 150, blue: 0 }),
        layout.threshold is None || layout.threshold_y != layout.median_y ==> chart_look(
            layout,
            labels,
            metric,
        )(x, layout.median_y as int) == (Colour { red: 220, green: 0, blue: 0 }),
{
}

/// Points are blue squares of five, wherever no line crosses them.
pub proof fn points_are_blue_squares(
    layout: ChartLayout,
    labels: ChartLabels,
    metric: Metric,
    k: int,
    x: int,
    y: int,
)
    requires
        0 <= k < layout.points@.len(),
        layout.points@[k].1 >= 35,
        layout.points@[k].0 <= x < layout.points@[k].0 + 5,
        layout.points@[k].1 <= y < layout.points@[k].1 + 5,
        y != layout.median_y,
        layout.threshold is Some ==> y != layout.threshold_y,
    ensures
        chart_look(layout, labels, metric)(x, y) == (Colour { red: 20, green: 70, blue: 180 }),
{
    let ticked = with_ticks(axes(), layout.ticks@, labels.ticks@, layout.ticks@.len() as int);
    lemma_point_painted(ticked, layout.points@, layout.points@.len() as int, k, x, y);
}

proof fn lemma_point_painted(
    base: spec_fn(int, int) -> Colour,
    points: Seq<(u32, u32)>,
    n: int,
    k: int,
    x: int,
    y: int,
)
    requires
        0 <= k < n <= points.len(),
        points[k].0 <= x < points[k].0 + 5,
        points[k].1 <= y < points[k].1 + 5,
    ensures
        with_points(base, points, n)(x, y) == blue(),
    decreases n,
{
    if k < n - 1 {
        lemma_point_painted(base, points, n - 1, k, x, y);
    }
}

/// The five marks of a scale are at the quarters of its height, and each tells
/// the value that is shown there.
pub proof fn marks_are_at_the_quarters(scale: Scale, t: int)
    requires
        0 <= t <= 4,
    ensures
        tick_of(scale, t).y == 384 - (349 * t + 2) / 4,
        tick_of(scale, t).value == sum(
            scale.foot,
            product(quotient(of_int(t), of_int(4)), scale.span),
        ),
        tick_of(scale, 4).value == sum(scale.foot, product(of_int(1), scale.span)),
{
    crate::double::lemma_quarters(349, t);
    crate::double::integers_divide_exactly(1, 4);
}

/// Where nothing is drawn, a chart is white; its axes are black.
pub proof fn charts_are_black_on_white(x: int, y: int)
    ensures
        55 <= x < 880 && y == 385 ==> axes()(x, y) == (Colour { red: 0, green: 0, blue: 0 }),
        x == 55 && 35 <= y < 385 ==> axes()(x, y) == (Colour { red: 0, green: 0, blue: 0 }),
        !(55 <= x < 880 && y == 385) && !(x == 55 && 35 <= y < 385) ==> axes()(x, y) == (Colour {
            red: 255,
            green: 255,
            blue: 255,
        }),
{
}

/// Every mark is a black line of five pixels at the left of the axis, wherever
/// no point and no line covers it.
pub proof fn marks_are_black(
    base: spec_fn(int, int) -> Colour,
    ticks: Seq<Tick>,
    labels: Seq<String>,
    n: int,
    k: int,
    x: int,
)
    requires
        0 <= k < n <= ticks.len(),
        51 <= x < 56,
    ensures
        with_ticks(base, ticks, labels, n)(x, ticks[k].y as int) == (Colour {
            red: 0,
            green: 0,
            blue: 0,
        }),
    decreases n,
{
    if k < n - 1 {
        marks_are_black(base, ticks, labels, n - 1, k, x);
    }
}

/// The number of a mark stands at the left edge, three pixels above the mark.
pub proof fn marks_bear_their_numbers(
    base: spec_fn(int, int) -> Colour,
    ticks: Seq<Tick>,
    labels: Seq<String>,
    n: int,
    k: int,
    x: int,
    y: int,
)
    requires
        0 <= k < n <= ticks.len(),
        ticks[k].y >= 3,
        text_shape(2, ticks[k].y - 3, labels[k]@)(x, y),
    ensures
        with_ticks(base, ticks, labels, n)(x, y) == (Colour { red: 0, green: 0, blue: 0 }),
    decreases n,
{
    if k < n - 1 {
        marks_bear_their_numbers(base, ticks, labels, n - 1, k, x, y);
    }
}

/// The name of the metric stands at the top in black, the median beside it in
/// red, and the limit below that in green.
pub proof fn charts_bear_their_names(
    layout: ChartLayout,
    labels: ChartLabels,
    metric: Metric,
    x: int,
    y: int,
)
    requires
        0 <= y < 35,
        layout.median_y >= 35,
        layout.threshold_y >= 35 || layout.threshold is None,
    ensures
        ({
            let colour = chart_look(layout, labels, metric)(x, y);
            let of_median = text_shape(600, 5, "M MEDIAN "@ + labels.median@)(x, y);
            let of_limit = layout.threshold is Some && text_shape(
                600,
                15,
                "T THRESHOLD "@ + labels.threshold@,
            )(x, y);
            &&& of_limit ==> colour == (Colour { red: 0, green: 150, blue: 0 })
            &&& of_median ==> colour == (Colour { red: 220, green: 0, blue: 0 })
            &&& text_shape(60, 5, metric.name())(x, y) && !of_median && !of_limit ==> colour == (
            Colour { red: 0, green: 0, blue: 0 })
        }),
{
}


/// Everything in a chart is shown in one scale, which holds the known values and
/// the suggested limit: the points, the marks, the median of the known values
/// and the limit.
pub proof fn charts_have_one_scale(
    layout: ChartLayout,
    metric: Metric,
    values: Seq<Option<Double>>,
    known: Seq<Double>,
    median: Double,
    k: int,
)
    requires
        layout.shows(metric, values),
        known == values.filter(|v: Option<Double>| v is Some).map_values(
            |v: Option<Double>| v->0,
        ),
        median_of(known) == Some(median),
        0 <= k < 5,
    ensures
        ({
            let held = match suggested(metric, median) {
                Some(t) => known.push(t),
                None => known,
            };
            let scale = Scale {
                foot: least(held),
                span: larger(
                    difference(greatest(held), least(held)),
                    ratio(1, 1_000_000_000_000),
                ),
            };
            &&& layout.median == median
            &&& layout.median_y == row_of(scale, median)
            &&& layout.threshold == suggested(metric, median)
            &&& suggested(metric, median) matches Some(t) ==> layout.threshold_y == row_of(scale, t)
            &&& layout.ticks@.len() == 5
            &&& layout.ticks@[k] == tick_of(scale, k)
            &&& layout.points@ == points_of(values, scale, values.len() as int)
        }),
{
    gaps_are_left_out(values);
}

} // verus!
