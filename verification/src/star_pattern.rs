//! Making and checking star patterns.
use crate::astro_image::numbers_below;
use crate::double::{
    absolute_value, at_most, below, clamped, difference, integers_multiply_exactly,
    integers_subtract_exactly, lemma_difference_of_integers, of_int, place, product, quotient,
    small_integers_are_exact, square_root, sum, Double,
};
use crate::metrics::{median_of, median_of_all, outcome};
use crate::order::{
    arrange, arranged, arranging_forgets_the_order, arranging_keeps_the_elements, arranging_sorts,
    in_order, rising,
};
use crate::paths::{
    by_path, lemma_path_preorder, path_order_is_total, sort_paths, views, FilePath, PathPart,
};
use crate::star::Star;
use crate::text::{
    answer_in, decimal, listed, read_answer, write_number, write_numbers, Answer,
};
use vstd::prelude::*;
use vstd::string::StringSliceAdditionalSpecFns;

verus! {

/// A star of a pattern as it is stored.
#[derive(Clone, Copy, Debug, PartialEq)]
pub struct StarPatternEntry {
    pub x: usize,
    pub y: usize,
    pub magnitude: Double,
    pub use_in_quality: bool,
    pub median_brightness: Option<Double>,
    pub median_brightest_pixel_part: Option<Double>,
}

/// A star of one frame that a pattern may be made of.
#[derive(Clone, Copy, Debug, PartialEq)]
pub struct PatternStarSample {
    pub x: usize,
    pub y: usize,
    pub magnitude: Double,
    pub magnitude_adu: Double,
    pub brightest_pixel_part: Double,
}

/// Sorts the values and gives their median; `None` when there are none.
pub fn median(values: &mut [Double]) -> (r: Option<Double>)
    ensures
        final(values)@ == arranged(old(values)@, rising()),
        r == median_of(old(values)@),
{
    crate::metrics::median(values)
}

/// What is wrong with a pattern.
pub open spec fn pattern_complaint(
    pattern: Seq<StarPatternEntry>,
    position_tolerance_px: Double,
) -> Result<(), Seq<char>> {
    if !position_tolerance_px.finite() || position_tolerance_px.units() <= 0 {
        Err("star_pattern_position_tolerance_px must be greater than zero"@)
    } else if !(exists|i: int| 0 <= i < pattern.len() && (#[trigger] pattern[i]).use_in_quality) {
        Err("star pattern must contain at least one star with use_in_quality: true"@)
    } else if exists|i: int|
        0 <= i < pattern.len() && (!(#[trigger] pattern[i]).magnitude.finite()
            || pattern[i].magnitude.units() < 0) {
        Err("star pattern contains invalid magnitude"@)
    } else {
        Ok(())
    }
}

pub fn validate_pattern(pattern: &[StarPatternEntry], position_tolerance_px: Double) -> (r: Result<
    (),
    String,
>)
    ensures
        outcome(r) == pattern_complaint(pattern@, position_tolerance_px),
{
    let zero = Double::from_bits(0);
    if !position_tolerance_px.is_finite() || position_tolerance_px.at_most(zero) {
        return Err("star_pattern_position_tolerance_px must be greater than zero".to_owned());
    }
    let mut any: bool = false;
    let mut bad: bool = false;
    let mut i: usize = 0;
    while i < pattern.len()
        invariant
            i <= pattern@.len(),
            zero.bits == 0,
            any <==> exists|k: int| 0 <= k < i && (#[trigger] pattern@[k]).use_in_quality,
            bad <==> exists|k: int|
                0 <= k < i && (!(#[trigger] pattern@[k]).magnitude.finite()
                    || pattern@[k].magnitude.units() < 0),
        decreases pattern@.len() - i,
    {
        let s = pattern[i];
        if s.use_in_quality {
            assert(pattern@[i as int].use_in_quality);
            any = true;
        }
        if !s.magnitude.is_finite() || s.magnitude.below(zero) {
            assert(!pattern@[i as int].magnitude.finite() || pattern@[i as int].magnitude.units()
                < 0);
            bad = true;
        }
        i = i + 1;
    }
    if !any {
        return Err(
            "star pattern must contain at least one star with use_in_quality: true".to_owned(),
        );
    }
    if bad {
        return Err("star pattern contains invalid magnitude".to_owned());
    }
    Ok(())
}

/// The next state of the generator that the sampling draws from.
pub open spec fn stirred(state: u64) -> u64 {
    let a = state ^ (state << 7);
    let b = a ^ (a >> 9);
    b ^ (b << 8)
}

fn stir(state: u64) -> (r: u64)
    ensures
        r == stirred(state),
{
    let a: u64 = state ^ (state << 7);
    let b: u64 = a ^ (a >> 9);
    b ^ (b << 8)
}

/// `s` with two elements exchanged.
pub open spec fn swapped<T>(s: Seq<T>, i: int, j: int) -> Seq<T> {
    s.update(i, s[j]).update(j, s[i])
}

/// The elements up to `i` shuffled: from the last one on, each is exchanged with
/// one that the generator picks among those before it and itself.
pub open spec fn shuffled<T>(s: Seq<T>, state: u64, i: int) -> Seq<T>
    decreases i,
{
    if i <= 0 {
        s
    } else {
        let next = stirred(state);
        shuffled(swapped(s, i, (next as usize) as int % (i + 1)), next, i - 1)
    }
}

/// The sample of `count` paths that goes with the seed, sorted.
pub open spec fn sampled(paths: Seq<Seq<Seq<u8>>>, count: int, seed: u64) -> Seq<Seq<Seq<u8>>> {
    let sorted = arranged(paths, by_path());
    if sorted.len() <= count {
        sorted
    } else {
        arranged(
            shuffled(sorted, seed ^ 0x9e37_79b9_7f4a_7c15, sorted.len() - 1).take(count),
            by_path(),
        )
    }
}

fn swap(paths: &mut Vec<FilePath>, i: usize, j: usize)
    requires
        j <= i < old(paths)@.len(),
    ensures
        final(paths)@ == swapped(old(paths)@, i as int, j as int),
{
    if j < i {
        let x = paths.remove(i);
        paths.insert(j, x);
        let y = paths.remove(j + 1);
        paths.insert(i, y);
    }
    assert(paths@ =~= swapped(old(paths)@, i as int, j as int));
}

proof fn lemma_views_swapped(s: Seq<FilePath>, i: int, j: int)
    requires
        0 <= i < s.len(),
        0 <= j < s.len(),
    ensures
        views(swapped(s, i, j)) == swapped(views(s), i, j),
{
    assert(views(swapped(s, i, j)) =~= swapped(views(s), i, j));
}

/// Picks `count` of the paths. The same paths and seed always give the same
/// sample, in whatever order the paths come.
pub fn select_sample_paths(paths: Vec<FilePath>, count: usize, seed: u64) -> (r: Vec<FilePath>)
    ensures
        views(r@) == sampled(views(paths@), count as int, seed),
{
    let mut sorted = sort_paths(paths);
    if sorted.len() <= count {
        return sorted;
    }
    let ghost start = views(sorted@);
    let n: usize = sorted.len();
    let mut state: u64 = seed ^ 0x9e37_79b9_7f4a_7c15;
    let mut i: usize = n - 1;
    while i > 0
        invariant
            n == sorted@.len(),
            0 <= i < n,
            n == start.len(),
            shuffled(start, seed ^ 0x9e37_79b9_7f4a_7c15, n - 1) == shuffled(
                views(sorted@),
                state,
                i as int,
            ),
        decreases i,
    {
        state = stir(state);
        let j: usize = (state as usize) % (i + 1);
        proof {
            lemma_views_swapped(sorted@, i as int, j as int);
        }
        swap(&mut sorted, i, j);
        i = i - 1;
    }
    let ghost all = sorted@;
    sorted.truncate(count);
    proof {
        assert(views(sorted@) =~= views(all).take(count as int));
    }
    sort_paths(sorted)
}

proof fn lemma_swapped_multiset<T>(s: Seq<T>, i: int, j: int)
    requires
        0 <= j <= i < s.len(),
    ensures
        swapped(s, i, j).to_multiset() == s.to_multiset(),
        swapped(s, i, j).len() == s.len(),
{
    broadcast use vstd::seq_lib::group_to_multiset_ensures;

    if j < i {
        let a = s.remove(i);
        let b = a.insert(j, s[i]);
        let c = b.remove(j + 1);
        let d = c.insert(i, s[j]);
        vstd::seq_lib::to_multiset_remove(s, i);
        vstd::seq_lib::to_multiset_insert(a, j, s[i]);
        vstd::seq_lib::to_multiset_remove(b, j + 1);
        vstd::seq_lib::to_multiset_insert(c, i, s[j]);
        assert(d =~= swapped(s, i, j));
        assert(b[j + 1] == s[j]);
        assert(s.contains(s[i]));
        assert(b.contains(b[j + 1]));
        assert(d.to_multiset() =~= s.to_multiset());
    } else {
        assert(swapped(s, i, j) =~= s);
    }
}

proof fn lemma_shuffled_multiset<T>(s: Seq<T>, state: u64, i: int)
    requires
        i < s.len(),
    ensures
        shuffled(s, state, i).to_multiset() == s.to_multiset(),
        shuffled(s, state, i).len() == s.len(),
    decreases i,
{
    if i > 0 {
        let next = stirred(state);
        let j = (next as usize) as int % (i + 1);
        lemma_swapped_multiset(s, i, j);
        lemma_shuffled_multiset(swapped(s, i, j), next, i - 1);
    }
}

/// The sample does not depend on the order in which the paths come.
pub proof fn sampling_ignores_the_order(
    one: Seq<Seq<Seq<u8>>>,
    other: Seq<Seq<Seq<u8>>>,
    count: int,
    seed: u64,
)
    requires
        one.to_multiset() == other.to_multiset(),
    ensures
        sampled(one, count, seed) == sampled(other, count, seed),
{
    lemma_path_preorder();
    let leq = by_path();
    assert forall|a: Seq<Seq<u8>>, b: Seq<Seq<u8>>| #[trigger] leq(a, b) && leq(b, a) implies a
        == b by {
        path_order_is_total(a, b);
    }
    arranging_forgets_the_order(one, other, leq);
}

/// The sample has `count` paths, or all where there are not more; each of them
/// is one of the given paths, none occurs more often than there, and they are
/// sorted.
pub proof fn samples_are_sorted_parts(paths: Seq<Seq<Seq<u8>>>, count: int, seed: u64)
    requires
        0 <= count,
    ensures
        sampled(paths, count, seed).len() == (if count < paths.len() {
            count
        } else {
            paths.len() as int
        }),
        sampled(paths, count, seed).to_multiset().subset_of(paths.to_multiset()),
        in_order(sampled(paths, count, seed), by_path()),
{
    let sorted = arranged(paths, by_path());
    arranging_keeps_the_elements(paths, by_path());
    lemma_path_preorder();
    arranging_sorts(paths, by_path());
    if sorted.len() > count {
        let all = shuffled(sorted, seed ^ 0x9e37_79b9_7f4a_7c15, sorted.len() - 1);
        lemma_shuffled_multiset(sorted, seed ^ 0x9e37_79b9_7f4a_7c15, sorted.len() - 1);
        let part = all.take(count);
        assert(all =~= part + all.skip(count));
        vstd::seq_lib::lemma_multiset_commutative(part, all.skip(count));
        arranging_keeps_the_elements(part, by_path());
        arranging_sorts(part, by_path());
    }
}

/// The square of a number.
pub open spec fn squared(a: Double) -> Double {
    product(a, a)
}

/// How far a star is from a point.
pub open spec fn distance(s: PatternStarSample, x: Double, y: Double) -> Double {
    square_root(
        sum(squared(difference(of_int(s.x as int), x)), squared(difference(of_int(s.y as int), y))),
    )
}

fn distance_of(s: &PatternStarSample, x: Double, y: Double) -> (r: Double)
    ensures
        r == distance(*s, x, y),
{
    let dx = Double::of_usize(s.x).difference(x);
    let dy = Double::of_usize(s.y).difference(y);
    dx.product(dx).sum(dy.product(dy)).square_root()
}

/// The numbers of stars, those near to the point first; of stars as near as each
/// other the brighter first.
pub open spec fn near_first(stars: Seq<PatternStarSample>, x: Double, y: Double) -> spec_fn(
    usize,
    usize,
) -> bool {
    |a: usize, b: usize|
        {
            let da = place(distance(stars[a as int], x, y));
            let db = place(distance(stars[b as int], x, y));
            da < db || (da == db && place(stars[b as int].magnitude) <= place(
                stars[a as int].magnitude,
            ))
        }
}

/// Twice the area of the triangle of three stars.
pub open spec fn double_area(
    a: PatternStarSample,
    b: PatternStarSample,
    c: PatternStarSample,
) -> Double {
    absolute_value(
        difference(
            product(
                difference(of_int(b.x as int), of_int(a.x as int)),
                difference(of_int(c.y as int), of_int(a.y as int)),
            ),
            product(
                difference(of_int(c.x as int), of_int(a.x as int)),
                difference(of_int(b.y as int), of_int(a.y as int)),
            ),
        ),
    )
}

/// Three different stars that do not lie on a line.
pub open spec fn spans(stars: Seq<PatternStarSample>, a: usize, b: usize, c: usize) -> bool {
    &&& a != b
    &&& a != c
    &&& b != c
    &&& below(of_int(1), double_area(stars[a as int], stars[b as int], stars[c as int]))
}

/// The stars by their distance from the centre of the image.
pub open spec fn ranked(stars: Seq<PatternStarSample>, width: int, height: int) -> Seq<usize> {
    arranged(
        numbers_below(stars.len() as int),
        near_first(stars, quotient(of_int(width), of_int(2)), quotient(of_int(height), of_int(2))),
    )
}

/// Three places of a ranking.
pub open spec fn places_within(n: int, i: int, j: int, k: int) -> bool {
    0 <= i < n && 0 <= j < n && 0 <= k < n
}

/// The places `(u, v, w)` come before `(i, j, k)`.
pub open spec fn places_before(u: int, v: int, w: int, i: int, j: int, k: int) -> bool {
    u < i || (u == i && (v < j || (v == j && w < k)))
}

/// `(i, j, k)` are the first places of the ranking whose stars span a triangle.
pub open spec fn first_triangle(
    stars: Seq<PatternStarSample>,
    rank: Seq<usize>,
    i: int,
    j: int,
    k: int,
) -> bool {
    let n = rank.len() as int;
    &&& places_within(n, i, j, k)
    &&& spans(stars, rank[i], rank[j], rank[k])
    &&& forall|u: int, v: int, w: int| #[trigger]
        places_within(n, u, v, w) && places_before(u, v, w, i, j, k) ==> !spans(
            stars,
            rank[u],
            rank[v],
            rank[w],
        )
}

/// `r` are the stars at the first places of the ranking that span a triangle, or
/// nothing where none do.
pub open spec fn recommended(stars: Seq<PatternStarSample>, rank: Seq<usize>, r: Seq<usize>) -> bool {
    let n = rank.len() as int;
    ||| exists|i: int, j: int, k: int| #[trigger]
        first_triangle(stars, rank, i, j, k) && r == seq![rank[i], rank[j], rank[k]]
    ||| r.len() == 0 && forall|u: int, v: int, w: int| #[trigger]
        places_within(n, u, v, w) ==> !spans(stars, rank[u], rank[v], rank[w])
}

fn rank_stars(stars: &[PatternStarSample], width: usize, height: usize) -> (r: Vec<usize>)
    ensures
        r@ == ranked(stars@, width as int, height as int),
        r@.len() == stars@.len(),
        forall|i: int| 0 <= i < r@.len() ==> #[trigger] r@[i] < stars@.len(),
{
    let two = Double::of_u64(2);
    let cx = Double::of_usize(width).quotient(two);
    let cy = Double::of_usize(height).quotient(two);
    let n: usize = stars.len();
    let mut numbers: Vec<usize> = Vec::new();
    let mut i: usize = 0;
    while i < n
        invariant
            i <= n,
            numbers@ == numbers_below(i as int),
        decreases n - i,
    {
        numbers.push(i);
        i = i + 1;
    }
    let ghost leq = near_first(stars@, cx, cy);
    let f = |a: &usize, b: &usize| -> (c: bool)
        requires
            *a < stars@.len(),
            *b < stars@.len(),
        ensures
            c == near_first(stars@, cx, cy)(*a, *b),
        {
            let da = distance_of(&stars[*a], cx, cy);
            let db = distance_of(&stars[*b], cx, cy);
            if da.total_at_most(db) && db.total_at_most(da) {
                stars[*b].magnitude.total_at_most(stars[*a].magnitude)
            } else {
                da.total_at_most(db)
            }
        };
    proof {
        arranging_keeps_the_elements(numbers@, leq);
        let r = arranged(numbers@, leq);
        assert forall|k: int| 0 <= k < r.len() implies #[trigger] r[k] < stars@.len() by {
            crate::order::lemma_same_members(r, numbers@, r[k]);
            assert(r.contains(r[k]));
            let m = numbers@.index_of(r[k]);
            assert(numbers@[m] == r[k]);
        }
    }
    arrange(numbers, f, Ghost(near_first(stars@, cx, cy)))
}

fn triangle(stars: &[PatternStarSample], a: usize, b: usize, c: usize) -> (r: bool)
    requires
        a < stars@.len(),
        b < stars@.len(),
        c < stars@.len(),
    ensures
        r == spans(stars@, a, b, c),
{
    if a == b || a == c || b == c {
        return false;
    }
    let ax = Double::of_usize(stars[a].x);
    let ay = Double::of_usize(stars[a].y);
    let bx = Double::of_usize(stars[b].x);
    let by = Double::of_usize(stars[b].y);
    let cx = Double::of_usize(stars[c].x);
    let cy = Double::of_usize(stars[c].y);
    let one = bx.difference(ax).product(cy.difference(ay));
    let other = cx.difference(ax).product(by.difference(ay));
    Double::of_u64(1).below(one.difference(other).absolute_value())
}

/// Three stars near the centre of the image that do not lie on a line; nothing
/// where there are none.
pub fn recommend_stars(stars: &[PatternStarSample], width: usize, height: usize) -> (r: Vec<usize>)
    ensures
        recommended(stars@, ranked(stars@, width as int, height as int), r@),
{
    let rank = rank_stars(stars, width, height);
    let n: usize = rank.len();
    if stars.len() < 3 {
        let r: Vec<usize> = Vec::new();
        assert(r@.len() == 0);
        return r;
    }
    let mut i: usize = 0;
    while i < n
        invariant
            n == rank@.len(),
            rank@ == ranked(stars@, width as int, height as int),
            forall|m: int| 0 <= m < n ==> #[trigger] rank@[m] < stars@.len(),
            i <= n,
            forall|u: int, v: int, w: int| #[trigger]
                places_within(n as int, u, v, w) && places_before(u, v, w, i as int, 0, 0)
                    ==> !spans(stars@, rank@[u], rank@[v], rank@[w]),
        decreases n - i,
    {
        let mut j: usize = 0;
        while j < n
            invariant
                n == rank@.len(),
                rank@ == ranked(stars@, width as int, height as int),
                forall|m: int| 0 <= m < n ==> #[trigger] rank@[m] < stars@.len(),
                i < n,
                j <= n,
                forall|u: int, v: int, w: int| #[trigger]
                    places_within(n as int, u, v, w) && places_before(
                        u,
                        v,
                        w,
                        i as int,
                        j as int,
                        0,
                    ) ==> !spans(stars@, rank@[u], rank@[v], rank@[w]),
            decreases n - j,
        {
            let mut k: usize = 0;
            while k < n
                invariant
                    n == rank@.len(),
                    rank@ == ranked(stars@, width as int, height as int),
                    forall|m: int| 0 <= m < n ==> #[trigger] rank@[m] < stars@.len(),
                    i < n,
                    j < n,
                    k <= n,
                    forall|u: int, v: int, w: int| #[trigger]
                        places_within(n as int, u, v, w) && places_before(
                            u,
                            v,
                            w,
                            i as int,
                            j as int,
                            k as int,
                        ) ==> !spans(stars@, rank@[u], rank@[v], rank@[w]),
                decreases n - k,
            {
                let a: usize = rank[i];
                let b: usize = rank[j];
                let c: usize = rank[k];
                if triangle(stars, a, b, c) {
                    let mut r: Vec<usize> = Vec::new();
                    r.push(a);
                    r.push(b);
                    r.push(c);
                    proof {
                        assert(places_within(n as int, i as int, j as int, k as int));
                        assert(first_triangle(stars@, rank@, i as int, j as int, k as int));
                        assert(r@ =~= seq![rank@[i as int], rank@[j as int], rank@[k as int]]);
                    }
                    return r;
                }
                k = k + 1;
            }
            j = j + 1;
        }
        i = i + 1;
    }
    Vec::new()
}

/// A recommendation is empty or three different stars that do not lie on a line.
pub proof fn recommendations_are_triangles(
    stars: Seq<PatternStarSample>,
    rank: Seq<usize>,
    r: Seq<usize>,
)
    requires
        recommended(stars, rank, r),
    ensures
        r.len() == 0 || (r.len() == 3 && spans(stars, r[0], r[1], r[2])),
{
}

/// Where some three stars do not lie on a line, three are recommended.
pub proof fn triangles_are_recommended(
    stars: Seq<PatternStarSample>,
    width: int,
    height: int,
    r: Seq<usize>,
    a: usize,
    b: usize,
    c: usize,
)
    requires
        recommended(stars, ranked(stars, width, height), r),
        a < stars.len(),
        b < stars.len(),
        c < stars.len(),
        spans(stars, a, b, c),
    ensures
        r.len() == 3,
{
    let all = numbers_below(stars.len() as int);
    let rank = ranked(stars, width, height);
    let leq = near_first(
        stars,
        quotient(of_int(width), of_int(2)),
        quotient(of_int(height), of_int(2)),
    );
    arranging_keeps_the_elements(all, leq);
    assert(all[a as int] == a && all[b as int] == b && all[c as int] == c);
    crate::order::lemma_same_members(rank, all, a);
    crate::order::lemma_same_members(rank, all, b);
    crate::order::lemma_same_members(rank, all, c);
    let i = rank.index_of(a);
    let j = rank.index_of(b);
    let k = rank.index_of(c);
    assert(places_within(rank.len() as int, i, j, k));
}

/// The files in which a pattern is looked for, the first ones in the directory
/// of the session, the others in the current one.
pub open spec fn pattern_files(session: Seq<Seq<u8>>) -> Seq<Seq<Seq<u8>>> {
    let a = PathPart::code_of_name("stars_pattern.json".spec_bytes());
    let b = PathPart::code_of_name("star_pattern.json".spec_bytes());
    let c = PathPart::code_of_name("stars.json".spec_bytes());
    seq![session.push(a), session.push(b), session.push(c), seq![a], seq![b], seq![c]]
}

/// The file in which a pattern is found without being named: the first that
/// `is_file` says to be there.
pub fn default_pattern_path<F: Fn(&FilePath) -> bool>(session: &FilePath, is_file: F) -> (r: Option<
    FilePath,
>)
    requires
        forall|p: FilePath| call_requires(is_file, (&p,)),
    ensures
        match r {
            Some(p) => exists|k: int|
                {
                    &&& 0 <= k < 6
                    &&& p@ == #[trigger] pattern_files(session@)[k]
                    &&& call_ensures(is_file, (&p,), true)
                    &&& forall|m: int|
                        0 <= m < k ==> told_absent(is_file, #[trigger] pattern_files(session@)[m])
                },
            None => forall|m: int|
                0 <= m < 6 ==> told_absent(is_file, #[trigger] pattern_files(session@)[m]),
        },
{
    let here = FilePath { parts: Vec::new() };
    assert(here@ =~= Seq::empty());
    let ghost all = pattern_files(session@);
    let a = session.join("stars_pattern.json");
    assert(a@ == all[0]);
    if is_file(&a) {
        return Some(a);
    }
    assert(told_absent(is_file, all[0]));
    let b = session.join("star_pattern.json");
    assert(b@ == all[1]);
    if is_file(&b) {
        return Some(b);
    }
    assert(told_absent(is_file, all[1]));
    let c = session.join("stars.json");
    assert(c@ == all[2]);
    if is_file(&c) {
        return Some(c);
    }
    assert(told_absent(is_file, all[2]));
    let d = here.join("stars_pattern.json");
    assert(d@ =~= all[3]);
    if is_file(&d) {
        return Some(d);
    }
    assert(told_absent(is_file, all[3]));
    let e = here.join("star_pattern.json");
    assert(e@ =~= all[4]);
    if is_file(&e) {
        return Some(e);
    }
    assert(told_absent(is_file, all[4]));
    let f = here.join("stars.json");
    assert(f@ =~= all[5]);
    if is_file(&f) {
        return Some(f);
    }
    assert(told_absent(is_file, all[5]));
    None
}

/// `is_file` said of this path that there is no such file.
pub open spec fn told_absent<F: Fn(&FilePath) -> bool>(is_file: F, path: Seq<Seq<u8>>) -> bool {
    exists|p: FilePath| p@ == path && #[trigger] call_ensures(is_file, (&p,), false)
}

/// A star of a frame as a candidate, with the brightness of its brightest pixel
/// as a part of the range of the sensor.
pub open spec fn sample_of(s: Star) -> PatternStarSample {
    PatternStarSample {
        x: s.pos.x,
        y: s.pos.y,
        magnitude: s.magnitude,
        magnitude_adu: s.magnitude_adu,
        brightest_pixel_part: clamped(
            quotient(s.brightest_pixel_adu, of_int(0xffff)),
            of_int(0),
            of_int(1),
        ),
    }
}

/// The stars of a frame as candidates.
pub fn samples_of(stars: &Vec<Star>) -> (r: Vec<PatternStarSample>)
    ensures
        r@ == stars@.map_values(|s: Star| sample_of(s)),
{
    let mut r: Vec<PatternStarSample> = Vec::new();
    let mut i: usize = 0;
    while i < stars.len()
        invariant
            i <= stars@.len(),
            r@ == stars@.take(i as int).map_values(|s: Star| sample_of(s)),
        decreases stars@.len() - i,
    {
        let s = stars[i];
        let part = s.brightest_pixel_adu.quotient(Double::of_u64(0xffff));
        r.push(
            PatternStarSample {
                x: s.pos.x,
                y: s.pos.y,
                magnitude: s.magnitude,
                magnitude_adu: s.magnitude_adu,
                brightest_pixel_part: part.clamped(Double::of_u64(0), Double::of_u64(1)),
            },
        );
        i = i + 1;
        proof {
            assert(r@ =~= stars@.take(i as int).map_values(|s: Star| sample_of(s)));
        }
    }
    assert(stars@.take(i as int) =~= stars@);
    r
}

/// A star that occurs in all frames.
#[derive(Clone, Copy, Debug, PartialEq)]
pub struct AggregatedStar {
    pub sample: PatternStarSample,
    /// The number of the star in the frame that the others are compared with.
    pub reference_index: usize,
}

/// Which of the first `n` stars of a frame is nearest to the reference star, of
/// those that are not further off than the tolerance.
pub open spec fn counterpart(
    frame: Seq<PatternStarSample>,
    star: PatternStarSample,
    tolerance: Double,
    n: int,
) -> Option<int>
    decreases n,
{
    if n <= 0 {
        None
    } else {
        let x = of_int(star.x as int);
        let y = of_int(star.y as int);
        let d = distance(frame[n - 1], x, y);
        let best = counterpart(frame, star, tolerance, n - 1);
        if !at_most(d, tolerance) {
            best
        } else {
            match best {
                Some(k) => if below(d, distance(frame[k], x, y)) {
                    Some(n - 1)
                } else {
                    best
                },
                None => Some(n - 1),
            }
        }
    }
}

/// The counterparts of the reference star in the first `n` frames; nothing where
/// one of them has none.
pub open spec fn counterparts(
    frames: Seq<Vec<PatternStarSample>>,
    star: PatternStarSample,
    tolerance: Double,
    n: int,
) -> Option<Seq<PatternStarSample>>
    decreases n,
{
    if n <= 0 {
        Some(Seq::empty())
    } else {
        let frame = frames[n - 1]@;
        match (
            counterparts(frames, star, tolerance, n - 1),
            counterpart(frame, star, tolerance, frame.len() as int),
        ) {
            (Some(list), Some(k)) => Some(list.push(frame[k])),
            _ => None,
        }
    }
}

/// The median of the values, or `fallback` where there are none.
pub open spec fn median_or(values: Seq<Double>, fallback: Double) -> Double {
    match median_of(values) {
        Some(m) => m,
        None => fallback,
    }
}

/// The star with the medians of its counterparts.
pub open spec fn averaged(star: PatternStarSample, list: Seq<PatternStarSample>) -> PatternStarSample {
    PatternStarSample {
        x: star.x,
        y: star.y,
        magnitude: median_or(
            list.map_values(|s: PatternStarSample| s.magnitude),
            star.magnitude,
        ),
        magnitude_adu: median_or(
            list.map_values(|s: PatternStarSample| s.magnitude_adu),
            star.magnitude_adu,
        ),
        brightest_pixel_part: median_or(
            list.map_values(|s: PatternStarSample| s.brightest_pixel_part),
            star.brightest_pixel_part,
        ),
    }
}

/// Those of the first `n` reference stars that occur in all frames.
pub open spec fn aggregated(
    reference: Seq<PatternStarSample>,
    frames: Seq<Vec<PatternStarSample>>,
    tolerance: Double,
    n: int,
) -> Seq<AggregatedStar>
    decreases n,
{
    if n <= 0 {
        Seq::empty()
    } else {
        let rest = aggregated(reference, frames, tolerance, n - 1);
        match counterparts(frames, reference[n - 1], tolerance, frames.len() as int) {
            Some(list) => rest.push(
                AggregatedStar {
                    sample: averaged(reference[n - 1], list),
                    reference_index: (n - 1) as usize,
                },
            ),
            None => rest,
        }
    }
}

fn find_counterpart(
    frame: &Vec<PatternStarSample>,
    star: PatternStarSample,
    tolerance: Double,
) -> (r: Option<usize>)
    ensures
        match counterpart(frame@, star, tolerance, frame@.len() as int) {
            Some(k) => r is Some && r->0 == k && 0 <= k < frame@.len(),
            None => r is None,
        },
{
    let x = Double::of_usize(star.x);
    let y = Double::of_usize(star.y);
    let mut best: Option<usize> = None;
    let mut i: usize = 0;
    while i < frame.len()
        invariant
            i <= frame@.len(),
            x == of_int(star.x as int),
            y == of_int(star.y as int),
            match counterpart(frame@, star, tolerance, i as int) {
                Some(k) => best is Some && best->0 == k && 0 <= k < i,
                None => best is None,
            },
        decreases frame@.len() - i,
    {
        let d = distance_of(&frame[i], x, y);
        if d.at_most(tolerance) {
            match best {
                Some(k) => {
                    if d.below(distance_of(&frame[k], x, y)) {
                        best = Some(i);
                    }
                },
                None => {
                    best = Some(i);
                },
            }
        }
        i = i + 1;
    }
    best
}

fn median_else(values: Vec<Double>, fallback: Double) -> (r: Double)
    ensures
        r == median_or(values@, fallback),
{
    let (m, _) = median_of_all(values);
    match m {
        Some(m) => m,
        None => fallback,
    }
}

fn find_counterparts(
    frames: &Vec<Vec<PatternStarSample>>,
    star: PatternStarSample,
    tolerance: Double,
) -> (r: Option<Vec<PatternStarSample>>)
    ensures
        match counterparts(frames@, star, tolerance, frames@.len() as int) {
            Some(list) => r is Some && r->0@ == list,
            None => r is None,
        },
{
    let mut list: Vec<PatternStarSample> = Vec::new();
    let mut i: usize = 0;
    while i < frames.len()
        invariant
            i <= frames@.len(),
            counterparts(frames@, star, tolerance, i as int) is Some,
            counterparts(frames@, star, tolerance, i as int)->0 == list@,
        decreases frames@.len() - i,
    {
        match find_counterpart(&frames[i], star, tolerance) {
            Some(k) => {
                list.push(frames[i][k]);
            },
            None => {
                proof {
                    lemma_counterparts_missing(
                        frames@,
                        star,
                        tolerance,
                        i + 1,
                        frames@.len() as int,
                    );
                }
                return None;
            },
        }
        i = i + 1;
    }
    Some(list)
}

proof fn lemma_counterparts_missing(
    frames: Seq<Vec<PatternStarSample>>,
    star: PatternStarSample,
    tolerance: Double,
    i: int,
    n: int,
)
    requires
        0 <= i <= n,
        counterparts(frames, star, tolerance, i) is None,
    ensures
        counterparts(frames, star, tolerance, n) is None,
    decreases n - i,
{
    if i < n {
        lemma_counterparts_missing(frames, star, tolerance, i, n - 1);
    }
}

/// The reference stars that occur in all frames, with the medians over these.
pub fn aggregate_samples(
    reference: &Vec<PatternStarSample>,
    frames: &Vec<Vec<PatternStarSample>>,
    tolerance: Double,
) -> (r: Vec<AggregatedStar>)
    ensures
        r@ == aggregated(reference@, frames@, tolerance, reference@.len() as int),
{
    let mut r: Vec<AggregatedStar> = Vec::new();
    let mut i: usize = 0;
    while i < reference.len()
        invariant
            i <= reference@.len(),
            r@ == aggregated(reference@, frames@, tolerance, i as int),
        decreases reference@.len() - i,
    {
        let star = reference[i];
        if let Some(list) = find_counterparts(frames, star, tolerance) {
            let mut magnitudes: Vec<Double> = Vec::new();
            let mut brightnesses: Vec<Double> = Vec::new();
            let mut parts: Vec<Double> = Vec::new();
            let mut k: usize = 0;
            while k < list.len()
                invariant
                    k <= list@.len(),
                    magnitudes@ == list@.take(k as int).map_values(
                        |s: PatternStarSample| s.magnitude,
                    ),
                    brightnesses@ == list@.take(k as int).map_values(
                        |s: PatternStarSample| s.magnitude_adu,
                    ),
                    parts@ == list@.take(k as int).map_values(
                        |s: PatternStarSample| s.brightest_pixel_part,
                    ),
                decreases list@.len() - k,
            {
                magnitudes.push(list[k].magnitude);
                brightnesses.push(list[k].magnitude_adu);
                parts.push(list[k].brightest_pixel_part);
                k = k + 1;
                proof {
                    let t = list@.take(k as int);
                    assert(magnitudes@ =~= t.map_values(|s: PatternStarSample| s.magnitude));
                    assert(brightnesses@ =~= t.map_values(|s: PatternStarSample| s.magnitude_adu));
                    assert(parts@ =~= t.map_values(|s: PatternStarSample| s.brightest_pixel_part));
                }
            }
            assert(list@.take(k as int) =~= list@);
            r.push(
                AggregatedStar {
                    sample: PatternStarSample {
                        x: star.x,
                        y: star.y,
                        magnitude: median_else(magnitudes, star.magnitude),
                        magnitude_adu: median_else(brightnesses, star.magnitude_adu),
                        brightest_pixel_part: median_else(parts, star.brightest_pixel_part),
                    },
                    reference_index: i,
                },
            );
        }
        i = i + 1;
    }
    r
}

/// A result with what a list holds and the text of the error.
pub open spec fn list_outcome<T>(r: Result<Vec<T>, String>) -> Result<Seq<T>, Seq<char>> {
    match r {
        Ok(v) => Ok(v@),
        Err(e) => Err(e@),
    }
}

/// Checks that enough stars are left to make a pattern of.
pub fn check_stable_stars(aggregated: &Vec<AggregatedStar>) -> (r: Result<(), String>)
    ensures
        outcome(r) == (if aggregated@.len() < 2 {
            Err::<(), Seq<char>>(
                "unable to generate pattern: fewer than 2 stars remain in all sampled frames ("@
                    + decimal(aggregated@.len()) + ")."@,
            )
        } else {
            Ok(())
        }),
{
    if aggregated.len() < 2 {
        let text =
            "unable to generate pattern: fewer than 2 stars remain in all sampled frames (".to_owned().concat(
            write_number(aggregated.len() as u64).as_str(),
        ).concat(").");
        return Err(text);
    }
    Ok(())
}

/// The numbers that the recommended stars have in the reference frame, counted
/// from one.
pub fn recommended_numbers(rec: &Vec<usize>, aggregated: &Vec<AggregatedStar>) -> (r: Vec<usize>)
    requires
        forall|i: int| 0 <= i < rec@.len() ==> #[trigger] rec@[i] < aggregated@.len(),
        forall|i: int|
            0 <= i < aggregated@.len() ==> (#[trigger] aggregated@[i]).reference_index < usize::MAX,
    ensures
        r@ == rec@.map_values(|i: usize| (aggregated@[i as int].reference_index + 1) as usize),
{
    let mut r: Vec<usize> = Vec::new();
    let mut i: usize = 0;
    while i < rec.len()
        invariant
            i <= rec@.len(),
            forall|i: int| 0 <= i < rec@.len() ==> #[trigger] rec@[i] < aggregated@.len(),
            forall|i: int|
                0 <= i < aggregated@.len() ==> (#[trigger] aggregated@[i]).reference_index
                    < usize::MAX,
            r@ == rec@.take(i as int).map_values(
                |i: usize| (aggregated@[i as int].reference_index + 1) as usize,
            ),
        decreases rec@.len() - i,
    {
        r.push(aggregated[rec[i]].reference_index + 1);
        i = i + 1;
        proof {
            assert(r@ =~= rec@.take(i as int).map_values(
                |i: usize| (aggregated@[i as int].reference_index + 1) as usize,
            ));
        }
    }
    assert(rec@.take(i as int) =~= rec@);
    r
}

/// The numbers that an answer to the recommendation gives: those recommended
/// where it is accepted, nothing where it is declined, else the answer itself.
pub fn pattern_numbers(answer: &str, recommended: &Vec<usize>) -> (r: Option<String>)
    ensures
        match answer_in(answer@) {
            Answer::Yes => r is Some && r->0@ == listed(recommended@),
            Answer::No => r is None,
            Answer::Other => r is Some && r->0@ == answer@,
        },
{
    match read_answer(answer) {
        Answer::Yes => Some(write_numbers(recommended)),
        Answer::No => None,
        Answer::Other => Some(answer.to_owned()),
    }
}

/// The place of the star with this number in the reference frame among the
/// stars that occur in all frames.
pub open spec fn place_of(aggregated: Seq<AggregatedStar>, reference_index: int, i: int) -> Option<int>
    decreases aggregated.len() - i,
{
    if i >= aggregated.len() {
        None
    } else if aggregated[i].reference_index == reference_index {
        Some(i)
    } else {
        place_of(aggregated, reference_index, i + 1)
    }
}

/// The entry of a pattern for a star.
pub open spec fn entry_of(s: PatternStarSample) -> StarPatternEntry {
    StarPatternEntry {
        x: s.x,
        y: s.y,
        magnitude: s.magnitude,
        use_in_quality: true,
        median_brightness: Some(s.magnitude_adu),
        median_brightest_pixel_part: Some(s.brightest_pixel_part),
    }
}

/// The entries for the first `n` selected stars; the first of them that does not
/// occur in all frames decides.
pub open spec fn entries(
    selected: Seq<usize>,
    aggregated: Seq<AggregatedStar>,
    n: int,
) -> Result<Seq<StarPatternEntry>, Seq<char>>
    decreases n,
{
    if n <= 0 {
        Ok(Seq::empty())
    } else {
        match entries(selected, aggregated, n - 1) {
            Err(e) => Err(e),
            Ok(list) => match place_of(aggregated, selected[n - 1] - 1, 0) {
                Some(k) => Ok(list.push(entry_of(aggregated[k].sample))),
                None => Err(
                    "star "@ + decimal(selected[n - 1] as nat)
                        + " is a valid JPEG number but is unstable across sampled frames"@,
                ),
            },
        }
    }
}

/// The pattern that the selected stars make, or what is wrong with them.
pub open spec fn pattern_of(
    selected: Seq<usize>,
    reference_count: int,
    aggregated: Seq<AggregatedStar>,
    tolerance: Double,
) -> Result<Seq<StarPatternEntry>, Seq<char>> {
    if selected.len() < 2 {
        Err("a valid star pattern requires at least 2 selected stars"@)
    } else if exists|i: int|
        0 <= i < selected.len() && (#[trigger] selected[i] == 0 || selected[i] > reference_count) {
        Err(
            "star number must be between 1 and "@ + decimal(reference_count as nat)
                + " in the candidate JPEG"@,
        )
    } else {
        match entries(selected, aggregated, selected.len() as int) {
            Err(e) => Err(e),
            Ok(list) => match pattern_complaint(list, tolerance) {
                Err(e) => Err(e),
                Ok(_) => Ok(list),
            },
        }
    }
}

fn find_place(aggregated: &Vec<AggregatedStar>, reference_index: usize) -> (r: Option<usize>)
    ensures
        match place_of(aggregated@, reference_index as int, 0) {
            Some(k) => r is Some && r->0 == k && 0 <= k < aggregated@.len(),
            None => r is None,
        },
{
    let mut i: usize = 0;
    while i < aggregated.len()
        invariant
            i <= aggregated@.len(),
            place_of(aggregated@, reference_index as int, 0) == place_of(
                aggregated@,
                reference_index as int,
                i as int,
            ),
        decreases aggregated@.len() - i,
    {
        if aggregated[i].reference_index == reference_index {
            return Some(i);
        }
        i = i + 1;
    }
    None
}

proof fn lemma_entries_fail(selected: Seq<usize>, aggregated: Seq<AggregatedStar>, i: int, n: int)
    requires
        0 <= i <= n,
        entries(selected, aggregated, i) is Err,
    ensures
        entries(selected, aggregated, n) == entries(selected, aggregated, i),
    decreases n - i,
{
    if i < n {
        lemma_entries_fail(selected, aggregated, i, n - 1);
    }
}

/// Makes a pattern of the selected stars, given by their numbers in the
/// reference frame counted from one.
pub fn make_pattern(
    selected: &Vec<usize>,
    reference_count: usize,
    aggregated: &Vec<AggregatedStar>,
    tolerance: Double,
) -> (r: Result<Vec<StarPatternEntry>, String>)
    ensures
        list_outcome(r) == pattern_of(
            selected@,
            reference_count as int,
            aggregated@,
            tolerance,
        ),
{
    if selected.len() < 2 {
        return Err("a valid star pattern requires at least 2 selected stars".to_owned());
    }
    let mut i: usize = 0;
    while i < selected.len()
        invariant
            i <= selected@.len(),
            selected@.len() >= 2,
            forall|k: int|
                0 <= k < i ==> !(#[trigger] selected@[k] == 0 || selected@[k] > reference_count),
        decreases selected@.len() - i,
    {
        if selected[i] == 0 || selected[i] > reference_count {
            assert(selected@[i as int] == 0 || selected@[i as int] > reference_count);
            return Err(
                "star number must be between 1 and ".to_owned().concat(
                    write_number(reference_count as u64).as_str(),
                ).concat(" in the candidate JPEG"),
            );
        }
        i = i + 1;
    }
    let mut pattern: Vec<StarPatternEntry> = Vec::new();
    i = 0;
    while i < selected.len()
        invariant
            i <= selected@.len(),
            selected@.len() >= 2,
            forall|k: int|
                0 <= k < selected@.len() ==> !(#[trigger] selected@[k] == 0 || selected@[k]
                    > reference_count),
            entries(selected@, aggregated@, i as int) is Ok,
            entries(selected@, aggregated@, i as int)->Ok_0 == pattern@,
        decreases selected@.len() - i,
    {
        let number: usize = selected[i];
        match find_place(aggregated, number - 1) {
            Some(k) => {
                let s = aggregated[k].sample;
                pattern.push(
                    StarPatternEntry {
                        x: s.x,
                        y: s.y,
                        magnitude: s.magnitude,
                        use_in_quality: true,
                        median_brightness: Some(s.magnitude_adu),
                        median_brightest_pixel_part: Some(s.brightest_pixel_part),
                    },
                );
            },
            None => {
                let text = "star ".to_owned().concat(write_number(number as u64).as_str()).concat(
                    " is a valid JPEG number but is unstable across sampled frames",
                );
                proof {
                    lemma_entries_fail(
                        selected@,
                        aggregated@,
                        i + 1,
                        selected@.len() as int,
                    );
                }
                return Err(text);
            },
        }
        i = i + 1;
    }
    match validate_pattern(pattern.as_slice(), tolerance) {
        Ok(_) => Ok(pattern),
        Err(e) => Err(e),
    }
}

proof fn lemma_entries_members(
    selected: Seq<usize>,
    aggregated: Seq<AggregatedStar>,
    n: int,
    k: int,
)
    requires
        entries(selected, aggregated, n) is Ok,
        0 <= k < n,
    ensures
        entries(selected, aggregated, n)->Ok_0.len() == n,
        entries(selected, aggregated, n)->Ok_0[k].use_in_quality,
    decreases n,
{
    if n > 1 {
        if k < n - 1 {
            lemma_entries_members(selected, aggregated, n - 1, k);
        } else {
            lemma_entries_members(selected, aggregated, n - 1, 0);
        }
    } else {
        assert(entries(selected, aggregated, 0) == Ok::<Seq<StarPatternEntry>, Seq<char>>(
            Seq::empty(),
        ));
    }
}

/// A pattern that was made has one star for each selected number, at least two,
/// all of which count for the quality, and it is valid.
pub proof fn made_patterns_are_valid(
    selected: Seq<usize>,
    reference_count: int,
    aggregated: Seq<AggregatedStar>,
    tolerance: Double,
)
    requires
        pattern_of(selected, reference_count, aggregated, tolerance) is Ok,
    ensures
        ({
            let pattern = pattern_of(selected, reference_count, aggregated, tolerance)->Ok_0;
            &&& pattern.len() == selected.len()
            &&& pattern.len() >= 2
            &&& pattern_complaint(pattern, tolerance) == Ok::<(), Seq<char>>(())
            &&& forall|k: int| 0 <= k < pattern.len() ==> (#[trigger] pattern[k]).use_in_quality
        }),
{
    let n = selected.len() as int;
    let pattern = pattern_of(selected, reference_count, aggregated, tolerance)->Ok_0;
    lemma_entries_members(selected, aggregated, n, 0);
    assert forall|k: int| 0 <= k < pattern.len() implies (#[trigger] pattern[k]).use_in_quality by {
        lemma_entries_members(selected, aggregated, n, k);
    }
}

/// How far `(x, y)` is from the middle of an image.
pub open spec fn from_the_middle(x: int, y: int, width: int, height: int) -> Double {
    let dx = difference(of_int(x), quotient(of_int(width), of_int(2)));
    let dy = difference(of_int(y), quotient(of_int(height), of_int(2)));
    square_root(sum(product(dx, dx), product(dy, dy)))
}

proof fn lemma_near_first(stars: Seq<PatternStarSample>, x: Double, y: Double)
    ensures
        crate::order::preorder(near_first(stars, x, y)),
{
}

/// The ranking holds each star once. A star stands before another only where it
/// is not further from the point at half of the width and half of the height of
/// the image; where both are as far from it, the brighter one stands first.
pub proof fn rankings_start_in_the_middle(
    stars: Seq<PatternStarSample>,
    width: int,
    height: int,
    i: int,
    j: int,
)
    requires
        stars.len() <= usize::MAX,
        0 <= i < j < stars.len(),
    ensures
        ({
            let rank = ranked(stars, width, height);
            let a = stars[rank[i] as int];
            let b = stars[rank[j] as int];
            let da = place(from_the_middle(a.x as int, a.y as int, width, height));
            let db = place(from_the_middle(b.x as int, b.y as int, width, height));
            &&& rank.len() == stars.len()
            &&& rank[i] < stars.len()
            &&& rank[j] < stars.len()
            &&& rank[i] != rank[j]
            &&& da <= db
            &&& da == db ==> place(b.magnitude) <= place(a.magnitude)
        }),
{
    let all = numbers_below(stars.len() as int);
    let leq = near_first(
        stars,
        quotient(of_int(width), of_int(2)),
        quotient(of_int(height), of_int(2)),
    );
    let rank = ranked(stars, width, height);
    lemma_near_first(
        stars,
        quotient(of_int(width), of_int(2)),
        quotient(of_int(height), of_int(2)),
    );
    arranging_keeps_the_elements(all, leq);
    arranging_sorts(all, leq);
    assert(all.no_duplicates());
    all.lemma_multiset_has_no_duplicates();
    rank.lemma_multiset_has_no_duplicates_conv();
    crate::order::lemma_same_members(rank, all, rank[i]);
    crate::order::lemma_same_members(rank, all, rank[j]);
    assert(rank.contains(rank[i]));
    assert(rank.contains(rank[j]));
    let m = all.index_of(rank[i]);
    let n = all.index_of(rank[j]);
    assert(all[m] == rank[i]);
    assert(all[n] == rank[j]);
    assert(leq(rank[i], rank[j]));
}

/// Twice the area of the triangle of three stars, counted with its sign.
pub open spec fn cross(a: PatternStarSample, b: PatternStarSample, c: PatternStarSample) -> int {
    (b.x - a.x) * (c.y - a.y) - (c.x - a.x) * (b.y - a.y)
}

/// Three stars of an image of ordinary size span a triangle exactly where they
/// are different and twice their area is more than one.
pub proof fn triangles_have_an_area(stars: Seq<PatternStarSample>, a: usize, b: usize, c: usize)
    requires
        a < stars.len(),
        b < stars.len(),
        c < stars.len(),
        stars[a as int].x < 0x100_0000,
        stars[a as int].y < 0x100_0000,
        stars[b as int].x < 0x100_0000,
        stars[b as int].y < 0x100_0000,
        stars[c as int].x < 0x100_0000,
        stars[c as int].y < 0x100_0000,
    ensures
        spans(stars, a, b, c) <==> a != b && a != c && b != c && (cross(
            stars[a as int],
            stars[b as int],
            stars[c as int],
        ) > 1 || cross(stars[a as int], stars[b as int], stars[c as int]) < -1),
{
    let p = stars[a as int];
    let q = stars[b as int];
    let r = stars[c as int];
    let ux = q.x - p.x;
    let uy = q.y - p.y;
    let vx = r.x - p.x;
    let vy = r.y - p.y;
    integers_subtract_exactly(q.x as int, p.x as int);
    integers_subtract_exactly(q.y as int, p.y as int);
    integers_subtract_exactly(r.x as int, p.x as int);
    integers_subtract_exactly(r.y as int, p.y as int);
    assert(-0x1_0000_0000_0000 <= ux * vy <= 0x1_0000_0000_0000) by (nonlinear_arith)
        requires
            -0x100_0000 <= ux <= 0x100_0000,
            -0x100_0000 <= vy <= 0x100_0000,
    ;
    assert(-0x1_0000_0000_0000 <= vx * uy <= 0x1_0000_0000_0000) by (nonlinear_arith)
        requires
            -0x100_0000 <= vx <= 0x100_0000,
            -0x100_0000 <= uy <= 0x100_0000,
    ;
    integers_multiply_exactly(ux, vy);
    integers_multiply_exactly(vx, uy);
    lemma_difference_of_integers(
        product(of_int(ux), of_int(vy)),
        product(of_int(vx), of_int(uy)),
        ux * vy,
        vx * uy,
    );
}

/// Three stars are recommended by their numbers: different ones, all of them
/// there, and such that twice the area of their triangle is more than one.
pub proof fn recommended_stars_span_an_area(
    stars: Seq<PatternStarSample>,
    width: int,
    height: int,
    r: Seq<usize>,
)
    requires
        stars.len() <= usize::MAX,
        recommended(stars, ranked(stars, width, height), r),
        r.len() > 0,
        forall|i: int|
            0 <= i < stars.len() ==> (#[trigger] stars[i]).x < 0x100_0000 && stars[i].y < 0x100_0000,
    ensures
        r.len() == 3,
        r[0] < stars.len(),
        r[1] < stars.len(),
        r[2] < stars.len(),
        r[0] != r[1],
        r[0] != r[2],
        r[1] != r[2],
        ({
            let area = cross(stars[r[0] as int], stars[r[1] as int], stars[r[2] as int]);
            area > 1 || area < -1
        }),
{
    let rank = ranked(stars, width, height);
    let all = numbers_below(stars.len() as int);
    arranging_keeps_the_elements(
        all,
        near_first(stars, quotient(of_int(width), of_int(2)), quotient(of_int(height), of_int(2))),
    );
    assert forall|i: int| 0 <= i < rank.len() implies #[trigger] rank[i] < stars.len() by {
        crate::order::lemma_same_members(rank, all, rank[i]);
        assert(rank.contains(rank[i]));
        let m = all.index_of(rank[i]);
        assert(all[m] == rank[i]);
    }
    let (i, j, k) = choose|i: int, j: int, k: int| #[trigger]
        first_triangle(stars, rank, i, j, k) && r == seq![rank[i], rank[j], rank[k]];
    assert(r[0] == rank[i] && r[1] == rank[j] && r[2] == rank[k]);
    triangles_have_an_area(stars, r[0], r[1], r[2]);
}

/// Where the three stars at the head of the ranking span a triangle, they are
/// the ones that are recommended, in that order; and generally no star that is
/// recommended first has one before it in the ranking with which some triangle
/// can be made.
pub proof fn the_first_stars_are_recommended(
    stars: Seq<PatternStarSample>,
    width: int,
    height: int,
    r: Seq<usize>,
    u: int,
    v: int,
    w: int,
)
    requires
        stars.len() <= usize::MAX,
        recommended(stars, ranked(stars, width, height), r),
        0 <= u < stars.len(),
        0 <= v < stars.len(),
        0 <= w < stars.len(),
        u != v,
        u != w,
        v != w,
        ({
            let rank = ranked(stars, width, height);
            let a = stars[rank[u] as int];
            let b = stars[rank[v] as int];
            let c = stars[rank[w] as int];
            &&& a.x < 0x100_0000 && a.y < 0x100_0000
            &&& b.x < 0x100_0000 && b.y < 0x100_0000
            &&& c.x < 0x100_0000 && c.y < 0x100_0000
            &&& cross(a, b, c) > 1 || cross(a, b, c) < -1
        }),
    ensures
        ({
            let rank = ranked(stars, width, height);
            &&& r.len() == 3
            &&& (exists|k: int| 0 <= k <= u && r[0] == #[trigger] rank[k])
            &&& u == 0 && v == 1 && w == 2 ==> r[0] == rank[0] && r[1] == rank[1] && r[2] == rank[2]
        }),
{
    let rank = ranked(stars, width, height);
    let n = rank.len() as int;
    let lo = if u < v {
        u
    } else {
        v
    };
    let hi = if u < v {
        v
    } else {
        u
    };
    rankings_start_in_the_middle(stars, width, height, lo, hi);
    let lo2 = if u < w {
        u
    } else {
        w
    };
    let hi2 = if u < w {
        w
    } else {
        u
    };
    rankings_start_in_the_middle(stars, width, height, lo2, hi2);
    let lo3 = if v < w {
        v
    } else {
        w
    };
    let hi3 = if v < w {
        w
    } else {
        v
    };
    rankings_start_in_the_middle(stars, width, height, lo3, hi3);
    triangles_have_an_area(stars, rank[u], rank[v], rank[w]);
    assert(places_within(n, u, v, w));
    assert(spans(stars, rank[u], rank[v], rank[w]));
    let (i, j, k) = choose|i: int, j: int, k: int| #[trigger]
        first_triangle(stars, rank, i, j, k) && r == seq![rank[i], rank[j], rank[k]];
    assert(r[0] == rank[i] && r[1] == rank[j] && r[2] == rank[k]);
    assert(!places_before(u, v, w, i, j, k));
}

/// The star of a frame that stands for a reference star is one of the frame, is
/// not further from it than the tolerance, and no star of the frame within the
/// tolerance is nearer; where there is such a star at all, one is found.
pub proof fn counterparts_are_nearest(
    frame: Seq<PatternStarSample>,
    star: PatternStarSample,
    tolerance: Double,
    n: int,
    m: int,
)
    requires
        0 <= m < n <= frame.len(),
    ensures
        ({
            let apart = |s: PatternStarSample|
                square_root(
                    sum(
                        product(
                            difference(of_int(s.x as int), of_int(star.x as int)),
                            difference(of_int(s.x as int), of_int(star.x as int)),
                        ),
                        product(
                            difference(of_int(s.y as int), of_int(star.y as int)),
                            difference(of_int(s.y as int), of_int(star.y as int)),
                        ),
                    ),
                );
            let found = counterpart(frame, star, tolerance, n);
            &&& found is Some ==> 0 <= found->0 < n && at_most(apart(frame[found->0]), tolerance)
            &&& at_most(apart(frame[m]), tolerance) ==> found is Some && !below(
                apart(frame[m]),
                apart(frame[found->0]),
            )
        }),
    decreases n,
{
    if m < n - 1 {
        counterparts_are_nearest(frame, star, tolerance, n - 1, m);
    } else if n > 1 {
        counterparts_are_nearest(frame, star, tolerance, n - 1, 0);
    }
}

proof fn lemma_counterparts(
    frames: Seq<Vec<PatternStarSample>>,
    star: PatternStarSample,
    tolerance: Double,
    n: int,
)
    requires
        0 <= n <= frames.len(),
    ensures
        counterparts(frames, star, tolerance, n) is Some <==> forall|k: int|
            0 <= k < n ==> counterpart(
                (#[trigger] frames[k])@,
                star,
                tolerance,
                frames[k]@.len() as int,
            ) is Some,
        counterparts(frames, star, tolerance, n) is Some ==> counterparts(
            frames,
            star,
            tolerance,
            n,
        )->0 == Seq::new(
            n as nat,
            |k: int|
                frames[k]@[counterpart(
                    frames[k]@,
                    star,
                    tolerance,
                    frames[k]@.len() as int,
                )->0],
        ),
    decreases n,
{
    if n > 0 {
        lemma_counterparts(frames, star, tolerance, n - 1);
        if counterparts(frames, star, tolerance, n) is Some {
            assert(counterparts(frames, star, tolerance, n)->0 =~= Seq::new(
                n as nat,
                |k: int|
                    frames[k]@[counterpart(
                        frames[k]@,
                        star,
                        tolerance,
                        frames[k]@.len() as int,
                    )->0],
            ));
            assert forall|k: int| 0 <= k < n implies counterpart(
                (#[trigger] frames[k])@,
                star,
                tolerance,
                frames[k]@.len() as int,
            ) is Some by {
                if k < n - 1 {
                    assert(counterparts(frames, star, tolerance, n - 1) is Some);
                }
            }
        } else if forall|k: int|
            0 <= k < n ==> counterpart(
                (#[trigger] frames[k])@,
                star,
                tolerance,
                frames[k]@.len() as int,
            ) is Some {
            assert(counterpart(
                frames[n - 1]@,
                star,
                tolerance,
                frames[n - 1]@.len() as int,
            ) is Some);
        }
    } else {
        assert(counterparts(frames, star, tolerance, n)->0 =~= Seq::new(
            n as nat,
            |k: int|
                frames[k]@[counterpart(
                    frames[k]@,
                    star,
                    tolerance,
                    frames[k]@.len() as int,
                )->0],
        ));
    }
}

/// A reference star is stable exactly where every frame has a star for it. It
/// keeps its place in the reference frame, and its magnitude, its brightness and
/// its brightest pixel become the medians of the stars that stand for it.
pub proof fn stable_stars_occur_in_every_frame(
    reference: Seq<PatternStarSample>,
    frames: Seq<Vec<PatternStarSample>>,
    tolerance: Double,
    i: int,
)
    requires
        0 <= i < reference.len() <= usize::MAX,
        frames.len() > 0,
    ensures
        ({
            let r = aggregated(reference, frames, tolerance, reference.len() as int);
            let star = reference[i];
            let stable = forall|k: int|
                0 <= k < frames.len() ==> counterpart(
                    (#[trigger] frames[k])@,
                    star,
                    tolerance,
                    frames[k]@.len() as int,
                ) is Some;
            let others = Seq::new(
                frames.len(),
                |k: int|
                    frames[k]@[counterpart(
                        frames[k]@,
                        star,
                        tolerance,
                        frames[k]@.len() as int,
                    )->0],
            );
            &&& stable <==> exists|a: int|
                0 <= a < r.len() && (#[trigger] r[a]).reference_index == i
            &&& forall|a: int|
                0 <= a < r.len() && (#[trigger] r[a]).reference_index == i ==> {
                    let s = r[a].sample;
                    &&& s.x == star.x
                    &&& s.y == star.y
                    &&& Some(s.magnitude) == median_of(
                        others.map_values(|o: PatternStarSample| o.magnitude),
                    )
                    &&& Some(s.magnitude_adu) == median_of(
                        others.map_values(|o: PatternStarSample| o.magnitude_adu),
                    )
                    &&& Some(s.brightest_pixel_part) == median_of(
                        others.map_values(|o: PatternStarSample| o.brightest_pixel_part),
                    )
                }
        }),
{
    lemma_aggregated(reference, frames, tolerance, reference.len() as int, i);
    lemma_counterparts(frames, reference[i], tolerance, frames.len() as int);
    if let Some(list) = counterparts(frames, reference[i], tolerance, frames.len() as int) {
        lemma_some_median(list.map_values(|o: PatternStarSample| o.magnitude));
        lemma_some_median(list.map_values(|o: PatternStarSample| o.magnitude_adu));
        lemma_some_median(list.map_values(|o: PatternStarSample| o.brightest_pixel_part));
    }
}

proof fn lemma_some_median(values: Seq<Double>)
    requires
        values.len() > 0,
    ensures
        median_of(values) is Some,
{
    arranging_keeps_the_elements(values, rising());
}

proof fn lemma_aggregated(
    reference: Seq<PatternStarSample>,
    frames: Seq<Vec<PatternStarSample>>,
    tolerance: Double,
    n: int,
    i: int,
)
    requires
        0 <= n <= reference.len() <= usize::MAX,
        0 <= i < reference.len(),
    ensures
        ({
            let r = aggregated(reference, frames, tolerance, n);
            let list = counterparts(frames, reference[i], tolerance, frames.len() as int);
            &&& i < n && list is Some <==> exists|a: int|
                0 <= a < r.len() && (#[trigger] r[a]).reference_index == i
            &&& forall|a: int|
                0 <= a < r.len() && (#[trigger] r[a]).reference_index == i ==> r[a].sample
                    == averaged(reference[i], list->0)
            &&& forall|a: int| 0 <= a < r.len() ==> (#[trigger] r[a]).reference_index < n
        }),
    decreases n,
{
    if n > 0 {
        lemma_aggregated(reference, frames, tolerance, n - 1, i);
        let rest = aggregated(reference, frames, tolerance, n - 1);
        let r = aggregated(reference, frames, tolerance, n);
        let list = counterparts(frames, reference[i], tolerance, frames.len() as int);
        if counterparts(frames, reference[n - 1], tolerance, frames.len() as int) is Some {
            let last = rest.len() as int;
            assert(r[last].reference_index == n - 1);
            assert forall|a: int| 0 <= a < last implies r[a] == #[trigger] rest[a] by {}
            if i < n - 1 && list is Some {
                let a = choose|a: int|
                    0 <= a < rest.len() && (#[trigger] rest[a]).reference_index == i;
                assert(r[a].reference_index == i);
            }
            if exists|a: int| 0 <= a < r.len() && (#[trigger] r[a]).reference_index == i {
                let a = choose|a: int| 0 <= a < r.len() && (#[trigger] r[a]).reference_index == i;
                if a < last {
                    assert(rest[a].reference_index == i);
                }
            }
            assert forall|a: int|
                0 <= a < r.len() && (#[trigger] r[a]).reference_index == i implies r[a].sample
                == averaged(reference[i], list->0) by {
                if a < last {
                    assert(rest[a].reference_index == i);
                }
            }
            assert forall|a: int| 0 <= a < r.len() implies (#[trigger] r[a]).reference_index < n by {
                if a < last {
                    assert(rest[a].reference_index < n - 1);
                }
            }
        }
    }
}

proof fn lemma_place_of(aggregated: Seq<AggregatedStar>, reference_index: int, i: int)
    requires
        0 <= i <= aggregated.len(),
    ensures
        match place_of(aggregated, reference_index, i) {
            Some(k) => i <= k < aggregated.len() && aggregated[k].reference_index == reference_index,
            None => forall|k: int|
                i <= k < aggregated.len() ==> (#[trigger] aggregated[k]).reference_index
                    != reference_index,
        },
    decreases aggregated.len() - i,
{
    if i < aggregated.len() {
        lemma_place_of(aggregated, reference_index, i + 1);
    }
}

proof fn lemma_entry(
    selected: Seq<usize>,
    aggregated: Seq<AggregatedStar>,
    n: int,
    k: int,
)
    requires
        entries(selected, aggregated, n) is Ok,
        0 <= k < n <= selected.len(),
    ensures
        entries(selected, aggregated, n)->Ok_0.len() == n,
        exists|a: int|
            0 <= a < aggregated.len() && (#[trigger] aggregated[a]).reference_index == selected[k]
                - 1 && entries(selected, aggregated, n)->Ok_0[k] == entry_of(aggregated[a].sample),
    decreases n,
{
    lemma_place_of(aggregated, selected[n - 1] - 1, 0);
    if n > 1 {
        let m = if k < n - 1 {
            k
        } else {
            0
        };
        lemma_entry(selected, aggregated, n - 1, m);
    } else {
        assert(entries(selected, aggregated, 0) == Ok::<Seq<StarPatternEntry>, Seq<char>>(
            Seq::empty(),
        ));
    }
    if k == n - 1 {
        let a = place_of(aggregated, selected[n - 1] - 1, 0)->0;
        assert(aggregated[a].reference_index == selected[k] - 1);
    }
}

/// Each star of a pattern that was made is the stable star whose number in the
/// reference frame, counted from one, was selected at that place; it counts for
/// the quality and carries the brightness and the brightest pixel of that star.
pub proof fn patterns_hold_the_selected_stars(
    selected: Seq<usize>,
    reference_count: int,
    aggregated: Seq<AggregatedStar>,
    tolerance: Double,
    k: int,
)
    requires
        pattern_of(selected, reference_count, aggregated, tolerance) is Ok,
        0 <= k < selected.len(),
    ensures
        1 <= selected[k] <= reference_count,
        exists|a: int|
            {
                let e = pattern_of(selected, reference_count, aggregated, tolerance)->Ok_0[k];
                &&& 0 <= a < aggregated.len()
                &&& (#[trigger] aggregated[a]).reference_index == selected[k] - 1
                &&& e.x == aggregated[a].sample.x
                &&& e.y == aggregated[a].sample.y
                &&& e.magnitude == aggregated[a].sample.magnitude
                &&& e.use_in_quality
                &&& e.median_brightness == Some(aggregated[a].sample.magnitude_adu)
                &&& e.median_brightest_pixel_part == Some(
                    aggregated[a].sample.brightest_pixel_part,
                )
            },
{
    lemma_entry(selected, aggregated, selected.len() as int, k);
    assert(!(selected[k] == 0 || selected[k] > reference_count));
}

/// Where at least two numbers of stable stars are selected, all of them there,
/// and the tolerance and their magnitudes are sound, a pattern is made.
pub proof fn sound_selections_make_a_pattern(
    selected: Seq<usize>,
    reference_count: int,
    aggregated: Seq<AggregatedStar>,
    tolerance: Double,
)
    requires
        selected.len() >= 2,
        tolerance.finite(),
        tolerance.units() > 0,
        forall|k: int|
            0 <= k < selected.len() ==> 1 <= #[trigger] selected[k] <= reference_count && exists|
                a: int,
            |
                0 <= a < aggregated.len() && (#[trigger] aggregated[a]).reference_index
                    == selected[k] - 1,
        forall|a: int|
            0 <= a < aggregated.len() ==> (#[trigger] aggregated[a]).sample.magnitude.finite()
                && aggregated[a].sample.magnitude.units() >= 0,
    ensures
        pattern_of(selected, reference_count, aggregated, tolerance) is Ok,
{
    let n = selected.len() as int;
    lemma_entries_sound(selected, reference_count, aggregated, n);
    let list = entries(selected, aggregated, n)->Ok_0;
    lemma_entry(selected, aggregated, n, 0);
    assert(list[0].use_in_quality);
    assert forall|i: int| 0 <= i < list.len() implies (#[trigger] list[i]).magnitude.finite()
        && list[i].magnitude.units() >= 0 by {
        lemma_entry(selected, aggregated, n, i);
    }
    if exists|i: int|
        0 <= i < selected.len() && (#[trigger] selected[i] == 0 || selected[i] > reference_count) {
        let i = choose|i: int|
            0 <= i < selected.len() && (#[trigger] selected[i] == 0 || selected[i]
                > reference_count);
        assert(1 <= selected[i] <= reference_count);
    }
}

proof fn lemma_entries_sound(
    selected: Seq<usize>,
    reference_count: int,
    aggregated: Seq<AggregatedStar>,
    n: int,
)
    requires
        0 <= n <= selected.len(),
        forall|k: int|
            0 <= k < selected.len() ==> 1 <= #[trigger] selected[k] <= reference_count && exists|
                a: int,
            |
                0 <= a < aggregated.len() && (#[trigger] aggregated[a]).reference_index
                    == selected[k] - 1,
    ensures
        entries(selected, aggregated, n) is Ok,
    decreases n,
{
    if n > 0 {
        lemma_entries_sound(selected, reference_count, aggregated, n - 1);
        lemma_place_of(aggregated, selected[n - 1] - 1, 0);
        assert(1 <= selected[n - 1] <= reference_count);
    }
}

/// A pattern is looked for in the session before the current directory, and
/// under the same names in the same order in both.
pub proof fn patterns_of_the_session_come_first(session: Seq<Seq<u8>>, k: int)
    requires
        0 <= k < 3,
    ensures
        pattern_files(session).len() == 6,
        pattern_files(session)[k].len() == session.len() + 1,
        pattern_files(session)[k].drop_last() == session,
        pattern_files(session)[k + 3] == seq![pattern_files(session)[k].last()],
        pattern_files(session)[0].last() == PathPart::code_of_name(
            "stars_pattern.json".spec_bytes(),
        ),
        pattern_files(session)[1].last() == PathPart::code_of_name(
            "star_pattern.json".spec_bytes(),
        ),
        pattern_files(session)[2].last() == PathPart::code_of_name("stars.json".spec_bytes()),
{
    assert(pattern_files(session)[k].drop_last() =~= session);
}

/// A star of a frame is a candidate at its own place with its own light; the
/// brightness of its middle pixel counts as a part of the largest brightness
/// that the sensor knows, at least nothing and at most all.
pub proof fn candidates_are_their_stars(s: Star)
    ensures
        sample_of(s).x == s.pos.x,
        sample_of(s).y == s.pos.y,
        sample_of(s).magnitude == s.magnitude,
        sample_of(s).magnitude_adu == s.magnitude_adu,
        ({
            let part = quotient(s.brightest_pixel_adu, of_int(65535));
            &&& at_most(of_int(0), part) && at_most(part, of_int(1))
                ==> sample_of(s).brightest_pixel_part == part
            &&& below(part, of_int(0)) ==> sample_of(s).brightest_pixel_part == of_int(0)
            &&& below(of_int(1), part) ==> sample_of(s).brightest_pixel_part == of_int(1)
        }),
{
    small_integers_are_exact(0);
    small_integers_are_exact(1);
}

/// A pattern is sound exactly where the tolerance is a finite number above zero,
/// some star counts for the quality, and every magnitude is a finite number that
/// is not below zero. What is told of one that is not goes in this order.
pub proof fn patterns_are_checked(pattern: Seq<StarPatternEntry>, tolerance: Double)
    ensures
        ({
            let sound = tolerance.finite() && below(of_int(0), tolerance);
            let counts = exists|i: int|
                0 <= i < pattern.len() && (#[trigger] pattern[i]).use_in_quality;
            let lit = forall|i: int|
                0 <= i < pattern.len() ==> (#[trigger] pattern[i]).magnitude.finite() && at_most(
                    of_int(0),
                    pattern[i].magnitude,
                );
            let told = pattern_complaint(pattern, tolerance);
            &&& told is Ok <==> sound && counts && lit
            &&& !sound ==> told == Err::<(), Seq<char>>(
                "star_pattern_position_tolerance_px must be greater than zero"@,
            )
            &&& sound && !counts ==> told == Err::<(), Seq<char>>(
                "star pattern must contain at least one star with use_in_quality: true"@,
            )
            &&& sound && counts && !lit ==> told == Err::<(), Seq<char>>(
                "star pattern contains invalid magnitude"@,
            )
        }),
{
    crate::double::small_integers_are_exact(0);
    assert(0 * vstd::arithmetic::power2::pow2(1074) == 0) by (nonlinear_arith);
    let lit = forall|i: int|
        0 <= i < pattern.len() ==> (#[trigger] pattern[i]).magnitude.finite() && at_most(
            of_int(0),
            pattern[i].magnitude,
        );
    if exists|i: int|
        0 <= i < pattern.len() && (!(#[trigger] pattern[i]).magnitude.finite()
            || pattern[i].magnitude.units() < 0) {
        let i = choose|i: int|
            0 <= i < pattern.len() && (!(#[trigger] pattern[i]).magnitude.finite()
                || pattern[i].magnitude.units() < 0);
        assert(!(pattern[i].magnitude.finite() && at_most(of_int(0), pattern[i].magnitude)));
    } else {
        assert forall|i: int| 0 <= i < pattern.len() implies (
        #[trigger] pattern[i]).magnitude.finite() && at_most(of_int(0), pattern[i].magnitude) by {
            assert(pattern[i].magnitude.finite());
        }
    }
}

/// Shuffling draws the last place first: it gets the element that the next state
/// of the generator picks of all up to it, and the element from there takes its
/// place in what is shuffled on. The generator is a shift register of 64 bits
/// with the shifts 7, 9 and 8.
pub proof fn places_are_drawn_from_the_last<T>(s: Seq<T>, state: u64, i: int)
    requires
        0 < i < s.len(),
    ensures
        ({
            let a = state ^ (state << 7u64);
            let b = a ^ (a >> 9u64);
            let next = b ^ (b << 8u64);
            let j = (next as usize) as int % (i + 1);
            &&& 0 <= j <= i
            &&& shuffled(s, state, i)[i] == s[j]
            &&& shuffled(s, state, i) == shuffled(
                s.update(i, s[j]).update(
                    j,
                    if i == j {
                        s[j]
                    } else {
                        s[i]
                    },
                ),
                next,
                i - 1,
            )
        }),
{
    let next = stirred(state);
    let j = (next as usize) as int % (i + 1);
    vstd::arithmetic::div_mod::lemma_mod_bound((next as usize) as int, i + 1);
    let t = swapped(s, i, j);
    lemma_shuffled_above(t, next, i - 1, i);
    assert(t[i] == s[j]);
}

/// Shuffling up to a place leaves what is behind it.
proof fn lemma_shuffled_above<T>(s: Seq<T>, state: u64, i: int, k: int)
    requires
        i < k < s.len(),
    ensures
        shuffled(s, state, i)[k] == s[k],
    decreases i,
{
    if i > 0 {
        let next = stirred(state);
        let j = (next as usize) as int % (i + 1);
        vstd::arithmetic::div_mod::lemma_mod_bound((next as usize) as int, i + 1);
        lemma_shuffled_above(swapped(s, i, j), next, i - 1, k);
    }
}

/// More paths than asked for are sampled as the seed says: of the sorted paths,
/// shuffled, the first ones are taken.
pub proof fn samples_are_the_first_after_shuffling(
    sorted: Seq<Seq<Seq<u8>>>,
    count: int,
    seed: u64,
)
    requires
        0 <= count < sorted.len(),
        forall|i: int, j: int|
            0 <= i < j < sorted.len() ==> crate::paths::path_at_most(#[trigger] sorted[i], #[trigger] sorted[j]),
    ensures
        sampled(sorted, count, seed).to_multiset() == shuffled(
            sorted,
            seed ^ 0x9e37_79b9_7f4a_7c15u64,
            sorted.len() - 1,
        ).take(count).to_multiset(),
{
    assert(in_order(sorted, by_path()));
    crate::order::arranging_keeps_a_sorted_sequence(sorted, by_path());
    let part = shuffled(sorted, seed ^ 0x9e37_79b9_7f4a_7c15, sorted.len() - 1).take(count);
    arranging_keeps_the_elements(part, by_path());
}

/// The recommended stars stand at the first places of the ranking that span a
/// triangle: the first one as far to the front as any can, then the second, then
/// the third.
pub proof fn recommendations_take_the_first_places(
    stars: Seq<PatternStarSample>,
    rank: Seq<usize>,
    r: Seq<usize>,
    u: int,
    v: int,
    w: int,
)
    requires
        recommended(stars, rank, r),
        0 <= u < rank.len(),
        0 <= v < rank.len(),
        0 <= w < rank.len(),
        spans(stars, rank[u], rank[v], rank[w]),
    ensures
        exists|i: int, j: int, k: int|
            {
                &&& 0 <= i < rank.len() && 0 <= j < rank.len() && 0 <= k < rank.len()
                &&& r == seq![#[trigger] rank[i], #[trigger] rank[j], #[trigger] rank[k]]
                &&& i < u || (i == u && (j < v || (j == v && k <= w)))
            },
{
    let n = rank.len() as int;
    assert(places_within(n, u, v, w));
    let (i, j, k) = choose|i: int, j: int, k: int| #[trigger]
        first_triangle(stars, rank, i, j, k) && r == seq![rank[i], rank[j], rank[k]];
    assert(!places_before(u, v, w, i, j, k));
    assert(r == seq![rank[i], rank[j], rank[k]]);
}

/// Of the stars of a frame that are as near, the first one stands for the
/// reference star: every one before it is further off.
pub proof fn the_first_of_the_nearest_stands(
    frame: Seq<PatternStarSample>,
    star: PatternStarSample,
    tolerance: Double,
    n: int,
    m: int,
)
    requires
        n <= frame.len(),
        counterpart(frame, star, tolerance, n) is Some,
        0 <= m < counterpart(frame, star, tolerance, n)->0,
    ensures
        ({
            let x = of_int(star.x as int);
            let y = of_int(star.y as int);
            let own = frame[counterpart(frame, star, tolerance, n)->0];
            at_most(distance(frame[m], x, y), tolerance) ==> below(
                distance(own, x, y),
                distance(frame[m], x, y),
            )
        }),
    decreases n,
{
    let x = of_int(star.x as int);
    let y = of_int(star.y as int);
    let d = distance(frame[n - 1], x, y);
    let best = counterpart(frame, star, tolerance, n - 1);
    if counterpart(frame, star, tolerance, n) == best {
        the_first_of_the_nearest_stands(frame, star, tolerance, n - 1, m);
    } else if best is Some {
        lemma_counterpart_within(frame, star, tolerance, n - 1);
        counterparts_are_nearest(frame, star, tolerance, n - 1, m);
        assert(at_most(d, tolerance));
    } else if at_most(distance(frame[m], x, y), tolerance) {
        counterparts_are_nearest(frame, star, tolerance, n - 1, m);
    }
}

proof fn lemma_counterpart_within(
    frame: Seq<PatternStarSample>,
    star: PatternStarSample,
    tolerance: Double,
    n: int,
)
    requires
        0 <= n <= frame.len(),
    ensures
        counterpart(frame, star, tolerance, n) matches Some(k) ==> 0 <= k < n,
    decreases n,
{
    if n > 0 {
        lemma_counterpart_within(frame, star, tolerance, n - 1);
    }
}

/// Stable stars come in the order of the reference frame.
pub proof fn stable_stars_keep_their_order(
    reference: Seq<PatternStarSample>,
    frames: Seq<Vec<PatternStarSample>>,
    tolerance: Double,
    n: int,
    a: int,
    b: int,
)
    requires
        n <= reference.len() <= usize::MAX,
        0 <= a < b < aggregated(reference, frames, tolerance, n).len(),
    ensures
        ({
            let r = aggregated(reference, frames, tolerance, n);
            r[a].reference_index < r[b].reference_index < n
        }),
    decreases n,
{
    let rest = aggregated(reference, frames, tolerance, n - 1);
    if b < rest.len() {
        stable_stars_keep_their_order(reference, frames, tolerance, n - 1, a, b);
    } else {
        lemma_stable_below(reference, frames, tolerance, n - 1, a);
    }
}

proof fn lemma_stable_below(
    reference: Seq<PatternStarSample>,
    frames: Seq<Vec<PatternStarSample>>,
    tolerance: Double,
    n: int,
    a: int,
)
    requires
        n <= reference.len() <= usize::MAX,
        0 <= a < aggregated(reference, frames, tolerance, n).len(),
    ensures
        aggregated(reference, frames, tolerance, n)[a].reference_index < n,
    decreases n,
{
    let rest = aggregated(reference, frames, tolerance, n - 1);
    if a < rest.len() {
        lemma_stable_below(reference, frames, tolerance, n - 1, a);
    }
}

/// A selection of fewer than two stars is refused, then one with a number that
/// is not there, then one with a star that is not stable; the first of these is
/// told.
pub proof fn unsound_selections_are_refused(
    selected: Seq<usize>,
    reference_count: int,
    aggregated: Seq<AggregatedStar>,
    tolerance: Double,
    k: int,
)
    ensures
        selected.len() < 2 ==> pattern_of(selected, reference_count, aggregated, tolerance) == Err::<
            Seq<StarPatternEntry>,
            Seq<char>,
        >("a valid star pattern requires at least 2 selected stars"@),
        selected.len() >= 2 && 0 <= k < selected.len() && !(1 <= selected[k] <= reference_count)
            ==> pattern_of(selected, reference_count, aggregated, tolerance) == Err::<
            Seq<StarPatternEntry>,
            Seq<char>,
        >(
            "star number must be between 1 and "@ + decimal(reference_count as nat)
                + " in the candidate JPEG"@,
        ),
        selected.len() >= 2 && 0 <= k < selected.len() && (forall|i: int|
            0 <= i < selected.len() ==> 1 <= #[trigger] selected[i] <= reference_count) && (forall|
            a: int,
        |
            0 <= a < aggregated.len() ==> (#[trigger] aggregated[a]).reference_index + 1
                != selected[k]) && (forall|i: int|
            0 <= i < k ==> exists|a: int|
                0 <= a < aggregated.len() && (#[trigger] aggregated[a]).reference_index + 1
                    == #[trigger] selected[i]) ==> pattern_of(
            selected,
            reference_count,
            aggregated,
            tolerance,
        ) == Err::<Seq<StarPatternEntry>, Seq<char>>(
            "star "@ + decimal(selected[k] as nat)
                + " is a valid JPEG number but is unstable across sampled frames"@,
        ),
{
    if selected.len() >= 2 && 0 <= k < selected.len() {
        if !(1 <= selected[k] <= reference_count) {
            assert(selected[k] == 0 || selected[k] > reference_count);
        } else if (forall|i: int|
            0 <= i < selected.len() ==> 1 <= #[trigger] selected[i] <= reference_count) && (forall|
            a: int,
        |
            0 <= a < aggregated.len() ==> (#[trigger] aggregated[a]).reference_index + 1
                != selected[k]) && (forall|i: int|
            0 <= i < k ==> exists|a: int|
                0 <= a < aggregated.len() && (#[trigger] aggregated[a]).reference_index + 1
                    == #[trigger] selected[i]) {
            lemma_entries_before(selected, aggregated, k);
            lemma_no_place(aggregated, selected[k] - 1, 0);
            lemma_entries_after(selected, aggregated, k, selected.len() as int);
        }
    }
}

proof fn lemma_no_place(aggregated: Seq<AggregatedStar>, reference_index: int, i: int)
    requires
        0 <= i <= aggregated.len(),
    ensures
        place_of(aggregated, reference_index, i) is None <==> forall|a: int|
            i <= a < aggregated.len() ==> (#[trigger] aggregated[a]).reference_index
                != reference_index,
    decreases aggregated.len() - i,
{
    if i < aggregated.len() {
        lemma_no_place(aggregated, reference_index, i + 1);
        if aggregated[i].reference_index != reference_index {
            assert(place_of(aggregated, reference_index, i) == place_of(
                aggregated,
                reference_index,
                i + 1,
            ));
        }
    }
}

proof fn lemma_entries_before(selected: Seq<usize>, aggregated: Seq<AggregatedStar>, n: int)
    requires
        0 <= n <= selected.len(),
        forall|i: int|
            0 <= i < n ==> exists|a: int|
                0 <= a < aggregated.len() && (#[trigger] aggregated[a]).reference_index + 1
                    == #[trigger] selected[i],
    ensures
        entries(selected, aggregated, n) is Ok,
    decreases n,
{
    if n > 0 {
        lemma_entries_before(selected, aggregated, n - 1);
        lemma_no_place(aggregated, selected[n - 1] - 1, 0);
        let a = choose|a: int|
            0 <= a < aggregated.len() && (#[trigger] aggregated[a]).reference_index + 1
                == selected[n - 1];
        assert(aggregated[a].reference_index == selected[n - 1] - 1);
    }
}

proof fn lemma_entries_after(selected: Seq<usize>, aggregated: Seq<AggregatedStar>, k: int, n: int)
    requires
        0 <= k < n <= selected.len(),
        entries(selected, aggregated, k) is Ok,
        place_of(aggregated, selected[k] - 1, 0) is None,
    ensures
        entries(selected, aggregated, n) == Err::<Seq<StarPatternEntry>, Seq<char>>(
            "star "@ + decimal(selected[k] as nat)
                + " is a valid JPEG number but is unstable across sampled frames"@,
        ),
    decreases n,
{
    if k < n - 1 {
        lemma_entries_after(selected, aggregated, k, n - 1);
    }
}

/// The square of twice the distance of a star from the middle of an image.
pub open spec fn off_the_middle(s: PatternStarSample, width: int, height: int) -> int {
    (2 * s.x - width) * (2 * s.x - width) + (2 * s.y - height) * (2 * s.y - height)
}

/// No star stands in the ranking before one that is nearer to the middle of the
/// image; of stars as near the brighter stands first. A star in the middle is
/// ranked first, before all that are not.
pub proof fn nearer_stars_are_ranked_first(
    stars: Seq<PatternStarSample>,
    width: int,
    height: int,
    i: int,
    j: int,
)
    requires
        stars.len() <= usize::MAX,
        0 <= i < j < stars.len(),
        0 <= width <= 0x100_0000,
        0 <= height <= 0x100_0000,
        forall|k: int|
            0 <= k < stars.len() ==> (#[trigger] stars[k]).x <= 0x80_0000 && stars[k].y
                <= 0x80_0000,
    ensures
        ({
            let rank = ranked(stars, width, height);
            let a = stars[rank[i] as int];
            let b = stars[rank[j] as int];
            &&& off_the_middle(a, width, height) <= off_the_middle(b, width, height)
            &&& off_the_middle(a, width, height) == off_the_middle(b, width, height) ==> place(
                b.magnitude,
            ) <= place(a.magnitude)
            &&& 2 * b.x == width && 2 * b.y == height ==> 2 * a.x == width && 2 * a.y == height
        }),
{
    rankings_start_in_the_middle(stars, width, height, i, j);
    let rank = ranked(stars, width, height);
    let a = stars[rank[i] as int];
    let b = stars[rank[j] as int];
    assert(a.x <= 0x80_0000 && b.x <= 0x80_0000);
    crate::double::lemma_distances_ordered(
        b.x as int,
        b.y as int,
        a.x as int,
        a.y as int,
        width,
        height,
    );
    let da = from_the_middle(a.x as int, a.y as int, width, height);
    let db = from_the_middle(b.x as int, b.y as int, width, height);
    assert(place(db) < place(da) <==> off_the_middle(b, width, height) < off_the_middle(
        a,
        width,
        height,
    ));
    if 2 * b.x == width && 2 * b.y == height {
        let p = 2 * a.x - width;
        let q = 2 * a.y - height;
        let u = 2 * b.x - width;
        let v = 2 * b.y - height;
        assert(u * u + v * v == 0) by (nonlinear_arith)
            requires
                u == 0,
                v == 0,
        ;
        assert(p == 0 && q == 0) by (nonlinear_arith)
            requires
                p * p + q * q <= 0,
        ;
    }
}

/// The square of the distance of two stars.
pub open spec fn squared_apart(s: PatternStarSample, t: PatternStarSample) -> int {
    (s.x - t.x) * (s.x - t.x) + (s.y - t.y) * (s.y - t.y)
}

/// Distances from a reference star compare as their squares do, with each other
/// and with whole tolerances.
proof fn lemma_distances_compare(
    s: PatternStarSample,
    t: PatternStarSample,
    star: PatternStarSample,
    tolerance: int,
)
    requires
        s.x <= 0x40_0000,
        s.y <= 0x40_0000,
        t.x <= 0x40_0000,
        t.y <= 0x40_0000,
        star.x <= 0x40_0000,
        star.y <= 0x40_0000,
        0 <= tolerance <= 0x40_0000,
    ensures
        ({
            let x = of_int(star.x as int);
            let y = of_int(star.y as int);
            &&& below(distance(s, x, y), distance(t, x, y)) <==> squared_apart(s, star)
                < squared_apart(t, star)
            &&& at_most(distance(s, x, y), of_int(tolerance)) <==> squared_apart(s, star)
                <= tolerance * tolerance
        }),
{
    let x = star.x as int;
    let y = star.y as int;
    assert(x * 2 == 2 * x && y * 2 == 2 * y);
    crate::double::integers_divide_exactly(x, 2);
    crate::double::integers_divide_exactly(y, 2);
    let w = 2 * x;
    let h = 2 * y;
    crate::double::lemma_distances_ordered(
        s.x as int,
        s.y as int,
        t.x as int,
        t.y as int,
        w,
        h,
    );
    lemma_doubled(s.x as int, s.y as int, x, y);
    lemma_doubled(t.x as int, t.y as int, x, y);
    // A point exactly as far off as the tolerance.
    let u = x + tolerance;
    crate::double::lemma_distances_ordered(u, y, s.x as int, s.y as int, w, h);
    lemma_doubled(u, y, x, y);
    let edge = square_root(
        sum(
            product(difference(of_int(u), of_int(x)), difference(of_int(u), of_int(x))),
            product(difference(of_int(y), of_int(y)), difference(of_int(y), of_int(y))),
        ),
    );
    assert(edge == of_int(tolerance)) by {
        crate::double::integers_subtract_exactly(u, x);
        crate::double::integers_subtract_exactly(y, y);
        assert(tolerance * tolerance <= 0x20_0000_0000_0000) by (nonlinear_arith)
            requires
                0 <= tolerance <= 0x40_0000,
        ;
        assert(0 <= tolerance * tolerance) by (nonlinear_arith)
            requires
                0 <= tolerance,
        ;
        crate::double::lemma_product_of_integers(tolerance, tolerance);
        crate::double::lemma_product_of_integers(0, 0);
        crate::double::integers_add_exactly(tolerance * tolerance, 0);
        crate::double::roots_of_squares_are_exact(tolerance);
    }
    crate::double::lemma_distance_is_number(s.x as int, w, s.y as int, h);
    crate::double::small_integers_are_exact(tolerance);
    assert((u - x) * (u - x) + (y - y) * (y - y) == tolerance * tolerance) by (nonlinear_arith)
        requires
            u == x + tolerance,
    ;
}

proof fn lemma_doubled(a: int, b: int, x: int, y: int)
    ensures
        (2 * a - 2 * x) * (2 * a - 2 * x) + (2 * b - 2 * y) * (2 * b - 2 * y) == 4 * ((a - x) * (a
            - x) + (b - y) * (b - y)),
{
    assert((2 * a - 2 * x) * (2 * a - 2 * x) == 4 * ((a - x) * (a - x))) by (nonlinear_arith);
    assert((2 * b - 2 * y) * (2 * b - 2 * y) == 4 * ((b - y) * (b - y))) by (nonlinear_arith);
}

/// A star of a frame stands for a reference star where some star of the frame is
/// not further from it than the tolerance, here a number of pixels; it is the
/// first of those that are nearest in the plane.
pub proof fn the_nearest_star_in_the_plane_stands(
    frame: Seq<PatternStarSample>,
    star: PatternStarSample,
    tolerance: int,
    m: int,
)
    requires
        0 <= m < frame.len(),
        star.x <= 0x40_0000,
        star.y <= 0x40_0000,
        0 <= tolerance <= 0x40_0000,
        forall|k: int|
            0 <= k < frame.len() ==> (#[trigger] frame[k]).x <= 0x40_0000 && frame[k].y
                <= 0x40_0000,
    ensures
        ({
            let found = counterpart(frame, star, of_int(tolerance), frame.len() as int);
            &&& squared_apart(frame[m], star) <= tolerance * tolerance ==> found is Some
            &&& found is Some ==> {
                let own = squared_apart(frame[found->0], star);
                &&& 0 <= found->0 < frame.len()
                &&& own <= tolerance * tolerance
                &&& own <= squared_apart(frame[m], star)
                &&& m < found->0 ==> own < squared_apart(frame[m], star)
            }
        }),
{
    let n = frame.len() as int;
    let limit = of_int(tolerance);
    let found = counterpart(frame, star, limit, n);
    counterparts_are_nearest(frame, star, limit, n, m);
    let x = of_int(star.x as int);
    let y = of_int(star.y as int);
    assert(frame[m].x <= 0x40_0000);
    lemma_distances_compare(frame[m], frame[m], star, tolerance);
    if found is Some {
        let k = found->0;
        lemma_counterpart_within(frame, star, limit, n);
        assert(frame[k].x <= 0x40_0000);
        lemma_distances_compare(frame[k], frame[m], star, tolerance);
        lemma_distances_compare(frame[m], frame[k], star, tolerance);
        if m < k {
            the_first_of_the_nearest_stands(frame, star, limit, n, m);
        }
    }
}

} // verus!
