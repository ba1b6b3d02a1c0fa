//! Where the stars of an image are.
use crate::double::{
    clamped, lemma_part_not_negative, lemma_part_of_extent, of_int, product, saturated,
    small_integers_are_exact, whole, Double,
};
use crate::lists::{lemma_filter_start, lemma_filter_step};
use crate::pixels::{PixelGrid, Point};
use vstd::arithmetic::power2::pow2;
use vstd::prelude::*;

verus! {

/// How much of a side of this extent belongs to the centre of the image, where
/// the centre is the part `crop` of its width and of its height.
pub open spec fn included(extent: int, crop: Double) -> int {
    saturated(
        whole(product(of_int(extent), clamped(crop, of_int(0), of_int(1)))),
        -0x8000_0000,
        0x7fff_ffff,
    )
}

/// How far from the edge of the image the search for stars begins on a side of
/// this extent: outside the part `crop`, and at least the size of a star.
pub open spec fn border(extent: int, psf_size: int, crop: Option<Double>) -> int {
    match crop {
        Some(c) => {
            let rest = (extent - included(extent, c)) / 2;
            if rest > psf_size {
                rest
            } else {
                psf_size
            }
        },
        None => psf_size,
    }
}

/// The pixels that are searched: those from `left` to before `right` and from
/// `top` to before `bottom`.
#[derive(Clone, Copy, Debug, PartialEq, Eq, Structural)]
pub struct Region {
    pub left: usize,
    pub right: usize,
    pub top: usize,
    pub bottom: usize,
}

impl Region {
    pub open spec fn has(self, x: int, y: int) -> bool {
        self.left <= x < self.right && self.top <= y < self.bottom
    }

    /// How many pixels one column has.
    pub open spec fn column(self) -> int {
        if self.top < self.bottom {
            self.bottom - self.top
        } else {
            0
        }
    }

    /// The pixels, column by column.
    pub open spec fn points(self) -> Seq<Point> {
        let columns = if self.left < self.right {
            self.right - self.left
        } else {
            0
        };
        Seq::new(
            (columns * self.column()) as nat,
            |k: int|
                Point {
                    x: (self.left + k / self.column()) as usize,
                    y: (self.top + k % self.column()) as usize,
                },
        )
    }
}

/// The part of the image that is searched for stars.
pub open spec fn searched(width: int, height: int, psf_size: int, crop: Option<Double>) -> Region {
    let w = border(width, psf_size, crop);
    let h = border(height, psf_size, crop);
    Region {
        left: w as usize,
        right: (width - w) as usize,
        top: h as usize,
        bottom: (height - h) as usize,
    }
}

fn margin(extent: u32, psf_size: usize, crop: Option<Double>) -> (r: usize)
    requires
        psf_size <= extent <= 0x7fff_ffff,
    ensures
        r == border(extent as int, psf_size as int, crop),
        psf_size <= r <= extent,
{
    match crop {
        Some(part) => {
            let c = part.clamped(Double::of_u64(0), Double::of_u64(1));
            let span = Double::of_u64(extent as u64).product(c);
            proof {
                lemma_part_not_negative(extent as int, part, span);
            }
            let rest: i64 = extent as i64 - span.to_i32() as i64;
            if rest > 0 && rest / 2 > psf_size as i64 {
                (rest / 2) as usize
            } else {
                psf_size
            }
        },
        None => psf_size,
    }
}

/// The part of the image that is searched for stars.
pub fn search_region(width: u32, height: u32, psf_size: usize, crop: Option<Double>) -> (r: Region)
    requires
        psf_size <= width <= 0x7fff_ffff,
        psf_size <= height <= 0x7fff_ffff,
    ensures
        r == searched(width as int, height as int, psf_size as int, crop),
        psf_size <= r.left <= width,
        psf_size <= r.top <= height,
        r.right <= width - psf_size,
        r.bottom <= height - psf_size,
{
    let margin_w = margin(width, psf_size, crop);
    let margin_h = margin(height, psf_size, crop);
    Region {
        left: margin_w,
        right: width as usize - margin_w,
        top: margin_h,
        bottom: height as usize - margin_h,
    }
}

/// A pixel of the region that is brighter than `min_v`.
pub open spec fn bright(data: PixelGrid, region: Region, min_v: int, x: int, y: int) -> bool {
    region.has(x, y) && data.level(x, y) > min_v
}

/// A bright pixel with no bright pixel as bright as itself up to two pixels to
/// each side.
pub open spec fn peak(data: PixelGrid, region: Region, min_v: int, x: int, y: int) -> bool {
    &&& bright(data, region, min_v, x, y)
    &&& forall|u: int, v: int|
        x - 2 <= u <= x + 2 && y - 2 <= v <= y + 2 && (u != x || v != y) && #[trigger] bright(
            data,
            region,
            min_v,
            u,
            v,
        ) ==> data.level(u, v) < data.level(x, y)
}

/// Whether a point is a peak.
pub open spec fn is_peak(data: PixelGrid, region: Region, min_v: int) -> spec_fn(Point) -> bool {
    |p: Point| peak(data, region, min_v, p.x as int, p.y as int)
}

/// The peaks of the region, column by column.
pub open spec fn peaks(data: PixelGrid, region: Region, min_v: int) -> Seq<Point> {
    region.points().filter(is_peak(data, region, min_v))
}

/// No bright pixel is so near to the edge that pixels two further out do not
/// exist.
pub open spec fn clear_of_edge(data: PixelGrid, region: Region, min_v: int) -> bool {
    forall|x: int, y: int| #[trigger] bright(data, region, min_v, x, y) ==> x >= 2 && y >= 2
}

fn tops_neighbours(data: &PixelGrid, region: Region, min_v: u16, x: usize, y: usize) -> (r: bool)
    requires
        data.covers(region.right as int, region.bottom as int),
        bright(*data, region, min_v as int, x as int, y as int),
        x >= 2,
        y >= 2,
        region.right <= 0x7fff_ffff,
        region.bottom <= 0x7fff_ffff,
    ensures
        r == peak(*data, region, min_v as int, x as int, y as int),
{
    let own: u16 = data.brightness(x, y);
    let mut i: usize = x - 2;
    while i <= x + 2
        invariant
            data.covers(region.right as int, region.bottom as int),
            bright(*data, region, min_v as int, x as int, y as int),
            own == data.level(x as int, y as int),
            2 <= x < region.right,
            2 <= y < region.bottom,
            region.right <= 0x7fff_ffff,
            region.bottom <= 0x7fff_ffff,
            x - 2 <= i <= x + 3,
            forall|u: int, v: int|
                x - 2 <= u < i && y - 2 <= v <= y + 2 && (u != x || v != y) && #[trigger] bright(
                    *data,
                    region,
                    min_v as int,
                    u,
                    v,
                ) ==> data.level(u, v) < own,
        decreases x + 3 - i,
    {
        let mut j: usize = y - 2;
        while j <= y + 2
            invariant
                data.covers(region.right as int, region.bottom as int),
                bright(*data, region, min_v as int, x as int, y as int),
                own == data.level(x as int, y as int),
                2 <= x < region.right,
                2 <= y < region.bottom,
                region.right <= 0x7fff_ffff,
                region.bottom <= 0x7fff_ffff,
                x - 2 <= i <= x + 2,
                y - 2 <= j <= y + 3,
                forall|u: int, v: int|
                    x - 2 <= u < i && y - 2 <= v <= y + 2 && (u != x || v != y)
                        && #[trigger] bright(*data, region, min_v as int, u, v) ==> data.level(
                        u,
                        v,
                    ) < own,
                forall|v: int|
                    y - 2 <= v < j && (i != x || v != y) && #[trigger] bright(
                        *data,
                        region,
                        min_v as int,
                        i as int,
                        v,
                    ) ==> data.level(i as int, v) < own,
            decreases y + 3 - j,
        {
            if (i != x || j != y) && region.left <= i && i < region.right && region.top <= j && j
                < region.bottom {
                let v: u16 = data.brightness(i, j);
                if v > min_v && v >= own {
                    assert(bright(*data, region, min_v as int, i as int, j as int));
                    return false;
                }
            }
            j = j + 1;
        }
        i = i + 1;
    }
    true
}

/// Finds the peaks of the region.
pub fn find_peaks(data: &PixelGrid, region: Region, min_v: u16) -> (r: Vec<Point>)
    requires
        data.covers(region.right as int, region.bottom as int),
        region.right <= 0x7fff_ffff,
        region.bottom <= 0x7fff_ffff,
        clear_of_edge(*data, region, min_v as int),
    ensures
        r@ == peaks(*data, region, min_v as int),
{
    let ghost all = region.points();
    let ghost pred = is_peak(*data, region, min_v as int);
    let ghost column = region.column();
    let mut r: Vec<Point> = Vec::new();
    proof {
        lemma_filter_start(all, pred);
        if region.left >= region.right || region.top >= region.bottom {
            assert(all.len() == 0) by (nonlinear_arith)
                requires
                    all.len() == 0 * column || column == 0 && all.len() == (region.right
                        - region.left) * column,
            ;
            assert(all.take(0) =~= all);
        }
    }
    if region.left >= region.right || region.top >= region.bottom {
        return r;
    }
    let ghost columns = region.right - region.left;
    let mut i: usize = region.left;
    let ghost mut k: int = 0;
    while i < region.right
        invariant
            data.covers(region.right as int, region.bottom as int),
            region.right <= 0x7fff_ffff,
            region.bottom <= 0x7fff_ffff,
            clear_of_edge(*data, region, min_v as int),
            region.top < region.bottom,
            region.left <= i <= region.right,
            all == region.points(),
            pred == is_peak(*data, region, min_v as int),
            column == region.bottom - region.top,
            columns == region.right - region.left,
            all.len() == columns * column,
            k == (i - region.left) * column,
            0 <= k <= all.len(),
            r@ == all.take(k).filter(pred),
        decreases region.right - i,
    {
        let mut j: usize = region.top;
        while j < region.bottom
            invariant
                data.covers(region.right as int, region.bottom as int),
                region.right <= 0x7fff_ffff,
                region.bottom <= 0x7fff_ffff,
                clear_of_edge(*data, region, min_v as int),
                region.left <= i < region.right,
                region.top <= j <= region.bottom,
                region.top < region.bottom,
                all == region.points(),
                pred == is_peak(*data, region, min_v as int),
                column == region.bottom - region.top,
                columns == region.right - region.left,
                all.len() == columns * column,
                k == (i - region.left) * column + (j - region.top),
                0 <= k <= all.len(),
                r@ == all.take(k).filter(pred),
            decreases region.bottom - j,
        {
            proof {
                let row = i - region.left;
                let col = j - region.top;
                assert(k < columns * column) by (nonlinear_arith)
                    requires
                        k == row * column + col,
                        0 <= row < columns,
                        0 <= col < column,
                ;
                vstd::arithmetic::div_mod::lemma_fundamental_div_mod_converse(k, column, row, col);
                assert(all[k] == Point { x: i, y: j });
                lemma_filter_step(all, k, pred);
            }
            let v: u16 = data.brightness(i, j);
            if v > min_v {
                assert(bright(*data, region, min_v as int, i as int, j as int));
                if tops_neighbours(data, region, min_v, i, j) {
                    r.push(Point { x: i, y: j });
                }
            }
            proof {
                k = k + 1;
            }
            j = j + 1;
        }
        proof {
            let row = i - region.left;
            assert(row * column + column == (row + 1) * column) by (nonlinear_arith);
        }
        i = i + 1;
    }
    assert(all.take(k) =~= all);
    r
}

/// Two positions closer than the size of a star.
pub open spec fn close(a: Point, b: Point, psf_size: int) -> bool {
    (b.x - a.x) * (b.x - a.x) + (b.y - a.y) * (b.y - a.y) < psf_size * psf_size
}

/// `j` is the first position behind `i` that is close to it.
pub open spec fn partner(s: Seq<Point>, i: int, j: int, psf_size: int) -> bool {
    &&& 0 <= i < j < s.len()
    &&& close(s[i], s[j], psf_size)
    &&& forall|m: int| i < m < j ==> !close(s[i], #[trigger] s[m], psf_size)
}

/// A position with a partner.
pub open spec fn has_partner(s: Seq<Point>, k: int, psf_size: int) -> bool {
    exists|j: int| #[trigger] partner(s, k, j, psf_size)
}

/// A position that is the partner of one of the first `n`.
pub open spec fn is_partner(s: Seq<Point>, k: int, n: int, psf_size: int) -> bool {
    exists|i: int| i < n && #[trigger] partner(s, i, k, psf_size)
}

/// A position with a partner, or that is the partner of another.
pub open spec fn crowded(s: Seq<Point>, k: int, psf_size: int) -> bool {
    has_partner(s, k, psf_size) || is_partner(s, k, s.len() as int, psf_size)
}

/// Those of the first `n` positions that are not crowded.
pub open spec fn apart_among(s: Seq<Point>, n: int, psf_size: int) -> Seq<Point>
    decreases n,
{
    if n <= 0 {
        Seq::empty()
    } else {
        let rest = apart_among(s, n - 1, psf_size);
        if crowded(s, n - 1, psf_size) {
            rest
        } else {
            rest.push(s[n - 1])
        }
    }
}

/// The positions that are not crowded.
pub open spec fn apart(s: Seq<Point>, psf_size: int) -> Seq<Point> {
    apart_among(s, s.len() as int, psf_size)
}

/// Positions whose distances can be squared.
pub open spec fn within(s: Seq<Point>, limit: int) -> bool {
    forall|i: int| 0 <= i < s.len() ==> (#[trigger] s[i]).x < limit && s[i].y < limit
}

fn are_close(a: Point, b: Point, psf_size: usize) -> (r: bool)
    requires
        a.x < 0x1_0000_0000,
        a.y < 0x1_0000_0000,
        b.x < 0x1_0000_0000,
        b.y < 0x1_0000_0000,
    ensures
        r == close(a, b, psf_size as int),
{
    let dx: i128 = b.x as i128 - a.x as i128;
    let dy: i128 = b.y as i128 - a.y as i128;
    let s: i128 = psf_size as i128;
    proof {
        assert(-0x1_0000_0000 < dx < 0x1_0000_0000 ==> 0 <= dx * dx <= 0x1_0000_0000_0000_0000)
            by (nonlinear_arith);
        assert(-0x1_0000_0000 < dy < 0x1_0000_0000 ==> 0 <= dy * dy <= 0x1_0000_0000_0000_0000)
            by (nonlinear_arith);
        assert(0 <= s <= 0xffff_ffff_ffff_ffff ==> 0 <= s * s) by (nonlinear_arith);
    }
    if s >= 0x1_0000_0000_0000 {
        proof {
            assert(s * s >= 0x1_0000_0000_0000 * 0x1_0000_0000_0000) by (nonlinear_arith)
                requires
                    s >= 0x1_0000_0000_0000,
            ;
        }
        return true;
    }
    proof {
        assert(s * s <= 0x1_0000_0000_0000 * 0x1_0000_0000_0000) by (nonlinear_arith)
            requires
                0 <= s <= 0x1_0000_0000_0000,
        ;
    }
    dx * dx + dy * dy < s * s
}

/// Drops each position that is close to a later one, together with the first
/// such later one.
pub fn drop_crowded(positions: &Vec<Point>, psf_size: usize) -> (r: Vec<Point>)
    requires
        within(positions@, 0x1_0000_0000),
    ensures
        r@ == apart(positions@, psf_size as int),
{
    let ghost s = positions@;
    let ghost p = psf_size as int;
    let n: usize = positions.len();
    let mut marks: Vec<bool> = Vec::new();
    let mut i: usize = 0;
    while i < n
        invariant
            n == positions@.len(),
            i <= n,
            marks@.len() == i,
            forall|k: int| 0 <= k < i ==> !(#[trigger] marks@[k]),
        decreases n - i,
    {
        marks.push(false);
        i = i + 1;
    }
    i = 0;
    while i < n
        invariant
            n == positions@.len(),
            s == positions@,
            p == psf_size,
            i <= n,
            marks@.len() == n,
            within(s, 0x1_0000_0000),
            forall|k: int|
                0 <= k < n ==> ((#[trigger] marks@[k]) <==> (k < i && has_partner(s, k, p))
                    || is_partner(s, k, i as int, p)),
        decreases n - i,
    {
        let mut j: usize = i + 1;
        while j < n && !are_close(positions[i], positions[j], psf_size)
            invariant
                n == positions@.len(),
                s == positions@,
                p == psf_size,
                i < j <= n,
                within(s, 0x1_0000_0000),
                forall|m: int| i < m < j ==> !close(s[i as int], #[trigger] s[m], p),
            ensures
                i < j <= n,
                forall|m: int| i < m < j ==> !close(s[i as int], #[trigger] s[m], p),
                j < n ==> close(s[i as int], s[j as int], p),
            decreases n - j,
        {
            j = j + 1;
        }
        let ghost before = marks@;
        if j < n {
            marks.set(i, true);
            marks.set(j, true);
        }
        proof {
            let a = i as int;
            let b = j as int;
            if b < n {
                assert(partner(s, a, b, p));
            }
            assert forall|q: int| #[trigger] partner(s, a, q, p) implies q == b && b < n by {
                if q < b {
                    assert(!close(s[a], s[q], p));
                } else if b < q {
                    assert(!close(s[a], s[b], p));
                }
            }
            assert forall|k: int| 0 <= k < n implies ((#[trigger] marks@[k]) <==> (k < a + 1
                && has_partner(s, k, p)) || is_partner(s, k, a + 1, p)) by {
                assert(before[k] <==> (k < a && has_partner(s, k, p)) || is_partner(s, k, a, p));
                if is_partner(s, k, a + 1, p) && !is_partner(s, k, a, p) {
                    let q = choose|q: int| q < a + 1 && #[trigger] partner(s, q, k, p);
                    assert(q == a);
                }
                if is_partner(s, k, a, p) {
                    let q = choose|q: int| q < a && #[trigger] partner(s, q, k, p);
                    assert(q < a + 1 && partner(s, q, k, p));
                }
            }
        }
        i = i + 1;
    }
    let mut r: Vec<Point> = Vec::new();
    i = 0;
    while i < n
        invariant
            n == positions@.len(),
            s == positions@,
            p == psf_size,
            i <= n,
            marks@.len() == n,
            forall|k: int| 0 <= k < n ==> ((#[trigger] marks@[k]) <==> crowded(s, k, p)),
            r@ == apart_among(s, i as int, p),
        decreases n - i,
    {
        if !marks[i] {
            r.push(positions[i]);
        }
        i = i + 1;
    }
    r
}

/// Each position that is left comes from the given ones, where it was not
/// crowded.
proof fn lemma_apart_members(s: Seq<Point>, n: int, psf_size: int, a: int) -> (i: int)
    requires
        0 <= n <= s.len(),
        0 <= a < apart_among(s, n, psf_size).len(),
    ensures
        0 <= i < n,
        apart_among(s, n, psf_size)[a] == s[i],
        !crowded(s, i, psf_size),
    decreases n,
{
    let rest = apart_among(s, n - 1, psf_size);
    if crowded(s, n - 1, psf_size) || a < rest.len() {
        lemma_apart_members(s, n - 1, psf_size, a)
    } else {
        n - 1
    }
}

proof fn lemma_close_has_partner(s: Seq<Point>, i: int, j: int, m: int, psf_size: int)
    requires
        0 <= i < m <= j < s.len(),
        close(s[i], s[j], psf_size),
        forall|k: int| i < k < m ==> !close(s[i], #[trigger] s[k], psf_size),
    ensures
        has_partner(s, i, psf_size),
    decreases j - m,
{
    if close(s[i], s[m], psf_size) {
        assert(partner(s, i, m, psf_size));
    } else {
        lemma_close_has_partner(s, i, j, m + 1, psf_size);
    }
}

proof fn lemma_apart_pairs(s: Seq<Point>, n: int, psf_size: int, a: int, b: int)
    requires
        0 <= n <= s.len(),
        0 <= a < b < apart_among(s, n, psf_size).len(),
    ensures
        !close(apart_among(s, n, psf_size)[a], apart_among(s, n, psf_size)[b], psf_size),
    decreases n,
{
    let rest = apart_among(s, n - 1, psf_size);
    if crowded(s, n - 1, psf_size) || b < rest.len() {
        lemma_apart_pairs(s, n - 1, psf_size, a, b);
    } else {
        let i = lemma_apart_members(s, n - 1, psf_size, a);
        if close(s[i], s[n - 1], psf_size) {
            lemma_close_has_partner(s, i, n - 1, i + 1, psf_size);
        }
    }
}

/// No two of the positions that are left are closer than the size of a star.
pub proof fn remaining_positions_are_apart(s: Seq<Point>, psf_size: int, a: int, b: int)
    requires
        0 <= a < b < apart(s, psf_size).len(),
    ensures
        !close(apart(s, psf_size)[a], apart(s, psf_size)[b], psf_size),
{
    lemma_apart_pairs(s, s.len() as int, psf_size, a, b);
}

proof fn lemma_apart_keeps(s: Seq<Point>, n: int, psf_size: int, i: int)
    requires
        0 <= i < n <= s.len(),
        !crowded(s, i, psf_size),
    ensures
        apart_among(s, n, psf_size).contains(s[i]),
    decreases n,
{
    let rest = apart_among(s, n - 1, psf_size);
    if i == n - 1 {
        assert(rest.push(s[i])[rest.len() as int] == s[i]);
    } else {
        lemma_apart_keeps(s, n - 1, psf_size, i);
        let k = rest.index_of(s[i]);
        assert(apart_among(s, n, psf_size)[k] == s[i]);
    }
}

/// A position that is close to no other one is left, and only given positions
/// are left.
pub proof fn lonely_positions_remain(s: Seq<Point>, psf_size: int, p: Point)
    ensures
        apart(s, psf_size).contains(p) ==> s.contains(p),
        forall|i: int|
            0 <= i < s.len() && #[trigger] s[i] == p && (forall|j: int|
                0 <= j < s.len() && j != i ==> !close(#[trigger] s[j], p, psf_size) && !close(
                    p,
                    s[j],
                    psf_size,
                )) ==> apart(s, psf_size).contains(p),
{
    let n = s.len() as int;
    if apart(s, psf_size).contains(p) {
        let a = apart(s, psf_size).index_of(p);
        let i = lemma_apart_members(s, n, psf_size, a);
        assert(s[i] == p);
    }
    assert forall|i: int|
        0 <= i < s.len() && #[trigger] s[i] == p && (forall|j: int|
            0 <= j < s.len() && j != i ==> !close(#[trigger] s[j], p, psf_size) && !close(
                p,
                s[j],
                psf_size,
            )) implies apart(s, psf_size).contains(p) by {
        if crowded(s, i, psf_size) {
            if has_partner(s, i, psf_size) {
                let j = choose|j: int| #[trigger] partner(s, i, j, psf_size);
                assert(!close(p, s[j], psf_size));
            } else {
                let j = choose|j: int| j < n && #[trigger] partner(s, j, i, psf_size);
                assert(!close(s[j], p, psf_size));
            }
        }
        lemma_apart_keeps(s, n, psf_size, i);
    }
}

/// The square of the distance of two positions.
pub open spec fn squared_distance(a: Point, b: Point) -> int {
    let dx = a.x - b.x;
    let dy = a.y - b.y;
    dx * dx + dy * dy
}

pub(crate) proof fn lemma_squared_distance(a: Point, b: Point, psf_size: int)
    ensures
        close(a, b, psf_size) <==> squared_distance(a, b) < psf_size * psf_size,
        squared_distance(a, b) == squared_distance(b, a),
{
    assert((b.x - a.x) * (b.x - a.x) == (a.x - b.x) * (a.x - b.x)) by (nonlinear_arith);
    assert((b.y - a.y) * (b.y - a.y) == (a.y - b.y) * (a.y - b.y)) by (nonlinear_arith);
}

/// Positions crowd each other by their distance in the plane: any two that are
/// left are at least the size of a star apart, and one that is at least that far
/// from all others is left.
pub proof fn distance_decides_on_crowding(s: Seq<Point>, psf_size: int)
    ensures
        forall|a: int, b: int|
            #![trigger apart(s, psf_size)[a], apart(s, psf_size)[b]]
            0 <= a < b < apart(s, psf_size).len() ==> squared_distance(
                apart(s, psf_size)[a],
                apart(s, psf_size)[b],
            ) >= psf_size * psf_size,
        forall|i: int|
            0 <= i < s.len() && (forall|j: int|
                0 <= j < s.len() && j != i ==> squared_distance(s[i], #[trigger] s[j]) >= psf_size
                    * psf_size) ==> apart(s, psf_size).contains(#[trigger] s[i]),
{
    let r = apart(s, psf_size);
    assert forall|a: int, b: int| #![trigger r[a], r[b]] 0 <= a < b < r.len() implies squared_distance(
        r[a],
        r[b],
    ) >= psf_size * psf_size by {
        remaining_positions_are_apart(s, psf_size, a, b);
        lemma_squared_distance(r[a], r[b], psf_size);
    }
    assert forall|i: int|
        0 <= i < s.len() && (forall|j: int|
            0 <= j < s.len() && j != i ==> squared_distance(s[i], #[trigger] s[j]) >= psf_size
                * psf_size) implies r.contains(#[trigger] s[i]) by {
        assert forall|j: int| 0 <= j < s.len() && j != i implies !close(
            #[trigger] s[j],
            s[i],
            psf_size,
        ) && !close(s[i], s[j], psf_size) by {
            lemma_squared_distance(s[i], s[j], psf_size);
            lemma_squared_distance(s[j], s[i], psf_size);
        }
        lonely_positions_remain(s, psf_size, s[i]);
    }
}

/// Of two positions that are closer than the size of a star neither is left,
/// where nothing between them in the list is as close to the first.
pub proof fn close_pairs_are_dropped(s: Seq<Point>, psf_size: int, i: int, j: int)
    requires
        s.no_duplicates(),
        0 <= i < j < s.len(),
        squared_distance(s[i], s[j]) < psf_size * psf_size,
        forall|m: int|
            i < m < j ==> squared_distance(s[i], #[trigger] s[m]) >= psf_size * psf_size,
    ensures
        !apart(s, psf_size).contains(s[i]),
        !apart(s, psf_size).contains(s[j]),
{
    let n = s.len() as int;
    lemma_squared_distance(s[i], s[j], psf_size);
    assert forall|m: int| i < m < j implies !close(s[i], #[trigger] s[m], psf_size) by {
        lemma_squared_distance(s[i], s[m], psf_size);
    }
    assert(partner(s, i, j, psf_size));
    assert(crowded(s, i, psf_size));
    assert(crowded(s, j, psf_size));
    if apart(s, psf_size).contains(s[i]) {
        let a = apart(s, psf_size).index_of(s[i]);
        let k = lemma_apart_members(s, n, psf_size, a);
        assert(k == i);
    }
    if apart(s, psf_size).contains(s[j]) {
        let a = apart(s, psf_size).index_of(s[j]);
        let k = lemma_apart_members(s, n, psf_size, a);
        assert(k == j);
    }
}

/// A pixel is a peak exactly where it lies in the region, is brighter than the
/// limit, and every other such pixel up to two columns and two rows away is
/// darker than it.
pub proof fn peaks_are_local_maxima(data: PixelGrid, region: Region, min_v: int, p: Point)
    requires
        region.right <= 0x7fff_ffff,
        region.bottom <= 0x7fff_ffff,
    ensures
        peaks(data, region, min_v).contains(p) <==> {
            &&& region.left <= p.x < region.right
            &&& region.top <= p.y < region.bottom
            &&& data.level(p.x as int, p.y as int) > min_v
            &&& forall|u: int, v: int|
                region.left <= u < region.right && region.top <= v < region.bottom && -2 <= u - p.x
                    <= 2 && -2 <= v - p.y <= 2 && (u != p.x || v != p.y) && #[trigger] data.level(u, v)
                    > min_v ==> data.level(u, v) < data.level(p.x as int, p.y as int)
        },
{
    let all = region.points();
    let pred = is_peak(data, region, min_v);
    let x = p.x as int;
    let y = p.y as int;
    if pred(p) {
        let c = region.bottom - region.top;
        let columns = region.right - region.left;
        let row = x - region.left;
        let col = y - region.top;
        let k = row * c + col;
        assert(0 <= k < columns * c) by (nonlinear_arith)
            requires
                k == row * c + col,
                0 <= row < columns,
                0 <= col < c,
        ;
        vstd::arithmetic::div_mod::lemma_fundamental_div_mod_converse(k, c, row, col);
        assert(all[k] == p);
        assert(all.contains(p));
        all.lemma_filter_contains(pred, k);
    }
    if peaks(data, region, min_v).contains(p) {
        let k = all.filter(pred).index_of(p);
        all.lemma_filter_pred(pred, k);
    }
    if region.has(x, y) && data.level(x, y) > min_v && (forall|u: int, v: int|
        region.left <= u < region.right && region.top <= v < region.bottom && -2 <= u - p.x <= 2
            && -2 <= v - p.y <= 2 && (u != p.x || v != p.y) && #[trigger] data.level(u, v) > min_v
            ==> data.level(u, v) < data.level(x, y)) {
        assert(pred(p));
    }
    if pred(p) {
        assert forall|u: int, v: int|
            region.left <= u < region.right && region.top <= v < region.bottom && -2 <= u - p.x <= 2
                && -2 <= v - p.y <= 2 && (u != p.x || v != p.y) && #[trigger] data.level(u, v)
                > min_v implies data.level(u, v) < data.level(x, y) by {
            assert(bright(data, region, min_v, u, v));
        }
    }
}

/// The searched part lies in the middle of the image, at least the size of a
/// star from its edges. It spans its width and its height independently of each
/// other in the same way.
pub proof fn the_centre_is_searched(
    width: int,
    height: int,
    other: int,
    psf_size: int,
    crop: Option<Double>,
)
    requires
        0 <= psf_size <= width <= 0x7fff_ffff,
        psf_size <= height <= 0x7fff_ffff,
        psf_size <= other <= 0x7fff_ffff,
    ensures
        ({
            let r = searched(width, height, psf_size, crop);
            &&& r.left + r.right == width
            &&& r.top + r.bottom == height
            &&& psf_size <= r.left
            &&& psf_size <= r.top
            &&& crop is None ==> r.left == psf_size && r.top == psf_size
            &&& searched(width, other, psf_size, crop).left == r.left
            &&& searched(other, height, psf_size, crop).top == r.top
            &&& searched(height, width, psf_size, crop).top == r.left
            &&& searched(height, width, psf_size, crop).left == r.top
        }),
{
    if let Some(c) = crop {
        lemma_border(width, psf_size, c);
        lemma_border(height, psf_size, c);
        lemma_border(other, psf_size, c);
    }
}

proof fn lemma_border(extent: int, psf_size: int, crop: Double)
    requires
        0 <= psf_size <= extent <= 0x7fff_ffff,
    ensures
        psf_size <= border(extent, psf_size, Some(crop)) <= extent,
        0 <= included(extent, crop) <= extent,
{
    vstd::arithmetic::power2::lemma_pow2_pos(1074);
    small_integers_are_exact(0);
    small_integers_are_exact(1);
    let c = clamped(crop, of_int(0), of_int(1));
    if !c.nan() {
        assert(0 * pow2(1074) == 0);
        assert(1 * pow2(1074) == pow2(1074));
        lemma_part_of_extent(extent, c);
    }
}

/// With a crop from nothing to everything, the searched part of a side is that
/// part of its extent, to a pixel or two, where the size of a star leaves room
/// for it. A crop of everything or more searches all, one of nothing or less
/// hardly anything.
pub proof fn crops_search_their_part(
    width: int,
    height: int,
    psf_size: int,
    crop: Double,
)
    requires
        0 <= psf_size <= width <= 0x7fff_ffff,
        psf_size <= height <= 0x7fff_ffff,
        !crop.nan(),
    ensures
        ({
            let r = searched(width, height, psf_size, Some(crop));
            let part = crop.units();
            let one = pow2(1074) as int;
            &&& 0 <= part <= one && r.left > psf_size ==> {
                &&& width * part - one < (r.right - r.left) * one
                &&& (r.right - r.left) * one <= width * part + 2 * one
            }
            &&& 0 <= part <= one && r.left == psf_size ==> (width - 2 * psf_size - 2) * one <= width
                * part + one
            &&& part >= one ==> r.left == psf_size && r.top == psf_size
            &&& part <= 0 ==> r.right - r.left <= 2 || r.left == psf_size
        }),
{
    let one = pow2(1074) as int;
    vstd::arithmetic::power2::lemma_pow2_pos(1074);
    small_integers_are_exact(0);
    small_integers_are_exact(1);
    assert(0 * pow2(1074) == 0);
    assert(1 * pow2(1074) == one);
    let c = clamped(crop, of_int(0), of_int(1));
    lemma_part_of_extent(width, c);
    lemma_part_of_extent(height, c);
    lemma_border(width, psf_size, crop);
    lemma_border(height, psf_size, crop);
    let part = crop.units();
    let w = whole(product(of_int(width), c));
    let h = whole(product(of_int(height), c));
    let r = searched(width, height, psf_size, Some(crop));
    let s = r.right - r.left;
    assert(c.units() == (if part < 0 {
        0
    } else if part > one {
        one
    } else {
        part
    }));
    if part >= one {
        assert(w == width) by (nonlinear_arith)
            requires
                width * one < (w + 1) * one,
                w <= width,
                one > 0,
        ;
        assert(h == height) by (nonlinear_arith)
            requires
                height * one < (h + 1) * one,
                h <= height,
                one > 0,
        ;
    }
    if part <= 0 {
        assert(w <= 1) by (nonlinear_arith)
            requires
                w * one <= width * 0 + one,
                one > 0,
        ;
    }
    if 0 <= part <= one {
        if r.left > psf_size {
            assert(w <= s <= w + 1);
            assert(width * part - one < s * one && s * one <= width * part + 2 * one)
                by (nonlinear_arith)
                requires
                    w <= s <= w + 1,
                    w * one <= width * part + one,
                    width * part < (w + 1) * one,
                    one > 0,
            ;
        } else {
            assert(width - 2 * psf_size - 2 <= w);
            assert((width - 2 * psf_size - 2) * one <= width * part + one) by (nonlinear_arith)
                requires
                    width - 2 * psf_size - 2 <= w,
                    w * one <= width * part + one,
                    one > 0,
            ;
        }
    }
}

/// Peaks come column by column from the left, and in a column from the top.
pub proof fn peaks_come_column_by_column(
    data: PixelGrid,
    region: Region,
    min_v: int,
    i: int,
    j: int,
)
    requires
        region.right <= 0x7fff_ffff,
        region.bottom <= 0x7fff_ffff,
        0 <= i < j < peaks(data, region, min_v).len(),
    ensures
        ({
            let a = peaks(data, region, min_v)[i];
            let b = peaks(data, region, min_v)[j];
            a.x < b.x || (a.x == b.x && a.y < b.y)
        }),
{
    let all = region.points();
    let c = region.column();
    let before = |a: Point, b: Point| a.x < b.x || (a.x == b.x && a.y < b.y);
    assert forall|k: int, m: int| 0 <= k < m < all.len() implies before(
        #[trigger] all[k],
        #[trigger] all[m],
    ) by {
        let columns = if region.left < region.right {
            region.right - region.left
        } else {
            0
        };
        assert(c > 0 && columns > 0) by (nonlinear_arith)
            requires
                columns * c > 0,
                c >= 0,
                columns >= 0,
        ;
        vstd::arithmetic::div_mod::lemma_fundamental_div_mod(k, c);
        vstd::arithmetic::div_mod::lemma_fundamental_div_mod(m, c);
        vstd::arithmetic::div_mod::lemma_mod_bound(k, c);
        vstd::arithmetic::div_mod::lemma_mod_bound(m, c);
        vstd::arithmetic::div_mod::lemma_div_is_ordered(k, m, c);
        assert(0 <= k / c && m / c < columns) by (nonlinear_arith)
            requires
                0 <= k,
                m < columns * c,
                c > 0,
        ;
        if k / c == m / c {
            assert(k % c < m % c);
        }
    }
    crate::lists::lemma_filter_keeps_order(all, is_peak(data, region, min_v), before);
    let r = peaks(data, region, min_v);
    assert(before(r[i], r[j]));
}

/// A position is left exactly where no later one is close to it, and every
/// earlier one that is close to it has an even earlier close one behind itself.
pub proof fn positions_are_dropped_in_pairs(s: Seq<Point>, psf_size: int, k: int)
    requires
        s.no_duplicates(),
        0 <= k < s.len(),
    ensures
        apart(s, psf_size).contains(s[k]) <==> {
            &&& forall|j: int|
                k < j < s.len() ==> squared_distance(s[k], #[trigger] s[j]) >= psf_size * psf_size
            &&& forall|i: int|
                0 <= i < k && squared_distance(#[trigger] s[i], s[k]) < psf_size * psf_size
                    ==> exists|m: int|
                    i < m < k && squared_distance(s[i], #[trigger] s[m]) < psf_size * psf_size
        },
{
    let r = apart(s, psf_size);
    assert forall|i: int, j: int| 0 <= i < s.len() && 0 <= j < s.len() implies (close(
        #[trigger] s[i],
        #[trigger] s[j],
        psf_size,
    ) <==> squared_distance(s[i], s[j]) < psf_size * psf_size) by {
        lemma_squared_distance(s[i], s[j], psf_size);
    }
    if r.contains(s[k]) {
        let a = r.index_of(s[k]);
        let i = lemma_apart_members(s, s.len() as int, psf_size, a);
        assert(i == k);
        assert(!crowded(s, k, psf_size));
        assert forall|j: int| k < j < s.len() implies squared_distance(s[k], #[trigger] s[j])
            >= psf_size * psf_size by {
            if close(s[k], s[j], psf_size) {
                lemma_close_has_partner(s, k, j, k + 1, psf_size);
            }
        }
        assert forall|i: int|
            0 <= i < k && squared_distance(#[trigger] s[i], s[k]) < psf_size
                * psf_size implies exists|m: int|
            i < m < k && squared_distance(s[i], #[trigger] s[m]) < psf_size * psf_size by {
            assert(!partner(s, i, k, psf_size));
            let m = choose|m: int| i < m < k && close(s[i], #[trigger] s[m], psf_size);
            assert(squared_distance(s[i], s[m]) < psf_size * psf_size);
        }
    } else {
        if !crowded(s, k, psf_size) {
            lemma_apart_keeps(s, s.len() as int, psf_size, k);
        }
        if has_partner(s, k, psf_size) {
            let j = choose|j: int| #[trigger] partner(s, k, j, psf_size);
            assert(squared_distance(s[k], s[j]) < psf_size * psf_size);
        } else {
            let i = choose|i: int| i < s.len() && #[trigger] partner(s, i, k, psf_size);
            assert(squared_distance(s[i], s[k]) < psf_size * psf_size);
            assert forall|m: int| i < m < k implies !(squared_distance(s[i], #[trigger] s[m])
                < psf_size * psf_size) by {
                assert(!close(s[i], s[m], psf_size));
            }
        }
    }
}

} // verus!
