//! Stars as measured in an image.
use crate::double::{accumulated, integers_add_exactly, of_int, quotient, Double};
use crate::order::{
    arranged, arranging_forgets_the_order, arranging_keeps_a_sorted_sequence,
    arranging_keeps_the_elements, arranging_sorts, in_order, inserted, preorder,
};
use crate::pixels::{PixelGrid, Point};
use vstd::prelude::*;

verus! {

/// A star and how its light is spread.
#[derive(Clone, Copy, Debug, PartialEq)]
pub struct Star {
    pub pos: Point,
    pub magnitude: Double,
    pub magnitude_adu: Double,
    pub brightest_pixel_adu: Double,
    pub brightest_pixel_part: Double,
    pub top_4_pixels_part: Double,
    pub ill_defined: bool,
}

/// How far a pixel exceeds the background.
pub open spec fn excess(data: PixelGrid, x: int, y: int, background_adu: int) -> int {
    data.level(x, y) - background_adu
}

/// The excess of every pixel of the square around `pos` that reaches `half`
/// pixels to each side, column by column.
pub open spec fn excesses(data: PixelGrid, pos: Point, half: int, background_adu: int) -> Seq<int> {
    Seq::new(
        ((2 * half + 1) * (2 * half + 1)) as nat,
        |k: int|
            excess(
                data,
                pos.x - half + k / (2 * half + 1),
                pos.y - half + k % (2 * half + 1),
                background_adu,
            ),
    )
}

/// Integers, greatest first.
pub open spec fn descending() -> spec_fn(int, int) -> bool {
    |a: int, b: int| a >= b
}

/// The four greatest of the values and four zeros, greatest first.
pub open spec fn top_4(s: Seq<int>) -> Seq<int> {
    arranged(seq![0int, 0, 0, 0] + s, descending()).take(4)
}

/// The values as numbers.
pub open spec fn numbers(s: Seq<int>) -> Seq<Double> {
    s.map_values(|i: int| of_int(i))
}

/// The star at `pos` whose light falls on the square that reaches half of
/// `psf_size` to each side.
pub open spec fn star_at(
    pos: Point,
    data: PixelGrid,
    adu_e: Double,
    background_adu: int,
    psf_size: int,
) -> Star {
    let light = excesses(data, pos, psf_size / 2, background_adu);
    let flux = accumulated(of_int(0), numbers(light));
    let centre = excess(data, pos.x as int, pos.y as int, background_adu);
    let top = top_4(light);
    Star {
        pos,
        magnitude: quotient(flux, adu_e),
        magnitude_adu: flux,
        brightest_pixel_adu: of_int(centre),
        brightest_pixel_part: quotient(of_int(centre), flux),
        top_4_pixels_part: quotient(of_int(top[0] + top[1] + top[2] + top[3]), flux),
        ill_defined: top[0] > centre,
    }
}

proof fn lemma_descending()
    ensures
        preorder(descending()),
{
}

proof fn lemma_inserted_take(s: Seq<int>, x: int)
    requires
        s.len() >= 4,
        in_order(s, descending()),
    ensures
        inserted(s, x, descending()).take(4) == inserted(s.take(4), x, descending()).take(4),
    decreases s.len(),
{
    if s.len() == 4 {
        assert(s.take(4) == s);
    } else if s.last() >= x {
        assert(descending()(s[3], s[s.len() - 1]));
        assert(s.take(4).last() == s[3]);
        assert(s.push(x).take(4) == s.take(4));
        assert(s.take(4).push(x).take(4) == s.take(4));
    } else {
        let t = s.drop_last();
        assert forall|i: int, j: int| 0 <= i < j < t.len() implies descending()(
            #[trigger] t[i],
            #[trigger] t[j],
        ) by {
            assert(descending()(s[i], s[j]));
        }
        lemma_inserted_take(t, x);
        assert(t.take(4) == s.take(4));
        lemma_inserted_len(t, x);
        assert(inserted(t, x, descending()).push(s.last()).take(4) == inserted(
            t,
            x,
            descending(),
        ).take(4));
    }
}

proof fn lemma_inserted_len(s: Seq<int>, x: int)
    ensures
        inserted(s, x, descending()).len() == s.len() + 1,
    decreases s.len(),
{
    if s.len() > 0 && s.last() < x {
        lemma_inserted_len(s.drop_last(), x);
    }
}

/// One more value takes its place among the four greatest.
proof fn lemma_top_4_push(s: Seq<int>, x: int)
    ensures
        top_4(s).len() == 4,
        top_4(s.push(x)) == inserted(top_4(s), x, descending()).take(4),
        in_order(top_4(s), descending()),
{
    let z = seq![0int, 0, 0, 0] + s;
    let zx = seq![0int, 0, 0, 0] + s.push(x);
    assert(zx.drop_last() =~= z);
    assert(zx.last() == x);
    lemma_descending();
    arranging_keeps_the_elements(z, descending());
    arranging_sorts(z, descending());
    let a = arranged(z, descending());
    lemma_inserted_take(a, x);
    assert forall|i: int, j: int| 0 <= i < j < 4 implies descending()(
        #[trigger] a.take(4)[i],
        #[trigger] a.take(4)[j],
    ) by {
        assert(descending()(a[i], a[j]));
    }
}

proof fn lemma_top_4_start()
    ensures
        top_4(Seq::empty()) == seq![0int, 0, 0, 0],
{
    let z = seq![0int, 0, 0, 0];
    assert(z + Seq::<int>::empty() =~= z);
    assert(in_order(z, descending()));
    crate::order::arranging_keeps_a_sorted_sequence(z, descending());
    assert(z.take(4) =~= z);
}

/// The four greatest values so far.
struct TopFour {
    a: i32,
    b: i32,
    c: i32,
    d: i32,
}

impl TopFour {
    spec fn list(self) -> Seq<int> {
        seq![self.a as int, self.b as int, self.c as int, self.d as int]
    }

    /// Puts one more value among them.
    fn offer(&mut self, x: i32)
        requires
            in_order(old(self).list(), descending()),
        ensures
            final(self).list() == inserted(old(self).list(), x as int, descending()).take(4),
    {
        let ghost before = self.list();
        let ghost v = x as int;
        proof {
            reveal_with_fuel(inserted, 5);
            assert(before.drop_last() =~= seq![self.a as int, self.b as int, self.c as int]);
            assert(before.drop_last().drop_last() =~= seq![self.a as int, self.b as int]);
            assert(before.drop_last().drop_last().drop_last() =~= seq![self.a as int]);
            assert(before.drop_last().drop_last().drop_last().drop_last() =~= Seq::<int>::empty());
        }
        if x > self.d {
            if x > self.c {
                self.d = self.c;
                if x > self.b {
                    self.c = self.b;
                    if x > self.a {
                        self.b = self.a;
                        self.a = x;
                    } else {
                        self.b = x;
                    }
                } else {
                    self.c = x;
                }
            } else {
                self.d = x;
            }
        }
        assert(self.list() =~= inserted(before, v, descending()).take(4));
    }
}

impl Star {
    /// Measures the star at `pos`.
    pub fn new(
        pos: Point,
        data: &PixelGrid,
        adu_e: Double,
        background_adu: u16,
        psf_size: usize,
    ) -> (r: Star)
        requires
            psf_size / 2 <= pos.x,
            psf_size / 2 <= pos.y,
            data.covers(pos.x + psf_size / 2 + 1, pos.y + psf_size / 2 + 1),
            data.level(pos.x as int, pos.y as int) >= background_adu,
        ensures
            r == star_at(pos, *data, adu_e, background_adu as int, psf_size as int),
    {
        let half: usize = psf_size / 2;
        let ghost side = 2 * half + 1;
        let ghost light = excesses(*data, pos, half as int, background_adu as int);
        let brightest_pixel: i32 = (data.brightness(pos.x, pos.y) - background_adu) as i32;
        let mut top = TopFour { a: 0, b: 0, c: 0, d: 0 };
        let mut magnitude = Double::of_u64(0);
        let mut i: usize = pos.x - half;
        let ghost mut k: int = 0;
        proof {
            lemma_top_4_start();
            assert(light.take(0) =~= Seq::empty());
            assert(numbers(light.take(0)) =~= Seq::empty());
        }
        let last_x: usize = pos.x + half;
        let last_y: usize = pos.y + half;
        while i <= last_x
            invariant
                half <= pos.x,
                half <= pos.y,
                side == 2 * half + 1,
                last_x == pos.x + half,
                last_y == pos.y + half,
                data.covers(last_x + 1, last_y + 1),
                pos.x - half <= i <= last_x + 1,
                k == (i - (pos.x - half)) * side,
                light == excesses(*data, pos, half as int, background_adu as int),
                light.len() == side * side,
                0 <= k <= light.len(),
                top.list() == top_4(light.take(k)),
                magnitude == accumulated(of_int(0), numbers(light.take(k))),
            decreases last_x + 1 - i,
        {
            let mut j: usize = pos.y - half;
            while j <= last_y
                invariant
                    half <= pos.x,
                    half <= pos.y,
                    side == 2 * half + 1,
                    last_x == pos.x + half,
                    last_y == pos.y + half,
                    data.covers(last_x + 1, last_y + 1),
                    pos.x - half <= i <= last_x,
                    pos.y - half <= j <= last_y + 1,
                    k == (i - (pos.x - half)) * side + (j - (pos.y - half)),
                    light == excesses(*data, pos, half as int, background_adu as int),
                    light.len() == side * side,
                    0 <= k <= light.len(),
                    top.list() == top_4(light.take(k)),
                    magnitude == accumulated(of_int(0), numbers(light.take(k))),
                decreases last_y + 1 - j,
            {
                let v: i32 = data.brightness(i, j) as i32 - background_adu as i32;
                proof {
                    let row = i - (pos.x - half);
                    let col = j - (pos.y - half);
                    assert(k < side * side) by (nonlinear_arith)
                        requires
                            k == row * side + col,
                            0 <= row < side,
                            0 <= col < side,
                    ;
                    assert(k / side == row && k % side == col) by {
                        vstd::arithmetic::div_mod::lemma_fundamental_div_mod_converse(
                            k,
                            side as int,
                            row,
                            col,
                        );
                    }
                    assert(light[k] == v);
                    assert(light.take(k + 1) =~= light.take(k).push(light[k]));
                    lemma_top_4_push(light.take(k), light[k]);
                    assert(numbers(light.take(k + 1)).drop_last() =~= numbers(light.take(k)));
                    assert(numbers(light.take(k + 1)).last() == of_int(light[k]));
                }
                top.offer(v);
                magnitude = magnitude.sum(Double::of_i64(v as i64));
                proof {
                    k = k + 1;
                }
                j = j + 1;
            }
            proof {
                let row = i - (pos.x - half);
                assert(row * side + side == (row + 1) * side) by (nonlinear_arith);
            }
            i = i + 1;
        }
        proof {
            assert(light.take(k) =~= light);
        }
        let top_sum: i64 = top.a as i64 + top.b as i64 + top.c as i64 + top.d as i64;
        let centre = Double::of_i64(brightest_pixel as i64);
        Star {
            pos,
            magnitude: magnitude.quotient(adu_e),
            magnitude_adu: magnitude,
            brightest_pixel_adu: centre,
            brightest_pixel_part: centre.quotient(magnitude),
            top_4_pixels_part: Double::of_i64(top_sum).quotient(magnitude),
            ill_defined: top.a > brightest_pixel,
        }
    }
}

/// The brightness above the background of `n` pixels of a column from `(x, y)`
/// on.
pub open spec fn column_light(data: PixelGrid, x: int, y: int, n: int, background_adu: int) -> int
    decreases n,
{
    if n <= 0 {
        0
    } else {
        column_light(data, x, y, n - 1, background_adu) + (data.level(x, y + n - 1)
            - background_adu)
    }
}

/// The brightness above the background of `n` columns of `side` pixels from
/// `(x, y)` on.
pub open spec fn square_light(
    data: PixelGrid,
    x: int,
    y: int,
    side: int,
    n: int,
    background_adu: int,
) -> int
    decreases n,
{
    if n <= 0 {
        0
    } else {
        square_light(data, x, y, side, n - 1, background_adu) + column_light(
            data,
            x + n - 1,
            y,
            side,
            background_adu,
        )
    }
}

spec fn added(s: Seq<int>) -> int
    decreases s.len(),
{
    if s.len() == 0 {
        0
    } else {
        added(s.drop_last()) + s.last()
    }
}

proof fn lemma_added_exactly(s: Seq<int>)
    requires
        s.len() <= 0x10_0000_0000,
        forall|i: int| 0 <= i < s.len() ==> -0x1_0000 < #[trigger] s[i] < 0x1_0000,
    ensures
        accumulated(of_int(0), numbers(s)) == of_int(added(s)),
        -0x1_0000 * s.len() <= added(s) <= 0x1_0000 * s.len(),
    decreases s.len(),
{
    if s.len() > 0 {
        let t = s.drop_last();
        assert forall|i: int| 0 <= i < t.len() implies -0x1_0000 < #[trigger] t[i] < 0x1_0000 by {
            assert(t[i] == s[i]);
        }
        lemma_added_exactly(t);
        assert(numbers(s).drop_last() =~= numbers(t));
        assert(numbers(s).last() == of_int(s.last()));
        assert(-0x1_0000 < s[s.len() - 1] < 0x1_0000);
        integers_add_exactly(added(t), s.last());
    } else {
        assert(numbers(s) =~= Seq::empty());
    }
}

proof fn lemma_added_columns(
    data: PixelGrid,
    pos: Point,
    half: int,
    background_adu: int,
    i: int,
    j: int,
)
    requires
        0 <= half,
        0 <= i <= 2 * half + 1,
        0 <= j <= 2 * half + 1,
        i == 2 * half + 1 ==> j == 0,
    ensures
        ({
            let side = 2 * half + 1;
            &&& 0 <= i * side + j <= side * side
            &&& added(excesses(data, pos, half, background_adu).take(i * side + j)) == square_light(
                data,
                pos.x - half,
                pos.y - half,
                side,
                i,
                background_adu,
            ) + column_light(data, pos.x - half + i, pos.y - half, j, background_adu)
        }),
    decreases i, j,
{
    let side = 2 * half + 1;
    let light = excesses(data, pos, half, background_adu);
    let k = i * side + j;
    assert(0 <= k <= side * side) by (nonlinear_arith)
        requires
            k == i * side + j,
            0 <= i <= side,
            0 <= j <= side,
            i == side ==> j == 0,
    ;
    if j > 0 {
        lemma_added_columns(data, pos, half, background_adu, i, j - 1);
        assert(k - 1 < side * side);
        vstd::arithmetic::div_mod::lemma_fundamental_div_mod_converse(k - 1, side, i, j - 1);
        let t = light.take(k);
        assert(t.drop_last() =~= light.take(k - 1));
        assert(t.last() == light[k - 1]);
        assert(i * side + (j - 1) == k - 1);
        assert(light[k - 1] == data.level(pos.x - half + i, pos.y - half + (j - 1))
            - background_adu);
        assert(pos.y - half + (j - 1) == pos.y - half + j - 1);
        assert(added(t) == added(light.take(k - 1)) + light[k - 1]);
    } else if i > 0 {
        lemma_added_columns(data, pos, half, background_adu, i - 1, side);
        assert((i - 1) * side + side == i * side) by (nonlinear_arith);
        assert(pos.x - half + (i - 1) == pos.x - half + i - 1);
        assert(column_light(data, pos.x - half + i, pos.y - half, 0, background_adu) == 0);
    } else {
        assert(0 * side == 0);
        assert(light.take(0) =~= Seq::empty());
        assert(added(light.take(0)) == 0);
    }
}

/// The light of a star is the sum of what its pixels exceed the background by,
/// over the square that reaches half of the size of a star to each side. Its
/// magnitude is that light in photons, its brightest pixel is the one in the
/// middle, and it is ill-defined exactly where another pixel of the square is
/// brighter than that.
pub proof fn stars_are_the_light_of_their_square(
    pos: Point,
    data: PixelGrid,
    adu_e: Double,
    background_adu: int,
    psf_size: int,
)
    requires
        0 <= psf_size <= 0xffff,
        0 <= background_adu <= 0xffff,
        background_adu <= data.level(pos.x as int, pos.y as int),
    ensures
        ({
            let s = star_at(pos, data, adu_e, background_adu, psf_size);
            let half = psf_size / 2;
            let centre = data.level(pos.x as int, pos.y as int);
            &&& s.pos == pos
            &&& s.magnitude_adu == of_int(
                square_light(
                    data,
                    pos.x - half,
                    pos.y - half,
                    2 * half + 1,
                    2 * half + 1,
                    background_adu,
                ),
            )
            &&& s.magnitude == quotient(s.magnitude_adu, adu_e)
            &&& s.brightest_pixel_adu == of_int(centre - background_adu)
            &&& s.brightest_pixel_part == quotient(s.brightest_pixel_adu, s.magnitude_adu)
            &&& s.ill_defined <==> exists|x: int, y: int|
                pos.x - half <= x <= pos.x + half && pos.y - half <= y <= pos.y + half
                    && #[trigger] data.level(x, y) > centre
        }),
{
    let half = psf_size / 2;
    let side = 2 * half + 1;
    let light = excesses(data, pos, half, background_adu);
    assert(side * side <= 0x10_0000_0000) by (nonlinear_arith)
        requires
            1 <= side <= 0x1_0000,
    ;
    lemma_added_columns(data, pos, half, background_adu, side, 0);
    assert(side * side + 0 == side * side);
    assert(light.take(side * side) =~= light);
    lemma_added_exactly(light);
    let centre = data.level(pos.x as int, pos.y as int) - background_adu;
    let z = seq![0int, 0, 0, 0] + light;
    let sorted = arranged(z, descending());
    lemma_descending();
    arranging_keeps_the_elements(z, descending());
    arranging_sorts(z, descending());
    assert(top_4(light)[0] == sorted[0]);
    if sorted[0] > centre {
        crate::order::lemma_same_members(sorted, z, sorted[0]);
        assert(sorted.contains(sorted[0]));
        let m = z.index_of(sorted[0]);
        let k = m - 4;
        assert(light[k] == sorted[0]);
        vstd::arithmetic::div_mod::lemma_fundamental_div_mod(k, side);
        vstd::arithmetic::div_mod::lemma_mod_bound(k, side);
        vstd::arithmetic::div_mod::lemma_div_pos_is_pos(k, side);
        let q = k / side;
        assert(q < side) by (nonlinear_arith)
            requires
                side * q <= k < side * side,
                side > 0,
        ;
        assert(data.level(pos.x - half + q, pos.y - half + k % side) > centre + background_adu);
    }
    if exists|x: int, y: int|
        pos.x - half <= x <= pos.x + half && pos.y - half <= y <= pos.y + half
            && #[trigger] data.level(x, y) > centre + background_adu {
        let (x, y) = choose|x: int, y: int|
            pos.x - half <= x <= pos.x + half && pos.y - half <= y <= pos.y + half
                && #[trigger] data.level(x, y) > centre + background_adu;
        let row = x - (pos.x - half);
        let col = y - (pos.y - half);
        let k = row * side + col;
        assert(0 <= k < side * side) by (nonlinear_arith)
            requires
                k == row * side + col,
                0 <= row < side,
                0 <= col < side,
        ;
        vstd::arithmetic::div_mod::lemma_fundamental_div_mod_converse(k, side, row, col);
        assert(light[k] > centre);
        assert(z[k + 4] == light[k]);
        assert(z.contains(light[k]));
        crate::order::lemma_same_members(sorted, z, light[k]);
        let m = sorted.index_of(light[k]);
        if m > 0 {
            assert(descending()(sorted[0], sorted[m]));
        }
    }
}

/// The concentration of a star is the part of its light that its four brightest
/// pixels have, where a pixel darker than the background counts as dark as that.
pub proof fn concentration_is_that_of_the_four_brightest(
    pos: Point,
    data: PixelGrid,
    adu_e: Double,
    background_adu: int,
    psf_size: int,
    sorted: Seq<int>,
)
    requires
        0 <= psf_size,
        ({
            let half = psf_size / 2;
            let side = 2 * half + 1;
            sorted.to_multiset() == (seq![0int, 0, 0, 0] + Seq::new(
                (side * side) as nat,
                |k: int|
                    data.level(pos.x - half + k / side, pos.y - half + k % side) - background_adu,
            )).to_multiset()
        }),
        forall|i: int, j: int| 0 <= i < j < sorted.len() ==> #[trigger] sorted[i] >= #[trigger] sorted[j],
    ensures
        ({
            let s = star_at(pos, data, adu_e, background_adu, psf_size);
            s.top_4_pixels_part == quotient(
                of_int(sorted[0] + sorted[1] + sorted[2] + sorted[3]),
                s.magnitude_adu,
            )
        }),
{
    let half = psf_size / 2;
    let side = 2 * half + 1;
    let light = excesses(data, pos, half, background_adu);
    assert(light =~= Seq::new(
        (side * side) as nat,
        |k: int| data.level(pos.x - half + k / side, pos.y - half + k % side) - background_adu,
    ));
    let z = seq![0int, 0, 0, 0] + light;
    lemma_descending();
    arranging_forgets_the_order(z, sorted, descending());
    arranging_keeps_a_sorted_sequence(sorted, descending());
    arranging_keeps_the_elements(z, descending());
}

} // verus!
