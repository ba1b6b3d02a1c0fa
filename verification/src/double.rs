//! IEEE 754 binary64 values held as bit patterns.
use std::ops::{Add, Div};
use vstd::arithmetic::power2::*;
use vstd::prelude::*;
use vstd::std_specs::cmp::PartialEqSpecImpl;
use vstd::std_specs::convert::FromSpecImpl;
use vstd::std_specs::ops::{AddSpecImpl, DivSpecImpl};

verus! {

/// Two to the number of fraction bits.
pub const HIDDEN: u64 = 0x10_0000_0000_0000;

/// The magnitude of infinity: larger magnitudes are NaN.
pub const INFINITE: u64 = 0x7ff0_0000_0000_0000;

/// The sign bit.
pub const SIGN: u64 = 0x8000_0000_0000_0000;

/// The value of the non-negative binary64 pattern `k`, counted in units of
/// 2^-1074 (the smallest positive value). Infinity counts as 2^1024.
pub open spec fn grid(k: int) -> int {
    let e = k / 0x10_0000_0000_0000;
    let f = k % 0x10_0000_0000_0000;
    if e == 0 {
        f
    } else {
        (0x10_0000_0000_0000 + f) * pow2((e - 1) as nat)
    }
}

/// `k` is the pattern nearest to the ratio `n / d` of units; a ratio halfway
/// between two patterns goes to the even one.
pub open spec fn nearest(k: int, n: int, d: int) -> bool {
    &&& 0 <= k <= INFINITE
    &&& k > 0 ==> (grid(k - 1) + grid(k)) * d <= 2 * n
    &&& k > 0 && (grid(k - 1) + grid(k)) * d == 2 * n ==> k % 2 == 0
    &&& k < INFINITE ==> 2 * n <= (grid(k) + grid(k + 1)) * d
    &&& k < INFINITE && 2 * n == (grid(k) + grid(k + 1)) * d ==> k % 2 == 0
}

/// The pattern that the non-negative ratio `n / d` of units rounds to.
pub open spec fn round_ratio(n: int, d: int) -> int {
    choose|k: int| nearest(k, n, d)
}

proof fn lemma_grid_scaled(b: nat, j: int)
    requires
        0 <= j <= 0x20_0000_0000_0000,
        b == 0 || 0x10_0000_0000_0000 <= j,
    ensures
        grid(b * 0x10_0000_0000_0000 + j) == j * pow2(b),
{
    lemma2_to64();
    let k: int = b * 0x10_0000_0000_0000 + j;
    if j < 0x10_0000_0000_0000 {
        assert(k / 0x10_0000_0000_0000 == 0 && k % 0x10_0000_0000_0000 == j);
        assert(j * pow2(b) == j) by (nonlinear_arith)
            requires
                pow2(b) == 1,
        ;
        assert(grid(k) == j);
    } else if j < 0x20_0000_0000_0000 {
        assert(k / 0x10_0000_0000_0000 == b + 1);
        assert(k % 0x10_0000_0000_0000 == j - 0x10_0000_0000_0000);
        assert((k / 0x10_0000_0000_0000 - 1) as nat == b);
        assert(grid(k) == (0x10_0000_0000_0000 + (j - 0x10_0000_0000_0000)) * pow2(b));
        assert(grid(k) == j * pow2(b));
    } else {
        assert(k / 0x10_0000_0000_0000 == b + 2);
        assert(k % 0x10_0000_0000_0000 == 0);
        lemma_pow2_unfold((b + 1) as nat);
        assert((k / 0x10_0000_0000_0000 - 1) as nat == b + 1);
        assert(grid(k) == 0x10_0000_0000_0000 * pow2((b + 1) as nat));
        assert(pow2((b + 1) as nat) == 2 * pow2(b));
        assert(grid(k) == j * pow2(b)) by (nonlinear_arith)
            requires
                grid(k) == 0x10_0000_0000_0000 * pow2((b + 1) as nat),
                pow2((b + 1) as nat) == 2 * pow2(b),
                j == 0x20_0000_0000_0000,
        ;
    }
}

proof fn lemma_grid_step(k: int)
    requires
        0 <= k,
    ensures
        grid(k) < grid(k + 1),
        0 <= grid(k),
{
    let e = k / 0x10_0000_0000_0000;
    let f = k % 0x10_0000_0000_0000;
    let b: nat = if e == 0 { 0 } else { (e - 1) as nat };
    let j = k - b * 0x10_0000_0000_0000;
    lemma_grid_scaled(b, j);
    lemma_grid_scaled(b, j + 1);
    lemma_pow2_pos(b);
    assert(j * pow2(b) < (j + 1) * pow2(b)) by (nonlinear_arith)
        requires
            pow2(b) > 0,
    ;
    assert(0 <= j * pow2(b)) by (nonlinear_arith)
        requires
            pow2(b) > 0,
            0 <= j,
    ;
}

proof fn lemma_grid_increasing(i: int, j: int)
    requires
        0 <= i < j,
    ensures
        grid(i) < grid(j),
    decreases j - i,
{
    lemma_grid_step(j - 1);
    if i < j - 1 {
        lemma_grid_increasing(i, j - 1);
    }
}

proof fn lemma_nearest_unique(i: int, j: int, n: int, d: int)
    requires
        d > 0,
        nearest(i, n, d),
        nearest(j, n, d),
    ensures
        i == j,
{
    if i <= j {
        lemma_nearest_ordered(i, j, n, d);
    } else {
        lemma_nearest_ordered(j, i, n, d);
    }
}

proof fn lemma_nearest_ordered(i: int, j: int, n: int, d: int)
    requires
        d > 0,
        nearest(i, n, d),
        nearest(j, n, d),
        i <= j,
    ensures
        i == j,
{
    let a = grid(i) + grid(i + 1);
    let b = grid(j - 1) + grid(j);
    if i < j - 1 {
        lemma_grid_increasing(i, j - 1);
        lemma_grid_increasing(i + 1, j);
        assert(a * d < b * d) by (nonlinear_arith)
            requires
                a < b,
                d > 0,
        ;
    }
}

/// A ratio has one nearest pattern.
proof fn lemma_round_ratio(k: int, n: int, d: int)
    requires
        d > 0,
        nearest(k, n, d),
    ensures
        round_ratio(n, d) == k,
{
    lemma_nearest_unique(k, round_ratio(n, d), n, d);
}

/// `m` units of weight 2^`e`, plus a part of one more when `sticky` is set,
/// make up the ratio `n / d`. Both sides are scaled by 2^3000, so that the
/// exponent may be negative.
spec fn holds(m: int, e: int, sticky: bool, n: int, d: int) -> bool {
    let w = pow2((e + 3000) as nat) * d;
    let t = n * pow2(3000);
    &&& m * w <= t
    &&& t < (m + 1) * w
    &&& sticky <==> m * w != t
}

proof fn lemma_below(a: int, b: int, c: int)
    requires
        c > 0,
        a * c <= b * c,
    ensures
        a <= b,
{
    assert(a <= b) by (nonlinear_arith)
        requires
            c > 0,
            a * c <= b * c,
    ;
}

proof fn lemma_strictly_below(a: int, b: int, c: int)
    requires
        c > 0,
        a * c < b * c,
    ensures
        a < b,
{
    assert(a < b) by (nonlinear_arith)
        requires
            c > 0,
            a * c < b * c,
    ;
}

/// The pattern below a ratio and the next one above it bracket the nearest one.
proof fn lemma_nearest_of_bracket(k: int, up: bool, n: int, d: int)
    requires
        d > 0,
        n >= 0,
        0 <= k,
        grid(k) * d <= n,
        n < grid(k + 1) * d,
        up ==> (grid(k) + grid(k + 1)) * d <= 2 * n,
        !up ==> 2 * n <= (grid(k) + grid(k + 1)) * d,
        (grid(k) + grid(k + 1)) * d == 2 * n ==> (up <==> k % 2 == 1),
    ensures
        nearest(
            if (if up { k + 1 } else { k }) < INFINITE {
                if up {
                    k + 1
                } else {
                    k
                }
            } else {
                INFINITE as int
            },
            n,
            d,
        ),
{
    let r = if up { k + 1 } else { k };
    assert((grid(k) + grid(k + 1)) * d == grid(k) * d + grid(k + 1) * d) by (nonlinear_arith);
    if r >= INFINITE {
        let i = INFINITE as int;
        lemma_grid_step(i - 1);
        if k >= i {
            if k > i {
                lemma_grid_increasing(i, k);
            }
            assert((grid(i - 1) + grid(i)) * d < 2 * (grid(k) * d)) by (nonlinear_arith)
                requires
                    d > 0,
                    grid(i - 1) < grid(i),
                    grid(i) <= grid(k),
            ;
        }
    } else if up {
        lemma_grid_step(k + 1);
        assert(2 * (grid(k + 1) * d) < (grid(k + 1) + grid(k + 2)) * d) by (nonlinear_arith)
            requires
                d > 0,
                grid(k + 1) < grid(k + 2),
        ;
    } else if k > 0 {
        lemma_grid_step(k - 1);
        assert((grid(k - 1) + grid(k)) * d < 2 * (grid(k) * d)) by (nonlinear_arith)
            requires
                d > 0,
                grid(k - 1) < grid(k),
        ;
    }
}

/// The powers of two up to 2^64.
fn power(s: u32) -> (r: u128)
    requires
        s <= 64,
    ensures
        r == pow2(s as nat),
{
    let mut r: u128 = 1;
    let mut i: u32 = 0;
    proof {
        lemma2_to64();
        lemma2_to64_rest();
    }
    while i < s
        invariant
            i <= s <= 64,
            r == pow2(i as nat),
            r <= 0x1_0000_0000_0000_0000,
            i < 64 ==> r <= 0x8000_0000_0000_0000,
        decreases s - i,
    {
        proof {
            lemma_pow2_unfold((i + 1) as nat);
            lemma2_to64();
            lemma2_to64_rest();
            if i + 1 < 63 {
                lemma_pow2_strictly_increases((i + 1) as nat, 63);
            }
        }
        r = 2 * r;
        i = i + 1;
    }
    r
}

/// Rounds a ratio that a 64-bit significand approximates from below.
fn round_pack(m: u64, e: i32, sticky: bool, Ghost(n): Ghost<int>, Ghost(d): Ghost<int>) -> (r: u64)
    requires
        m >= SIGN,
        -2900 <= e <= 4000,
        d > 0,
        n >= 0,
        holds(m as int, e as int, sticky, n, d),
    ensures
        r == round_ratio(n, d),
        nearest(r as int, n, d),
{
    let s: i32 = if e > -11 {
        11
    } else {
        -e
    };
    let ghost w = pow2((e + 3000) as nat) * d;
    let ghost z = pow2(3000) as int;
    proof {
        lemma_pow2_pos((e + 3000) as nat);
        lemma_pow2_pos(3000);
        assert(w > 0) by (nonlinear_arith)
            requires
                w == pow2((e + 3000) as nat) * d,
                pow2((e + 3000) as nat) > 0,
                d > 0,
        ;
    }
    // The weight of one step of the grid, in the scale of `holds`.
    let ghost b = (s + e) as nat;
    let ghost v = pow2(s as nat) as int;
    proof {
        lemma_pow2_adds(s as nat, (e + 3000) as nat);
        lemma_pow2_adds(b, 3000);
        assert(v * w == pow2(b) * d * z) by (nonlinear_arith)
            requires
                v * pow2((e + 3000) as nat) == pow2(b) * z,
                w == pow2((e + 3000) as nat) * d,
        ;
        lemma_pow2_pos(b);
        lemma_pow2_pos(s as nat);
    }
    if s > 64 {
        proof {
            // m < 2^64 <= v / 2, so the ratio is below half of the first step.
            lemma2_to64_rest();
            lemma_pow2_unfold(65);
            if s > 65 {
                lemma_pow2_strictly_increases(65, s as nat);
            }
            lemma_grid_scaled(0, 0);
            lemma_grid_scaled(0, 1);
            lemma2_to64();
            assert(2 * (n * z) < 1 * d * z) by (nonlinear_arith)
                requires
                    n * z < (m + 1) * w,
                    2 * (m + 1) <= v,
                    v * w == 1 * d * z,
                    w > 0,
            ;
            assert(2 * (n * z) == (2 * n) * z) by (nonlinear_arith);
            lemma_strictly_below(2 * n, d, z);
            assert(nearest(0, n, d));
            lemma_round_ratio(0, n, d);
        }
        return 0;
    }
    if e + 11 >= 2046 {
        proof {
            let i = INFINITE as int;
            // The significand alone reaches infinity.
            lemma_grid_scaled(2046, 0x10_0000_0000_0000);
            if b > 2046 {
                lemma_pow2_strictly_increases(2046, b);
            }
            lemma2_to64();
            assert(grid(i) * d * z <= n * z) by (nonlinear_arith)
                requires
                    grid(i) == 0x10_0000_0000_0000 * pow2(2046),
                    pow2(2046) <= pow2(b),
                    m * w <= n * z,
                    m >= 0x10_0000_0000_0000 * v,
                    v * w == pow2(b) * d * z,
                    w > 0,
                    d > 0,
                    z > 0,
            ;
            lemma_below(grid(i) * d, n, z);
            lemma_grid_step(i - 1);
            assert((grid(i - 1) + grid(i)) * d < 2 * (grid(i) * d)) by (nonlinear_arith)
                requires
                    d > 0,
                    grid(i - 1) < grid(i),
            ;
            assert(nearest(i, n, d));
            lemma_round_ratio(i, n, d);
        }
        return INFINITE;
    }
    let step: u128 = power(s as u32);
    let q: u64 = ((m as u128) / step) as u64;
    let rest: u128 = (m as u128) % step;
    proof {
        lemma2_to64();
        lemma2_to64_rest();
        vstd::arithmetic::div_mod::lemma_fundamental_div_mod(m as int, v);
        if s > 11 {
            lemma_pow2_strictly_increases(11, s as nat);
        }
        assert(q <= 0x1f_ffff_ffff_ffff) by (nonlinear_arith)
            requires
                m == v * q + rest,
                rest >= 0,
                v >= 2048,
                m <= 0xffff_ffff_ffff_ffff,
        ;
        if s == 11 {
            assert(q >= 0x10_0000_0000_0000) by (nonlinear_arith)
                requires
                    m == 2048 * q + rest,
                    rest < 2048,
                    m >= 0x8000_0000_0000_0000,
            ;
        }
    }
    let k: u64 = ((s + e) as u64) * HIDDEN + q;
    let up: bool = 2 * rest > step || (2 * rest == step && (sticky || q % 2 == 1));
    proof {
        lemma_grid_scaled(b, q as int);
        lemma_grid_scaled(b, q + 1);
        assert(b * 0x10_0000_0000_0000 + q + 1 == b * 0x10_0000_0000_0000 + (q + 1));
        let g = grid(k as int);
        let h = grid(k + 1);
        let t = n * z;
        assert(g * d * z == q * (v * w)) by (nonlinear_arith)
            requires
                g == q * pow2(b),
                v * w == pow2(b) * d * z,
        ;
        assert(h * d * z == (q + 1) * (v * w)) by (nonlinear_arith)
            requires
                h == (q + 1) * pow2(b),
                v * w == pow2(b) * d * z,
        ;
        assert(q * (v * w) == (q * v) * w) by (nonlinear_arith);
        assert((q + 1) * (v * w) == (q * v + v) * w) by (nonlinear_arith);
        assert(m == q * v + rest) by (nonlinear_arith)
            requires
                m == v * q + rest,
        ;
        assert(m * w == (q * v) * w + rest * w) by (nonlinear_arith)
            requires
                m == q * v + rest,
        ;
        assert((m + 1) * w == m * w + w) by (nonlinear_arith);
        assert((q * v + v) * w == (q * v) * w + v * w) by (nonlinear_arith);
        assert(0 <= rest * w) by (nonlinear_arith)
            requires
                rest >= 0,
                w > 0,
        ;
        assert(rest * w + w <= v * w) by (nonlinear_arith)
            requires
                rest + 1 <= v,
                w > 0,
        ;
        lemma_below(g * d, n, z);
        lemma_strictly_below(n, h * d, z);
        assert((g + h) * d * z == g * d * z + h * d * z) by (nonlinear_arith);
        assert((2 * n) * z == 2 * t) by (nonlinear_arith)
            requires
                t == n * z,
        ;
        assert((g + h) * d * z == 2 * ((q * v) * w) + v * w);
        assert(v % 2 == 0) by {
            lemma_pow2_unfold(s as nat);
        }
        if 2 * rest > v {
            assert(v * w < 2 * (rest * w)) by (nonlinear_arith)
                requires
                    v < 2 * rest,
                    w > 0,
            ;
            lemma_strictly_below((g + h) * d, 2 * n, z);
        } else if 2 * rest < v {
            assert(2 * (rest * w) + 2 * w <= v * w) by (nonlinear_arith)
                requires
                    2 * rest + 2 <= v,
                    w > 0,
            ;
            lemma_strictly_below(2 * n, (g + h) * d, z);
        } else {
            assert(v * w == 2 * (rest * w)) by (nonlinear_arith)
                requires
                    v == 2 * rest,
            ;
            if sticky {
                lemma_strictly_below((g + h) * d, 2 * n, z);
            } else {
                lemma_below((g + h) * d, 2 * n, z);
                lemma_below(2 * n, (g + h) * d, z);
            }
        }
        assert(k % 2 == q % 2);
        lemma_nearest_of_bracket(k as int, up, n, d);
    }
    let r: u64 = if up {
        k + 1
    } else {
        k
    };
    if r < INFINITE {
        proof {
            lemma_round_ratio(r as int, n, d);
        }
        r
    } else {
        proof {
            lemma_round_ratio(INFINITE as int, n, d);
        }
        INFINITE
    }
}

proof fn lemma_halve(p: int, e: int, sticky: bool, n: int, d: int)
    requires
        p >= 0,
        e + 3000 >= 0,
        d > 0,
        holds(p, e, sticky, n, d),
    ensures
        holds(p / 2, e + 1, sticky || p % 2 == 1, n, d),
{
    let w = pow2((e + 3000) as nat) * d;
    let x = pow2((e + 1 + 3000) as nat) * d;
    lemma_pow2_unfold((e + 1 + 3000) as nat);
    lemma_pow2_pos((e + 3000) as nat);
    assert(x == 2 * w && w > 0) by (nonlinear_arith)
        requires
            x == pow2((e + 1 + 3000) as nat) * d,
            w == pow2((e + 3000) as nat) * d,
            pow2((e + 1 + 3000) as nat) == 2 * pow2((e + 3000) as nat),
            pow2((e + 3000) as nat) > 0,
            d > 0,
    ;
    let h = p / 2;
    let b = p % 2;
    assert(h * x == p * w - b * w) by (nonlinear_arith)
        requires
            x == 2 * w,
            p == 2 * h + b,
    ;
    assert((h + 1) * x == p * w - b * w + 2 * w) by (nonlinear_arith)
        requires
            x == 2 * w,
            p == 2 * h + b,
    ;
    assert((p + 1) * w == p * w + w) by (nonlinear_arith);
    if b == 0 {
        assert(b * w == 0);
    } else {
        assert(b == 1);
        assert(b * w == w);
    }
}

proof fn lemma_double(p: int, e: int, n: int, d: int)
    requires
        p >= 0,
        e + 3000 >= 1,
        d > 0,
        holds(p, e, false, n, d),
    ensures
        holds(2 * p, e - 1, false, n, d),
{
    let w = pow2((e + 3000) as nat) * d;
    let x = pow2((e - 1 + 3000) as nat) * d;
    lemma_pow2_unfold((e + 3000) as nat);
    lemma_pow2_pos((e - 1 + 3000) as nat);
    assert(w == 2 * x && x > 0) by (nonlinear_arith)
        requires
            x == pow2((e - 1 + 3000) as nat) * d,
            w == pow2((e + 3000) as nat) * d,
            pow2((e + 3000) as nat) == 2 * pow2((e - 1 + 3000) as nat),
            pow2((e - 1 + 3000) as nat) > 0,
            d > 0,
    ;
    assert((2 * p) * x == p * w) by (nonlinear_arith)
        requires
            w == 2 * x,
    ;
    assert((2 * p + 1) * x == p * w + x) by (nonlinear_arith)
        requires
            w == 2 * x,
    ;
}

/// Rounds a ratio that a significand of any size approximates from below.
fn round_ratio_of(
    m: u128,
    e: i32,
    sticky: bool,
    Ghost(n): Ghost<int>,
    Ghost(d): Ghost<int>,
) -> (r: u64)
    requires
        m > 0,
        sticky ==> m >= SIGN,
        -2800 <= e <= 3900,
        d > 0,
        n >= 0,
        holds(m as int, e as int, sticky, n, d),
    ensures
        r == round_ratio(n, d),
        nearest(r as int, n, d),
{
    let mut p: u128 = m;
    let mut x: i32 = e;
    let mut t: bool = sticky;
    let ghost mut i: nat = 0;
    proof {
        lemma2_to64();
        lemma2_to64_rest();
        lemma_pow2_adds(64, 64);
    }
    while p >= 0x1_0000_0000_0000_0000
        invariant
            p > 0,
            i <= 64,
            p < pow2((128 - i) as nat),
            pow2(64) == 0x1_0000_0000_0000_0000,
            x == e + i,
            t ==> p >= SIGN,
            -2800 <= e <= 3900,
            d > 0,
            n >= 0,
            holds(p as int, x as int, t, n, d),
        decreases p,
    {
        proof {
            if i >= 64 {
                assert((128 - i) as nat == 64);
            }
            lemma_halve(p as int, x as int, t, n, d);
            lemma_pow2_unfold((128 - i) as nat);
            i = i + 1;
        }
        if p % 2 == 1 {
            t = true;
        }
        p = p / 2;
        x = x + 1;
    }
    let ghost f = x;
    proof {
        i = 0;
        lemma2_to64();
    }
    while p < 0x8000_0000_0000_0000
        invariant
            0 < p < 0x1_0000_0000_0000_0000,
            pow2(63) == 0x8000_0000_0000_0000,
            i <= 63,
            p >= pow2(i),
            x == f - i,
            t ==> p >= SIGN,
            -2800 <= f <= 3964,
            d > 0,
            n >= 0,
            holds(p as int, x as int, t, n, d),
        decreases 0x1_0000_0000_0000_0000 - p,
    {
        proof {
            lemma_double(p as int, x as int, n, d);
            if i >= 63 {
                assert(i == 63);
            }
            lemma_pow2_unfold((i + 1) as nat);
            i = i + 1;
        }
        p = 2 * p;
        x = x - 1;
    }
    round_pack(p as u64, x, t, Ghost(n), Ghost(d))
}

/// An IEEE 754 binary64 number, held as its bit pattern.
#[derive(Clone, Copy, Debug)]
pub struct Double {
    pub bits: u64,
}

impl Double {
    /// The sign bit is set.
    pub open spec fn negative(self) -> bool {
        self.bits >= SIGN
    }

    /// The pattern without its sign bit.
    pub open spec fn magnitude(self) -> int {
        if self.negative() {
            self.bits - SIGN
        } else {
            self.bits as int
        }
    }

    pub open spec fn nan(self) -> bool {
        self.magnitude() > INFINITE
    }

    pub open spec fn infinite(self) -> bool {
        self.magnitude() == INFINITE
    }

    pub open spec fn finite(self) -> bool {
        self.magnitude() < INFINITE
    }

    pub open spec fn zero(self) -> bool {
        self.magnitude() == 0
    }

    /// The value of a number that is not NaN, in units of 2^-1074. Infinity
    /// counts as 2^1024, above every finite number.
    pub open spec fn units(self) -> int {
        if self.negative() {
            -grid(self.magnitude())
        } else {
            grid(self.magnitude())
        }
    }

    /// The sign bit and the magnitude put together.
    pub open spec fn pack(negative: bool, magnitude: int) -> Double {
        Double {
            bits: if negative {
                (SIGN + magnitude) as u64
            } else {
                magnitude as u64
            },
        }
    }
}

/// The quiet NaN that an operation without a value gives.
pub open spec fn quiet_nan() -> Double {
    Double { bits: 0x7ff8_0000_0000_0000 }
}

/// The product, rounded to nearest.
pub open spec fn product(a: Double, b: Double) -> Double {
    let s = a.negative() != b.negative();
    if a.nan() || b.nan() {
        quiet_nan()
    } else if a.infinite() || b.infinite() {
        if a.zero() || b.zero() {
            quiet_nan()
        } else {
            Double::pack(s, INFINITE as int)
        }
    } else {
        Double::pack(
            s,
            round_ratio(grid(a.magnitude()) * grid(b.magnitude()), pow2(1074) as int),
        )
    }
}

/// The quotient, rounded to nearest.
pub open spec fn quotient(a: Double, b: Double) -> Double {
    let s = a.negative() != b.negative();
    if a.nan() || b.nan() {
        quiet_nan()
    } else if a.infinite() {
        if b.infinite() {
            quiet_nan()
        } else {
            Double::pack(s, INFINITE as int)
        }
    } else if b.infinite() {
        Double::pack(s, 0)
    } else if b.zero() {
        if a.zero() {
            quiet_nan()
        } else {
            Double::pack(s, INFINITE as int)
        }
    } else {
        Double::pack(
            s,
            round_ratio(grid(a.magnitude()) * pow2(1074), grid(b.magnitude())),
        )
    }
}

/// The integer `units` of 2^-1074, rounded to nearest; zero is positive.
pub open spec fn rounded_units(units: int) -> Double {
    Double::pack(units < 0, round_ratio(if units < 0 { -units } else { units }, 1))
}

/// The sum, rounded to nearest. Two opposite values sum to positive zero.
pub open spec fn sum(a: Double, b: Double) -> Double {
    if a.nan() || b.nan() {
        quiet_nan()
    } else if a.infinite() {
        if b.infinite() && a.negative() != b.negative() {
            quiet_nan()
        } else {
            a
        }
    } else if b.infinite() {
        b
    } else if a.zero() && b.zero() && a.negative() && b.negative() {
        a
    } else {
        rounded_units(a.units() + b.units())
    }
}

/// The number with its sign bit flipped.
pub open spec fn negation(a: Double) -> Double {
    Double::pack(!a.negative(), a.magnitude())
}

/// The difference, rounded to nearest.
pub open spec fn difference(a: Double, b: Double) -> Double {
    sum(a, negation(b))
}

/// The integer `i`, rounded to nearest.
pub open spec fn of_int(i: int) -> Double {
    rounded_units(i * pow2(1074))
}

/// A finite magnitude as a significand and a power of two.
fn split(k: u64) -> (r: (u64, u32))
    requires
        k < INFINITE,
    ensures
        r.0 * pow2(r.1 as nat) == grid(k as int),
        r.0 < 0x20_0000_0000_0000,
        r.1 <= 2045,
        r.1 <= k / HIDDEN,
        r.1 > 0 ==> r.0 >= HIDDEN,
        r.0 == 0 <==> k == 0,
{
    let e: u64 = k / HIDDEN;
    let f: u64 = k % HIDDEN;
    proof {
        lemma2_to64();
    }
    if e == 0 {
        assert(f * pow2(0) == f) by (nonlinear_arith)
            requires
                pow2(0) == 1,
        ;
        (f, 0)
    } else {
        (HIDDEN + f, (e - 1) as u32)
    }
}

impl Double {
    pub fn from_bits(bits: u64) -> (r: Double)
        ensures
            r.bits == bits,
    {
        Double { bits }
    }

    pub fn to_bits(self) -> (r: u64)
        ensures
            r == self.bits,
    {
        self.bits
    }

    fn assemble(negative: bool, magnitude: u64) -> (r: Double)
        requires
            magnitude < SIGN,
        ensures
            r == Double::pack(negative, magnitude as int),
    {
        if negative {
            Double { bits: SIGN + magnitude }
        } else {
            Double { bits: magnitude }
        }
    }

    pub fn is_sign_negative(self) -> (r: bool)
        ensures
            r == self.negative(),
    {
        self.bits >= SIGN
    }

    fn size(self) -> (r: u64)
        ensures
            r == self.magnitude(),
            r < SIGN,
    {
        if self.bits >= SIGN {
            self.bits - SIGN
        } else {
            self.bits
        }
    }

    pub fn is_nan(self) -> (r: bool)
        ensures
            r == self.nan(),
    {
        self.size() > INFINITE
    }

    pub fn is_finite(self) -> (r: bool)
        ensures
            r == self.finite(),
    {
        self.size() < INFINITE
    }

    pub fn product(self, other: Double) -> (r: Double)
        ensures
            r == product(self, other),
            r.nan() || r.negative() == (self.negative() != other.negative()),
    {
        let a = self.size();
        let b = other.size();
        let s: bool = self.is_sign_negative() != other.is_sign_negative();
        if a > INFINITE || b > INFINITE {
            return Double { bits: 0x7ff8_0000_0000_0000 };
        }
        if a == INFINITE || b == INFINITE {
            if a == 0 || b == 0 {
                return Double { bits: 0x7ff8_0000_0000_0000 };
            }
            return Double::assemble(s, INFINITE);
        }
        let (ma, ua) = split(a);
        let (mb, ub) = split(b);
        let ghost n = grid(a as int) * grid(b as int);
        let ghost d = pow2(1074) as int;
        proof {
            lemma_pow2_pos(1074);
            lemma_pow2_pos(3000);
        }
        if a == 0 || b == 0 {
            proof {
                lemma_grid_scaled(0, 0);
                lemma_grid_step(0);
                assert(n == 0) by (nonlinear_arith)
                    requires
                        n == grid(a as int) * grid(b as int),
                        grid(a as int) == 0 || grid(b as int) == 0,
                ;
                lemma_round_zero(d);
            }
            return Double::assemble(s, 0);
        }
        proof {
            assert(ma * mb <= 0x1f_ffff_ffff_ffff * 0x1f_ffff_ffff_ffff) by (nonlinear_arith)
                requires
                    0 <= ma <= 0x1f_ffff_ffff_ffff,
                    0 <= mb <= 0x1f_ffff_ffff_ffff,
            ;
            assert(ma * mb > 0) by (nonlinear_arith)
                requires
                    ma > 0,
                    mb > 0,
            ;
        }
        let m: u128 = (ma as u128) * (mb as u128);
        let e: i32 = (ua as i32) + (ub as i32) - 1074;
        proof {
            let w = pow2((e + 3000) as nat) * d;
            lemma_pow2_adds(ua as nat, ub as nat);
            lemma_pow2_adds((e + 3000) as nat, 1074);
            lemma_pow2_adds((ua + ub) as nat, 3000);
            lemma_pow2_pos((ua + ub + 3000) as nat);
            assert(m * w == n * pow2(3000)) by (nonlinear_arith)
                requires
                    m == ma * mb,
                    n == (ma * pow2(ua as nat)) * (mb * pow2(ub as nat)),
                    w == pow2((ua + ub) as nat) * pow2(3000),
                    pow2((ua + ub) as nat) == pow2(ua as nat) * pow2(ub as nat),
            ;
            assert(n >= 0) by (nonlinear_arith)
                requires
                    n == grid(a as int) * grid(b as int),
                    grid(a as int) >= 0,
                    grid(b as int) >= 0,
            ;
            assert((m + 1) * w == m * w + w) by (nonlinear_arith);
        }
        let k = round_ratio_of(m, e, false, Ghost(n), Ghost(d));
        Double::assemble(s, k)
    }
}

proof fn lemma_round_zero(d: int)
    requires
        d > 0,
    ensures
        round_ratio(0, d) == 0,
{
    lemma_grid_step(0);
    assert((grid(0) + grid(1)) * d > 0) by (nonlinear_arith)
        requires
            grid(0) >= 0,
            grid(1) > 0,
            d > 0,
    ;
    assert(nearest(0, 0, d));
    lemma_round_ratio(0, 0, d);
}

impl Double {
    pub fn quotient(self, other: Double) -> (r: Double)
        ensures
            r == quotient(self, other),
    {
        let a = self.size();
        let b = other.size();
        let s: bool = self.is_sign_negative() != other.is_sign_negative();
        if a > INFINITE || b > INFINITE {
            return Double { bits: 0x7ff8_0000_0000_0000 };
        }
        if a == INFINITE {
            if b == INFINITE {
                return Double { bits: 0x7ff8_0000_0000_0000 };
            }
            return Double::assemble(s, INFINITE);
        }
        if b == INFINITE {
            return Double::assemble(s, 0);
        }
        if b == 0 {
            if a == 0 {
                return Double { bits: 0x7ff8_0000_0000_0000 };
            }
            return Double::assemble(s, INFINITE);
        }
        let (ma, ua) = split(a);
        let (mb, ub) = split(b);
        let ghost n = grid(a as int) * pow2(1074);
        let ghost d = grid(b as int);
        proof {
            lemma_pow2_pos(1074);
            lemma_pow2_pos(3000);
            lemma_pow2_pos(ub as nat);
            lemma_grid_increasing(0, b as int);
            lemma_grid_step(0);
        }
        if a == 0 {
            proof {
                lemma_grid_scaled(0, 0);
                assert(n == 0) by (nonlinear_arith)
                    requires
                        n == 0 * pow2(1074),
                ;
                lemma_round_zero(d);
            }
            return Double::assemble(s, 0);
        }
        let mut m: u64 = ma;
        let mut i: u32 = 0;
        proof {
            lemma2_to64();
            lemma2_to64_rest();
            assert(ma * pow2(0) == ma) by (nonlinear_arith)
                requires
                    pow2(0) == 1,
            ;
        }
        while m < HIDDEN
            invariant
                0 < m < 0x20_0000_0000_0000,
                i <= 52,
                m >= pow2(i as nat),
                pow2(52) == HIDDEN,
                m == ma * pow2(i as nat),
            decreases 0x20_0000_0000_0000 - m,
        {
            proof {
                if i == 52 {
                    assert(m >= HIDDEN);
                }
                lemma_pow2_unfold((i + 1) as nat);
                assert(2 * m == ma * pow2((i + 1) as nat)) by (nonlinear_arith)
                    requires
                        m == ma * pow2(i as nat),
                        pow2((i + 1) as nat) == 2 * pow2(i as nat),
                ;
            }
            m = 2 * m;
            i = i + 1;
        }
        // 2^75
        let shifted: u128 = (m as u128) * 0x800_0000_0000_0000_0000;
        let q: u128 = shifted / (mb as u128);
        let rest: u128 = shifted % (mb as u128);
        let e: i32 = (ua as i32) - (i as i32) + 1074 - 75 - (ub as i32);
        proof {
            vstd::arithmetic::div_mod::lemma_fundamental_div_mod(shifted as int, mb as int);
            assert(q >= 0x8000_0000_0000_0000) by (nonlinear_arith)
                requires
                    shifted == mb * q + rest,
                    rest < mb,
                    0 < mb < 0x20_0000_0000_0000,
                    shifted >= 0x10_0000_0000_0000 * 0x800_0000_0000_0000_0000,
            ;
            let w = pow2((e + 3000) as nat) * d;
            let x = pow2((e + 3000 + ub) as nat) as int;
            lemma_pow2_adds((e + 3000) as nat, ub as nat);
            assert(w == mb * x) by (nonlinear_arith)
                requires
                    w == pow2((e + 3000) as nat) * d,
                    d == mb * pow2(ub as nat),
                    x == pow2((e + 3000) as nat) * pow2(ub as nat),
            ;
            // n * 2^3000 == shifted * x
            lemma_pow2_adds(64, 11);
            lemma2_to64_rest();
            assert(pow2(75) == 0x800_0000_0000_0000_0000);
            lemma_pow2_adds(ua as nat, 1074);
            lemma_pow2_adds((ua + 1074) as nat, 3000);
            lemma_pow2_adds(75, (e + 3000 + ub) as nat);
            lemma_pow2_adds(i as nat, (75 + e + 3000 + ub) as nat);
            assert(i + (75 + e + 3000 + ub) == ua + 1074 + 3000);
            assert(n * pow2(3000) == ma * pow2((ua + 1074 + 3000) as nat)) by (nonlinear_arith)
                requires
                    n == (ma * pow2(ua as nat)) * pow2(1074),
                    pow2((ua + 1074) as nat) == pow2(ua as nat) * pow2(1074),
                    pow2((ua + 1074 + 3000) as nat) == pow2((ua + 1074) as nat) * pow2(3000),
            ;
            assert(shifted * x == ma * pow2((ua + 1074 + 3000) as nat)) by (nonlinear_arith)
                requires
                    shifted == m * pow2(75),
                    m == ma * pow2(i as nat),
                    pow2((75 + e + 3000 + ub) as nat) == pow2(75) * x,
                    pow2((ua + 1074 + 3000) as nat) == pow2(i as nat) * pow2(
                        (75 + e + 3000 + ub) as nat,
                    ),
            ;
            lemma_pow2_pos((e + 3000 + ub) as nat);
            assert(shifted * x == q * w + rest * x) by (nonlinear_arith)
                requires
                    shifted == mb * q + rest,
                    w == mb * x,
            ;
            assert((q + 1) * w == q * w + mb * x) by (nonlinear_arith)
                requires
                    w == mb * x,
            ;
            assert(0 <= rest * x < mb * x) by (nonlinear_arith)
                requires
                    0 <= rest < mb,
                    x > 0,
            ;
            assert(rest * x == 0 <==> rest == 0) by (nonlinear_arith)
                requires
                    x > 0,
            ;
            assert(n >= 0) by (nonlinear_arith)
                requires
                    n == grid(a as int) * pow2(1074),
                    grid(a as int) >= 0,
                    pow2(1074) > 0,
            ;
        }
        let k = round_ratio_of(q, e, rest != 0, Ghost(n), Ghost(d));
        Double::assemble(s, k)
    }
}

/// The magnitude of a finite number in steps of 2^(`ux` - 64), rounded down,
/// and whether something was left over.
fn align(my: u64, uy: u32, ux: u32) -> (r: (u128, bool))
    requires
        my < 0x20_0000_0000_0000,
        uy <= ux <= 2045,
    ensures
        r.0 <= my * 0x1_0000_0000_0000_0000,
        holds(r.0 as int, ux - 64, r.1, my * pow2(uy as nat), 1),
        r.1 ==> ux - uy > 64 && r.0 <= my,
{
    let dist: u32 = ux - uy;
    let ghost w = pow2((ux - 64 + 3000) as nat) * 1;
    let ghost t = (my * pow2(uy as nat)) * pow2(3000);
    proof {
        lemma2_to64();
        lemma2_to64_rest();
        lemma_pow2_adds(uy as nat, 3000);
        lemma_pow2_pos((uy + 3000) as nat);
        lemma_pow2_pos((ux - 64 + 3000) as nat);
        assert(t == my * pow2((uy + 3000) as nat)) by (nonlinear_arith)
            requires
                t == (my * pow2(uy as nat)) * pow2(3000),
                pow2((uy + 3000) as nat) == pow2(uy as nat) * pow2(3000),
        ;
    }
    if dist <= 64 {
        let p: u128 = power(64 - dist);
        proof {
            if dist > 0 {
                lemma_pow2_strictly_increases((64 - dist) as nat, 64);
            }
            assert(my * p <= my * 0x1_0000_0000_0000_0000) by (nonlinear_arith)
                requires
                    p <= 0x1_0000_0000_0000_0000,
                    my >= 0,
            ;
            lemma_pow2_adds((64 - dist) as nat, (ux - 64 + 3000) as nat);
            assert((my * p) * w == t) by (nonlinear_arith)
                requires
                    t == my * pow2((uy + 3000) as nat),
                    pow2((uy + 3000) as nat) == p * w,
            ;
            assert((my * p + 1) * w == t + w) by (nonlinear_arith)
                requires
                    (my * p) * w == t,
            ;
        }
        ((my as u128) * p, false)
    } else if dist - 64 > 64 {
        proof {
            lemma_pow2_adds((dist - 64) as nat, (uy + 3000) as nat);
            lemma_pow2_strictly_increases(64, (dist - 64) as nat);
            assert(t < w) by (nonlinear_arith)
                requires
                    t == my * pow2((uy + 3000) as nat),
                    w == pow2((dist - 64) as nat) * pow2((uy + 3000) as nat),
                    my < pow2((dist - 64) as nat),
                    pow2((uy + 3000) as nat) > 0,
            ;
            assert(t == 0 <==> my == 0) by (nonlinear_arith)
                requires
                    t == my * pow2((uy + 3000) as nat),
                    pow2((uy + 3000) as nat) > 0,
            ;
            assert(0 <= t) by (nonlinear_arith)
                requires
                    t == my * pow2((uy + 3000) as nat),
                    pow2((uy + 3000) as nat) > 0,
                    my >= 0,
            ;
            assert(0 * w == 0 && (0 + 1) * w == w) by (nonlinear_arith);
        }
        (0, my != 0)
    } else {
        let p: u128 = power(dist - 64);
        let q: u128 = (my as u128) / p;
        let rest: u128 = (my as u128) % p;
        proof {
            lemma_pow2_pos((dist - 64) as nat);
            vstd::arithmetic::div_mod::lemma_fundamental_div_mod(my as int, p as int);
            vstd::arithmetic::div_mod::lemma_div_is_ordered_by_denominator(my as int, 1, p as int);
            lemma_pow2_adds((dist - 64) as nat, (uy + 3000) as nat);
            let x = pow2((uy + 3000) as nat) as int;
            assert(t == q * w + rest * x) by (nonlinear_arith)
                requires
                    t == my * x,
                    w == p * x,
                    my == p * q + rest,
            ;
            assert((q + 1) * w == q * w + p * x) by (nonlinear_arith)
                requires
                    w == p * x,
            ;
            assert(0 <= rest * x < p * x) by (nonlinear_arith)
                requires
                    0 <= rest < p,
                    x > 0,
            ;
            assert(rest * x == 0 <==> rest == 0) by (nonlinear_arith)
                requires
                    x > 0,
            ;
        }
        (q, rest != 0)
    }
}

/// The sum or the difference of two finite magnitudes, the larger one first.
fn combine(x: u64, y: u64, subtract: bool) -> (r: u64)
    requires
        y <= x < INFINITE,
    ensures
        !subtract ==> r == round_ratio(grid(x as int) + grid(y as int), 1),
        subtract ==> r == round_ratio(grid(x as int) - grid(y as int), 1),
        r <= INFINITE,
{
    let (mx, ux) = split(x);
    let (my, uy) = split(y);
    proof {
        assert(uy <= ux) by {
            if uy > ux {
                lemma_split_ordered(x as int, y as int, mx as int, ux as nat, my as int, uy as nat);
            }
        }
    }
    let (b, sticky) = align(my, uy, ux);
    let a: u128 = (mx as u128) * 0x1_0000_0000_0000_0000;
    let e: i32 = (ux as i32) - 64;
    let ghost gx = grid(x as int);
    let ghost gy = grid(y as int);
    let ghost w = pow2((e + 3000) as nat) * 1;
    let ghost z = pow2(3000) as int;
    proof {
        lemma2_to64_rest();
        lemma_pow2_pos(3000);
        lemma_pow2_pos((e + 3000) as nat);
        lemma_pow2_adds(ux as nat, 3000);
        lemma_pow2_adds(64, (e + 3000) as nat);
        assert(a * w == gx * z) by (nonlinear_arith)
            requires
                a == mx * pow2(64),
                pow2((ux + 3000) as nat) == pow2(64) * w,
                pow2((ux + 3000) as nat) == pow2(ux as nat) * z,
                gx == mx * pow2(ux as nat),
        ;
        assert(gy * z == (my * pow2(uy as nat)) * pow2(3000));
        lemma_grid_step(x as int);
        lemma_grid_step(y as int);
        if y < x {
            lemma_grid_increasing(y as int, x as int);
        }
        assert((b + 1) * w == b * w + w) by (nonlinear_arith);
        assert((gx + gy) * z == gx * z + gy * z) by (nonlinear_arith);
        assert((gx - gy) * z == gx * z - gy * z) by (nonlinear_arith);
        assert((a + b) * w == a * w + b * w) by (nonlinear_arith);
        assert((a + b + 1) * w == a * w + b * w + w) by (nonlinear_arith);
    }
    if !subtract {
        let m: u128 = a + b;
        if m == 0 {
            proof {
                assert(mx == 0);
                assert(my == 0) by {
                    if ux > 0 {
                        assert(false);
                    }
                }
                lemma_grid_scaled(0, 0);
                lemma_round_zero(1);
            }
            return 0;
        }
        round_ratio_of(m, e, sticky, Ghost(gx + gy), Ghost(1))
    } else {
        proof {
            // b * w <= gy * z <= gx * z == a * w
            assert(gy * z <= gx * z) by (nonlinear_arith)
                requires
                    gy <= gx,
                    z > 0,
            ;
            lemma_below(b as int, a as int, w as int);
            assert((a - b) * w == a * w - b * w) by (nonlinear_arith);
            assert((a - b + 1) * w == a * w - b * w + w) by (nonlinear_arith);
            assert((a - b - 1) * w == a * w - b * w - w) by (nonlinear_arith);
            assert((a - b - 1 + 1) * w == a * w - b * w) by (nonlinear_arith);
        }
        if !sticky {
            let m: u128 = a - b;
            if m == 0 {
                proof {
                    assert(gx - gy == 0) by {
                        lemma_below(gx, gy, z);
                    }
                    lemma_round_zero(1);
                }
                return 0;
            }
            round_ratio_of(m, e, false, Ghost(gx - gy), Ghost(1))
        } else {
            round_ratio_of(a - b - 1, e, true, Ghost(gx - gy), Ghost(1))
        }
    }
}

proof fn lemma_split_ordered(x: int, y: int, mx: int, ux: nat, my: int, uy: nat)
    requires
        0 <= y <= x,
        grid(x) == mx * pow2(ux),
        grid(y) == my * pow2(uy),
        mx < 0x20_0000_0000_0000,
        uy > 0 ==> my >= 0x10_0000_0000_0000,
    ensures
        uy <= ux,
{
    if y < x {
        lemma_grid_increasing(y, x);
    }
    if uy > ux {
        lemma_pow2_unfold((ux + 1) as nat);
        if uy > ux + 1 {
            lemma_pow2_strictly_increases((ux + 1) as nat, uy);
        }
        lemma_pow2_pos(ux);
        assert(mx * pow2(ux) < my * pow2(uy)) by (nonlinear_arith)
            requires
                mx < 0x20_0000_0000_0000,
                my >= 0x10_0000_0000_0000,
                pow2(uy) >= 2 * pow2(ux),
                pow2(ux) > 0,
        ;
    }
}

impl Double {
    pub fn sum(self, other: Double) -> (r: Double)
        ensures
            r == sum(self, other),
    {
        let a = self.size();
        let b = other.size();
        let na = self.is_sign_negative();
        let nb = other.is_sign_negative();
        if a > INFINITE || b > INFINITE {
            return Double { bits: 0x7ff8_0000_0000_0000 };
        }
        if a == INFINITE {
            if b == INFINITE && na != nb {
                return Double { bits: 0x7ff8_0000_0000_0000 };
            }
            return self;
        }
        if b == INFINITE {
            return other;
        }
        proof {
            lemma_grid_scaled(0, 0);
            lemma_grid_step(a as int);
            lemma_grid_step(b as int);
            if a < b {
                lemma_grid_increasing(a as int, b as int);
            }
            if b < a {
                lemma_grid_increasing(b as int, a as int);
            }
        }
        if a == 0 && b == 0 {
            proof {
                lemma_round_zero(1);
            }
            if na && nb {
                return self;
            }
            return Double { bits: 0 };
        }
        if na == nb {
            let k = if a >= b {
                combine(a, b, false)
            } else {
                combine(b, a, false)
            };
            proof {
                if na {
                    if a > 0 {
                        lemma_grid_increasing(0, a as int);
                    }
                    if b > 0 {
                        lemma_grid_increasing(0, b as int);
                    }
                    assert(self.units() + other.units() < 0);
                    assert(-(self.units() + other.units()) == grid(a as int) + grid(b as int));
                } else {
                    assert(self.units() + other.units() == grid(a as int) + grid(b as int));
                }
            }
            Double::assemble(na, k)
        } else if a > b {
            let k = combine(a, b, true);
            Double::assemble(na, k)
        } else if b > a {
            let k = combine(b, a, true);
            Double::assemble(nb, k)
        } else {
            proof {
                lemma_round_zero(1);
            }
            Double { bits: 0 }
        }
    }

    pub fn negation(self) -> (r: Double)
        ensures
            r == negation(self),
    {
        Double::assemble(!self.is_sign_negative(), self.size())
    }

    pub fn difference(self, other: Double) -> (r: Double)
        ensures
            r == difference(self, other),
    {
        self.sum(other.negation())
    }
}

/// `a <= b`; false when either is NaN.
pub open spec fn at_most(a: Double, b: Double) -> bool {
    !a.nan() && !b.nan() && a.units() <= b.units()
}

/// `a < b`; false when either is NaN.
pub open spec fn below(a: Double, b: Double) -> bool {
    !a.nan() && !b.nan() && a.units() < b.units()
}

/// The place of a number in the total order: negative NaN first, then the
/// numbers by value with -0 before +0, positive NaN last.
pub open spec fn place(a: Double) -> int {
    if a.negative() {
        -1 - a.magnitude()
    } else {
        a.magnitude()
    }
}

/// The larger of two numbers; NaN gives way to the other one.
pub open spec fn larger(a: Double, b: Double) -> Double {
    if a.nan() {
        b
    } else if b.nan() || at_most(b, a) {
        a
    } else {
        b
    }
}

/// The smaller of two numbers; NaN gives way to the other one.
pub open spec fn smaller(a: Double, b: Double) -> Double {
    if a.nan() {
        b
    } else if b.nan() || at_most(a, b) {
        a
    } else {
        b
    }
}

/// `a` moved into the range from `low` to `high`; NaN stays.
pub open spec fn clamped(a: Double, low: Double, high: Double) -> Double {
    if below(a, low) {
        low
    } else if below(high, a) {
        high
    } else {
        a
    }
}

/// The magnitude of a number without its sign.
pub open spec fn absolute_value(a: Double) -> Double {
    Double::pack(false, a.magnitude())
}

/// The signs agree with the patterns: the order of the values is the order of
/// the signed magnitudes.
proof fn lemma_units_order(a: Double, b: Double)
    ensures
        a.units() <= b.units() <==> (if a.negative() {
            -a.magnitude()
        } else {
            a.magnitude()
        }) <= (if b.negative() {
            -b.magnitude()
        } else {
            b.magnitude()
        }),
{
    let x = a.magnitude();
    let y = b.magnitude();
    lemma_grid_scaled(0, 0);
    if x > 0 {
        lemma_grid_increasing(0, x);
    }
    if y > 0 {
        lemma_grid_increasing(0, y);
    }
    if x < y {
        lemma_grid_increasing(x, y);
    }
    if y < x {
        lemma_grid_increasing(y, x);
    }
}

/// The total order agrees with the order of the values: a number below another
/// one comes before it.
pub proof fn total_order_extends_value_order(a: Double, b: Double)
    requires
        below(a, b),
    ensures
        place(a) < place(b),
{
    lemma_units_order(a, b);
    lemma_units_order(b, a);
}

/// Two numbers at the same place of the total order are the same pattern.
pub proof fn total_order_separates_patterns(a: Double, b: Double)
    requires
        place(a) == place(b),
    ensures
        a == b,
{
}

impl Double {
    fn signed(self) -> (r: i64)
        ensures
            r == (if self.negative() {
                -self.magnitude()
            } else {
                self.magnitude()
            }),
    {
        let m: i64 = self.size() as i64;
        if self.is_sign_negative() {
            -m
        } else {
            m
        }
    }

    /// `self <= other`.
    pub fn at_most(self, other: Double) -> (r: bool)
        ensures
            r == at_most(self, other),
    {
        proof {
            lemma_units_order(self, other);
        }
        !self.is_nan() && !other.is_nan() && self.signed() <= other.signed()
    }

    /// `self < other`.
    pub fn below(self, other: Double) -> (r: bool)
        ensures
            r == below(self, other),
    {
        proof {
            lemma_units_order(other, self);
        }
        !self.is_nan() && !other.is_nan() && self.signed() < other.signed()
    }

    /// Whether `self` comes before `other` in the total order or equals it.
    pub fn total_at_most(self, other: Double) -> (r: bool)
        ensures
            r == (place(self) <= place(other)),
    {
        let a: i64 = if self.is_sign_negative() {
            -1 - (self.size() as i64)
        } else {
            self.size() as i64
        };
        let b: i64 = if other.is_sign_negative() {
            -1 - (other.size() as i64)
        } else {
            other.size() as i64
        };
        a <= b
    }

    pub fn larger(self, other: Double) -> (r: Double)
        ensures
            r == larger(self, other),
    {
        if self.is_nan() {
            other
        } else if other.is_nan() || other.at_most(self) {
            self
        } else {
            other
        }
    }

    pub fn smaller(self, other: Double) -> (r: Double)
        ensures
            r == smaller(self, other),
    {
        if self.is_nan() {
            other
        } else if other.is_nan() || self.at_most(other) {
            self
        } else {
            other
        }
    }

    pub fn clamped(self, low: Double, high: Double) -> (r: Double)
        ensures
            r == clamped(self, low, high),
    {
        if self.below(low) {
            low
        } else if high.below(self) {
            high
        } else {
            self
        }
    }

    pub fn absolute_value(self) -> (r: Double)
        ensures
            r == absolute_value(self),
    {
        Double { bits: self.size() }
    }

    pub fn of_u64(i: u64) -> (r: Double)
        ensures
            r == of_int(i as int),
    {
        let ghost n = i * pow2(1074);
        proof {
            lemma_pow2_pos(1074);
            lemma_pow2_pos(3000);
            lemma_pow2_adds(1074, 3000);
            assert(n >= 0) by (nonlinear_arith)
                requires
                    n == i * pow2(1074),
                    pow2(1074) > 0,
                    i >= 0,
            ;
        }
        if i == 0 {
            proof {
                assert(n == 0) by (nonlinear_arith)
                    requires
                        n == 0 * pow2(1074),
                ;
                lemma_round_zero(1);
            }
            return Double { bits: 0 };
        }
        proof {
            let w = pow2((1074 + 3000) as nat) * 1;
            lemma_pow2_pos((1074 + 3000) as nat);
            assert(i * w == n * pow2(3000)) by (nonlinear_arith)
                requires
                    n == i * pow2(1074),
                    w == pow2(1074) * pow2(3000),
            ;
            assert((i + 1) * w == i * w + w) by (nonlinear_arith);
        }
        let k = round_ratio_of(i as u128, 1074, false, Ghost(n), Ghost(1));
        Double::assemble(false, k)
    }

    pub fn of_i64(i: i64) -> (r: Double)
        ensures
            r == of_int(i as int),
    {
        if i >= 0 {
            return Double::of_u64(i as u64);
        }
        let a: u64 = if i == i64::MIN {
            0x8000_0000_0000_0000
        } else {
            (-i) as u64
        };
        let p = Double::of_u64(a);
        proof {
            lemma_pow2_pos(1074);
            assert(i * pow2(1074) < 0) by (nonlinear_arith)
                requires
                    i < 0,
                    pow2(1074) > 0,
            ;
            assert(-(i * pow2(1074)) == a * pow2(1074)) by (nonlinear_arith)
                requires
                    a == -i,
            ;
            assert(a * pow2(1074) > 0);
            lemma_round_bound(a * pow2(1074), a as int);
        }
        p.negation()
    }

    pub fn of_usize(i: usize) -> (r: Double)
        ensures
            r == of_int(i as int),
    {
        Double::of_u64(i as u64)
    }
}

/// An integer below 2^64 rounds to a finite magnitude.
proof fn lemma_round_bound(n: int, i: int)
    requires
        0 <= i <= 0xffff_ffff_ffff_ffff,
        n == i * pow2(1074),
    ensures
        0 <= round_ratio(n, 1) < INFINITE,
{
    let k = 1138 * 0x10_0000_0000_0000int;
    lemma_pow2_pos(1074);
    lemma_pow2_pos(3000);
    assert(0 <= n) by (nonlinear_arith)
        requires
            n == i * pow2(1074),
            i >= 0,
            pow2(1074) > 0,
    ;
    // grid(k + 2^52) is 2^64 in units, so the nearest pattern lies no higher.
    let top = k + 0x10_0000_0000_0000int;
    lemma_grid_scaled(1138, 0x10_0000_0000_0000);
    lemma_pow2_adds(1074, 64);
    lemma2_to64_rest();
    assert(n < grid(top)) by (nonlinear_arith)
        requires
            n == i * pow2(1074),
            i < 0x1_0000_0000_0000_0000,
            grid(top) == 0x10_0000_0000_0000 * (pow2(1074) * 0x1_0000_0000_0000_0000),
            pow2(1074) > 0,
    ;
    lemma_nearest_exists(n, top);
    let r = round_ratio(n, 1);
    if r > top {
        lemma_grid_step(top);
        if r - 1 > top {
            lemma_grid_increasing(top, r - 1);
        }
        lemma_grid_increasing(top, r);
    }
}

/// Some pattern is nearest to a whole number of units.
proof fn lemma_nearest_exists(n: int, top: int)
    requires
        0 <= n < grid(top),
        0 <= top <= INFINITE,
    ensures
        nearest(round_ratio(n, 1), n, 1),
    decreases top,
{
    lemma_grid_scaled(0, 0);
    if top == 0 {
        assert(false);
    } else if n < grid(top - 1) {
        lemma_nearest_exists(n, top - 1);
    } else {
        let k = top - 1;
        let up = 2 * n > grid(k) + grid(k + 1) || (2 * n == grid(k) + grid(k + 1) && k % 2 == 1);
        lemma_nearest_of_bracket(k, up, n, 1);
        let r = if up { k + 1 } else { k };
        assert(nearest(r, n, 1));
    }
}

/// The whole part of a number, towards zero; zero for NaN.
pub open spec fn whole(a: Double) -> int {
    let m = grid(a.magnitude()) / pow2(1074) as int;
    if a.nan() {
        0
    } else if a.negative() {
        -m
    } else {
        m
    }
}

/// The nearest integer, halves away from zero; zero for NaN.
pub open spec fn nearest_int(a: Double) -> int {
    let m = (2 * grid(a.magnitude()) + pow2(1074)) / (2 * pow2(1074)) as int;
    if a.nan() {
        0
    } else if a.negative() {
        -m
    } else {
        m
    }
}

/// The least integer that is not below the number; zero for NaN.
pub open spec fn ceiling(a: Double) -> int {
    if a.nan() {
        0
    } else if a.negative() {
        whole(a)
    } else {
        (grid(a.magnitude()) + pow2(1074) - 1) / pow2(1074) as int
    }
}

/// `i` moved into the range from `low` to `high`.
pub open spec fn saturated(i: int, low: int, high: int) -> int {
    if i < low {
        low
    } else if i > high {
        high
    } else {
        i
    }
}

/// The whole part of a magnitude, whether it is all of it, and whether the
/// rest makes up at least one half. From 2^64 on only the size is given.
fn parts(k: u64) -> (r: (u128, bool, bool))
    requires
        k <= INFINITE,
    ensures
        ({
            let g = grid(k as int);
            let p = pow2(1074) as int;
            &&& r.0 <= 0x1_0000_0000_0000_0000
            &&& r.0 < 0x1_0000_0000_0000_0000 ==> {
                &&& r.0 == g / p
                &&& r.1 <==> g % p == 0
                &&& r.2 <==> 2 * (g % p) >= p
            }
            &&& r.0 == 0x1_0000_0000_0000_0000 ==> g / p >= r.0
        }),
{
    let ghost g = grid(k as int);
    let ghost p = pow2(1074) as int;
    proof {
        lemma_pow2_pos(1074);
        lemma2_to64();
        lemma2_to64_rest();
    }
    if k >= 1138 * HIDDEN {
        proof {
            lemma_grid_scaled(1137, 0x10_0000_0000_0000);
            lemma_pow2_adds(1074, 63);
            let t = 1138 * 0x10_0000_0000_0000int;
            if k > t {
                lemma_grid_increasing(t, k as int);
            }
            assert(g >= 0x1_0000_0000_0000_0000 * p) by (nonlinear_arith)
                requires
                    g >= 0x10_0000_0000_0000 * (p * 0x8000_0000_0000_0000),
                    p > 0,
            ;
            vstd::arithmetic::div_mod::lemma_div_is_ordered(0x1_0000_0000_0000_0000 * p, g, p);
            vstd::arithmetic::div_mod::lemma_div_by_multiple(0x1_0000_0000_0000_0000, p);
        }
        return (0x1_0000_0000_0000_0000, true, false);
    }
    let (m, u) = split(k);
    proof {
        assert(u <= 1137);
    }
    if u >= 1074 {
        let f: u128 = power(u - 1074);
        proof {
            lemma_pow2_adds((u - 1074) as nat, 1074);
            if u < 1138 {
                lemma_pow2_strictly_increases((u - 1074) as nat, 64);
            }
            assert(m * f <= 0x1f_ffff_ffff_ffff * 0x1_0000_0000_0000_0000) by (nonlinear_arith)
                requires
                    0 <= m <= 0x1f_ffff_ffff_ffff,
                    0 <= f <= 0x1_0000_0000_0000_0000,
            ;
            assert(g == (m * f) * p) by (nonlinear_arith)
                requires
                    g == m * pow2(u as nat),
                    pow2(u as nat) == f * p,
            ;
            vstd::arithmetic::div_mod::lemma_div_by_multiple(m * f, p);
            vstd::arithmetic::div_mod::lemma_mod_multiples_basic(m * f, p);
        }
        let q: u128 = (m as u128) * f;
        if q >= 0x1_0000_0000_0000_0000 {
            (0x1_0000_0000_0000_0000, true, false)
        } else {
            (q, true, false)
        }
    } else {
        let c: u32 = 1074 - u;
        let ghost x = pow2(u as nat) as int;
        proof {
            lemma_pow2_adds(c as nat, u as nat);
            lemma_pow2_pos(u as nat);
            lemma_pow2_pos(c as nat);
        }
        if c > 64 {
            proof {
                lemma_pow2_strictly_increases(64, c as nat);
                assert(0 <= 2 * g < p) by (nonlinear_arith)
                    requires
                        g == m * x,
                        p == pow2(c as nat) * x,
                        0 <= 2 * m < pow2(c as nat),
                        x > 0,
                ;
                vstd::arithmetic::div_mod::lemma_basic_div(g, p);
                vstd::arithmetic::div_mod::lemma_small_mod(g as nat, p as nat);
                assert(g == 0 <==> m == 0) by (nonlinear_arith)
                    requires
                        g == m * x,
                        x > 0,
                ;
            }
            return (0, m == 0, false);
        }
        let f: u128 = power(c);
        let q: u128 = (m as u128) / f;
        let rest: u128 = (m as u128) % f;
        proof {
            vstd::arithmetic::div_mod::lemma_fundamental_div_mod(m as int, f as int);
            vstd::arithmetic::div_mod::lemma_div_is_ordered_by_denominator(m as int, 1, f as int);
            assert(g == q * p + rest * x) by (nonlinear_arith)
                requires
                    g == m * x,
                    p == f * x,
                    m == f * q + rest,
            ;
            assert(0 <= rest * x < p) by (nonlinear_arith)
                requires
                    0 <= rest < f,
                    p == f * x,
                    x > 0,
            ;
            vstd::arithmetic::div_mod::lemma_fundamental_div_mod_converse(
                g,
                p,
                q as int,
                rest * x,
            );
            assert(rest * x == 0 <==> rest == 0) by (nonlinear_arith)
                requires
                    x > 0,
            ;
            assert(2 * (rest * x) >= p <==> 2 * rest >= f) by (nonlinear_arith)
                requires
                    p == f * x,
                    x > 0,
            ;
        }
        (q, rest == 0, 2 * rest >= f)
    }
}

impl Double {
    /// The whole part, moved into the range of `u16`.
    pub fn to_u16(self) -> (r: u16)
        ensures
            r == saturated(whole(self), 0, 0xffff),
    {
        if self.is_nan() {
            return 0;
        }
        let (q, _, _) = parts(self.size());
        proof {
            lemma_whole_nonnegative(self);
        }
        if self.is_sign_negative() {
            0
        } else if q > 0xffff {
            0xffff
        } else {
            q as u16
        }
    }

    /// The whole part, moved into the range of `i32`.
    pub fn to_i32(self) -> (r: i32)
        ensures
            r == saturated(whole(self), -0x8000_0000, 0x7fff_ffff),
    {
        if self.is_nan() {
            return 0;
        }
        let (q, _, _) = parts(self.size());
        if self.is_sign_negative() {
            if q > 0x8000_0000 {
                i32::MIN
            } else {
                (-(q as i64)) as i32
            }
        } else if q > 0x7fff_ffff {
            i32::MAX
        } else {
            q as i32
        }
    }

    /// The least integer that is not below, moved into the range of `i32`.
    pub fn ceil_to_i32(self) -> (r: i32)
        ensures
            r == saturated(ceiling(self), -0x8000_0000, 0x7fff_ffff),
    {
        if self.is_nan() {
            return 0;
        }
        if self.is_sign_negative() {
            return self.to_i32();
        }
        let (q, exact, _) = parts(self.size());
        proof {
            let g = grid(self.magnitude());
            let p = pow2(1074) as int;
            lemma_pow2_pos(1074);
            lemma_grid_step(self.magnitude());
            vstd::arithmetic::div_mod::lemma_fundamental_div_mod(g, p);
            vstd::arithmetic::div_mod::lemma_mod_bound(g, p);
            let v = g / p;
            let rest = g % p;
            if rest == 0 {
                assert(g + p - 1 == v * p + (p - 1)) by (nonlinear_arith)
                    requires
                        g == p * v + rest,
                        rest == 0,
                ;
                vstd::arithmetic::div_mod::lemma_fundamental_div_mod_converse(
                    g + p - 1,
                    p,
                    v,
                    p - 1,
                );
            } else {
                assert(g + p - 1 == (v + 1) * p + (rest - 1)) by (nonlinear_arith)
                    requires
                        g == p * v + rest,
                ;
                vstd::arithmetic::div_mod::lemma_fundamental_div_mod_converse(
                    g + p - 1,
                    p,
                    v + 1,
                    rest - 1,
                );
            }
        }
        let c: u128 = if exact {
            q
        } else {
            q + 1
        };
        if c > 0x7fff_ffff {
            i32::MAX
        } else {
            c as i32
        }
    }

    /// The nearest integer, moved into the range of `u32`.
    pub fn round_to_u32(self) -> (r: u32)
        ensures
            r == saturated(nearest_int(self), 0, 0xffff_ffff),
    {
        if self.is_nan() {
            return 0;
        }
        let (q, _, half) = parts(self.size());
        proof {
            let g = grid(self.magnitude());
            let p = pow2(1074) as int;
            lemma_pow2_pos(1074);
            lemma_grid_step(self.magnitude());
            vstd::arithmetic::div_mod::lemma_fundamental_div_mod(g, p);
            vstd::arithmetic::div_mod::lemma_mod_bound(g, p);
            let v = g / p;
            let rest = g % p;
            assert(v >= 0) by {
                vstd::arithmetic::div_mod::lemma_div_pos_is_pos(g, p);
            }
            if 2 * rest >= p {
                assert(2 * g + p == (v + 1) * (2 * p) + (2 * rest - p)) by (nonlinear_arith)
                    requires
                        g == p * v + rest,
                ;
                vstd::arithmetic::div_mod::lemma_fundamental_div_mod_converse(
                    2 * g + p,
                    2 * p,
                    v + 1,
                    2 * rest - p,
                );
            } else {
                assert(2 * g + p == v * (2 * p) + (2 * rest + p)) by (nonlinear_arith)
                    requires
                        g == p * v + rest,
                ;
                vstd::arithmetic::div_mod::lemma_fundamental_div_mod_converse(
                    2 * g + p,
                    2 * p,
                    v,
                    2 * rest + p,
                );
            }
        }
        let c: u128 = if half {
            q + 1
        } else {
            q
        };
        if self.is_sign_negative() {
            0
        } else if c > 0xffff_ffff {
            0xffff_ffff
        } else {
            c as u32
        }
    }
}

proof fn lemma_whole_nonnegative(a: Double)
    ensures
        a.negative() ==> whole(a) <= 0,
        !a.negative() ==> whole(a) >= 0,
{
    lemma_pow2_pos(1074);
    lemma_grid_step(a.magnitude());
    vstd::arithmetic::div_mod::lemma_div_pos_is_pos(grid(a.magnitude()), pow2(1074) as int);
}

/// `k` is the pattern nearest to the square root of `n` square units.
pub open spec fn nearest_root(k: int, n: int) -> bool {
    &&& 0 < k < INFINITE
    &&& (grid(k - 1) + grid(k)) * (grid(k - 1) + grid(k)) < 4 * n
    &&& 4 * n < (grid(k) + grid(k + 1)) * (grid(k) + grid(k + 1))
}

/// The pattern that the square root of `n` square units rounds to.
pub open spec fn round_root(n: int) -> int {
    choose|k: int| nearest_root(k, n)
}

/// The square root, rounded to nearest; NaN below zero.
pub open spec fn square_root(a: Double) -> Double {
    if a.nan() {
        quiet_nan()
    } else if a.zero() {
        a
    } else if a.negative() {
        quiet_nan()
    } else if a.infinite() {
        a
    } else {
        Double::pack(false, round_root(grid(a.magnitude()) * pow2(1074)))
    }
}

proof fn lemma_square_monotone(a: int, b: int)
    requires
        0 <= a <= b,
    ensures
        a * a <= b * b,
{
    assert(a * a <= b * b) by (nonlinear_arith)
        requires
            0 <= a <= b,
    ;
}

proof fn lemma_round_root(k: int, n: int)
    requires
        nearest_root(k, n),
    ensures
        round_root(n) == k,
{
    let j = round_root(n);
    assert(nearest_root(j, n));
    let (lo, hi) = if j < k { (j, k) } else { (k, j) };
    if lo < hi {
        lemma_grid_step(lo);
        lemma_grid_step(lo + 1);
        if lo < hi - 1 {
            lemma_grid_increasing(lo, hi - 1);
            lemma_grid_increasing(lo + 1, hi);
        }
        lemma_square_monotone(grid(lo) + grid(lo + 1), grid(hi - 1) + grid(hi));
    }
}

/// The whole square root of a number below 2^106.
fn whole_root(n: u128) -> (q: u64)
    requires
        n < 0x400_0000_0000_0000_0000_0000_0000,
    ensures
        q * q <= n < (q + 1) * (q + 1),
        q < 0x20_0000_0000_0000,
{
    let mut q: u64 = 0;
    let mut bit: u64 = 0x20_0000_0000_0000;
    proof {
        lemma2_to64_rest();
        assert(bit == pow2(53));
    }
    while bit > 1
        invariant
            1 <= bit <= 0x20_0000_0000_0000,
            exists|i: nat| bit == #[trigger] pow2(i),
            q + bit <= 0x20_0000_0000_0000,
            q * q <= n < (q + bit) * (q + bit),
        decreases bit,
    {
        proof {
            let i = choose|i: nat| bit == #[trigger] pow2(i);
            lemma2_to64();
            assert(i > 0);
            lemma_pow2_unfold(i);
            assert(bit / 2 == pow2((i - 1) as nat));
        }
        bit = bit / 2;
        let t: u64 = q + bit;
        assert(t * t <= 0x20_0000_0000_0000 * 0x20_0000_0000_0000) by (nonlinear_arith)
            requires
                0 <= t <= 0x20_0000_0000_0000,
        ;
        if (t as u128) * (t as u128) <= n {
            q = t;
        }
    }
    q
}

impl Double {
    pub fn square_root(self) -> (r: Double)
        ensures
            r == square_root(self),
    {
        let a = self.size();
        if a > INFINITE {
            return Double { bits: 0x7ff8_0000_0000_0000 };
        }
        if a == 0 {
            return self;
        }
        if self.is_sign_negative() {
            return Double { bits: 0x7ff8_0000_0000_0000 };
        }
        if a == INFINITE {
            return self;
        }
        let (m, u) = split(a);
        let ghost n = grid(a as int) * pow2(1074);
        // n == m * 2^(u + 1074); move m up by an even or odd number of bits.
        let mut p: u128 = m as u128;
        let mut i: u32 = 0;
        proof {
            lemma2_to64();
            lemma2_to64_rest();
            assert(m * pow2(0) == m) by (nonlinear_arith)
                requires
                    pow2(0) == 1,
            ;
            lemma_pow2_adds(52, 52);
        }
        while p < 0x100_0000_0000_0000_0000_0000_0000 || (u + 1074 - i) % 2 == 1
            invariant
                0 < p < 0x400_0000_0000_0000_0000_0000_0000,
                p >= 0x200_0000_0000_0000_0000_0000_0000 ==> (u + 1074 - i) % 2 == 0,
                i <= 105,
                u <= 2045,
                pow2(104) == 0x100_0000_0000_0000_0000_0000_0000,
                p >= pow2(i as nat),
                p == m * pow2(i as nat),
            decreases 0x400_0000_0000_0000_0000_0000_0000 - p,
        {
            proof {
                if i >= 104 {
                    if i > 104 {
                        lemma_pow2_unfold(105);
                    }
                }
                lemma_pow2_unfold((i + 1) as nat);
                assert(2 * p == m * pow2((i + 1) as nat)) by (nonlinear_arith)
                    requires
                        p == m * pow2(i as nat),
                        pow2((i + 1) as nat) == 2 * pow2(i as nat),
                ;
            }
            p = 2 * p;
            i = i + 1;
        }
        let b: u32 = (u + 1074 - i) / 2;
        let q = whole_root(p);
        proof {
            assert(q >= 0x10_0000_0000_0000) by (nonlinear_arith)
                requires
                    0x100_0000_0000_0000_0000_0000_0000 <= p < (q + 1) * (q + 1),
                    q >= 0,
            ;
            assert(q * q <= 0x1f_ffff_ffff_ffff * 0x1f_ffff_ffff_ffff) by (nonlinear_arith)
                requires
                    0 <= q <= 0x1f_ffff_ffff_ffff,
            ;
        }
        let up: bool = p > (q as u128) * (q as u128) + (q as u128);
        let k: u64 = (b as u64) * HIDDEN + q;
        proof {
            let x = pow2(b as nat) as int;
            lemma_pow2_pos(b as nat);
            lemma_pow2_adds(b as nat, b as nat);
            lemma_pow2_adds(u as nat, 1074);
            lemma_pow2_adds(i as nat, (b + b) as nat);
            assert(i + (b + b) == u + 1074);
            assert(n == p * (x * x)) by (nonlinear_arith)
                requires
                    n == (m * pow2(u as nat)) * pow2(1074),
                    pow2((u + 1074) as nat) == pow2(u as nat) * pow2(1074),
                    pow2((u + 1074) as nat) == pow2(i as nat) * (x * x),
                    p == m * pow2(i as nat),
            ;
            lemma_grid_scaled(b as nat, q as int);
            lemma_grid_scaled(b as nat, q + 1);
            assert(b * 0x10_0000_0000_0000 + (q + 1) == k + 1);
            assert(x * x > 0) by (nonlinear_arith)
                requires
                    x > 0,
            ;
            let g = grid(k as int);
            let h = grid(k + 1);
            assert((g + h) * (g + h) == (4 * (q * q) + 4 * q + 1) * (x * x)) by (nonlinear_arith)
                requires
                    g == q * x,
                    h == (q + 1) * x,
            ;
            assert(4 * n == (4 * p) * (x * x)) by (nonlinear_arith)
                requires
                    n == p * (x * x),
            ;
            if up {
                assert(4 * (q * q) + 4 * q + 1 < 4 * p);
                assert((4 * (q * q) + 4 * q + 1) * (x * x) < (4 * p) * (x * x)) by (nonlinear_arith)
                    requires
                        4 * (q * q) + 4 * q + 1 < 4 * p,
                        x * x > 0,
                ;
                lemma_grid_step(k + 1);
                let f = grid(k + 2);
                assert(4 * (h * h) < (h + f) * (h + f)) by (nonlinear_arith)
                    requires
                        0 <= h < f,
                ;
                assert(4 * (h * h) == (4 * ((q + 1) * (q + 1))) * (x * x)) by (nonlinear_arith)
                    requires
                        h == (q + 1) * x,
                ;
                assert((4 * p) * (x * x) <= (4 * ((q + 1) * (q + 1))) * (x * x))
                    by (nonlinear_arith)
                    requires
                        p <= (q + 1) * (q + 1),
                        x * x > 0,
                ;
                lemma_round_root(k + 1, n);
            } else {
                assert((4 * p) * (x * x) < (4 * (q * q) + 4 * q + 1) * (x * x)) by (nonlinear_arith)
                    requires
                        4 * p < 4 * (q * q) + 4 * q + 1,
                        x * x > 0,
                ;
                lemma_grid_step(k - 1);
                let f = grid(k - 1);
                assert((f + g) * (f + g) < 4 * (g * g)) by (nonlinear_arith)
                    requires
                        0 <= f < g,
                ;
                assert(4 * (g * g) == (4 * (q * q)) * (x * x)) by (nonlinear_arith)
                    requires
                        g == q * x,
                ;
                assert((4 * (q * q)) * (x * x) <= (4 * p) * (x * x)) by (nonlinear_arith)
                    requires
                        q * q <= p,
                        x * x > 0,
                ;
                lemma_round_root(k as int, n);
            }
        }
        Double {
            bits: if up {
                k + 1
            } else {
                k
            },
        }
    }
}

/// `==` compares values: zeros are equal whatever their sign, NaN is not equal
/// to anything.
impl PartialEq for Double {
    fn eq(&self, other: &Double) -> (r: bool) {
        proof {
            lemma_units_order(*self, *other);
            lemma_units_order(*other, *self);
        }
        !self.is_nan() && !other.is_nan() && self.signed() == other.signed()
    }
}

impl PartialEqSpecImpl for Double {
    open spec fn obeys_eq_spec() -> bool {
        true
    }

    open spec fn eq_spec(&self, other: &Double) -> bool {
        !self.nan() && !other.nan() && self.units() == other.units()
    }
}

impl Add for Double {
    type Output = Double;

    fn add(self, other: Double) -> (r: Double) {
        self.sum(other)
    }
}

impl AddSpecImpl for Double {
    open spec fn obeys_add_spec() -> bool {
        true
    }

    open spec fn add_req(self, other: Double) -> bool {
        true
    }

    open spec fn add_spec(self, other: Double) -> Double {
        sum(self, other)
    }
}

impl Div for Double {
    type Output = Double;

    fn div(self, other: Double) -> (r: Double) {
        self.quotient(other)
    }
}

impl DivSpecImpl for Double {
    open spec fn obeys_div_spec() -> bool {
        true
    }

    open spec fn div_req(self, other: Double) -> bool {
        true
    }

    open spec fn div_spec(self, other: Double) -> Double {
        quotient(self, other)
    }
}

impl From<u8> for Double {
    fn from(value: u8) -> (r: Double) {
        Double::of_u64(value as u64)
    }
}

impl FromSpecImpl<u8> for Double {
    open spec fn obeys_from_spec() -> bool {
        true
    }

    open spec fn from_spec(value: u8) -> Double {
        of_int(value as int)
    }
}

/// Negative zero, which a sum starts from.
pub open spec fn negative_zero() -> Double {
    Double { bits: SIGN }
}

/// `start` and then every number of `s`, added one after the other.
pub open spec fn accumulated(start: Double, s: Seq<Double>) -> Double
    decreases s.len(),
{
    if s.len() == 0 {
        start
    } else {
        sum(accumulated(start, s.drop_last()), s.last())
    }
}

/// The sum of all numbers.
pub open spec fn total(s: Seq<Double>) -> Double {
    accumulated(negative_zero(), s)
}

/// The sum of all numbers divided by how many there are.
pub open spec fn mean(s: Seq<Double>) -> Double {
    quotient(total(s), of_int(s.len() as int))
}

pub(crate) fn total_of(values: &Vec<Double>) -> (r: Double)
    ensures
        r == total(values@),
{
    let mut acc = Double { bits: SIGN };
    let mut i: usize = 0;
    assert(values@.take(0) == Seq::<Double>::empty());
    while i < values.len()
        invariant
            i <= values@.len(),
            acc == accumulated(negative_zero(), values@.take(i as int)),
        decreases values@.len() - i,
    {
        proof {
            let t = values@.take(i + 1);
            assert(t.drop_last() == values@.take(i as int));
            assert(t.last() == values@[i as int]);
        }
        acc = acc.sum(values[i]);
        i = i + 1;
    }
    assert(values@.take(i as int) == values@);
    acc
}

pub(crate) fn mean_of(values: &Vec<Double>) -> (r: Double)
    ensures
        r == mean(values@),
{
    total_of(values).quotient(Double::of_usize(values.len()))
}

/// The number nearest to `n / d`, as a decimal literal with few digits gives it.
pub open spec fn ratio(n: int, d: int) -> Double {
    quotient(of_int(n), of_int(d))
}

impl Double {
    pub fn ratio(n: i64, d: i64) -> (r: Double)
        ensures
            r == ratio(n as int, d as int),
    {
        Double::of_i64(n).quotient(Double::of_i64(d))
    }
}

/// An integer scaled by a power of two to 53 digits is the value of a pattern.
proof fn lemma_integer_pattern(i: int, s: nat) -> (k: int)
    requires
        0 < i,
        i * pow2(s) <= 0x20_0000_0000_0000,
        s <= 53,
    ensures
        0 < k < INFINITE,
        grid(k) == i * pow2(1074),
    decreases 53 - s,
{
    lemma2_to64();
    lemma2_to64_rest();
    let j = i * pow2(s);
    lemma_pow2_pos(s);
    assert(j >= pow2(s)) by (nonlinear_arith)
        requires
            j == i * pow2(s),
            i >= 1,
            pow2(s) > 0,
    ;
    if j >= 0x10_0000_0000_0000 {
        let b = (1074 - s) as nat;
        lemma_grid_scaled(b, j);
        lemma_pow2_adds(s, b);
        assert(j * pow2(b) == i * pow2(1074)) by (nonlinear_arith)
            requires
                j == i * pow2(s),
                pow2(s) * pow2(b) == pow2(1074),
        ;
        b * 0x10_0000_0000_0000 + j
    } else {
        lemma_pow2_adds(s, 1);
        assert(i * pow2(s + 1) == 2 * j) by (nonlinear_arith)
            requires
                j == i * pow2(s),
                pow2(s + 1) == pow2(s) * 2,
        ;
        if s == 53 {
            assert(j >= 0x10_0000_0000_0000);
        }
        lemma_integer_pattern(i, s + 1)
    }
}

/// A whole number of units that a finite pattern stands for is represented
/// exactly.
proof fn lemma_exact_units(u: int, k: int)
    requires
        0 <= k < INFINITE,
        grid(k) == (if u < 0 {
            -u
        } else {
            u
        }),
        k == 0 ==> u == 0,
    ensures
        rounded_units(u).finite(),
        rounded_units(u).units() == u,
        rounded_units(u).negative() <==> u < 0,
{
    let n = if u < 0 {
        -u
    } else {
        u
    };
    if k == 0 {
        lemma_round_zero(1);
    } else {
        lemma_grid_step(k);
        lemma_grid_step(k - 1);
        assert(nearest(k, n, 1));
        lemma_round_ratio(k, n, 1);
    }
    assert(round_ratio(n, 1) == k);
    let r = Double::pack(u < 0, k);
    assert(rounded_units(u) == r);
    assert(r.negative() <==> u < 0);
    assert(r.magnitude() == k);
}

/// Integers of up to 53 binary digits are represented exactly.
pub proof fn small_integers_are_exact(i: int)
    requires
        -0x20_0000_0000_0000 <= i <= 0x20_0000_0000_0000,
    ensures
        of_int(i).finite(),
        of_int(i).units() == i * pow2(1074),
        of_int(i).negative() <==> i < 0,
{
    let p: int = pow2(1074) as int;
    lemma_pow2_pos(1074);
    let u = i * p;
    if i == 0 {
        lemma2_to64();
        lemma_grid_scaled(0, 0);
        assert(u == 0);
        lemma_exact_units(u, 0);
    } else {
        let a = if i < 0 {
            -i
        } else {
            i
        };
        assert(pow2(0) == 1) by {
            lemma2_to64();
        }
        assert(a * pow2(0) == a);
        let k = lemma_integer_pattern(a, 0);
        assert((i < 0 ==> u < 0 && -u == a * p) && (i > 0 ==> u > 0 && u == a * p))
            by (nonlinear_arith)
            requires
                u == i * p,
                i < 0 ==> a == -i,
                i >= 0 ==> a == i,
                p > 0,
        ;
        lemma_exact_units(u, k);
    }
}

/// A part from zero to one of a size has no negative whole part.
pub(crate) proof fn lemma_part_not_negative(i: int, part: Double, p: Double)
    requires
        0 <= i <= 0xffff_ffff_ffff_ffff,
        p == product(of_int(i), clamped(part, of_int(0), of_int(1))),
        p.nan() || p.negative() == (of_int(i).negative() != clamped(
            part,
            of_int(0),
            of_int(1),
        ).negative()),
    ensures
        whole(p) >= 0,
{
    let a = of_int(i);
    let b = clamped(part, of_int(0), of_int(1));
    lemma_pow2_pos(1074);
    assert(i * pow2(1074) >= 0) by (nonlinear_arith)
        requires
            i >= 0,
            pow2(1074) > 0,
    ;
    lemma_round_bound(i * pow2(1074), i);
    small_integers_are_exact(0);
    small_integers_are_exact(1);
    lemma_whole_nonnegative(p);
    if b.negative() && !b.nan() {
        lemma_grid_step(b.magnitude());
        if b.magnitude() > 0 {
            lemma_grid_increasing(0, b.magnitude());
            lemma_grid_step(0);
        }
        assert(b.magnitude() == 0);
        lemma_grid_scaled(0, 0);
        if !a.nan() && !a.infinite() {
            assert(grid(a.magnitude()) * grid(b.magnitude()) == 0) by (nonlinear_arith)
                requires
                    grid(b.magnitude()) == 0,
            ;
            lemma_round_zero(pow2(1074) as int);
        }
    }
}

/// A ratio that is the value of a pattern rounds to that pattern.
proof fn lemma_exact_ratio(k: int, n: int, d: int)
    requires
        0 <= k < INFINITE,
        d > 0,
        n == grid(k) * d,
    ensures
        nearest(k, n, d),
        round_ratio(n, d) == k,
{
    lemma_grid_step(k);
    assert(2 * n < (grid(k) + grid(k + 1)) * d) by (nonlinear_arith)
        requires
            n == grid(k) * d,
            grid(k) < grid(k + 1),
            d > 0,
    ;
    if k > 0 {
        lemma_grid_step(k - 1);
        assert((grid(k - 1) + grid(k)) * d < 2 * n) by (nonlinear_arith)
            requires
                n == grid(k) * d,
                grid(k - 1) < grid(k),
                d > 0,
        ;
    }
    lemma_round_ratio(k, n, d);
}

/// Some pattern is nearest to a ratio.
proof fn lemma_nearest_to_ratio(n: int, d: int, top: int)
    requires
        0 <= n < grid(top) * d,
        d > 0,
        0 <= top <= INFINITE,
    ensures
        nearest(round_ratio(n, d), n, d),
    decreases top,
{
    lemma_grid_scaled(0, 0);
    if top == 0 {
        assert(false) by {
            assert(grid(0) * d == 0) by (nonlinear_arith)
                requires
                    grid(0) == 0,
            ;
        }
    } else if n < grid(top - 1) * d {
        lemma_nearest_to_ratio(n, d, top - 1);
    } else {
        let k = top - 1;
        let middle = (grid(k) + grid(k + 1)) * d;
        let up = 2 * n > middle || (2 * n == middle && k % 2 == 1);
        lemma_nearest_of_bracket(k, up, n, d);
        let r = if up { k + 1 } else { k };
        assert(nearest(r, n, d));
    }
}

/// A ratio that is not above the value of a pattern does not round above it.
proof fn lemma_ratio_at_most(k: int, n: int, d: int)
    requires
        0 <= k < INFINITE,
        d > 0,
        0 <= n <= grid(k) * d,
    ensures
        0 <= round_ratio(n, d) <= k,
{
    lemma_grid_step(k);
    assert(grid(k) * d < grid(k + 1) * d) by (nonlinear_arith)
        requires
            grid(k) < grid(k + 1),
            d > 0,
    ;
    lemma_nearest_to_ratio(n, d, k + 1);
    let r = round_ratio(n, d);
    if r > k {
        if r - 1 > k {
            lemma_grid_increasing(k, r - 1);
        }
        lemma_grid_increasing(k, r);
        let low = grid(r - 1) + grid(r);
        assert(low * d > 2 * n) by (nonlinear_arith)
            requires
                low > 2 * grid(k),
                n <= grid(k) * d,
                d > 0,
        ;
    }
}

/// A part of a count in percent, rounded, is not above the count.
pub(crate) proof fn lemma_part_of_count(n: int, p: int)
    requires
        0 <= n <= 0xffff_ffff,
        0 <= p <= 100,
    ensures
        0 <= nearest_int(quotient(product(of_int(n), of_int(p)), of_int(100))) <= n,
{
    let unit = pow2(1074) as int;
    lemma_pow2_pos(1074);
    let m = n * p;
    assert(0 <= m <= 100 * n) by (nonlinear_arith)
        requires
            m == n * p,
            0 <= p <= 100,
            0 <= n,
    ;
    small_integers_are_exact(n);
    small_integers_are_exact(p);
    small_integers_are_exact(m);
    small_integers_are_exact(100);
    let a = of_int(n);
    let b = of_int(p);
    let c = of_int(m);
    let h = of_int(100);
    assert(grid(a.magnitude()) * grid(b.magnitude()) == grid(c.magnitude()) * unit)
        by (nonlinear_arith)
        requires
            grid(a.magnitude()) == n * unit,
            grid(b.magnitude()) == p * unit,
            grid(c.magnitude()) == m * unit,
            m == n * p,
    ;
    lemma_exact_ratio(c.magnitude(), grid(a.magnitude()) * grid(b.magnitude()), unit);
    assert(product(a, b) == c);
    assert(grid(h.magnitude()) > 0) by (nonlinear_arith)
        requires
            grid(h.magnitude()) == 100 * unit,
            unit > 0,
    ;
    lemma_grid_scaled(0, 0);
    assert(!h.zero());
    assert(0 <= grid(c.magnitude()) * unit <= grid(a.magnitude()) * grid(h.magnitude()))
        by (nonlinear_arith)
        requires
            grid(c.magnitude()) == m * unit,
            grid(a.magnitude()) == n * unit,
            grid(h.magnitude()) == 100 * unit,
            0 <= m <= 100 * n,
            unit > 0,
    ;
    lemma_ratio_at_most(a.magnitude(), grid(c.magnitude()) * unit, grid(h.magnitude()));
    let q = quotient(c, h);
    let k = round_ratio(grid(c.magnitude()) * unit, grid(h.magnitude()));
    assert(q.magnitude() == k);
    if k < a.magnitude() {
        lemma_grid_increasing(k, a.magnitude());
    }
    lemma_grid_step(k);
    let g = grid(k);
    assert(0 <= g <= n * unit);
    assert(0 <= (2 * g + unit) / (2 * unit) <= n) by (nonlinear_arith)
        requires
            0 <= g <= n * unit,
            unit > 0,
            n >= 0,
    ;
}

/// None of a count in percent is zero, and all of it is the count.
pub(crate) proof fn lemma_none_and_all_of_count(n: int)
    requires
        0 <= n <= 0xffff_ffff,
    ensures
        nearest_int(quotient(product(of_int(n), of_int(0)), of_int(100))) == 0,
        nearest_int(quotient(product(of_int(n), of_int(100)), of_int(100))) == n,
{
    let unit = pow2(1074) as int;
    lemma_pow2_pos(1074);
    lemma_grid_scaled(0, 0);
    small_integers_are_exact(n);
    small_integers_are_exact(0);
    small_integers_are_exact(100);
    small_integers_are_exact(100 * n);
    let a = of_int(n);
    let z = of_int(0);
    let h = of_int(100);
    let c = of_int(100 * n);
    assert(z.magnitude() == 0) by {
        if z.magnitude() > 0 {
            lemma_grid_increasing(0, z.magnitude());
            assert(0 * unit == 0);
        }
    }
    assert(grid(a.magnitude()) * grid(z.magnitude()) == 0) by (nonlinear_arith)
        requires
            grid(z.magnitude()) == 0,
    ;
    lemma_round_zero(unit);
    assert(grid(h.magnitude()) > 0) by (nonlinear_arith)
        requires
            grid(h.magnitude()) == 100 * unit,
            unit > 0,
    ;
    assert(!h.zero());
    let none = product(a, z);
    assert(none.magnitude() == 0);
    assert(grid(none.magnitude()) * unit == 0) by (nonlinear_arith)
        requires
            grid(none.magnitude()) == 0,
    ;
    lemma_round_zero(grid(h.magnitude()));
    assert((2 * 0 + unit) / (2 * unit) == 0) by (nonlinear_arith)
        requires
            unit > 0,
    ;
    assert(grid(a.magnitude()) * grid(h.magnitude()) == grid(c.magnitude()) * unit)
        by (nonlinear_arith)
        requires
            grid(a.magnitude()) == n * unit,
            grid(h.magnitude()) == 100 * unit,
            grid(c.magnitude()) == (100 * n) * unit,
    ;
    lemma_exact_ratio(c.magnitude(), grid(a.magnitude()) * grid(h.magnitude()), unit);
    assert(product(a, h) == c);
    lemma_exact_ratio(a.magnitude(), grid(c.magnitude()) * unit, grid(h.magnitude()));
    assert(quotient(c, h).magnitude() == a.magnitude());
    let g = grid(a.magnitude());
    assert((2 * g + unit) / (2 * unit) == n) by (nonlinear_arith)
        requires
            g == n * unit,
            unit > 0,
            n >= 0,
    ;
}

/// A fraction of a count, rounded, is not above the count.
pub(crate) proof fn lemma_fraction_of_count(n: int, t: int, d: int)
    requires
        0 <= n <= 0xffff_ffff,
        0 <= t <= d,
        0 < d <= 0xffff_ffff,
    ensures
        0 <= nearest_int(product(quotient(of_int(t), of_int(d)), of_int(n))) <= n,
{
    let unit = pow2(1074) as int;
    lemma_pow2_pos(1074);
    lemma_grid_scaled(0, 0);
    small_integers_are_exact(n);
    small_integers_are_exact(t);
    small_integers_are_exact(d);
    small_integers_are_exact(1);
    let a = of_int(n);
    let x = of_int(t);
    let y = of_int(d);
    let one = of_int(1);
    assert(grid(y.magnitude()) > 0) by (nonlinear_arith)
        requires
            grid(y.magnitude()) == d * unit,
            unit > 0,
            d > 0,
    ;
    assert(!y.zero());
    assert(0 <= grid(x.magnitude()) * unit <= grid(one.magnitude()) * grid(y.magnitude()))
        by (nonlinear_arith)
        requires
            grid(x.magnitude()) == t * unit,
            grid(y.magnitude()) == d * unit,
            grid(one.magnitude()) == 1 * unit,
            0 <= t <= d,
            unit > 0,
    ;
    lemma_ratio_at_most(one.magnitude(), grid(x.magnitude()) * unit, grid(y.magnitude()));
    let q = quotient(x, y);
    let k = q.magnitude();
    assert(k == round_ratio(grid(x.magnitude()) * unit, grid(y.magnitude())));
    if k < one.magnitude() {
        lemma_grid_increasing(k, one.magnitude());
    }
    lemma_grid_step(k);
    assert(0 <= grid(k) * grid(a.magnitude()) <= grid(a.magnitude()) * unit) by (nonlinear_arith)
        requires
            0 <= grid(k) <= unit,
            grid(a.magnitude()) == n * unit,
            n >= 0,
            unit > 0,
    ;
    lemma_ratio_at_most(a.magnitude(), grid(k) * grid(a.magnitude()), unit);
    let p = product(q, a);
    let m = p.magnitude();
    assert(m == round_ratio(grid(k) * grid(a.magnitude()), unit));
    if m < a.magnitude() {
        lemma_grid_increasing(m, a.magnitude());
    }
    lemma_grid_step(m);
    let g = grid(m);
    assert(0 <= g <= n * unit);
    assert(0 <= (2 * g + unit) / (2 * unit) <= n) by (nonlinear_arith)
        requires
            0 <= g <= n * unit,
            unit > 0,
            n >= 0,
    ;
}

/// A ratio that is not below the value of a pattern does not round below it.
proof fn lemma_ratio_at_least(k: int, n: int, d: int, top: int)
    requires
        0 <= k <= INFINITE,
        d > 0,
        grid(k) * d <= n < grid(top) * d,
        0 <= top <= INFINITE,
    ensures
        k <= round_ratio(n, d),
{
    lemma_grid_step(k);
    assert(0 <= n) by (nonlinear_arith)
        requires
            0 <= grid(k),
            grid(k) * d <= n,
            d > 0,
    ;
    lemma_nearest_to_ratio(n, d, top);
    let r = round_ratio(n, d);
    if r < k {
        lemma_grid_step(r);
        if r + 1 < k {
            lemma_grid_increasing(r + 1, k);
        }
        let high = grid(r) + grid(r + 1);
        assert(high * d < 2 * n) by (nonlinear_arith)
            requires
                high < 2 * grid(k),
                grid(k) * d <= n,
                d > 0,
        ;
    }
}

/// The whole part of a part of an extent is that of the exact one, or one more.
pub(crate) proof fn lemma_part_of_extent(i: int, c: Double)
    requires
        0 <= i <= 0x7fff_ffff,
        !c.nan(),
        0 <= c.units() <= pow2(1074),
    ensures
        ({
            let w = whole(product(of_int(i), c));
            &&& 0 <= w <= i
            &&& w * pow2(1074) <= i * c.units() + pow2(1074)
            &&& i * c.units() < (w + 1) * pow2(1074)
        }),
{
    let unit = pow2(1074) as int;
    lemma_pow2_pos(1074);
    lemma_grid_scaled(0, 0);
    let u = c.units();
    lemma_grid_step(c.magnitude());
    assert(grid(c.magnitude()) == u) by {
        if c.negative() {
            assert(grid(c.magnitude()) == 0);
        }
    }
    small_integers_are_exact(1);
    if c.magnitude() >= INFINITE {
        lemma_grid_increasing(of_int(1).magnitude(), c.magnitude());
        assert(1 * pow2(1074) == unit);
        assert(false);
    }
    let f = (i * u) / unit;
    assert(0 <= i * u <= i * unit) by (nonlinear_arith)
        requires
            0 <= u <= unit,
            0 <= i,
    ;
    vstd::arithmetic::div_mod::lemma_fundamental_div_mod(i * u, unit);
    vstd::arithmetic::div_mod::lemma_mod_bound(i * u, unit);
    assert(unit * f == f * unit) by (nonlinear_arith);
    assert(0 <= f <= i) by (nonlinear_arith)
        requires
            f * unit <= i * u,
            i * u < f * unit + unit,
            0 <= i * u <= i * unit,
            unit > 0,
    ;
    assert((f + 1) * unit == f * unit + unit) by (nonlinear_arith);
    small_integers_are_exact(i);
    small_integers_are_exact(f);
    small_integers_are_exact(f + 1);
    let a = of_int(i);
    let n = grid(a.magnitude()) * grid(c.magnitude());
    assert(n == (i * u) * unit) by (nonlinear_arith)
        requires
            n == grid(a.magnitude()) * u,
            grid(a.magnitude()) == i * unit,
            grid(c.magnitude()) == u,
    ;
    let low = of_int(f);
    let high = of_int(f + 1);
    assert(grid(low.magnitude()) * unit <= n) by (nonlinear_arith)
        requires
            n == (i * u) * unit,
            grid(low.magnitude()) == f * unit,
            f * unit <= i * u,
            unit > 0,
    ;
    assert(0 <= n < grid(high.magnitude()) * unit) by (nonlinear_arith)
        requires
            n == (i * u) * unit,
            grid(high.magnitude()) == (f + 1) * unit,
            0 <= i * u < (f + 1) * unit,
            unit > 0,
    ;
    lemma_ratio_at_least(low.magnitude(), n, unit, high.magnitude());
    lemma_ratio_at_most(high.magnitude(), n, unit);
    let whole_size = grid(a.magnitude()) * unit;
    assert(n <= whole_size) by (nonlinear_arith)
        requires
            n == grid(a.magnitude()) * u,
            0 <= u <= unit,
            0 <= grid(a.magnitude()),
            whole_size == grid(a.magnitude()) * unit,
    ;
    lemma_ratio_at_most(a.magnitude(), n, unit);
    let r = round_ratio(n, unit);
    let p = product(a, c);
    assert(p.magnitude() == r);
    assert(p.negative() == c.negative());
    if low.magnitude() < r {
        lemma_grid_increasing(low.magnitude(), r);
    }
    if r < high.magnitude() {
        lemma_grid_increasing(r, high.magnitude());
    }
    if r < a.magnitude() {
        lemma_grid_increasing(r, a.magnitude());
    }
    let g = grid(r);
    assert(f * unit <= g <= (f + 1) * unit);
    let w = g / unit;
    assert(f <= w <= f + 1 && w <= i) by (nonlinear_arith)
        requires
            f * unit <= g <= (f + 1) * unit,
            g <= i * unit,
            w == g / unit,
            unit > 0,
    ;
    if c.negative() {
        assert(u == 0);
        assert(i * u == 0) by (nonlinear_arith)
            requires
                u == 0,
        ;
        lemma_round_zero(unit);
        assert(n == 0) by (nonlinear_arith)
            requires
                n == (i * u) * unit,
                i * u == 0,
        ;
        assert(w == 0) by (nonlinear_arith)
            requires
                w == g / unit,
                g == 0,
                unit > 0,
        ;
    }
    assert(w * unit <= f * unit + unit) by (nonlinear_arith)
        requires
            w <= f + 1,
            unit > 0,
    ;
    assert((f + 1) * unit <= (w + 1) * unit) by (nonlinear_arith)
        requires
            f <= w,
            unit > 0,
    ;
}

/// Integers of up to 53 binary digits add up exactly.
pub proof fn integers_add_exactly(a: int, b: int)
    requires
        -0x20_0000_0000_0000 <= a <= 0x20_0000_0000_0000,
        -0x20_0000_0000_0000 <= b <= 0x20_0000_0000_0000,
    ensures
        sum(of_int(a), of_int(b)) == of_int(a + b),
{
    small_integers_are_exact(a);
    small_integers_are_exact(b);
    assert(a * pow2(1074) + b * pow2(1074) == (a + b) * pow2(1074)) by (nonlinear_arith);
}

/// Integers of up to 53 binary digits subtract exactly.
pub proof fn integers_subtract_exactly(a: int, b: int)
    requires
        -0x20_0000_0000_0000 <= a <= 0x20_0000_0000_0000,
        -0x20_0000_0000_0000 <= b <= 0x20_0000_0000_0000,
    ensures
        difference(of_int(a), of_int(b)) == of_int(a - b),
{
    small_integers_are_exact(a);
    small_integers_are_exact(b);
    lemma_grid_scaled(0, 0);
    let n = negation(of_int(b));
    assert(n.units() == -(b * pow2(1074)));
    assert(n.finite());
    assert(a * pow2(1074) - b * pow2(1074) == (a - b) * pow2(1074)) by (nonlinear_arith);
    assert(of_int(a).zero() ==> !of_int(a).negative()) by {
        if of_int(a).zero() && of_int(a).negative() {
            lemma_pow2_pos(1074);
            assert(a * pow2(1074) < 0) by (nonlinear_arith)
                requires
                    a < 0,
                    pow2(1074) > 0,
            ;
        }
    }
}

/// The product of integers is exact where it has up to 53 binary digits; its
/// sign is that of the integers even where it is zero.
pub proof fn integers_multiply_exactly(a: int, b: int)
    requires
        -0x20_0000_0000_0000 <= a <= 0x20_0000_0000_0000,
        -0x20_0000_0000_0000 <= b <= 0x20_0000_0000_0000,
        -0x20_0000_0000_0000 <= a * b <= 0x20_0000_0000_0000,
    ensures
        product(of_int(a), of_int(b)).finite(),
        product(of_int(a), of_int(b)).units() == (a * b) * pow2(1074),
{
    let unit = pow2(1074) as int;
    lemma_pow2_pos(1074);
    lemma_grid_scaled(0, 0);
    small_integers_are_exact(a);
    small_integers_are_exact(b);
    let x = if a < 0 {
        -a
    } else {
        a
    };
    let y = if b < 0 {
        -b
    } else {
        b
    };
    assert(x * y == (if (a < 0) != (b < 0) {
        -(a * b)
    } else {
        a * b
    })) by (nonlinear_arith)
        requires
            x == (if a < 0 {
                -a
            } else {
                a
            }),
            y == (if b < 0 {
                -b
            } else {
                b
            }),
    ;
    small_integers_are_exact(x * y);
    let p = of_int(x * y);
    assert(grid(of_int(a).magnitude()) == x * unit) by (nonlinear_arith)
        requires
            grid(of_int(a).magnitude()) == (if a < 0 {
                -(a * unit)
            } else {
                a * unit
            }),
            x == (if a < 0 {
                -a
            } else {
                a
            }),
    ;
    assert(grid(of_int(b).magnitude()) == y * unit) by (nonlinear_arith)
        requires
            grid(of_int(b).magnitude()) == (if b < 0 {
                -(b * unit)
            } else {
                b * unit
            }),
            y == (if b < 0 {
                -b
            } else {
                b
            }),
    ;
    assert(x * y >= 0) by (nonlinear_arith)
        requires
            x >= 0,
            y >= 0,
    ;
    assert(grid(of_int(a).magnitude()) * grid(of_int(b).magnitude()) == grid(p.magnitude()) * unit)
        by (nonlinear_arith)
        requires
            grid(of_int(a).magnitude()) == x * unit,
            grid(of_int(b).magnitude()) == y * unit,
            grid(p.magnitude()) == (x * y) * unit,
    ;
    lemma_exact_ratio(
        p.magnitude(),
        grid(of_int(a).magnitude()) * grid(of_int(b).magnitude()),
        unit,
    );
    assert(product(of_int(a), of_int(b)).magnitude() == p.magnitude());
    assert(-((x * y) * unit) == (-(x * y)) * unit) by (nonlinear_arith);
}

/// A sum of many numbers takes them one after the other, and a mean divides it
/// by how many there are.
pub proof fn sums_take_one_after_the_other(start: Double, s: Seq<Double>, x: Double)
    ensures
        accumulated(start, Seq::empty()) == start,
        accumulated(start, s.push(x)) == sum(accumulated(start, s), x),
        total(s.push(x)) == sum(total(s), x),
        mean(s.push(x)) == quotient(sum(total(s), x), of_int((s.len() + 1) as int)),
{
    assert(s.push(x).drop_last() =~= s);
}

/// The distance of two numbers that are integers compares with one as that of
/// the integers does.
pub(crate) proof fn lemma_difference_of_integers(x: Double, y: Double, a: int, b: int)
    requires
        x.finite(),
        y.finite(),
        x.units() == a * pow2(1074),
        y.units() == b * pow2(1074),
        -0x10_0000_0000_0000 <= a <= 0x10_0000_0000_0000,
        -0x10_0000_0000_0000 <= b <= 0x10_0000_0000_0000,
    ensures
        below(of_int(1), absolute_value(difference(x, y))) <==> a - b > 1 || a - b < -1,
{
    let unit = pow2(1074) as int;
    lemma_pow2_pos(1074);
    lemma_grid_scaled(0, 0);
    let n = negation(y);
    assert(n.units() == -(b * unit));
    let d = difference(x, y);
    small_integers_are_exact(1);
    small_integers_are_exact(a - b);
    assert(a * unit - b * unit == (a - b) * unit) by (nonlinear_arith);
    let c = of_int(a - b);
    if x.zero() && n.zero() && x.negative() && n.negative() {
        assert(d.units() == 0);
        assert(a * unit == 0 && b * unit == 0);
        assert(a == 0 && b == 0) by (nonlinear_arith)
            requires
                a * unit == 0,
                b * unit == 0,
                unit > 0,
        ;
    } else {
        assert(d == c);
    }
    let m = absolute_value(d);
    assert(m.units() == grid(d.magnitude()));
    let e = if a - b < 0 {
        b - a
    } else {
        a - b
    };
    assert(m.units() == e * unit) by (nonlinear_arith)
        requires
            m.units() == (if a - b < 0 {
                -((a - b) * unit)
            } else {
                (a - b) * unit
            }),
            e == (if a - b < 0 {
                b - a
            } else {
                a - b
            }),
    ;
    assert(1 * unit < e * unit <==> 1 < e) by (nonlinear_arith)
        requires
            unit > 0,
    ;
}

/// The least integer that is not below a number.
pub(crate) proof fn lemma_ceiling(a: Double)
    requires
        a.finite(),
        a.units() >= 0,
    ensures
        a.units() <= ceiling(a) * pow2(1074),
        (ceiling(a) - 1) * pow2(1074) < a.units(),
{
    let unit = pow2(1074) as int;
    lemma_pow2_pos(1074);
    lemma_grid_step(a.magnitude());
    let g = grid(a.magnitude());
    if a.negative() {
        assert(g == 0);
        assert(0int / unit == 0) by (nonlinear_arith)
            requires
                unit > 0,
        ;
        assert(whole(a) == 0);
        assert(0 * unit == 0) by (nonlinear_arith);
        assert((-1) * unit < 0) by (nonlinear_arith)
            requires
                unit > 0,
        ;
    } else {
        let n = g + unit - 1;
        let c = n / unit;
        vstd::arithmetic::div_mod::lemma_fundamental_div_mod(n, unit);
        vstd::arithmetic::div_mod::lemma_mod_bound(n, unit);
        assert(g <= c * unit && (c - 1) * unit < g) by (nonlinear_arith)
            requires
                n == unit * c + n % unit,
                0 <= n % unit < unit,
                n == g + unit - 1,
                unit > 0,
        ;
    }
}

/// An integer in parts of a power of two is the value of a pattern.
proof fn lemma_scaled_pattern(i: int, s: nat, e: nat) -> (k: int)
    requires
        0 < i,
        i * pow2(s) <= 0x20_0000_0000_0000,
        s <= 53,
        53 <= e <= 1074,
    ensures
        0 < k < INFINITE,
        grid(k) == i * pow2(e),
    decreases 53 - s,
{
    lemma2_to64();
    lemma2_to64_rest();
    let j = i * pow2(s);
    lemma_pow2_pos(s);
    assert(j >= pow2(s)) by (nonlinear_arith)
        requires
            j == i * pow2(s),
            i >= 1,
            pow2(s) > 0,
    ;
    if j >= 0x10_0000_0000_0000 {
        let b = (e - s) as nat;
        lemma_grid_scaled(b, j);
        lemma_pow2_adds(s, b);
        assert(j * pow2(b) == i * pow2(e)) by (nonlinear_arith)
            requires
                j == i * pow2(s),
                pow2(s) * pow2(b) == pow2(e),
        ;
        b * 0x10_0000_0000_0000 + j
    } else {
        lemma_pow2_adds(s, 1);
        assert(i * pow2(s + 1) == 2 * j) by (nonlinear_arith)
            requires
                j == i * pow2(s),
                pow2(s + 1) == pow2(s) * 2,
        ;
        if s == 53 {
            assert(j >= 0x10_0000_0000_0000);
        }
        lemma_scaled_pattern(i, s + 1, e)
    }
}

/// A part of a count in percent is rounded to the nearest integer, upwards from
/// halfway on.
pub(crate) proof fn lemma_nearest_part_of_count(n: int, p: int)
    requires
        0 <= n <= 0xffff_ffff,
        0 <= p <= 100,
    ensures
        nearest_int(quotient(product(of_int(n), of_int(p)), of_int(100))) == (n * p + 50) / 100,
{
    let unit = pow2(1074) as int;
    lemma_pow2_pos(1074);
    lemma2_to64();
    let m = n * p;
    assert(0 <= m <= 100 * n) by (nonlinear_arith)
        requires
            m == n * p,
            0 <= p <= 100,
            0 <= n,
    ;
    small_integers_are_exact(n);
    small_integers_are_exact(p);
    small_integers_are_exact(m);
    small_integers_are_exact(100);
    let a = of_int(n);
    let b = of_int(p);
    let c = of_int(m);
    let h = of_int(100);
    assert(grid(a.magnitude()) * grid(b.magnitude()) == grid(c.magnitude()) * unit)
        by (nonlinear_arith)
        requires
            grid(a.magnitude()) == n * unit,
            grid(b.magnitude()) == p * unit,
            grid(c.magnitude()) == m * unit,
            m == n * p,
    ;
    lemma_exact_ratio(c.magnitude(), grid(a.magnitude()) * grid(b.magnitude()), unit);
    assert(product(a, b) == c);
    lemma_grid_scaled(0, 0);
    assert(grid(h.magnitude()) > 0) by (nonlinear_arith)
        requires
            grid(h.magnitude()) == 100 * unit,
            unit > 0,
    ;
    assert(!h.zero());
    let i = (m + 50) / 100;
    assert(100 * i - 50 <= m <= 100 * i + 49);
    // From above: i and 127 of 256 parts.
    let half = pow2(1073) as int;
    lemma_pow2_unfold(1074);
    let part = pow2(1066) as int;
    lemma_pow2_adds(8, 1066);
    assert(unit == 256 * part);
    lemma_pow2_pos(1066);
    let above = lemma_scaled_pattern(256 * i + 127, 0, 1066);
    let num = grid(c.magnitude()) * unit;
    let den = grid(h.magnitude());
    assert(0 <= num <= grid(above) * den) by (nonlinear_arith)
        requires
            num == grid(c.magnitude()) * unit,
            grid(c.magnitude()) == m * unit,
            den == 100 * unit,
            grid(above) == (256 * i + 127) * part,
            unit == 256 * part,
            0 <= m <= 100 * i + 49,
            part > 0,
    ;
    lemma_ratio_at_most(above, num, den);
    let k = round_ratio(num, den);
    let q = quotient(c, h);
    assert(q.magnitude() == k);
    assert(!q.negative());
    if k < above {
        lemma_grid_increasing(k, above);
    }
    lemma_grid_step(k);
    let g = grid(k);
    assert(0 <= g <= (256 * i + 127) * part);
    // From below: i less a half.
    if i > 0 {
        let under = lemma_scaled_pattern(2 * i - 1, 0, 1073);
        assert(unit == 2 * half);
        assert(grid(under) * den <= num) by (nonlinear_arith)
            requires
                num == grid(c.magnitude()) * unit,
                grid(c.magnitude()) == m * unit,
                den == 100 * unit,
                grid(under) == (2 * i - 1) * half,
                unit == 2 * half,
                100 * i - 50 <= m,
                half > 0,
        ;
        let top = lemma_scaled_pattern(256 * i + 128, 0, 1066);
        assert(num < grid(top) * den) by (nonlinear_arith)
            requires
                num <= grid(above) * den,
                grid(above) == (256 * i + 127) * part,
                grid(top) == (256 * i + 128) * part,
                part > 0,
                den > 0,
        ;
        lemma_ratio_at_least(under, num, den, top);
        if under < k {
            lemma_grid_increasing(under, k);
        }
        assert((2 * i - 1) * half <= g);
    }
    lemma_pow2_pos(1073);
    let d = (2 * g + unit) / (2 * unit);
    assert(2 * i * unit <= 2 * g + unit) by (nonlinear_arith)
        requires
            i > 0 ==> (2 * i - 1) * half <= g,
            i >= 0,
            g >= 0,
            unit == 2 * half,
            half > 0,
    ;
    assert(2 * g + unit < 2 * (i + 1) * unit) by (nonlinear_arith)
        requires
            g <= (256 * i + 127) * part,
            unit == 256 * part,
            part > 0,
    ;
    assert(d == i) by (nonlinear_arith)
        requires
            d == (2 * g + unit) / (2 * unit),
            2 * i * unit <= 2 * g + unit,
            2 * g + unit < 2 * (i + 1) * unit,
            unit > 0,
    ;
}

/// Some pattern is nearest to any ratio, if need be infinity.
proof fn lemma_nearest_to_any(n: int, d: int)
    requires
        0 <= n,
        d > 0,
    ensures
        nearest(round_ratio(n, d), n, d),
{
    let top = INFINITE as int;
    if n < grid(top) * d {
        lemma_nearest_to_ratio(n, d, top);
    } else {
        lemma_grid_step(top - 1);
        assert((grid(top - 1) + grid(top)) * d < 2 * n) by (nonlinear_arith)
            requires
                grid(top - 1) < grid(top),
                n >= grid(top) * d,
                d > 0,
        ;
        assert(nearest(top, n, d));
    }
}

/// A larger ratio does not round to a smaller pattern.
proof fn lemma_round_ordered(m: int, n: int, d: int)
    requires
        0 <= m <= n,
        d > 0,
    ensures
        0 <= round_ratio(m, d) <= round_ratio(n, d) <= INFINITE,
{
    lemma_nearest_to_any(m, d);
    lemma_nearest_to_any(n, d);
    let i = round_ratio(n, d);
    let j = round_ratio(m, d);
    if j > i {
        let a = grid(i) + grid(i + 1);
        let b = grid(j - 1) + grid(j);
        if i < j - 1 {
            lemma_grid_increasing(i, j - 1);
            lemma_grid_increasing(i + 1, j);
            assert(a * d < b * d) by (nonlinear_arith)
                requires
                    a < b,
                    d > 0,
            ;
        }
    }
}

/// A value further above the foot of a scale has a larger share of its span.
pub(crate) proof fn lemma_shares_ordered(a: Double, b: Double, foot: Double, span: Double, n: int)
    requires
        a.finite(),
        b.finite(),
        foot.finite(),
        span.finite(),
        foot.units() <= a.units() <= b.units(),
        span.units() > 0,
        0 < n <= 0xffff_ffff,
    ensures
        0 <= nearest_int(product(quotient(difference(a, foot), span), of_int(n))) <= nearest_int(
            product(quotient(difference(b, foot), span), of_int(n)),
        ),
{
    let unit = pow2(1074) as int;
    lemma_pow2_pos(1074);
    lemma_grid_scaled(0, 0);
    small_integers_are_exact(n);
    let f = negation(foot);
    assert(f.magnitude() == foot.magnitude() && f.units() == -foot.units());
    let u = a.units() - foot.units();
    let v = b.units() - foot.units();
    lemma_round_ordered(u, v, 1);
    lemma_round_zero(1);
    let x = difference(a, foot);
    let y = difference(b, foot);
    lemma_difference_above(a, foot);
    lemma_difference_above(b, foot);
    let s = grid(span.magnitude());
    assert(s > 0 && !span.negative()) by {
        lemma_grid_step(span.magnitude());
    }
    assert(!span.zero());
    let big = of_int(n);
    assert(grid(big.magnitude()) == n * unit);
    assert(n * unit > 0) by (nonlinear_arith)
        requires
            n > 0,
            unit > 0,
    ;
    assert(!big.zero() && !big.negative());
    lemma_share(x, y, span, big);
}

/// The difference from a foot that is not above the number.
proof fn lemma_difference_above(a: Double, foot: Double)
    requires
        a.finite(),
        foot.finite(),
        foot.units() <= a.units(),
    ensures
        difference(a, foot).magnitude() == round_ratio(a.units() - foot.units(), 1),
        0 <= difference(a, foot).magnitude() <= INFINITE,
        difference(a, foot).negative() ==> difference(a, foot).zero(),
{
    lemma_grid_scaled(0, 0);
    lemma_round_zero(1);
    lemma_nearest_to_any(a.units() - foot.units(), 1);
    let f = negation(foot);
    assert(f.magnitude() == foot.magnitude() && f.units() == -foot.units());
}

/// Shares of a span keep the order.
proof fn lemma_share(x: Double, y: Double, span: Double, big: Double)
    requires
        0 <= x.magnitude() <= y.magnitude() <= INFINITE,
        x.negative() ==> x.zero(),
        y.negative() ==> y.zero(),
        span.finite(),
        big.finite(),
        !span.negative(),
        !big.negative(),
        grid(span.magnitude()) > 0,
        grid(big.magnitude()) > 0,
        !span.zero(),
        !big.zero(),
    ensures
        0 <= nearest_int(product(quotient(x, span), big)) <= nearest_int(
            product(quotient(y, span), big),
        ),
{
    let unit = pow2(1074) as int;
    let s = grid(span.magnitude());
    let n = grid(big.magnitude());
    lemma_pow2_pos(1074);
    lemma_grid_scaled(0, 0);
    let g = grid(x.magnitude());
    let h = grid(y.magnitude());
    lemma_grid_step(x.magnitude());
    if x.magnitude() < y.magnitude() {
        lemma_grid_increasing(x.magnitude(), y.magnitude());
    }
    assert(0 <= g * unit <= h * unit) by (nonlinear_arith)
        requires
            0 <= g <= h,
            unit > 0,
    ;
    lemma_round_ordered(g * unit, h * unit, s);
    let p = quotient(x, span);
    let q = quotient(y, span);
    if x.zero() {
        assert(g * unit == 0) by (nonlinear_arith)
            requires
                g == 0,
        ;
        lemma_round_zero(s);
    }
    if y.zero() {
        assert(h * unit == 0) by (nonlinear_arith)
            requires
                h == 0,
        ;
        lemma_round_zero(s);
    }
    assert(0 <= p.magnitude() <= q.magnitude() <= INFINITE);
    assert(p.negative() ==> p.zero());
    assert(q.negative() ==> q.zero());
    let k = grid(p.magnitude());
    let l = grid(q.magnitude());
    lemma_grid_step(p.magnitude());
    if p.magnitude() < q.magnitude() {
        lemma_grid_increasing(p.magnitude(), q.magnitude());
    }
    assert(0 <= k * n <= l * n) by (nonlinear_arith)
        requires
            0 <= k <= l,
            n > 0,
    ;
    lemma_round_ordered(k * n, l * n, unit);
    let c = product(p, big);
    let d = product(q, big);
    if p.zero() {
        assert(k * n == 0) by (nonlinear_arith)
            requires
                k == 0,
        ;
        lemma_round_zero(unit);
    }
    if q.zero() {
        assert(l * n == 0) by (nonlinear_arith)
            requires
                l == 0,
        ;
        lemma_round_zero(unit);
    }
    assert(0 <= c.magnitude() <= d.magnitude() <= INFINITE);
    assert(c.negative() ==> c.zero());
    assert(d.negative() ==> d.zero());
    let v = grid(c.magnitude());
    let w = grid(d.magnitude());
    lemma_grid_step(c.magnitude());
    if c.magnitude() < d.magnitude() {
        lemma_grid_increasing(c.magnitude(), d.magnitude());
    }
    let low = (2 * v + unit) / (2 * unit);
    let high = (2 * w + unit) / (2 * unit);
    assert(0 <= low <= high) by {
        vstd::arithmetic::div_mod::lemma_div_pos_is_pos(2 * v + unit, 2 * unit);
        vstd::arithmetic::div_mod::lemma_div_is_ordered(2 * v + unit, 2 * w + unit, 2 * unit);
    }
    assert(unit / (2 * unit) == 0) by {
        vstd::arithmetic::div_mod::lemma_basic_div(unit, 2 * unit);
    }
}

/// The foot of a scale has no share of its span, and what lies a whole span
/// above it has all of it.
pub(crate) proof fn lemma_ends_of_scale(foot: Double, top: Double, n: int)
    requires
        foot.finite(),
        top.finite(),
        foot.units() < top.units(),
        difference(top, foot).finite(),
        0 < n <= 0xffff_ffff,
    ensures
        ({
            let span = difference(top, foot);
            &&& nearest_int(product(quotient(difference(foot, foot), span), of_int(n))) == 0
            &&& nearest_int(product(quotient(difference(top, foot), span), of_int(n))) == n
        }),
{
    let unit = pow2(1074) as int;
    lemma_pow2_pos(1074);
    lemma_grid_scaled(0, 0);
    small_integers_are_exact(n);
    small_integers_are_exact(1);
    let span = difference(top, foot);
    lemma_difference_above(top, foot);
    lemma_difference_above(foot, foot);
    lemma_round_zero(1);
    // A positive number of units rounds to a positive pattern.
    let u = top.units() - foot.units();
    lemma_nearest_to_any(u, 1);
    if span.magnitude() == 0 {
        lemma_grid_scaled(0, 1);
        vstd::arithmetic::power2::lemma2_to64();
        assert(grid(1) == 1);
        assert(2 * u <= grid(0) + grid(1));
        assert(false);
    }
    let s = grid(span.magnitude());
    lemma_grid_increasing(0, span.magnitude());
    let one = of_int(1);
    assert(grid(one.magnitude()) == unit);
    assert(s * unit == grid(one.magnitude()) * s) by (nonlinear_arith)
        requires
            grid(one.magnitude()) == unit,
    ;
    lemma_exact_ratio(one.magnitude(), s * unit, s);
    assert(quotient(span, span) == one);
    let big = of_int(n);
    assert(grid(one.magnitude()) * grid(big.magnitude()) == grid(big.magnitude()) * unit)
        by (nonlinear_arith)
        requires
            grid(one.magnitude()) == unit,
    ;
    lemma_exact_ratio(
        big.magnitude(),
        grid(one.magnitude()) * grid(big.magnitude()),
        unit,
    );
    assert(product(one, big).magnitude() == big.magnitude());
    let g = grid(big.magnitude());
    assert((2 * g + unit) / (2 * unit) == n) by (nonlinear_arith)
        requires
            g == n * unit,
            unit > 0,
            n >= 0,
    ;
    // The foot itself.
    let z = difference(foot, foot);
    assert(z.zero());
    let p = quotient(z, span);
    assert(grid(0) * unit == 0) by (nonlinear_arith)
        requires
            grid(0) == 0,
    ;
    lemma_round_zero(s);
    assert(p.zero());
    assert(grid(0) * grid(big.magnitude()) == 0) by (nonlinear_arith)
        requires
            grid(0) == 0,
    ;
    lemma_round_zero(unit);
    assert(product(p, big).zero());
    assert(unit / (2 * unit) == 0) by {
        vstd::arithmetic::div_mod::lemma_basic_div(unit, 2 * unit);
    }
}

/// Every finite number lies between the infinities.
pub(crate) proof fn lemma_infinities_bound(a: Double)
    requires
        a.finite(),
    ensures
        smaller(Double { bits: 0x7ff0_0000_0000_0000 }, a) == a,
        larger(Double { bits: 0xfff0_0000_0000_0000 }, a) == a,
        at_most(a, a),
{
    lemma_grid_scaled(0, 0);
    lemma_grid_step(a.magnitude());
    lemma_grid_increasing(a.magnitude(), INFINITE as int);
    lemma_grid_increasing(0, INFINITE as int);
}

/// Integers divide exactly where the quotient is an integer of up to 53 binary
/// digits.
pub proof fn integers_divide_exactly(a: int, b: int)
    requires
        0 <= a <= 0x20_0000_0000_0000,
        0 < b <= 0x20_0000_0000_0000,
        a * b <= 0x20_0000_0000_0000,
    ensures
        quotient(of_int(a * b), of_int(b)) == of_int(a),
        ratio(a * b, b) == of_int(a),
{
    let unit = pow2(1074) as int;
    lemma_pow2_pos(1074);
    lemma_grid_scaled(0, 0);
    assert(0 <= a * b) by (nonlinear_arith)
        requires
            a >= 0,
            b > 0,
    ;
    small_integers_are_exact(a);
    small_integers_are_exact(b);
    small_integers_are_exact(a * b);
    let x = of_int(a * b);
    let y = of_int(b);
    let z = of_int(a);
    assert(grid(y.magnitude()) > 0) by (nonlinear_arith)
        requires
            grid(y.magnitude()) == b * unit,
            b > 0,
            unit > 0,
    ;
    assert(!y.zero());
    assert(grid(x.magnitude()) * unit == grid(z.magnitude()) * grid(y.magnitude()))
        by (nonlinear_arith)
        requires
            grid(x.magnitude()) == (a * b) * unit,
            grid(y.magnitude()) == b * unit,
            grid(z.magnitude()) == a * unit,
    ;
    lemma_exact_ratio(z.magnitude(), grid(x.magnitude()) * unit, grid(y.magnitude()));
    assert(quotient(x, y) == Double::pack(false, z.magnitude()));
}

/// The square root of the square of an integer is that integer.
pub proof fn roots_of_squares_are_exact(a: int)
    requires
        0 <= a <= 0x4000000,
    ensures
        square_root(of_int(a * a)) == of_int(a),
{
    let unit = pow2(1074) as int;
    lemma_pow2_pos(1074);
    lemma_grid_scaled(0, 0);
    assert(0 <= a * a <= 0x10_0000_0000_0000) by (nonlinear_arith)
        requires
            0 <= a <= 0x4000000,
    ;
    small_integers_are_exact(a);
    small_integers_are_exact(a * a);
    let x = of_int(a * a);
    let z = of_int(a);
    if a == 0 {
        assert(a * a == 0);
        assert(x == z);
        if x.magnitude() > 0 {
            lemma_grid_increasing(0, x.magnitude());
            assert(0 * pow2(1074) == 0) by (nonlinear_arith);
        }
        assert(x.zero());
    } else {
        assert(a * a > 0) by (nonlinear_arith)
            requires
                a > 0,
        ;
        assert(a * unit > 0 && (a * a) * unit > 0) by (nonlinear_arith)
            requires
                a > 0,
                a * a > 0,
                unit > 0,
        ;
        assert(!x.zero() && !z.zero());
        let k = z.magnitude();
        let n = grid(x.magnitude()) * unit;
        let g = grid(k);
        assert(n == g * g) by (nonlinear_arith)
            requires
                n == grid(x.magnitude()) * unit,
                grid(x.magnitude()) == (a * a) * unit,
                g == a * unit,
        ;
        lemma_grid_step(k);
        lemma_grid_step(k - 1);
        let low = grid(k - 1) + g;
        let high = g + grid(k + 1);
        assert(low * low < 4 * n) by (nonlinear_arith)
            requires
                0 <= low < 2 * g,
                n == g * g,
        ;
        assert(4 * n < high * high) by (nonlinear_arith)
            requires
                0 <= 2 * g < high,
                n == g * g,
        ;
        assert(nearest_root(k, n));
        lemma_round_root(k, n);
        assert(square_root(x) == Double::pack(false, k));
    }
}

/// Of two numbers the larger is not below either of them and the smaller not
/// above, and each is one of them; where one is not a number, it is the other.
pub proof fn larger_and_smaller_are_one_of_both(a: Double, b: Double)
    ensures
        larger(a, b) == a || larger(a, b) == b,
        smaller(a, b) == a || smaller(a, b) == b,
        a.nan() ==> larger(a, b) == b && smaller(a, b) == b,
        b.nan() && !a.nan() ==> larger(a, b) == a && smaller(a, b) == a,
        !a.nan() && !b.nan() ==> at_most(a, larger(a, b)) && at_most(b, larger(a, b)) && at_most(
            smaller(a, b),
            a,
        ) && at_most(smaller(a, b), b),
{
}

/// A number within the limits stays, and one outside becomes the limit that it
/// lies beyond.
pub proof fn clamping_keeps_to_the_limits(a: Double, low: Double, high: Double)
    requires
        !a.nan(),
        at_most(low, high),
    ensures
        at_most(low, clamped(a, low, high)),
        at_most(clamped(a, low, high), high),
        at_most(low, a) && at_most(a, high) ==> clamped(a, low, high) == a,
        below(a, low) ==> clamped(a, low, high) == low,
        below(high, a) ==> clamped(a, low, high) == high,
{
}

/// The absolute value is as far from zero, and not below it.
pub proof fn absolute_values_are_not_negative(a: Double)
    requires
        a.finite(),
    ensures
        absolute_value(a).finite(),
        absolute_value(a).units() >= 0,
        absolute_value(a).units() == a.units() || absolute_value(a).units() == -a.units(),
{
    lemma_grid_step(a.magnitude());
}

/// The whole part of a number that is not negative is the greatest integer not
/// above it, the least integer not below it is its ceiling, and the nearest
/// integer is off by a half at most, upwards from halfway on. Below zero the
/// whole part and the nearest integer are those of the absolute value, negated.
pub proof fn integers_near_a_number(a: Double)
    requires
        a.finite(),
    ensures
        a.units() >= 0 ==> {
            let one = pow2(1074) as int;
            &&& whole(a) * one <= a.units() < (whole(a) + 1) * one
            &&& (ceiling(a) - 1) * one < a.units() <= ceiling(a) * one
            &&& (2 * nearest_int(a) - 1) * one <= 2 * a.units() < (2 * nearest_int(a) + 1) * one
        },
        a.units() < 0 ==> whole(a) == -whole(absolute_value(a)) && nearest_int(a) == -nearest_int(
            absolute_value(a),
        ) && ceiling(a) == whole(a),
{
    let one = pow2(1074) as int;
    lemma_pow2_pos(1074);
    lemma_grid_step(a.magnitude());
    let g = grid(a.magnitude());
    if a.units() >= 0 {
        lemma_ceiling(a);
        if a.negative() {
            assert(g == 0);
        }
        vstd::arithmetic::div_mod::lemma_fundamental_div_mod(g, one);
        vstd::arithmetic::div_mod::lemma_mod_bound(g, one);
        vstd::arithmetic::div_mod::lemma_fundamental_div_mod(2 * g + one, 2 * one);
        vstd::arithmetic::div_mod::lemma_mod_bound(2 * g + one, 2 * one);
        let w = g / one;
        let k = (2 * g + one) / (2 * one);
        assert(w * one <= g < (w + 1) * one) by (nonlinear_arith)
            requires
                g == one * w + g % one,
                0 <= g % one < one,
        ;
        assert((2 * k - 1) * one <= 2 * g < (2 * k + 1) * one) by (nonlinear_arith)
            requires
                2 * g + one == (2 * one) * k + (2 * g + one) % (2 * one),
                0 <= (2 * g + one) % (2 * one) < 2 * one,
        ;
        if a.negative() {
            assert(w == 0) by (nonlinear_arith)
                requires
                    w == g / one,
                    g == 0,
                    one > 0,
            ;
            assert(k == 0) by (nonlinear_arith)
                requires
                    (2 * k - 1) * one <= 0,
                    0 < (2 * k + 1) * one,
                    one > 0,
            ;
        }
    } else {
        assert(absolute_value(a).magnitude() == a.magnitude());
    }
}

/// A number of quarters of a count is rounded to the nearest integer, upwards
/// from halfway on.
pub(crate) proof fn lemma_quarters(n: int, t: int)
    requires
        0 < n <= 0xffff_ffff,
        0 <= t <= 4,
    ensures
        nearest_int(product(quotient(of_int(t), of_int(4)), of_int(n))) == (n * t + 2) / 4,
{
    let unit = pow2(1074) as int;
    let quarter = pow2(1072) as int;
    lemma_pow2_pos(1074);
    lemma_pow2_pos(1072);
    lemma2_to64();
    lemma_pow2_adds(2, 1072);
    assert(unit == 4 * quarter);
    lemma_grid_scaled(0, 0);
    small_integers_are_exact(t);
    small_integers_are_exact(4);
    small_integers_are_exact(n);
    let x = of_int(t);
    let y = of_int(4);
    let a = of_int(n);
    assert(grid(y.magnitude()) > 0) by (nonlinear_arith)
        requires
            grid(y.magnitude()) == 4 * unit,
            unit > 0,
    ;
    assert(!y.zero());
    let q = quotient(x, y);
    let p = product(q, a);
    let m = n * t;
    if t == 0 {
        assert(t * unit == 0) by (nonlinear_arith)
            requires
                t == 0,
        ;
        assert(grid(x.magnitude()) * unit == 0) by (nonlinear_arith)
            requires
                grid(x.magnitude()) == 0,
        ;
        lemma_round_zero(grid(y.magnitude()));
        assert(q.magnitude() == 0);
        assert(grid(q.magnitude()) * grid(a.magnitude()) == 0) by (nonlinear_arith)
            requires
                grid(q.magnitude()) == 0,
        ;
        lemma_round_zero(unit);
        assert(p.magnitude() == 0);
        assert(m == 0) by (nonlinear_arith)
            requires
                m == n * t,
                t == 0,
        ;
        assert((2 * 0 + unit) / (2 * unit) == 0) by (nonlinear_arith)
            requires
                unit > 0,
        ;
    } else {
        assert(0 < m <= 4 * n) by (nonlinear_arith)
            requires
                m == n * t,
                0 < t <= 4,
                n > 0,
        ;
        let k = lemma_scaled_pattern(t, 0, 1072);
        assert(grid(x.magnitude()) * unit == grid(k) * grid(y.magnitude())) by (nonlinear_arith)
            requires
                grid(x.magnitude()) == t * unit,
                grid(k) == t * quarter,
                grid(y.magnitude()) == 4 * unit,
                unit == 4 * quarter,
        ;
        lemma_exact_ratio(k, grid(x.magnitude()) * unit, grid(y.magnitude()));
        assert(q.magnitude() == k);
        let l = lemma_scaled_pattern(m, 0, 1072);
        assert(grid(k) * grid(a.magnitude()) == grid(l) * unit) by (nonlinear_arith)
            requires
                grid(k) == t * quarter,
                grid(a.magnitude()) == n * unit,
                grid(l) == m * quarter,
                m == n * t,
        ;
        lemma_exact_ratio(l, grid(k) * grid(a.magnitude()), unit);
        assert(p.magnitude() == l);
        let g = grid(l);
        let c = (m + 2) / 4;
        assert(4 * c <= m + 2 < 4 * c + 4);
        assert(2 * c * unit <= 2 * g + unit) by (nonlinear_arith)
            requires
                g == m * quarter,
                unit == 4 * quarter,
                4 * c <= m + 2,
                quarter > 0,
        ;
        assert(2 * g + unit < 2 * (c + 1) * unit) by (nonlinear_arith)
            requires
                g == m * quarter,
                unit == 4 * quarter,
                m + 2 < 4 * c + 4,
                quarter > 0,
        ;
        let r = (2 * g + unit) / (2 * unit);
        assert(r == c) by (nonlinear_arith)
            requires
                r == (2 * g + unit) / (2 * unit),
                2 * c * unit <= 2 * g + unit,
                2 * g + unit < 2 * (c + 1) * unit,
                unit > 0,
        ;
    }
}

/// Every integer that is not negative has a whole square root.
proof fn lemma_whole_root(p: int) -> (q: int)
    requires
        0 <= p,
    ensures
        0 <= q,
        q * q <= p < (q + 1) * (q + 1),
    decreases p,
{
    if p == 0 {
        0
    } else {
        let q = lemma_whole_root(p - 1);
        if (q + 1) * (q + 1) <= p {
            assert(p < (q + 2) * (q + 2)) by (nonlinear_arith)
                requires
                    p - 1 < (q + 1) * (q + 1),
                    q >= 0,
            ;
            q + 1
        } else {
            q
        }
    }
}

/// A number of 105 or 106 binary digits times the square of a power of two has a
/// nearest square root.
proof fn lemma_root_of_digits(p: int, b: nat) -> (k: int)
    requires
        0x100_0000_0000_0000_0000_0000_0000 <= p < 0x400_0000_0000_0000_0000_0000_0000,
        b <= 1100,
    ensures
        nearest_root(k, p * (pow2(b) * pow2(b))),
{
    let q = lemma_whole_root(p);
    let x = pow2(b) as int;
    lemma_pow2_pos(b);
    let n = p * (x * x);
    assert(0x10_0000_0000_0000 <= q < 0x20_0000_0000_0000) by (nonlinear_arith)
        requires
            0x100_0000_0000_0000_0000_0000_0000 <= p < 0x400_0000_0000_0000_0000_0000_0000,
            q * q <= p < (q + 1) * (q + 1),
            q >= 0,
    ;
    let k = b * 0x10_0000_0000_0000 + q;
    lemma_grid_scaled(b, q);
    lemma_grid_scaled(b, q + 1);
    assert(b * 0x10_0000_0000_0000 + (q + 1) == k + 1);
    assert(x * x > 0) by (nonlinear_arith)
        requires
            x > 0,
    ;
    let g = grid(k);
    let h = grid(k + 1);
    assert((g + h) * (g + h) == (4 * (q * q) + 4 * q + 1) * (x * x)) by (nonlinear_arith)
        requires
            g == q * x,
            h == (q + 1) * x,
    ;
    assert(4 * n == (4 * p) * (x * x)) by (nonlinear_arith)
        requires
            n == p * (x * x),
    ;
    if p > q * q + q {
        assert((4 * (q * q) + 4 * q + 1) * (x * x) < (4 * p) * (x * x)) by (nonlinear_arith)
            requires
                4 * (q * q) + 4 * q + 1 < 4 * p,
                x * x > 0,
        ;
        lemma_grid_step(k + 1);
        lemma_grid_step(k);
        let f = grid(k + 2);
        assert(4 * (h * h) < (h + f) * (h + f)) by (nonlinear_arith)
            requires
                0 <= h < f,
        ;
        assert(4 * (h * h) == (4 * ((q + 1) * (q + 1))) * (x * x)) by (nonlinear_arith)
            requires
                h == (q + 1) * x,
        ;
        assert((4 * p) * (x * x) <= (4 * ((q + 1) * (q + 1))) * (x * x)) by (nonlinear_arith)
            requires
                p <= (q + 1) * (q + 1),
                x * x > 0,
        ;
        k + 1
    } else {
        assert((4 * p) * (x * x) < (4 * (q * q) + 4 * q + 1) * (x * x)) by (nonlinear_arith)
            requires
                4 * p < 4 * (q * q) + 4 * q + 1,
                x * x > 0,
        ;
        lemma_grid_step(k - 1);
        let f = grid(k - 1);
        assert((f + g) * (f + g) < 4 * (g * g)) by (nonlinear_arith)
            requires
                0 <= f < g,
        ;
        assert(4 * (g * g) == (4 * (q * q)) * (x * x)) by (nonlinear_arith)
            requires
                g == q * x,
        ;
        assert((4 * (q * q)) * (x * x) <= (4 * p) * (x * x)) by (nonlinear_arith)
            requires
                q * q <= p,
                x * x > 0,
        ;
        k
    }
}

/// The square root of an integer in square halves is rounded to a pattern.
proof fn lemma_root_of_integer(d: int, p: int, j: nat)
    requires
        0 < d <= p < 0x400_0000_0000_0000_0000_0000_0000,
        p == d * (pow2(j) * pow2(j)),
        j <= 60,
    ensures
        nearest_root(
            round_root(d * (pow2(1073) * pow2(1073))),
            d * (pow2(1073) * pow2(1073)),
        ),
    decreases 0x400_0000_0000_0000_0000_0000_0000 - p,
{
    if p >= 0x100_0000_0000_0000_0000_0000_0000 {
        let b = (1073 - j) as nat;
        let k = lemma_root_of_digits(p, b);
        lemma_pow2_adds(j, b);
        let u = pow2(j) as int;
        let v = pow2(b) as int;
        let w = pow2(1073) as int;
        assert(p * (v * v) == d * (w * w)) by (nonlinear_arith)
            requires
                p == d * (u * u),
                u * v == w,
        ;
        lemma_round_root(k, d * (w * w));
    } else {
        lemma_pow2_unfold(j + 1);
        let u = pow2(j) as int;
        let v = pow2(j + 1) as int;
        assert(4 * p == d * (v * v)) by (nonlinear_arith)
            requires
                p == d * (u * u),
                v == 2 * u,
        ;
        // 2^(2 j) is not above p, so j stays small.
        lemma_pow2_pos(j);
        if j == 60 {
            lemma2_to64_rest();
            assert(u == 0x1000_0000_0000_0000);
            assert(p >= u * u) by (nonlinear_arith)
                requires
                    p == d * (u * u),
                    d >= 1,
                    u > 0,
            ;
            assert(u * u >= 0x100_0000_0000_0000_0000_0000_0000) by (nonlinear_arith)
                requires
                    u == 0x1000_0000_0000_0000,
            ;
        }
        lemma_root_of_integer(d, 4 * p, j + 1);
    }
}

/// Neighbouring patterns up to a power of two are not further apart than that
/// power with 52 binary digits less.
proof fn lemma_step_bound(k: int)
    requires
        0 <= k <= 1047 * 0x10_0000_0000_0000,
    ensures
        grid(k + 1) - grid(k) <= pow2(1046),
{
    let e = k / 0x10_0000_0000_0000;
    let b: nat = if e == 0 {
        0
    } else {
        (e - 1) as nat
    };
    let j = k - b * 0x10_0000_0000_0000;
    lemma_grid_scaled(b, j);
    lemma_grid_scaled(b, j + 1);
    assert((j + 1) * pow2(b) - j * pow2(b) == pow2(b)) by (nonlinear_arith);
    if b < 1046 {
        vstd::arithmetic::power2::lemma_pow2_strictly_increases(b, 1046);
    }
}

/// Of integers of up to 50 binary digits the larger has the larger square root,
/// also after rounding.
proof fn lemma_roots_strictly_ordered(c: int, d: int)
    requires
        0 < c < d <= 0x4_0000_0000_0000,
    ensures
        ({
            let w = pow2(1073) as int;
            0 < round_root(c * (w * w)) < round_root(d * (w * w)) < INFINITE
        }),
{
    let w = pow2(1073) as int;
    lemma_pow2_pos(1073);
    lemma2_to64();
    assert(c * (pow2(0) * pow2(0)) == c && d * (pow2(0) * pow2(0)) == d) by (nonlinear_arith)
        requires
            pow2(0) == 1,
    ;
    lemma_root_of_integer(c, c, 0);
    lemma_root_of_integer(d, d, 0);
    let m = c * (w * w);
    let n = d * (w * w);
    let i = round_root(m);
    let j = round_root(n);
    assert(m + w * w <= n) by (nonlinear_arith)
        requires
            m == c * (w * w),
            n == d * (w * w),
            c + 1 <= d,
            w > 0,
    ;
    assert(w * w > 0) by (nonlinear_arith)
        requires
            w > 0,
    ;
    lemma_grid_step(i);
    lemma_grid_step(i - 1);
    lemma_grid_step(j);
    lemma_grid_step(j - 1);
    let low = grid(i - 1) + grid(i);
    let high = grid(j) + grid(j + 1);
    assert(low * low < 4 * m);
    assert(4 * n < high * high);
    if i > j {
        if j < i - 1 {
            lemma_grid_increasing(j, i - 1);
            lemma_grid_increasing(j + 1, i);
        }
        lemma_square_monotone(high, low);
    } else if i == j {
        // The two would lie too near to each other.
        let f = grid(i - 1);
        let g = grid(i);
        let h = grid(i + 1);
        let s = pow2(1046) as int;
        lemma_pow2_adds(27, 1046);
        lemma2_to64();
        assert(w == 0x800_0000 * s);
        lemma_pow2_pos(1046);
        let top = 1047 * 0x10_0000_0000_0000int;
        lemma_grid_scaled(1046, 0x10_0000_0000_0000);
        assert(1046 * 0x10_0000_0000_0000int + 0x10_0000_0000_0000 == top);
        assert(grid(top) == 0x10_0000_0000_0000 * s);
        assert(4 * m <= 4 * 0x4_0000_0000_0000 * (w * w)) by (nonlinear_arith)
            requires
                m == c * (w * w),
                c <= 0x4_0000_0000_0000,
                w > 0,
        ;
        assert(low < 0x400_0000 * w) by (nonlinear_arith)
            requires
                low * low < 4 * m,
                4 * m <= 4 * 0x4_0000_0000_0000 * (w * w),
                low >= 0,
                w > 0,
        ;
        assert(0x400_0000 * w == 2 * (0x10_0000_0000_0000 * s));
        if i - 1 > top {
            lemma_grid_increasing(top, i - 1);
            assert(false);
        }
        if i - 1 == top {
            assert(f == grid(top));
            assert(false);
        }
        lemma_step_bound(i - 1);
        lemma_step_bound(i);
        assert(g <= f + s && h <= f + 2 * s);
        assert(f < 0x10_0000_0000_0000 * s);
        assert(high * high - low * low == (h - f) * (h + 2 * g + f)) by (nonlinear_arith)
            requires
                high == g + h,
                low == f + g,
        ;
        assert((h - f) * (h + 2 * g + f) <= (2 * s) * (4 * f + 4 * s)) by (nonlinear_arith)
            requires
                0 <= h - f <= 2 * s,
                0 <= h + 2 * g + f <= 4 * f + 4 * s,
        ;
        assert((2 * s) * (4 * f + 4 * s) < 4 * (w * w)) by (nonlinear_arith)
            requires
                0 <= f < 0x10_0000_0000_0000 * s,
                w == 0x800_0000 * s,
                s > 0,
        ;
        assert(false);
    }
}

/// The distance of a point from a place given in halves, counted in halves.
pub(crate) proof fn lemma_distance_in_halves(x: int, w: int, y: int, h: int)
    requires
        0 <= x <= 0x100_0000,
        0 <= y <= 0x100_0000,
        0 <= w <= 0x200_0000,
        0 <= h <= 0x200_0000,
    ensures
        ({
            let dx = difference(of_int(x), quotient(of_int(w), of_int(2)));
            let dy = difference(of_int(y), quotient(of_int(h), of_int(2)));
            let a = (2 * x - w) * (2 * x - w);
            let b = (2 * y - h) * (2 * y - h);
            let r = square_root(sum(product(dx, dx), product(dy, dy)));
            let half = pow2(1073) as int;
            &&& 0 <= a + b <= 0x8_0000_0000_0000
            &&& a + b == 0 ==> r.bits == 0
            &&& a + b > 0 ==> r == Double::pack(false, round_root((a + b) * (half * half)))
        }),
{
    let half = pow2(1073) as int;
    let quarter = pow2(1072) as int;
    let unit = pow2(1074) as int;
    lemma_pow2_unfold(1074);
    lemma_pow2_unfold(1073);
    lemma_pow2_pos(1072);
    lemma_grid_scaled(0, 0);
    let dx = difference(of_int(x), quotient(of_int(w), of_int(2)));
    let dy = difference(of_int(y), quotient(of_int(h), of_int(2)));
    let a = (2 * x - w) * (2 * x - w);
    let b = (2 * y - h) * (2 * y - h);
    assert(0 <= a <= 0x4_0000_0000_0000) by (nonlinear_arith)
        requires
            a == (2 * x - w) * (2 * x - w),
            -0x200_0000 <= 2 * x - w <= 0x200_0000,
    ;
    assert(0 <= b <= 0x4_0000_0000_0000) by (nonlinear_arith)
        requires
            b == (2 * y - h) * (2 * y - h),
            -0x200_0000 <= 2 * y - h <= 0x200_0000,
    ;
    lemma_halves_apart(x, w);
    lemma_halves_apart(y, h);
    lemma_square_of_halves(dx, 2 * x - w);
    lemma_square_of_halves(dy, 2 * y - h);
    let p = product(dx, dx);
    let q = product(dy, dy);
    let s = sum(p, q);
    assert(a * quarter + b * quarter == (a + b) * quarter) by (nonlinear_arith);
    assert(s == rounded_units((a + b) * quarter));
    if a + b == 0 {
        assert((a + b) * quarter == 0) by (nonlinear_arith)
            requires
                a + b == 0,
        ;
        lemma_exact_units(0, 0);
        lemma_round_zero(1);
        assert(s == Double::pack(false, 0));
        assert(s.zero());
    } else {
        assert(pow2(0) == 1) by {
            lemma2_to64();
        }
        assert((a + b) * pow2(0) == a + b);
        let k = lemma_scaled_pattern(a + b, 0, 1072);
        assert((a + b) * quarter > 0) by (nonlinear_arith)
            requires
                a + b > 0,
                quarter > 0,
        ;
        lemma_exact_units((a + b) * quarter, k);
        assert(!s.negative());
        assert(grid(s.magnitude()) == (a + b) * quarter);
        assert(!s.zero());
        assert(((a + b) * quarter) * unit == (a + b) * (half * half)) by (nonlinear_arith)
            requires
                unit == 2 * half,
                half == 2 * quarter,
        ;
    }
}

/// An integer and a number of halves are exactly so far apart.
proof fn lemma_halves_apart(x: int, w: int)
    requires
        0 <= x <= 0x100_0000,
        0 <= w <= 0x200_0000,
    ensures
        ({
            let d = difference(of_int(x), quotient(of_int(w), of_int(2)));
            d.finite() && d.units() == (2 * x - w) * pow2(1073)
        }),
{
    let half = pow2(1073) as int;
    let unit = pow2(1074) as int;
    lemma_pow2_unfold(1074);
    lemma_pow2_pos(1073);
    lemma_grid_scaled(0, 0);
    lemma2_to64();
    small_integers_are_exact(x);
    small_integers_are_exact(w);
    small_integers_are_exact(2);
    let v = of_int(w);
    let two = of_int(2);
    assert(grid(two.magnitude()) > 0) by (nonlinear_arith)
        requires
            grid(two.magnitude()) == 2 * unit,
            unit > 0,
    ;
    assert(!two.zero());
    let q = quotient(v, two);
    if w == 0 {
        assert(w * unit == 0) by (nonlinear_arith)
            requires
                w == 0,
        ;
        assert(grid(v.magnitude()) * unit == 0) by (nonlinear_arith)
            requires
                grid(v.magnitude()) == 0,
        ;
        lemma_round_zero(grid(two.magnitude()));
        assert(q.magnitude() == 0);
        assert(w * half == 0) by (nonlinear_arith)
            requires
                w == 0,
        ;
    } else {
        assert(w * pow2(0) == w);
        let k = lemma_scaled_pattern(w, 0, 1073);
        assert(grid(v.magnitude()) * unit == grid(k) * grid(two.magnitude())) by (nonlinear_arith)
            requires
                grid(v.magnitude()) == w * unit,
                grid(k) == w * half,
                grid(two.magnitude()) == 2 * unit,
                unit == 2 * half,
        ;
        lemma_exact_ratio(k, grid(v.magnitude()) * unit, grid(two.magnitude()));
        assert(q.magnitude() == k);
    }
    assert(!q.negative() && q.finite() && q.units() == w * half);
    let e = 2 * x - w;
    assert(x * unit - w * half == e * half) by (nonlinear_arith)
        requires
            unit == 2 * half,
            e == 2 * x - w,
    ;
    let f = negation(q);
    assert(f.units() == -(w * half));
    let d = difference(of_int(x), q);
    assert(!of_int(x).negative());
    assert(d == rounded_units(e * half));
    let m = if e < 0 {
        -e
    } else {
        e
    };
    if e == 0 {
        assert(e * half == 0) by (nonlinear_arith)
            requires
                e == 0,
        ;
        lemma_exact_units(0, 0);
    } else {
        assert(m * pow2(0) == m);
        let k = lemma_scaled_pattern(m, 0, 1073);
        assert((e < 0 ==> e * half < 0 && -(e * half) == m * half) && (e > 0 ==> e * half > 0
            && e * half == m * half)) by (nonlinear_arith)
            requires
                m == (if e < 0 {
                    -e
                } else {
                    e
                }),
                half > 0,
        ;
        lemma_exact_units(e * half, k);
    }
}

/// The square of a number of halves is that many quarters.
proof fn lemma_square_of_halves(d: Double, e: int)
    requires
        d.finite(),
        d.units() == e * pow2(1073),
        -0x200_0000 <= e <= 0x200_0000,
    ensures
        product(d, d).finite(),
        !product(d, d).negative(),
        product(d, d).units() == (e * e) * pow2(1072),
{
    let half = pow2(1073) as int;
    let quarter = pow2(1072) as int;
    let unit = pow2(1074) as int;
    lemma_pow2_unfold(1074);
    lemma_pow2_unfold(1073);
    lemma_pow2_pos(1072);
    lemma_grid_scaled(0, 0);
    lemma2_to64();
    let g = grid(d.magnitude());
    lemma_grid_step(d.magnitude());
    let a = e * e;
    assert(0 <= a <= 0x4_0000_0000_0000) by (nonlinear_arith)
        requires
            a == e * e,
            -0x200_0000 <= e <= 0x200_0000,
    ;
    assert(g * g == (a * quarter) * unit) by (nonlinear_arith)
        requires
            g == e * half || g == -(e * half),
            a == e * e,
            unit == 2 * half,
            half == 2 * quarter,
    ;
    if a == 0 {
        assert(g * g == 0) by (nonlinear_arith)
            requires
                g * g == (a * quarter) * unit,
                a == 0,
        ;
        lemma_round_zero(unit);
        assert(a * quarter == 0) by (nonlinear_arith)
            requires
                a == 0,
        ;
    } else {
        assert(a * pow2(0) == a);
        let k = lemma_scaled_pattern(a, 0, 1072);
        lemma_exact_ratio(k, g * g, unit);
        assert(product(d, d).magnitude() == k);
    }
}

/// Of two points the one whose distance from a place given in halves is shorter
/// has the smaller distance after rounding too, and equal distances stay equal.
pub(crate) proof fn lemma_distances_ordered(
    x: int,
    y: int,
    u: int,
    v: int,
    w: int,
    h: int,
)
    requires
        0 <= x <= 0x80_0000,
        0 <= y <= 0x80_0000,
        0 <= u <= 0x80_0000,
        0 <= v <= 0x80_0000,
        0 <= w <= 0x100_0000,
        0 <= h <= 0x100_0000,
    ensures
        ({
            let cx = quotient(of_int(w), of_int(2));
            let cy = quotient(of_int(h), of_int(2));
            let one = (2 * x - w) * (2 * x - w) + (2 * y - h) * (2 * y - h);
            let other = (2 * u - w) * (2 * u - w) + (2 * v - h) * (2 * v - h);
            let d = square_root(
                sum(
                    product(difference(of_int(x), cx), difference(of_int(x), cx)),
                    product(difference(of_int(y), cy), difference(of_int(y), cy)),
                ),
            );
            let e = square_root(
                sum(
                    product(difference(of_int(u), cx), difference(of_int(u), cx)),
                    product(difference(of_int(v), cy), difference(of_int(v), cy)),
                ),
            );
            &&& place(d) < place(e) <==> one < other
            &&& d == e <==> one == other
            &&& below(d, e) <==> one < other
        }),
{
    lemma_distance_in_halves(x, w, y, h);
    lemma_distance_in_halves(u, w, v, h);
    let one = (2 * x - w) * (2 * x - w) + (2 * y - h) * (2 * y - h);
    let other = (2 * u - w) * (2 * u - w) + (2 * v - h) * (2 * v - h);
    assert(one <= 0x4_0000_0000_0000) by (nonlinear_arith)
        requires
            one == (2 * x - w) * (2 * x - w) + (2 * y - h) * (2 * y - h),
            -0x100_0000 <= 2 * x - w <= 0x100_0000,
            -0x100_0000 <= 2 * y - h <= 0x100_0000,
    ;
    assert(other <= 0x4_0000_0000_0000) by (nonlinear_arith)
        requires
            other == (2 * u - w) * (2 * u - w) + (2 * v - h) * (2 * v - h),
            -0x100_0000 <= 2 * u - w <= 0x100_0000,
            -0x100_0000 <= 2 * v - h <= 0x100_0000,
    ;
    lemma_roots_placed(one, other);
    lemma_roots_placed(other, one);
}

/// The places of the roots of two integers in halves.
proof fn lemma_roots_placed(c: int, d: int)
    requires
        0 <= c <= 0x4_0000_0000_0000,
        0 <= d <= 0x4_0000_0000_0000,
    ensures
        ({
            let w = pow2(1073) as int;
            let i = if c == 0 {
                0
            } else {
                round_root(c * (w * w))
            };
            let j = if d == 0 {
                0
            } else {
                round_root(d * (w * w))
            };
            &&& 0 <= i < INFINITE
            &&& 0 <= j < INFINITE
            &&& c < d ==> i < j && grid(i) < grid(j)
        }),
{
    let w = pow2(1073) as int;
    lemma2_to64();
    if c > 0 {
        assert(c * (pow2(0) * pow2(0)) == c) by (nonlinear_arith)
            requires
                pow2(0) == 1,
        ;
        lemma_root_of_integer(c, c, 0);
    }
    if d > 0 {
        assert(d * (pow2(0) * pow2(0)) == d) by (nonlinear_arith)
            requires
                pow2(0) == 1,
        ;
        lemma_root_of_integer(d, d, 0);
    }
    if c < d {
        if c > 0 {
            lemma_roots_strictly_ordered(c, d);
            lemma_grid_increasing(round_root(c * (w * w)), round_root(d * (w * w)));
        } else {
            lemma_grid_increasing(0, round_root(d * (w * w)));
        }
    }
}

/// Integers that are not negative multiply to the integer.
pub(crate) proof fn lemma_product_of_integers(a: int, b: int)
    requires
        0 <= a <= 0x20_0000_0000_0000,
        0 <= b <= 0x20_0000_0000_0000,
        0 <= a * b <= 0x20_0000_0000_0000,
    ensures
        product(of_int(a), of_int(b)) == of_int(a * b),
{
    integers_multiply_exactly(a, b);
    small_integers_are_exact(a);
    small_integers_are_exact(b);
    small_integers_are_exact(a * b);
    let p = product(of_int(a), of_int(b));
    let q = of_int(a * b);
    lemma_pow2_pos(1074);
    let g = grid(of_int(a).magnitude());
    let h = grid(of_int(b).magnitude());
    lemma_grid_step(of_int(a).magnitude());
    lemma_grid_step(of_int(b).magnitude());
    assert(g * h >= 0) by (nonlinear_arith)
        requires
            g >= 0,
            h >= 0,
    ;
    lemma_nearest_to_any(g * h, pow2(1074) as int);
    assert(!p.negative() && !q.negative());
    if p.magnitude() < q.magnitude() {
        lemma_grid_increasing(p.magnitude(), q.magnitude());
    }
    if q.magnitude() < p.magnitude() {
        lemma_grid_increasing(q.magnitude(), p.magnitude());
    }
}

/// The distance of a point from a place given in halves is a finite number.
pub(crate) proof fn lemma_distance_is_number(x: int, w: int, y: int, h: int)
    requires
        0 <= x <= 0x80_0000,
        0 <= y <= 0x80_0000,
        0 <= w <= 0x100_0000,
        0 <= h <= 0x100_0000,
    ensures
        ({
            let dx = difference(of_int(x), quotient(of_int(w), of_int(2)));
            let dy = difference(of_int(y), quotient(of_int(h), of_int(2)));
            square_root(sum(product(dx, dx), product(dy, dy))).finite()
        }),
{
    lemma_distance_in_halves(x, w, y, h);
    let one = (2 * x - w) * (2 * x - w) + (2 * y - h) * (2 * y - h);
    assert(one <= 0x4_0000_0000_0000) by (nonlinear_arith)
        requires
            one == (2 * x - w) * (2 * x - w) + (2 * y - h) * (2 * y - h),
            -0x100_0000 <= 2 * x - w <= 0x100_0000,
            -0x100_0000 <= 2 * y - h <= 0x100_0000,
    ;
    lemma_roots_placed(one, one);
}

} // verus!
