//! Stable sorting by a relation, and the orders that the library sorts by.
use crate::double::{place, Double};
use vstd::prelude::*;

verus! {

/// `s` with `x` put behind the last element that may stand before it.
pub open spec fn inserted<T>(s: Seq<T>, x: T, leq: spec_fn(T, T) -> bool) -> Seq<T>
    decreases s.len(),
{
    if s.len() == 0 || leq(s.last(), x) {
        s.push(x)
    } else {
        inserted(s.drop_last(), x, leq).push(s.last())
    }
}

/// The elements of `s` arranged by `leq`; elements that may stand in either
/// order keep the order that they have in `s`.
pub open spec fn arranged<T>(s: Seq<T>, leq: spec_fn(T, T) -> bool) -> Seq<T>
    decreases s.len(),
{
    if s.len() == 0 {
        s
    } else {
        inserted(arranged(s.drop_last(), leq), s.last(), leq)
    }
}

/// Any two elements compare, and comparisons chain.
pub open spec fn preorder<T>(leq: spec_fn(T, T) -> bool) -> bool {
    &&& forall|a: T, b: T| #[trigger] leq(a, b) || leq(b, a)
    &&& forall|a: T, b: T, c: T| #[trigger] leq(a, b) && #[trigger] leq(b, c) ==> leq(a, c)
}

/// No element stands before one that it must follow.
pub open spec fn in_order<T>(s: Seq<T>, leq: spec_fn(T, T) -> bool) -> bool {
    forall|i: int, j: int| 0 <= i < j < s.len() ==> leq(#[trigger] s[i], #[trigger] s[j])
}

proof fn lemma_inserted<T>(s: Seq<T>, x: T, leq: spec_fn(T, T) -> bool)
    ensures
        inserted(s, x, leq).to_multiset() == s.to_multiset().insert(x),
        inserted(s, x, leq).len() == s.len() + 1,
    decreases s.len(),
{
    broadcast use vstd::seq_lib::group_to_multiset_ensures;

    if s.len() == 0 || leq(s.last(), x) {
    } else {
        lemma_inserted(s.drop_last(), x, leq);
        assert(s == s.drop_last().push(s.last()));
        assert(s.drop_last().to_multiset().insert(s.last()) == s.to_multiset());
        assert(s.drop_last().to_multiset().insert(x).insert(s.last())
            =~= s.drop_last().to_multiset().insert(s.last()).insert(x));
    }
}

/// Sequences with the same elements contain the same ones.
pub(crate) proof fn lemma_same_members<T>(s: Seq<T>, t: Seq<T>, x: T)
    requires
        s.to_multiset() == t.to_multiset(),
    ensures
        s.contains(x) <==> t.contains(x),
{
    s.to_multiset_ensures();
    t.to_multiset_ensures();
    assert(s.contains(x) <==> s.to_multiset().count(x) > 0);
    assert(t.contains(x) <==> t.to_multiset().count(x) > 0);
}

/// Arranging keeps every element, as often as it occurs.
pub proof fn arranging_keeps_the_elements<T>(s: Seq<T>, leq: spec_fn(T, T) -> bool)
    ensures
        arranged(s, leq).to_multiset() == s.to_multiset(),
        arranged(s, leq).len() == s.len(),
    decreases s.len(),
{
    broadcast use vstd::seq_lib::group_to_multiset_ensures;

    if s.len() > 0 {
        arranging_keeps_the_elements(s.drop_last(), leq);
        lemma_inserted(arranged(s.drop_last(), leq), s.last(), leq);
        assert(s == s.drop_last().push(s.last()));
    }
}

proof fn lemma_inserted_members<T>(s: Seq<T>, x: T, leq: spec_fn(T, T) -> bool, i: int)
    requires
        0 <= i < inserted(s, x, leq).len(),
    ensures
        inserted(s, x, leq)[i] == x || exists|j: int|
            0 <= j < s.len() && s[j] == inserted(s, x, leq)[i],
    decreases s.len(),
{
    lemma_inserted(s, x, leq);
    if s.len() == 0 || leq(s.last(), x) {
        if i < s.len() {
            assert(s[i] == inserted(s, x, leq)[i]);
        }
    } else {
        lemma_inserted(s.drop_last(), x, leq);
        if i < s.len() {
            lemma_inserted_members(s.drop_last(), x, leq, i);
            if inserted(s, x, leq)[i] != x {
                let j = choose|j: int|
                    0 <= j < s.drop_last().len() && s.drop_last()[j] == inserted(
                        s.drop_last(),
                        x,
                        leq,
                    )[i];
                assert(s[j] == inserted(s, x, leq)[i]);
            }
        } else {
            assert(s[s.len() - 1] == inserted(s, x, leq)[i]);
        }
    }
}

proof fn lemma_inserted_in_order<T>(s: Seq<T>, x: T, leq: spec_fn(T, T) -> bool)
    requires
        preorder(leq),
        in_order(s, leq),
    ensures
        in_order(inserted(s, x, leq), leq),
    decreases s.len(),
{
    let r = inserted(s, x, leq);
    lemma_inserted(s, x, leq);
    if s.len() == 0 {
    } else if leq(s.last(), x) {
        assert forall|i: int, j: int| 0 <= i < j < r.len() implies leq(
            #[trigger] r[i],
            #[trigger] r[j],
        ) by {
            if j == s.len() && i < s.len() - 1 {
                assert(leq(s[i], s[s.len() - 1]));
            }
        }
    } else {
        let t = s.drop_last();
        assert(in_order(t, leq)) by {
            assert forall|i: int, j: int| 0 <= i < j < t.len() implies leq(
                #[trigger] t[i],
                #[trigger] t[j],
            ) by {
                assert(leq(s[i], s[j]));
            }
        }
        lemma_inserted_in_order(t, x, leq);
        lemma_inserted(t, x, leq);
        assert forall|i: int, j: int| 0 <= i < j < r.len() implies leq(
            #[trigger] r[i],
            #[trigger] r[j],
        ) by {
            if j == s.len() {
                lemma_inserted_members(t, x, leq, i);
                assert(leq(s.last(), x) || leq(x, s.last()));
                if r[i] != x {
                    let k = choose|k: int| 0 <= k < t.len() && t[k] == inserted(t, x, leq)[i];
                    assert(leq(s[k], s[s.len() - 1]));
                }
            } else {
                assert(leq(inserted(t, x, leq)[i], inserted(t, x, leq)[j]));
            }
        }
    }
}

/// Arranging by a relation in which any two elements compare puts the elements
/// in order.
pub proof fn arranging_sorts<T>(s: Seq<T>, leq: spec_fn(T, T) -> bool)
    requires
        preorder(leq),
    ensures
        in_order(arranged(s, leq), leq),
    decreases s.len(),
{
    if s.len() > 0 {
        arranging_sorts(s.drop_last(), leq);
        lemma_inserted_in_order(arranged(s.drop_last(), leq), s.last(), leq);
    }
}

/// Elements that are in order already stay where they are.
pub proof fn arranging_keeps_a_sorted_sequence<T>(s: Seq<T>, leq: spec_fn(T, T) -> bool)
    requires
        in_order(s, leq),
    ensures
        arranged(s, leq) == s,
    decreases s.len(),
{
    if s.len() > 0 {
        let t = s.drop_last();
        assert forall|i: int, j: int| 0 <= i < j < t.len() implies leq(
            #[trigger] t[i],
            #[trigger] t[j],
        ) by {
            assert(leq(s[i], s[j]));
        }
        arranging_keeps_a_sorted_sequence(t, leq);
        if t.len() > 0 {
            assert(leq(s[s.len() - 2], s[s.len() - 1]));
        }
        assert(t.push(s.last()) == s);
    }
}

/// Where only equal elements may stand in either order, the arrangement depends
/// on which elements there are and not on the order in which they came.
pub proof fn arranging_forgets_the_order<T>(s: Seq<T>, t: Seq<T>, leq: spec_fn(T, T) -> bool)
    requires
        preorder(leq),
        forall|a: T, b: T| #[trigger] leq(a, b) && leq(b, a) ==> a == b,
        s.to_multiset() == t.to_multiset(),
    ensures
        arranged(s, leq) == arranged(t, leq),
{
    let x = arranged(s, leq);
    let y = arranged(t, leq);
    arranging_keeps_the_elements(s, leq);
    arranging_keeps_the_elements(t, leq);
    arranging_sorts(s, leq);
    arranging_sorts(t, leq);
    assert(vstd::relations::total_ordering(leq)) by {
        assert forall|a: T| #[trigger] leq(a, a) by {
            assert(leq(a, a) || leq(a, a));
        }
    }
    assert(vstd::relations::sorted_by(x, leq));
    assert(vstd::relations::sorted_by(y, leq));
    vstd::seq_lib::lemma_sorted_unique(x, y, leq);
}

proof fn lemma_inserted_same<T>(
    s: Seq<T>,
    x: T,
    f: spec_fn(T, T) -> bool,
    g: spec_fn(T, T) -> bool,
)
    requires
        forall|i: int| 0 <= i < s.len() ==> f(#[trigger] s[i], x) == g(s[i], x),
    ensures
        inserted(s, x, f) == inserted(s, x, g),
    decreases s.len(),
{
    if s.len() > 0 {
        assert(f(s[s.len() - 1], x) == g(s[s.len() - 1], x));
        let t = s.drop_last();
        assert forall|i: int| 0 <= i < t.len() implies f(#[trigger] t[i], x) == g(t[i], x) by {
            assert(t[i] == s[i]);
        }
        lemma_inserted_same(t, x, f, g);
    }
}

/// Relations that agree on the elements arrange them in the same way.
pub(crate) proof fn lemma_arranged_same<T>(
    s: Seq<T>,
    f: spec_fn(T, T) -> bool,
    g: spec_fn(T, T) -> bool,
)
    requires
        forall|i: int, j: int|
            0 <= i < s.len() && 0 <= j < s.len() ==> f(#[trigger] s[i], #[trigger] s[j]) == g(
                s[i],
                s[j],
            ),
    ensures
        arranged(s, f) == arranged(s, g),
    decreases s.len(),
{
    if s.len() > 0 {
        let t = s.drop_last();
        assert forall|i: int, j: int| 0 <= i < t.len() && 0 <= j < t.len() implies f(
            #[trigger] t[i],
            #[trigger] t[j],
        ) == g(t[i], t[j]) by {
            assert(f(s[i], s[j]) == g(s[i], s[j]));
        }
        lemma_arranged_same(t, f, g);
        let a = arranged(t, f);
        arranging_keeps_the_elements(t, f);
        assert forall|i: int| 0 <= i < a.len() implies f(#[trigger] a[i], s.last()) == g(
            a[i],
            s.last(),
        ) by {
            lemma_same_members(a, t, a[i]);
            assert(a.contains(a[i]));
            let m = t.index_of(a[i]);
            assert(f(s[m], s[s.len() - 1]) == g(s[m], s[s.len() - 1]));
        }
        lemma_inserted_same(a, s.last(), f, g);
    }
}

/// Sorts by `f`, which decides `leq`. Elements that may stand in either order
/// stay in the order in which they came.
pub(crate) fn arrange<T, F: Fn(&T, &T) -> bool>(
    items: Vec<T>,
    f: F,
    Ghost(leq): Ghost<spec_fn(T, T) -> bool>,
) -> (r: Vec<T>)
    requires
        forall|a: T, b: T|
            items@.contains(a) && items@.contains(b) ==> #[trigger] call_requires(f, (&a, &b)),
        forall|a: T, b: T, c: bool| call_ensures(f, (&a, &b), c) ==> c == leq(a, b),
    ensures
        r@ == arranged(items@, leq),
{
    let mut r = items;
    let n: usize = r.len();
    let mut i: usize = 0;
    assert forall|k: int| 0 <= k < n implies items@.contains(#[trigger] r@[k]) by {
        assert(items@[k] == r@[k]);
    }
    while i < n
        invariant
            n == items@.len(),
            i <= n,
            r@ == arranged(items@.take(i as int), leq) + items@.skip(i as int),
            arranged(items@.take(i as int), leq).len() == i,
            r@.len() == n,
            forall|k: int| 0 <= k < n ==> items@.contains(#[trigger] r@[k]),
            forall|a: T, b: T|
                items@.contains(a) && items@.contains(b) ==> #[trigger] call_requires(f, (&a, &b)),
            forall|a: T, b: T, c: bool| call_ensures(f, (&a, &b), c) ==> c == leq(a, b),
        decreases n - i,
    {
        let ghost done = arranged(items@.take(i as int), leq);
        let ghost before = r@;
        let x = r.remove(i);
        proof {
            assert(x == items@[i as int]);
            assert(items@.contains(x));
            assert forall|k: int| 0 <= k < n - 1 implies items@.contains(#[trigger] r@[k]) by {
                assert(items@.contains(before[k]));
                assert(items@.contains(before[k + 1]));
            }
            assert(r@ =~= done + items@.skip(i + 1));
            assert(done.take(i as int) == done);
            assert(inserted(done, x, leq) + done.skip(i as int) == inserted(done, x, leq));
            assert(r@.take(i as int) == done);
        }
        let mut k: usize = i;
        while k > 0 && !f(&r[k - 1], &x)
            invariant
                k <= i < n,
                r@.len() == n - 1,
                r@.take(i as int) == done,
                done.len() == i,
                items@.contains(x),
                forall|m: int| 0 <= m < n - 1 ==> items@.contains(#[trigger] r@[m]),
                inserted(done, x, leq) == inserted(done.take(k as int), x, leq) + done.skip(
                    k as int,
                ),
                forall|a: T, b: T|
                    items@.contains(a) && items@.contains(b) ==> #[trigger] call_requires(
                        f,
                        (&a, &b),
                    ),
                forall|a: T, b: T, c: bool| call_ensures(f, (&a, &b), c) ==> c == leq(a, b),
            ensures
                k <= i,
                inserted(done, x, leq) == inserted(done.take(k as int), x, leq) + done.skip(
                    k as int,
                ),
                k > 0 ==> leq(done[k - 1], x),
            decreases k,
        {
            proof {
                let p = done.take(k as int);
                assert(p.last() == done[k - 1]);
                assert(r@[k - 1] == done[k - 1]);
                assert(p.drop_last() == done.take(k - 1));
                assert(done.skip(k - 1) == seq![done[k - 1]] + done.skip(k as int));
                lemma_inserted(done.take(k - 1), x, leq);
            }
            k = k - 1;
        }
        let ghost shorter = r@;
        r.insert(k, x);
        proof {
            assert forall|m: int| 0 <= m < n implies items@.contains(#[trigger] r@[m]) by {
                if m < k {
                    assert(items@.contains(shorter[m]));
                } else if m > k {
                    assert(items@.contains(shorter[m - 1]));
                }
            }
            assert(done.take(k as int).push(x) == inserted(done.take(k as int), x, leq));
            let next = items@.take(i + 1);
            assert(next.drop_last() == items@.take(i as int));
            assert(next.last() == x);
            lemma_inserted(done, x, leq);
            assert(r@ =~= inserted(done, x, leq) + items@.skip(i + 1));
        }
        i = i + 1;
    }
    proof {
        assert(items@.take(n as int) == items@);
    }
    r
}

/// Numbers by the total order, least first.
pub open spec fn rising() -> spec_fn(Double, Double) -> bool {
    |a: Double, b: Double| place(a) <= place(b)
}

/// Numbers by the total order, greatest first.
pub open spec fn falling() -> spec_fn(Double, Double) -> bool {
    |a: Double, b: Double| place(b) <= place(a)
}

/// `values` sorted by the total order, least first.
pub(crate) fn sort_rising(values: Vec<Double>) -> (r: Vec<Double>)
    ensures
        r@ == arranged(values@, rising()),
        r@.len() == values@.len(),
{
    proof {
        arranging_keeps_the_elements(values@, rising());
    }
    let f = |a: &Double, b: &Double| -> (c: bool)
        ensures
            c == rising()(*a, *b),
        {
            a.total_at_most(*b)
        };
    arrange(values, f, Ghost(rising()))
}

/// `values` sorted by the total order, greatest first.
pub(crate) fn sort_falling(values: Vec<Double>) -> (r: Vec<Double>)
    ensures
        r@ == arranged(values@, falling()),
        r@.len() == values@.len(),
{
    proof {
        arranging_keeps_the_elements(values@, falling());
    }
    let f = |a: &Double, b: &Double| -> (c: bool)
        ensures
            c == falling()(*a, *b),
        {
            b.total_at_most(*a)
        };
    arrange(values, f, Ghost(falling()))
}

/// Byte strings in dictionary order.
pub open spec fn bytes_at_most(a: Seq<u8>, b: Seq<u8>) -> bool
    decreases a.len(),
{
    if a.len() == 0 {
        true
    } else if b.len() == 0 {
        false
    } else if a[0] != b[0] {
        a[0] < b[0]
    } else {
        bytes_at_most(a.drop_first(), b.drop_first())
    }
}

/// The dictionary order compares any two byte strings.
pub proof fn dictionary_order_is_total(a: Seq<u8>, b: Seq<u8>)
    ensures
        bytes_at_most(a, b) || bytes_at_most(b, a),
        bytes_at_most(a, b) && bytes_at_most(b, a) ==> a == b,
    decreases a.len(),
{
    if a.len() > 0 && b.len() > 0 && a[0] == b[0] {
        dictionary_order_is_total(a.drop_first(), b.drop_first());
        if a.drop_first() == b.drop_first() {
            assert(a =~= seq![a[0]] + a.drop_first());
            assert(b =~= seq![b[0]] + b.drop_first());
        }
    } else if a.len() == 0 && b.len() == 0 {
        assert(a =~= b);
    }
}

/// The dictionary order chains.
pub proof fn dictionary_order_is_transitive(a: Seq<u8>, b: Seq<u8>, c: Seq<u8>)
    requires
        bytes_at_most(a, b),
        bytes_at_most(b, c),
    ensures
        bytes_at_most(a, c),
    decreases a.len(),
{
    if a.len() > 0 && b.len() > 0 && c.len() > 0 && a[0] == b[0] && b[0] == c[0] {
        dictionary_order_is_transitive(a.drop_first(), b.drop_first(), c.drop_first());
    }
}

/// Whether `a` comes before `b` in dictionary order or equals it.
pub(crate) fn compare_bytes(a: &[u8], b: &[u8]) -> (r: bool)
    ensures
        r == bytes_at_most(a@, b@),
{
    let mut i: usize = 0;
    assert(a@.skip(0) == a@ && b@.skip(0) == b@);
    while i < a.len() && i < b.len()
        invariant
            i <= a@.len(),
            i <= b@.len(),
            bytes_at_most(a@, b@) == bytes_at_most(a@.skip(i as int), b@.skip(i as int)),
        decreases a@.len() - i,
    {
        if a[i] != b[i] {
            return a[i] < b[i];
        }
        proof {
            assert(a@.skip(i as int).drop_first() == a@.skip(i + 1));
            assert(b@.skip(i as int).drop_first() == b@.skip(i + 1));
        }
        i = i + 1;
    }
    i == a.len()
}

/// The first byte that differs decides which of two names comes first.
pub proof fn the_first_difference_decides(a: Seq<u8>, b: Seq<u8>, i: int)
    requires
        0 <= i < a.len(),
        i < b.len(),
        a.take(i) == b.take(i),
        a[i] != b[i],
    ensures
        bytes_at_most(a, b) <==> a[i] < b[i],
    decreases i,
{
    if i > 0 {
        assert(a[0] == a.take(i)[0]);
        assert(b[0] == b.take(i)[0]);
        let s = a.drop_first();
        let t = b.drop_first();
        assert(s.take(i - 1) =~= a.take(i).drop_first());
        assert(t.take(i - 1) =~= b.take(i).drop_first());
        the_first_difference_decides(s, t, i - 1);
    }
}

/// A name comes before every longer one that begins with it.
pub proof fn beginnings_come_first(a: Seq<u8>, more: Seq<u8>)
    ensures
        bytes_at_most(a, a + more),
        more.len() > 0 ==> !bytes_at_most(a + more, a),
    decreases a.len(),
{
    if a.len() > 0 {
        assert((a + more).drop_first() =~= a.drop_first() + more);
        beginnings_come_first(a.drop_first(), more);
    }
}

/// Elements that neither come before the other keep their order.
pub proof fn arranging_is_stable<T>(s: Seq<T>, leq: spec_fn(T, T) -> bool, c: T)
    requires
        preorder(leq),
    ensures
        arranged(s, leq).filter(|x: T| leq(x, c) && leq(c, x)) == s.filter(
            |x: T| leq(x, c) && leq(c, x),
        ),
    decreases s.len(),
{
    let like = |x: T| leq(x, c) && leq(c, x);
    reveal(Seq::filter);
    if s.len() > 0 {
        arranging_is_stable(s.drop_last(), leq, c);
        lemma_inserted_like(arranged(s.drop_last(), leq), s.last(), leq, c);
    }
}

/// Among the elements like it, the one inserted comes last.
proof fn lemma_inserted_like<T>(s: Seq<T>, x: T, leq: spec_fn(T, T) -> bool, c: T)
    requires
        preorder(leq),
    ensures
        ({
            let like = |y: T| leq(y, c) && leq(c, y);
            inserted(s, x, leq).filter(like) == (if like(x) {
                s.filter(like).push(x)
            } else {
                s.filter(like)
            })
        }),
    decreases s.len(),
{
    let like = |y: T| leq(y, c) && leq(c, y);
    reveal(Seq::filter);
    let r = inserted(s, x, leq);
    if s.len() == 0 || leq(s.last(), x) {
        assert(r.drop_last() =~= s);
    } else {
        let t = s.drop_last();
        lemma_inserted_like(t, x, leq, c);
        assert(r.drop_last() =~= inserted(t, x, leq));
        assert(r.last() == s.last());
        if like(x) {
            if like(s.last()) {
                assert(leq(s.last(), c) && leq(c, x));
                assert(false);
            }
        }
    }
}

/// Sorting downwards gives the one arrangement of the values that falls.
pub(crate) proof fn lemma_falling_unique(values: Seq<Double>, sorted: Seq<Double>)
    requires
        sorted.to_multiset() == values.to_multiset(),
        forall|i: int, j: int|
            0 <= i < j < sorted.len() ==> place(#[trigger] sorted[j]) <= place(#[trigger] sorted[i]),
    ensures
        arranged(values, falling()) == sorted,
        values.len() == sorted.len(),
{
    let leq = falling();
    assert forall|a: Double, b: Double| #[trigger] leq(a, b) && leq(b, a) implies a == b by {
        crate::double::total_order_separates_patterns(a, b);
    }
    arranging_forgets_the_order(values, sorted, leq);
    assert(in_order(sorted, leq));
    arranging_keeps_a_sorted_sequence(sorted, leq);
    arranging_keeps_the_elements(values, leq);
}

} // verus!
