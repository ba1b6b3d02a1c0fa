//! Picking elements of a list.
use vstd::prelude::*;

verus! {

/// Filtering one element more.
pub(crate) proof fn lemma_filter_step<T>(s: Seq<T>, i: int, pred: spec_fn(T) -> bool)
    requires
        0 <= i < s.len(),
    ensures
        s.take(i + 1).filter(pred) == (if pred(s[i]) {
            s.take(i).filter(pred).push(s[i])
        } else {
            s.take(i).filter(pred)
        }),
{
    reveal(Seq::filter);
    let t = s.take(i + 1);
    assert(t.drop_last() =~= s.take(i));
    assert(t.last() == s[i]);
}

/// Filtering nothing.
pub(crate) proof fn lemma_filter_start<T>(s: Seq<T>, pred: spec_fn(T) -> bool)
    ensures
        s.take(0).filter(pred) == Seq::<T>::empty(),
{
    reveal(Seq::filter);
    assert(s.take(0) =~= Seq::<T>::empty());
}

/// Filtering makes no duplicates.
pub(crate) proof fn lemma_filter_no_duplicates<T>(s: Seq<T>, pred: spec_fn(T) -> bool)
    requires
        s.no_duplicates(),
    ensures
        s.filter(pred).no_duplicates(),
    decreases s.len(),
{
    reveal(Seq::filter);
    if s.len() > 0 {
        let t = s.drop_last();
        lemma_filter_no_duplicates(t, pred);
        if t.filter(pred).contains(s.last()) {
            t.lemma_filter_contains_rev(pred, s.last());
            let k = t.index_of(s.last());
            assert(s[k] == s[s.len() - 1]);
        }
    }
}

/// The elements for which `f`, which decides `pred`, holds.
pub(crate) fn keep<T: Copy, F: Fn(&T) -> bool>(
    items: &Vec<T>,
    f: F,
    Ghost(pred): Ghost<spec_fn(T) -> bool>,
) -> (r: Vec<T>)
    requires
        forall|a: T| call_requires(f, (&a,)),
        forall|a: T, c: bool| call_ensures(f, (&a,), c) ==> c == pred(a),
    ensures
        r@ == items@.filter(pred),
{
    let mut r: Vec<T> = Vec::new();
    let mut i: usize = 0;
    proof {
        lemma_filter_start(items@, pred);
    }
    while i < items.len()
        invariant
            i <= items@.len(),
            r@ == items@.take(i as int).filter(pred),
            forall|a: T| call_requires(f, (&a,)),
            forall|a: T, c: bool| call_ensures(f, (&a,), c) ==> c == pred(a),
        decreases items@.len() - i,
    {
        let x: T = items[i];
        proof {
            lemma_filter_step(items@, i as int, pred);
        }
        if f(&x) {
            r.push(x);
        }
        i = i + 1;
    }
    assert(items@.take(i as int) =~= items@);
    r
}

/// Predicates that agree on the elements pick the same ones.
pub(crate) proof fn lemma_filter_same<T>(s: Seq<T>, f: spec_fn(T) -> bool, g: spec_fn(T) -> bool)
    requires
        forall|i: int| 0 <= i < s.len() ==> f(#[trigger] s[i]) == g(s[i]),
    ensures
        s.filter(f) == s.filter(g),
    decreases s.len(),
{
    reveal(Seq::filter);
    if s.len() > 0 {
        let t = s.drop_last();
        assert forall|i: int| 0 <= i < t.len() implies f(#[trigger] t[i]) == g(t[i]) by {
            assert(t[i] == s[i]);
        }
        lemma_filter_same(t, f, g);
        assert(f(s[s.len() - 1]) == g(s[s.len() - 1]));
    }
}

/// Where every element is picked, nothing goes.
pub(crate) proof fn lemma_filter_all<T>(s: Seq<T>, f: spec_fn(T) -> bool)
    requires
        forall|i: int| 0 <= i < s.len() ==> f(#[trigger] s[i]),
    ensures
        s.filter(f) == s,
    decreases s.len(),
{
    reveal(Seq::filter);
    if s.len() > 0 {
        let t = s.drop_last();
        assert forall|i: int| 0 <= i < t.len() implies f(#[trigger] t[i]) by {
            assert(t[i] == s[i]);
        }
        lemma_filter_all(t, f);
        assert(f(s[s.len() - 1]));
        assert(t.push(s.last()) =~= s);
    }
}

/// What holds of every pair of elements in their order holds of those picked.
pub(crate) proof fn lemma_filter_keeps_order<T>(
    s: Seq<T>,
    pred: spec_fn(T) -> bool,
    before: spec_fn(T, T) -> bool,
)
    requires
        forall|i: int, j: int| 0 <= i < j < s.len() ==> before(#[trigger] s[i], #[trigger] s[j]),
    ensures
        forall|i: int, j: int|
            0 <= i < j < s.filter(pred).len() ==> before(
                #[trigger] s.filter(pred)[i],
                #[trigger] s.filter(pred)[j],
            ),
    decreases s.len(),
{
    reveal(Seq::filter);
    if s.len() > 0 {
        let t = s.drop_last();
        assert forall|i: int, j: int| 0 <= i < j < t.len() implies before(
            #[trigger] t[i],
            #[trigger] t[j],
        ) by {
            assert(before(s[i], s[j]));
        }
        lemma_filter_keeps_order(t, pred, before);
        let r = s.filter(pred);
        let q = t.filter(pred);
        assert forall|i: int, j: int| 0 <= i < j < r.len() implies before(
            #[trigger] r[i],
            #[trigger] r[j],
        ) by {
            if j < q.len() {
                assert(before(q[i], q[j]));
            } else {
                assert(q.contains(q[i]));
                t.lemma_filter_contains_rev(pred, q[i]);
                let k = t.index_of(q[i]);
                assert(before(s[k], s[s.len() - 1]));
            }
        }
    }
}

} // verus!
