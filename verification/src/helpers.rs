//! Small numeric helpers.
use std::ops::{Add, Div};
use vstd::prelude::*;
use vstd::std_specs::ops::{AddSpec, DivSpec};

verus! {

/// `i16::from` of a byte: the same number.
pub assume_specification[ <i16 as From<u8>>::from ](small: u8) -> (r: i16)
    ensures
        r == small,
;

/// `i32::from` of a byte: the same number.
pub assume_specification[ <i32 as From<u8>>::from ](small: u8) -> (r: i32)
    ensures
        r == small,
;

/// `i64::from` of a byte: the same number.
pub assume_specification[ <i64 as From<u8>>::from ](small: u8) -> (r: i64)
    ensures
        r == small,
;

/// `i128::from` of a byte: the same number.
pub assume_specification[ <i128 as From<u8>>::from ](small: u8) -> (r: i128)
    ensures
        r == small,
;

/// `isize::from` of a byte: the same number.
pub assume_specification[ <isize as From<u8>>::from ](small: u8) -> (r: isize)
    ensures
        r == small,
;

/// `From` from a type to itself: the value unchanged.
pub assume_specification<Value>[ <Value as std::convert::From<Value>>::from ](
    value: Value,
) -> (r: Value)
    ensures
        r == value,
;

/// A result of adding two values and dividing by two.
pub open spec fn halfway<T>(a: T, b: T, r: T) -> bool where
    T: Add<Output = T> + Div<Output = T> + From<u8>,
 {
    exists|s: T, two: T|
        {
            &&& #[trigger] call_ensures(<T as Add>::add, (a, b), s)
            &&& #[trigger] call_ensures(<T as From<u8>>::from, (2u8,), two)
            &&& call_ensures(<T as Div>::div, (s, two), r)
        }
}

/// The two values can be added, and their sum can be divided by two.
pub open spec fn has_halfway<T>(a: T, b: T) -> bool where
    T: Add<Output = T> + Div<Output = T> + From<u8>,
 {
    &&& a.add_req(b)
    &&& forall|s: T, two: T| #[trigger]
        call_ensures(<T as Add>::add, (a, b), s) && #[trigger] call_ensures(
            <T as From<u8>>::from,
            (2u8,),
            two,
        ) ==> s.div_req(two)
}

/// The middle value of a sorted sequence: the one in the middle, or the sum of
/// the two in the middle divided by two.
pub open spec fn is_middle<T>(s: Seq<T>, r: Option<T>) -> bool where
    T: Add<Output = T> + Div<Output = T> + From<u8>,
 {
    let n = s.len() as int;
    if n == 0 {
        r is None
    } else if n % 2 == 0 {
        r is Some && halfway(s[n / 2 - 1], s[n / 2], r->0)
    } else {
        r == Some(s[n / 2])
    }
}

/// The median of values that are already sorted; `None` when there are none.
pub fn median<T>(sorted: &[T]) -> (r: Option<T>) where
    T: Copy + Add<Output = T> + Div<Output = T> + From<u8>,

    requires
        sorted@.len() > 0 && sorted@.len() % 2 == 0 ==> has_halfway(
            sorted@[sorted@.len() / 2 - 1],
            sorted@[sorted@.len() as int / 2],
        ),
    ensures
        is_middle(sorted@, r),
{
    let n: usize = sorted.len();
    if n == 0 {
        return None;
    }
    if n % 2 == 0 {
        Some((sorted[n / 2 - 1] + sorted[n / 2]) / T::from(2))
    } else {
        Some(sorted[n / 2])
    }
}

/// The median of integers is the one in the middle, or half of the sum of the
/// two in the middle, cut off towards zero.
pub proof fn medians_of_integers(sorted: Seq<i32>, r: Option<i32>)
    requires
        sorted.len() > 0,
        sorted.len() % 2 == 0 ==> i32::MIN <= sorted[sorted.len() / 2 - 1] + sorted[sorted.len() as int
            / 2] <= i32::MAX,
        is_middle(sorted, r),
    ensures
        ({
            let n = sorted.len() as int;
            let total = sorted[n / 2 - 1] + sorted[n / 2];
            &&& r is Some
            &&& r->0 == (if n % 2 == 1 {
                sorted[n / 2] as int
            } else if total >= 0 {
                total / 2
            } else {
                -(-total / 2)
            })
        }),
{
}

} // verus!
