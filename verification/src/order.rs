//! The ordering that sorted chains rely on, stated over the standard
//! comparison operators of an element type.

use vstd::prelude::*;
use vstd::std_specs::cmp::PartialEqSpec;
use vstd::std_specs::cmp::PartialOrdSpec;
use core::cmp::Ordering;

verus! {

/// `a` sorts strictly before `b`.
pub open spec fn less<T: PartialOrd>(a: T, b: T) -> bool {
    a.partial_cmp_spec(&b) == Some(Ordering::Less)
}

/// The operators `==` and `<` of `T` behave as their specifications say, `==`
/// is identity of values, and `<` is a strict total order.
pub open spec fn strict_total_order<T: PartialOrd>() -> bool {
    &&& T::obeys_eq_spec()
    &&& T::obeys_partial_cmp_spec()
    &&& forall|a: T, b: T| #[trigger] a.eq_spec(&b) <==> (a == b)
    &&& forall|a: T, b: T| a == b || #[trigger] less(a, b) || less(b, a)
    &&& forall|a: T, b: T| #[trigger] less(a, b) ==> !less(b, a) && a != b
    &&& forall|a: T, b: T, c: T| #[trigger] less(a, b) && #[trigger] less(b, c) ==> less(a, c)
}

/// `==` of `T` behaves as its specification says and is identity of values.
pub open spec fn exact_eq<T: PartialEq>() -> bool {
    &&& T::obeys_eq_spec()
    &&& forall|a: T, b: T| #[trigger] a.eq_spec(&b) <==> (a == b)
}

/// No element of `s` sorts before an earlier one.
pub open spec fn ascending<T: PartialOrd>(s: Seq<T>) -> bool {
    forall|i: int, j: int| 0 <= i < j < s.len() ==> !less(#[trigger] s[j], #[trigger] s[i])
}

/// Every element of `s` sorts strictly before all later ones.
pub open spec fn strictly_ascending<T: PartialOrd>(s: Seq<T>) -> bool {
    forall|i: int, j: int| 0 <= i < j < s.len() ==> less(#[trigger] s[i], #[trigger] s[j])
}

/// The machine integers are strictly and totally ordered, and their `==` is
/// identity.
pub proof fn lemma_integers_are_ordered()
    ensures
        strict_total_order::<usize>(),
        strict_total_order::<u64>(),
        strict_total_order::<u32>(),
        strict_total_order::<u16>(),
        strict_total_order::<u8>(),
        strict_total_order::<isize>(),
        strict_total_order::<i64>(),
        strict_total_order::<i32>(),
        strict_total_order::<i16>(),
        strict_total_order::<i8>(),
        exact_eq::<usize>(),
        exact_eq::<u64>(),
        exact_eq::<u32>(),
        exact_eq::<i64>(),
        exact_eq::<i32>(),
        exact_eq::<bool>(),
{
}

/// A strictly ascending sequence holds no value twice.
pub proof fn lemma_strict_no_duplicates<T: PartialOrd>(s: Seq<T>)
    requires
        strict_total_order::<T>(),
        strictly_ascending(s),
    ensures
        s.no_duplicates(),
{
}

} // verus!
