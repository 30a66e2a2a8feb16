//! The order on keys, as the heap's contracts speak of it.

use vstd::prelude::*;
use vstd::std_specs::cmp::{PartialEqSpec, PartialOrdSpec};
use core::cmp::Ordering;

verus! {

/// `a` is strictly below `b` in the order of `K`.
pub open spec fn key_lt<K: Ord>(a: K, b: K) -> bool {
    a.partial_cmp_spec(&b) == Some(Ordering::Less)
}

/// `a` is below `b` or equal to it in the order of `K`.
pub open spec fn key_le<K: Ord>(a: K, b: K) -> bool {
    !key_lt(b, a)
}

/// The comparison operators of `K` compute a total order: `key_le` is reflexive,
/// transitive and total.
pub open spec fn lawful_order<K: Ord>() -> bool {
    &&& K::obeys_partial_cmp_spec()
    &&& forall|a: K, b: K| #[trigger] key_lt(a, b) ==> !key_lt(b, a)
    &&& forall|a: K, b: K, c: K| #[trigger] key_le(a, b) && #[trigger] key_le(b, c) ==> key_le(a, c)
}

/// The equality operator of `I` decides whether two items are the same value.
pub open spec fn lawful_eq<I: PartialEq>() -> bool {
    &&& I::obeys_eq_spec()
    &&& forall|a: I, b: I| #[trigger] a.eq_spec(&b) <==> a == b
}

} // verus!
