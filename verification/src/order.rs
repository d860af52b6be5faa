//! The order on keys: what is asked of the comparison operators of a key
//! type, and the facts about `<` that the proofs use.

use vstd::prelude::*;
use core::cmp::Ordering;
use vstd::std_specs::cmp::OrdSpec;

verus! {

/// The comparison operators of `K` form a total order, and two keys compare
/// equal exactly when they are the same value.
pub open spec fn total_order<K: Ord>() -> bool {
    vstd::laws_cmp::obeys_cmp::<K>() && vstd::laws_eq::obeys_concrete_eq::<K>()
}

/// `a` sorts strictly before `b`.
pub open spec fn precedes<K: Ord>(a: K, b: K) -> bool {
    a.cmp_spec(&b) == Ordering::Less
}

pub broadcast proof fn lemma_precedes_transitive<K: Ord>(a: K, b: K, c: K)
    requires
        total_order::<K>(),
        #[trigger] precedes(a, b),
        #[trigger] precedes(b, c),
    ensures
        precedes(a, c),
{
    reveal(vstd::laws_cmp::obeys_cmp_ord);
    reveal(vstd::laws_cmp::obeys_partial_cmp_spec_properties);
    reveal(vstd::laws_cmp::obeys_cmp_partial_ord);
}

/// Of `a < b`, `a == b` and `b < a` exactly one holds.
pub broadcast proof fn lemma_precedes_trichotomy<K: Ord>(a: K, b: K)
    requires
        total_order::<K>(),
    ensures
        #![trigger precedes(a, b)]
        precedes(a, b) || a == b || precedes(b, a),
        !(precedes(a, b) && a == b),
        !(precedes(a, b) && precedes(b, a)),
{
    reveal(vstd::laws_cmp::obeys_cmp_ord);
    reveal(vstd::laws_cmp::obeys_partial_cmp_spec_properties);
    reveal(vstd::laws_cmp::obeys_cmp_partial_ord);
    reveal(vstd::laws_eq::obeys_concrete_eq);
}

pub broadcast group group_order {
    lemma_precedes_transitive,
    lemma_precedes_trichotomy,
}

/// The built-in integer order is such a total order.
pub proof fn lemma_u64_total_order()
    ensures
        total_order::<u64>(),
        forall|a: u64, b: u64| #[trigger] precedes(a, b) <==> a < b,
{
    broadcast use vstd::laws_cmp::group_laws_cmp;
    broadcast use vstd::laws_eq::group_laws_eq;
}

/// Compares two keys with `<`.
pub fn less<K: Ord>(a: &K, b: &K) -> (r: bool)
    requires
        total_order::<K>(),
    ensures
        r == precedes(*a, *b),
{
    proof {
        reveal(vstd::laws_cmp::obeys_cmp_ord);
        reveal(vstd::laws_cmp::obeys_partial_cmp_spec_properties);
        reveal(vstd::laws_cmp::obeys_cmp_partial_ord);
    }
    *a < *b
}

} // verus!
