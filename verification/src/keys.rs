//! Searching the ascending keys of one node.

use vstd::prelude::*;
use crate::order::{group_order, less, precedes, total_order};

verus! {

/// Every key sorts strictly before each key behind it.
pub open spec fn ascending<K: Ord>(s: Seq<K>) -> bool {
    forall|i: int, j: int| 0 <= i < j < s.len() ==> precedes(#[trigger] s[i], #[trigger] s[j])
}

/// First index at or after `from` whose key is strictly greater than `k`;
/// the length of `s` where there is none.
pub open spec fn first_above_from<K: Ord>(s: Seq<K>, k: K, from: int) -> int
    decreases s.len() - from,
{
    if from < 0 || from >= s.len() || precedes(k, s[from]) {
        from
    } else {
        first_above_from(s, k, from + 1)
    }
}

/// The child to descend into for `k`: the index of the first separator that is
/// strictly greater than `k`. A key equal to a separator goes right of it.
pub open spec fn route<K: Ord>(s: Seq<K>, k: K) -> int {
    first_above_from(s, k, 0)
}

/// First index at or after `from` whose key does not sort before `k`.
pub open spec fn first_not_below_from<K: Ord>(s: Seq<K>, k: K, from: int) -> int
    decreases s.len() - from,
{
    if from < 0 || from >= s.len() || !precedes(s[from], k) {
        from
    } else {
        first_not_below_from(s, k, from + 1)
    }
}

/// Where `k` stands, or would stand, in a leaf: the index of the first key
/// that is not smaller than `k`.
pub open spec fn slot<K: Ord>(s: Seq<K>, k: K) -> int {
    first_not_below_from(s, k, 0)
}

pub proof fn lemma_first_above_from<K: Ord>(s: Seq<K>, k: K, from: int)
    requires
        0 <= from <= s.len(),
    ensures
        from <= first_above_from(s, k, from) <= s.len(),
        forall|j: int| from <= j < first_above_from(s, k, from) ==> !precedes(k, #[trigger] s[j]),
        first_above_from(s, k, from) < s.len() ==> precedes(k, s[first_above_from(s, k, from)]),
    decreases s.len() - from,
{
    if from < s.len() && !precedes(k, s[from]) {
        lemma_first_above_from(s, k, from + 1);
    }
}

pub proof fn lemma_route<K: Ord>(s: Seq<K>, k: K)
    ensures
        0 <= route(s, k) <= s.len(),
        forall|j: int| 0 <= j < route(s, k) ==> !precedes(k, #[trigger] s[j]),
        route(s, k) < s.len() ==> precedes(k, s[route(s, k)]),
{
    lemma_first_above_from(s, k, 0);
}

/// In an ascending sequence the routing index is the one index that has no
/// greater key before it and a greater key, or the end, at it.
pub proof fn lemma_route_unique<K: Ord>(s: Seq<K>, k: K, i: int)
    requires
        total_order::<K>(),
        ascending(s),
        0 <= i <= s.len(),
        i > 0 ==> !precedes(k, s[i - 1]),
        i < s.len() ==> precedes(k, s[i]),
    ensures
        route(s, k) == i,
{
    broadcast use group_order;
    lemma_route(s, k);
    let r = route(s, k);
    if r < i {
        assert(precedes(k, s[r]));
        if r < i - 1 {
            assert(precedes(s[r], s[i - 1]));
        }
    } else if r > i {
        assert(!precedes(k, s[i]));
    }
}

pub proof fn lemma_first_not_below_from<K: Ord>(s: Seq<K>, k: K, from: int)
    requires
        0 <= from <= s.len(),
    ensures
        from <= first_not_below_from(s, k, from) <= s.len(),
        forall|j: int|
            from <= j < first_not_below_from(s, k, from) ==> precedes(#[trigger] s[j], k),
        first_not_below_from(s, k, from) < s.len() ==> !precedes(
            s[first_not_below_from(s, k, from)],
            k,
        ),
    decreases s.len() - from,
{
    if from < s.len() && precedes(s[from], k) {
        lemma_first_not_below_from(s, k, from + 1);
    }
}

pub proof fn lemma_slot<K: Ord>(s: Seq<K>, k: K)
    ensures
        0 <= slot(s, k) <= s.len(),
        forall|j: int| 0 <= j < slot(s, k) ==> precedes(#[trigger] s[j], k),
        slot(s, k) < s.len() ==> !precedes(s[slot(s, k)], k),
{
    lemma_first_not_below_from(s, k, 0);
}

pub proof fn lemma_slot_unique<K: Ord>(s: Seq<K>, k: K, i: int)
    requires
        total_order::<K>(),
        ascending(s),
        0 <= i <= s.len(),
        i > 0 ==> precedes(s[i - 1], k),
        i < s.len() ==> !precedes(s[i], k),
    ensures
        slot(s, k) == i,
{
    broadcast use group_order;
    lemma_slot(s, k);
    let r = slot(s, k);
    if r < i {
        assert(!precedes(s[r], k));
        if r < i - 1 {
            assert(precedes(s[r], s[i - 1]));
        }
    } else if r > i {
        assert(precedes(s[i], k));
    }
}

/// A key occurs in an ascending sequence exactly when it stands at its slot.
pub proof fn lemma_slot_finds<K: Ord>(s: Seq<K>, k: K)
    requires
        total_order::<K>(),
        ascending(s),
    ensures
        s.contains(k) <==> (slot(s, k) < s.len() && s[slot(s, k)] == k),
{
    broadcast use group_order;
    lemma_slot(s, k);
    if s.contains(k) {
        let j = choose|j: int| 0 <= j < s.len() && s[j] == k;
        let r = slot(s, k);
        if j < r {
            assert(precedes(s[j], k));
        } else if j > r {
            assert(precedes(s[r], s[j]));
        }
    }
}

/// A key put between a smaller and a greater neighbour keeps the sequence
/// ascending.
pub proof fn lemma_insert_between<K: Ord>(s: Seq<K>, i: int, k: K)
    requires
        total_order::<K>(),
        ascending(s),
        0 <= i <= s.len(),
        i > 0 ==> precedes(s[i - 1], k),
        i < s.len() ==> precedes(k, s[i]),
    ensures
        ascending(s.insert(i, k)),
{
    broadcast use group_order;
    let t = s.insert(i, k);
    assert forall|a: int, b: int| 0 <= a < b < t.len() implies precedes(
        #[trigger] t[a],
        #[trigger] t[b],
    ) by {
        if b < i {
            assert(t[a] == s[a] && t[b] == s[b]);
        } else if b == i {
            assert(t[a] == s[a]);
            assert(a == i - 1 || precedes(s[a], s[i - 1]));
        } else if a < i {
            assert(t[a] == s[a] && t[b] == s[b - 1]);
            assert(a == i - 1 || precedes(s[a], s[i - 1]));
            assert(b - 1 == i || precedes(s[i], s[b - 1]));
        } else if a == i {
            assert(t[b] == s[b - 1]);
            assert(b - 1 == i || precedes(s[i], s[b - 1]));
        } else {
            assert(t[a] == s[a - 1] && t[b] == s[b - 1]);
        }
    }
}

/// Putting a new key at its slot keeps the sequence ascending.
pub proof fn lemma_insert_at_slot<K: Ord>(s: Seq<K>, k: K)
    requires
        total_order::<K>(),
        ascending(s),
        !s.contains(k),
    ensures
        ascending(s.insert(slot(s, k), k)),
{
    broadcast use group_order;
    lemma_slot(s, k);
    lemma_slot_finds(s, k);
    lemma_insert_between(s, slot(s, k), k);
}

/// Computes `route`.
pub fn find_route<K: Ord>(keys: &Vec<K>, key: &K) -> (i: usize)
    requires
        total_order::<K>(),
    ensures
        i == route(keys@, *key),
{
    let mut i: usize = 0;
    while i < keys.len() && !less(key, &keys[i])
        invariant
            total_order::<K>(),
            0 <= i <= keys.len(),
            first_above_from(keys@, *key, 0) == first_above_from(keys@, *key, i as int),
        decreases keys.len() - i,
    {
        i = i + 1;
    }
    i
}

/// Computes `slot`.
pub fn find_slot<K: Ord>(keys: &Vec<K>, key: &K) -> (i: usize)
    requires
        total_order::<K>(),
    ensures
        i == slot(keys@, *key),
{
    let mut i: usize = 0;
    while i < keys.len() && less(&keys[i], key)
        invariant
            total_order::<K>(),
            0 <= i <= keys.len(),
            first_not_below_from(keys@, *key, 0) == first_not_below_from(keys@, *key, i as int),
        decreases keys.len() - i,
    {
        i = i + 1;
    }
    i
}

} // verus!
