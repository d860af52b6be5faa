//! What holds of every well-formed tree and of every sequence of
//! insertions.

use vstd::prelude::*;
use crate::invariants::{
    lemma_entries, lemma_holds_in_range, lemma_inserted_entries, lemma_inserted_wf,
};
use crate::keys::{ascending, lemma_slot_unique, slot};
use crate::order::{precedes, total_order};
use crate::shape::{
    inserted, lower, root_entries, root_height, root_lookup, root_wf, upper, Shape, LEAF_SPLIT,
    MAX_KEYS, MIN_KEYS, ORDER,
};

verus! {

/// A node anywhere below a well-formed node is well formed between bounds of
/// its own, which are returned, and lies as many levels above the leaves as
/// its depth leaves over.
pub proof fn lemma_node_below<K: Ord, V>(
    top: Shape<K, V>,
    lo: Option<K>,
    hi: Option<K>,
    n: Shape<K, V>,
    depth: nat,
) -> (bounds: (Option<K>, Option<K>))
    requires
        top.structured(),
        top.ordered_in(lo, hi),
        top.balanced(),
        top.has_node_at(n, depth),
    ensures
        n.structured(),
        n.ordered_in(bounds.0, bounds.1),
        n.balanced(),
        n.height() + depth == top.height(),
        depth > 0 ==> n.keys().len() >= MIN_KEYS,
    decreases top,
{
    if depth == 0 {
        (lo, hi)
    } else {
        let children = top.children();
        let keys = top.keys();
        let i = choose|i: int|
            0 <= i < children.len() && (#[trigger] children[i]).has_node_at(n, (depth - 1) as nat);
        let bounds = lemma_node_below(
            children[i],
            lower(keys, lo, i),
            upper(keys, hi, i),
            n,
            (depth - 1) as nat,
        );
        assert(children[i].height() == children[0].height());
        if depth == 1 {
            assert(children[i] == n);
        }
        bounds
    }
}

/// In every node of a well-formed tree the keys ascend strictly.
pub proof fn law_keys_ascend<K: Ord, V>(root: Shape<K, V>, n: Shape<K, V>, depth: nat)
    requires
        root.wf(),
        root.has_node_at(n, depth),
    ensures
        ascending(n.keys()),
{
    let bounds = lemma_node_below(root, None, None, n, depth);
}

/// No node of a well-formed tree has more than `MAX_KEYS` keys, and none but
/// the root fewer than `MIN_KEYS`.
pub proof fn law_size_bound<K: Ord, V>(root: Shape<K, V>, n: Shape<K, V>, depth: nat)
    requires
        root.wf(),
        root.has_node_at(n, depth),
    ensures
        n.keys().len() <= MAX_KEYS,
        depth > 0 ==> n.keys().len() >= MIN_KEYS,
{
    let bounds = lemma_node_below(root, None, None, n, depth);
}

/// Every interior node of a well-formed tree has one child more than keys,
/// and every leaf one value for each key.
pub proof fn law_child_count<K: Ord, V>(root: Shape<K, V>, n: Shape<K, V>, depth: nat)
    requires
        root.wf(),
        root.has_node_at(n, depth),
    ensures
        n matches Shape::Interior { keys, children } ==> children.len() == keys.len() + 1,
        n matches Shape::Leaf { keys, values } ==> values.len() == keys.len(),
{
    let bounds = lemma_node_below(root, None, None, n, depth);
}

/// All leaves of a well-formed tree are at one depth: the height of the tree
/// less one.
pub proof fn law_leaves_level<K: Ord, V>(root: Shape<K, V>, leaf: Shape<K, V>, depth: nat)
    requires
        root.wf(),
        root.has_node_at(leaf, depth),
        leaf is Leaf,
    ensures
        depth + 1 == root.height(),
{
    let bounds = lemma_node_below(root, None, None, leaf, depth);
}

/// The separators of every interior node of a well-formed tree part what is
/// stored below its children: a key below child `i` sorts before key `i` and
/// not before key `i - 1`.
pub proof fn law_separators_part<K: Ord, V>(
    root: Shape<K, V>,
    n: Shape<K, V>,
    depth: nat,
    i: int,
    k: K,
    v: V,
)
    requires
        total_order::<K>(),
        root.wf(),
        root.has_node_at(n, depth),
        n is Interior,
        0 <= i < n.children().len(),
        n.children()[i].holds(k, v),
    ensures
        i < n.keys().len() ==> precedes(k, n.keys()[i]),
        i > 0 ==> !precedes(k, n.keys()[i - 1]),
{
    let bounds = lemma_node_below(root, None, None, n, depth);
    lemma_holds_in_range(
        n.children()[i],
        lower(n.keys(), bounds.0, i),
        upper(n.keys(), bounds.1, i),
        k,
        v,
    );
}

/// The root of the tree that results from storing the entries one after the
/// other, starting from the empty tree.
pub open spec fn built<K: Ord, V>(entries: Seq<(K, V)>) -> Option<Shape<K, V>>
    decreases entries.len(),
{
    if entries.len() == 0 {
        None
    } else {
        Some(inserted(built(entries.drop_last()), entries.last().0, entries.last().1))
    }
}

/// The map that results from storing the entries one after the other: each
/// key with the value it was last stored with.
pub open spec fn stored<K, V>(entries: Seq<(K, V)>) -> Map<K, V>
    decreases entries.len(),
{
    if entries.len() == 0 {
        Map::empty()
    } else {
        stored(entries.drop_last()).insert(entries.last().0, entries.last().1)
    }
}

/// Whatever is stored, in whatever order, the tree is well formed and holds
/// each key with the value it was last stored with.
pub proof fn law_built<K: Ord, V>(entries: Seq<(K, V)>)
    requires
        total_order::<K>(),
    ensures
        root_wf(built(entries)),
        root_entries(built(entries)) == stored(entries),
    decreases entries.len(),
{
    if entries.len() > 0 {
        let before = entries.drop_last();
        law_built(before);
        lemma_inserted_wf(built(before), entries.last().0, entries.last().1);
        lemma_inserted_entries(built(before), entries.last().0, entries.last().1);
    }
}

/// Every key that was stored is in the map, and one that was not stored
/// again later has the value it was stored with.
pub proof fn lemma_stored<K, V>(entries: Seq<(K, V)>, i: int)
    requires
        0 <= i < entries.len(),
    ensures
        stored(entries).contains_key(entries[i].0),
        (forall|j: int| i < j < entries.len() ==> (#[trigger] entries[j]).0 != entries[i].0)
            ==> stored(entries)[entries[i].0] == entries[i].1,
    decreases entries.len(),
{
    if i < entries.len() - 1 {
        let before = entries.drop_last();
        assert(before[i] == entries[i]);
        lemma_stored(before, i);
        if forall|j: int| i < j < entries.len() ==> (#[trigger] entries[j]).0 != entries[i].0 {
            assert forall|j: int| i < j < before.len() implies (#[trigger] before[j]).0
                != before[i].0 by {
                assert(before[j] == entries[j]);
            }
            assert(entries[entries.len() - 1].0 != entries[i].0);
        }
    }
}

/// Round trip: after any sequence of insertions, looking up a key that was
/// stored finds a value, and it finds the value of entry `i` unless a later
/// entry stored another value under the same key.
pub proof fn law_round_trip<K: Ord, V>(entries: Seq<(K, V)>, i: int)
    requires
        total_order::<K>(),
        0 <= i < entries.len(),
    ensures
        root_lookup(built(entries), entries[i].0) is Some,
        (forall|j: int| i < j < entries.len() ==> (#[trigger] entries[j]).0 != entries[i].0)
            ==> root_lookup(built(entries), entries[i].0) == Some(entries[i].1),
{
    law_built(entries);
    lemma_stored(entries, i);
    lemma_entries(built(entries).unwrap(), entries[i].0);
}

/// The keys of the entries, in their order.
pub open spec fn keys_of<K, V>(entries: Seq<(K, V)>) -> Seq<K> {
    Seq::new(entries.len(), |i: int| entries[i].0)
}

/// The values of the entries, in their order.
pub open spec fn values_of<K, V>(entries: Seq<(K, V)>) -> Seq<V> {
    Seq::new(entries.len(), |i: int| entries[i].1)
}

/// Up to `MAX_KEYS` entries stored in ascending order of their keys fill a
/// single leaf, in that order.
pub proof fn lemma_ascending_fill<K: Ord, V>(entries: Seq<(K, V)>)
    requires
        total_order::<K>(),
        ascending(keys_of(entries)),
        1 <= entries.len() <= MAX_KEYS,
    ensures
        built(entries) == Some(
            Shape::Leaf { keys: keys_of(entries), values: values_of(entries) },
        ),
    decreases entries.len(),
{
    let before = entries.drop_last();
    let k = entries.last().0;
    let v = entries.last().1;
    let n = before.len() as int;
    let ks = keys_of(before);
    let vs = values_of(before);
    assert(ks.insert(n, k) =~= keys_of(entries));
    assert(vs.insert(n, v) =~= values_of(entries));
    if n == 0 {
        assert(built(before) == None::<Shape<K, V>>);
        assert(ks =~= Seq::<K>::empty());
        assert(vs =~= Seq::<V>::empty());
        assert(slot(ks, k) == 0);
    } else {
        assert(ascending(ks)) by {
            assert forall|a: int, b: int| 0 <= a < b < ks.len() implies precedes(
                #[trigger] ks[a],
                #[trigger] ks[b],
            ) by {
                assert(ks[a] == keys_of(entries)[a] && ks[b] == keys_of(entries)[b]);
            }
        }
        lemma_ascending_fill(before);
        assert(precedes(ks[n - 1], k)) by {
            assert(ks[n - 1] == keys_of(entries)[n - 1] && k == keys_of(entries)[n]);
        }
        lemma_slot_unique(ks, k, n);
    }
}

/// Idempotent growth, first part: `MAX_KEYS` entries stored in ascending
/// order sit in one leaf, and the next one splits that leaf once. The root is
/// then an interior node of height 2 with the first key of the right leaf as
/// its only key, over the first `LEAF_SPLIT` entries and the rest.
pub proof fn law_first_overflow_splits_once<K: Ord, V>(entries: Seq<(K, V)>)
    requires
        total_order::<K>(),
        ascending(keys_of(entries)),
        entries.len() == MAX_KEYS + 1,
    ensures
        built(entries.drop_last()) == Some(
            Shape::Leaf {
                keys: keys_of(entries.drop_last()),
                values: values_of(entries.drop_last()),
            },
        ),
        built(entries) == Some(
            Shape::Interior {
                keys: seq![entries[LEAF_SPLIT as int].0],
                children: seq![
                    Shape::Leaf {
                        keys: keys_of(entries).take(LEAF_SPLIT as int),
                        values: values_of(entries).take(LEAF_SPLIT as int),
                    },
                    Shape::Leaf {
                        keys: keys_of(entries).skip(LEAF_SPLIT as int),
                        values: values_of(entries).skip(LEAF_SPLIT as int),
                    },
                ],
            },
        ),
        root_height(built(entries)) == 2,
{
    let before = entries.drop_last();
    let k = entries.last().0;
    let v = entries.last().1;
    let n = before.len() as int;
    let ks = keys_of(before);
    let vs = values_of(before);
    assert(ks.insert(n, k) =~= keys_of(entries));
    assert(vs.insert(n, v) =~= values_of(entries));
    assert(ascending(ks)) by {
        assert forall|a: int, b: int| 0 <= a < b < ks.len() implies precedes(
            #[trigger] ks[a],
            #[trigger] ks[b],
        ) by {
            assert(ks[a] == keys_of(entries)[a] && ks[b] == keys_of(entries)[b]);
        }
    }
    lemma_ascending_fill(before);
    assert(precedes(ks[n - 1], k)) by {
        assert(ks[n - 1] == keys_of(entries)[n - 1] && k == keys_of(entries)[n]);
    }
    lemma_slot_unique(ks, k, n);
    let top = built(entries).unwrap();
    assert(top.children()[0] is Leaf);
    assert(top.children()[0].height() == 1);
    assert(top.height() == 1 + top.children()[0].height());
}

/// The greatest number of entries of a well-formed tree of a given height.
pub open spec fn capacity(height: nat) -> nat
    decreases height,
{
    if height == 0 {
        0
    } else if height == 1 {
        MAX_KEYS as nat
    } else {
        ORDER as nat * capacity((height - 1) as nat)
    }
}

/// The keys stored below the first `n` of the children.
pub open spec fn keys_below<K: Ord, V>(children: Seq<Shape<K, V>>, n: int) -> Set<K> {
    Set::new(|k: K| exists|i: int| 0 <= i < n && (#[trigger] children[i]).entries().contains_key(k))
}

proof fn lemma_keys_below_count<K: Ord, V>(children: Seq<Shape<K, V>>, n: int, cap: nat)
    requires
        0 <= n <= children.len(),
        forall|i: int|
            0 <= i < children.len() ==> (#[trigger] children[i]).entries().dom().finite()
                && children[i].entries().dom().len() <= cap,
    ensures
        keys_below(children, n).finite(),
        keys_below(children, n).len() <= n * cap,
    decreases n,
{
    if n == 0 {
        assert(keys_below(children, n) =~= Set::<K>::empty());
    } else {
        lemma_keys_below_count(children, n - 1, cap);
        let rest = keys_below(children, n - 1);
        let last = children[n - 1].entries().dom();
        assert(keys_below(children, n) =~= rest.union(last)) by {
            assert forall|k: K| keys_below(children, n).contains(k) implies rest.union(
                last,
            ).contains(k) by {
                let i = choose|i: int|
                    0 <= i < n && (#[trigger] children[i]).entries().contains_key(k);
                if i < n - 1 {
                    assert(rest.contains(k));
                }
            }
            assert forall|k: K| rest.union(last).contains(k) implies keys_below(
                children,
                n,
            ).contains(k) by {
                if rest.contains(k) {
                    let i = choose|i: int|
                        0 <= i < n - 1 && (#[trigger] children[i]).entries().contains_key(k);
                    assert(children[i].entries().contains_key(k));
                } else {
                    assert(children[n - 1].entries().contains_key(k));
                }
            }
        }
        vstd::set_lib::lemma_set_union_finite_iff(rest, last);
        vstd::set_lib::lemma_len_union(rest, last);
        assert(n * cap == (n - 1) * cap + cap) by (nonlinear_arith);
    }
}

/// A well-formed tree of a given height has at most `capacity` entries.
pub proof fn law_capacity<K: Ord, V>(node: Shape<K, V>)
    requires
        node.structured(),
        node.balanced(),
    ensures
        node.entries().dom().finite(),
        node.entries().dom().len() <= capacity(node.height()),
    decreases node,
{
    match node {
        Shape::Leaf { keys, values } => {
            assert(node.entries().dom() =~= keys.to_set()) by {
                assert forall|k: K| node.entries().dom().contains(k) implies keys.to_set().contains(
                    k,
                ) by {
                    let v = choose|v: V| node.holds(k, v);
                    assert(node.holds(k, v));
                }
                assert forall|k: K| keys.to_set().contains(k) implies node.entries().dom().contains(
                    k,
                ) by {
                    let i = choose|i: int| 0 <= i < keys.len() && keys[i] == k;
                    assert(node.keys()[i] == k && node->values[i] == values[i]);
                    assert(node.holds(k, values[i]));
                }
            }
            vstd::seq_lib::seq_to_set_is_finite(keys);
            keys.lemma_cardinality_of_set();
        },
        Shape::Interior { keys, children } => {
            let cap = capacity(children[0].height());
            assert forall|i: int| 0 <= i < children.len() implies (
            #[trigger] children[i]).entries().dom().finite() && children[i].entries().dom().len()
                <= cap by {
                law_capacity(children[i]);
            }
            let n = children.len() as int;
            lemma_keys_below_count(children, n, cap);
            assert(node.entries().dom() =~= keys_below(children, n)) by {
                assert forall|k: K| node.entries().dom().contains(k) implies keys_below(
                    children,
                    n,
                ).contains(k) by {
                    let v = choose|v: V| node.holds(k, v);
                    let i = choose|i: int|
                        0 <= i < children.len() && (#[trigger] children[i]).holds(k, v);
                    assert(children[i].entries().contains_key(k));
                }
                assert forall|k: K| keys_below(children, n).contains(k) implies node.entries().dom().contains(
                    k,
                ) by {
                    let i = choose|i: int|
                        0 <= i < n && (#[trigger] children[i]).entries().contains_key(k);
                    let v = choose|v: V| children[i].holds(k, v);
                    assert(node.children()[i].holds(k, v));
                    assert(node.holds(k, v));
                }
            }
            assert(children[0].height() >= 1);
            assert(n * cap <= ORDER as nat * cap) by (nonlinear_arith)
                requires
                    0 <= n <= ORDER as nat,
            ;
        },
    }
}

/// Entries with pairwise different keys are all in the map.
pub proof fn lemma_stored_count<K, V>(entries: Seq<(K, V)>)
    requires
        forall|i: int, j: int|
            0 <= i < j < entries.len() ==> (#[trigger] entries[i]).0 != (#[trigger] entries[j]).0,
    ensures
        stored(entries).dom().finite(),
        stored(entries).dom().len() == entries.len(),
    decreases entries.len(),
{
    if entries.len() > 0 {
        let before = entries.drop_last();
        let k = entries.last().0;
        assert forall|i: int, j: int| 0 <= i < j < before.len() implies (#[trigger] before[i]).0
            != (#[trigger] before[j]).0 by {
            assert(before[i] == entries[i] && before[j] == entries[j]);
        }
        lemma_stored_count(before);
        if stored(before).contains_key(k) {
            lemma_stored_source(before, k);
            let i = choose|i: int| 0 <= i < before.len() && (#[trigger] before[i]).0 == k;
            assert(before[i] == entries[i]);
            assert(entries[i].0 != entries[entries.len() - 1].0);
        }
        assert(stored(entries).dom() =~= stored(before).dom().insert(k));
    }
}

/// A key in the map was stored by one of the entries.
pub proof fn lemma_stored_source<K, V>(entries: Seq<(K, V)>, k: K)
    requires
        stored(entries).contains_key(k),
    ensures
        exists|i: int| 0 <= i < entries.len() && (#[trigger] entries[i]).0 == k,
    decreases entries.len(),
{
    if entries.len() > 0 {
        let before = entries.drop_last();
        if entries.last().0 == k {
            assert(entries[entries.len() - 1].0 == k);
        } else {
            lemma_stored_source(before, k);
            let i = choose|i: int| 0 <= i < before.len() && (#[trigger] before[i]).0 == k;
            assert(entries[i].0 == k);
        }
    }
}

/// Idempotent growth, second part: a tree that took in `(MAX_KEYS + 1)`
/// squared entries, or more, with pairwise different keys has at least three
/// levels, so its root has split.
pub proof fn law_square_grows<K: Ord, V>(entries: Seq<(K, V)>)
    requires
        total_order::<K>(),
        forall|i: int, j: int|
            0 <= i < j < entries.len() ==> (#[trigger] entries[i]).0 != (#[trigger] entries[j]).0,
        entries.len() >= (MAX_KEYS + 1) * (MAX_KEYS + 1),
    ensures
        root_height(built(entries)) >= 3,
{
    assert(MAX_KEYS == 4 && ORDER == 5);
    assert((MAX_KEYS + 1) * (MAX_KEYS + 1) == 25) by (nonlinear_arith)
        requires
            MAX_KEYS == 4,
    ;
    law_built(entries);
    lemma_stored_count(entries);
    assert(built(entries) is Some);
    let root = built(entries).unwrap();
    assert(root.wf());
    law_capacity(root);
    assert(capacity(1) == MAX_KEYS);
    assert(capacity(2) == ORDER * MAX_KEYS) by {
        reveal_with_fuel(capacity, 3);
    }
    assert(root.height() >= 1);
}

} // verus!
