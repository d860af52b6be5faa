//! Proofs that insertion keeps the counts, the order and the balance of a
//! tree, and changes its entries by the new entry alone.

use vstd::prelude::*;
use crate::keys::{
    ascending, lemma_insert_at_slot, lemma_insert_between, lemma_route, lemma_slot,
    lemma_slot_finds, route, slot,
};
use crate::order::{group_order, precedes, total_order};
use crate::shape::{
    above, below, grown, inserted, lower, not_below, root_entries, root_wf, upper,
    within, Outcome, Shape, INTERIOR_SPLIT, LEAF_SPLIT, MAX_KEYS, MIN_KEYS,
};

verus! {

/// A node between taking something in and settling: it may hold one key more
/// than `MAX_KEYS`, and is structured and balanced otherwise.
pub open spec fn crowded<K: Ord, V>(node: Shape<K, V>) -> bool {
    match node {
        Shape::Leaf { keys, values } => keys.len() <= MAX_KEYS + 1 && values.len() == keys.len(),
        Shape::Interior { keys, children } => {
            &&& 1 <= keys.len() <= MAX_KEYS + 1
            &&& children.len() == keys.len() + 1
            &&& forall|i: int|
                0 <= i < children.len() ==> {
                    &&& (#[trigger] children[i]).structured()
                    &&& children[i].keys().len() >= MIN_KEYS
                    &&& children[i].balanced()
                    &&& children[i].height() == children[0].height()
                }
        },
    }
}

/// Settling keeps the counts and the balance: the node stays as it is, or
/// falls into two structured, balanced halves of its own height with at least
/// `MIN_KEYS` keys each.
pub proof fn lemma_settle_form<K: Ord, V>(node: Shape<K, V>)
    requires
        crowded(node),
    ensures
        match node.settle() {
            Outcome::Fit(s) => s == node && s.structured() && s.balanced(),
            Outcome::Split(l, sep, r) => {
                &&& node.keys().len() == MAX_KEYS + 1
                &&& l.structured()
                &&& r.structured()
                &&& l.balanced()
                &&& r.balanced()
                &&& l.height() == node.height()
                &&& r.height() == node.height()
                &&& l.keys().len() >= MIN_KEYS
                &&& r.keys().len() >= MIN_KEYS
            },
        },
{
    match node {
        Shape::Leaf { keys, values } => {},
        Shape::Interior { keys, children } => {
            if keys.len() > MAX_KEYS {
                let m = INTERIOR_SPLIT as int;
                let (l, sep, r) = node.split();
                assert(l.children() == children.take(m + 1));
                assert(r.children() == children.skip(m + 1));
                assert forall|i: int| 0 <= i < l.children().len() implies {
                    &&& (#[trigger] l.children()[i]).structured()
                    &&& l.children()[i].keys().len() >= MIN_KEYS
                    &&& l.children()[i].balanced()
                    &&& l.children()[i].height() == l.children()[0].height()
                } by {
                    assert(l.children()[i] == children[i]);
                    assert(l.children()[0] == children[0]);
                }
                assert forall|i: int| 0 <= i < r.children().len() implies {
                    &&& (#[trigger] r.children()[i]).structured()
                    &&& r.children()[i].keys().len() >= MIN_KEYS
                    &&& r.children()[i].balanced()
                    &&& r.children()[i].height() == r.children()[0].height()
                } by {
                    assert(r.children()[i] == children[i + m + 1]);
                    assert(r.children()[0] == children[m + 1]);
                }
                assert(r.children()[0] == children[m + 1]);
                assert(l.children()[0] == children[0]);
            }
        },
    }
}

/// Putting an entry into a structured, balanced node keeps the counts and the
/// balance. A node that stays whole loses no key and keeps its height; the
/// halves of one that splits have its height.
pub proof fn lemma_put_form<K: Ord, V>(node: Shape<K, V>, k: K, v: V)
    requires
        node.structured(),
        node.balanced(),
    ensures
        match node.put(k, v) {
            Outcome::Fit(s) => {
                &&& s.structured()
                &&& s.balanced()
                &&& s.height() == node.height()
                &&& s.keys().len() >= node.keys().len()
                &&& s.keys().len() >= 1
            },
            Outcome::Split(l, sep, r) => {
                &&& node.keys().len() == MAX_KEYS
                &&& l.structured()
                &&& r.structured()
                &&& l.balanced()
                &&& r.balanced()
                &&& l.height() == node.height()
                &&& r.height() == node.height()
                &&& l.keys().len() >= MIN_KEYS
                &&& r.keys().len() >= MIN_KEYS
            },
        },
    decreases node,
{
    match node {
        Shape::Leaf { keys, values } => {
            lemma_slot(keys, k);
            let i = slot(keys, k);
            if i < keys.len() && keys[i] == k {
            } else {
                let full = Shape::Leaf { keys: keys.insert(i, k), values: values.insert(i, v) };
                lemma_settle_form(full);
            }
        },
        Shape::Interior { keys, children } => {
            lemma_route(keys, k);
            let i = route(keys, k);
            lemma_put_form(children[i], k, v);
            match children[i].put(k, v) {
                Outcome::Fit(c) => {
                    let s = Shape::Interior { keys, children: children.update(i, c) };
                    assert forall|j: int| 0 <= j < s.children().len() implies {
                        &&& (#[trigger] s.children()[j]).structured()
                        &&& s.children()[j].keys().len() >= MIN_KEYS
                        &&& s.children()[j].balanced()
                        &&& s.children()[j].height() == s.children()[0].height()
                    } by {
                        if j != i {
                            assert(s.children()[j] == children[j]);
                        }
                        if 0 != i {
                            assert(s.children()[0] == children[0]);
                        }
                    }
                },
                Outcome::Split(left, separator, right) => {
                    let cs = children.update(i, left).insert(i + 1, right);
                    let full = Shape::Interior { keys: keys.insert(i, separator), children: cs };
                    assert forall|j: int| 0 <= j < cs.len() implies {
                        &&& (#[trigger] cs[j]).structured()
                        &&& cs[j].keys().len() >= MIN_KEYS
                        &&& cs[j].balanced()
                        &&& cs[j].height() == cs[0].height()
                    } by {
                        if j < i {
                            assert(cs[j] == children[j]);
                        } else if j == i {
                            assert(cs[j] == left);
                        } else if j == i + 1 {
                            assert(cs[j] == right);
                        } else {
                            assert(cs[j] == children[j - 1]);
                        }
                        if 0 < i {
                            assert(cs[0] == children[0]);
                        } else {
                            assert(cs[0] == left);
                        }
                    }
                    lemma_settle_form(full);
                },
            }
        },
    }
}

/// Settling keeps the order: a node that stays whole keeps its bounds, and the
/// separator of one that splits lies strictly inside them and bounds the two
/// halves.
pub proof fn lemma_settle_ordered<K: Ord, V>(node: Shape<K, V>, lo: Option<K>, hi: Option<K>)
    requires
        total_order::<K>(),
        node.keys().len() <= MAX_KEYS + 1,
        node is Interior ==> node.children().len() == node.keys().len() + 1,
        node.ordered_in(lo, hi),
    ensures
        match node.settle() {
            Outcome::Fit(s) => s.ordered_in(lo, hi),
            Outcome::Split(l, sep, r) => {
                &&& l.ordered_in(lo, Some(sep))
                &&& r.ordered_in(Some(sep), hi)
                &&& above(sep, lo)
                &&& below(sep, hi)
            },
        },
{
    broadcast use group_order;
    if node.keys().len() > MAX_KEYS {
        let ks = node.keys();
        let (l, sep, r) = node.split();
        let m = if node is Leaf { LEAF_SPLIT as int } else { INTERIOR_SPLIT as int };
        let n = if node is Leaf { m } else { m + 1 };
        assert(sep == ks[m]);
        assert(l.keys() == ks.take(m));
        assert(r.keys() == ks.skip(n));
        assert(not_below(ks[0], lo));
        assert(precedes(ks[0], ks[m]));
        assert(below(ks[m], hi));
        assert(ascending(l.keys())) by {
            assert forall|a: int, b: int| 0 <= a < b < l.keys().len() implies precedes(
                #[trigger] l.keys()[a],
                #[trigger] l.keys()[b],
            ) by {
                assert(l.keys()[a] == ks[a] && l.keys()[b] == ks[b]);
            }
        }
        assert(ascending(r.keys())) by {
            assert forall|a: int, b: int| 0 <= a < b < r.keys().len() implies precedes(
                #[trigger] r.keys()[a],
                #[trigger] r.keys()[b],
            ) by {
                assert(r.keys()[a] == ks[a + n] && r.keys()[b] == ks[b + n]);
            }
        }
        assert(within(l.keys(), lo, Some(sep))) by {
            assert forall|a: int| 0 <= a < l.keys().len() implies not_below(
                #[trigger] l.keys()[a],
                lo,
            ) && below(l.keys()[a], Some(sep)) by {
                assert(l.keys()[a] == ks[a]);
                assert(precedes(ks[a], ks[m]));
            }
        }
        assert(within(r.keys(), Some(sep), hi)) by {
            assert forall|a: int| 0 <= a < r.keys().len() implies not_below(
                #[trigger] r.keys()[a],
                Some(sep),
            ) && below(r.keys()[a], hi) by {
                assert(r.keys()[a] == ks[a + n]);
                assert(a + n == m || precedes(ks[m], ks[a + n]));
            }
        }
        if node is Interior {
            let cs = node.children();
            assert(l.children() == cs.take(m + 1));
            assert(r.children() == cs.skip(m + 1));
            assert forall|j: int| 0 <= j < l.children().len() implies (#[trigger] l.children()[j]).ordered_in(
                lower(l.keys(), lo, j),
                upper(l.keys(), Some(sep), j),
            ) by {
                assert(l.children()[j] == cs[j]);
                assert(cs[j].ordered_in(lower(ks, lo, j), upper(ks, hi, j)));
                if j > 0 {
                    assert(l.keys()[j - 1] == ks[j - 1]);
                }
                if j < m {
                    assert(l.keys()[j] == ks[j]);
                }
            }
            assert forall|j: int| 0 <= j < r.children().len() implies (#[trigger] r.children()[j]).ordered_in(
                lower(r.keys(), Some(sep), j),
                upper(r.keys(), hi, j),
            ) by {
                assert(r.children()[j] == cs[j + m + 1]);
                assert(cs[j + m + 1].ordered_in(
                    lower(ks, lo, j + m + 1),
                    upper(ks, hi, j + m + 1),
                ));
                if j > 0 {
                    assert(r.keys()[j - 1] == ks[j + m]);
                }
                if j < r.keys().len() {
                    assert(r.keys()[j] == ks[j + m + 1]);
                }
            }
        }
    }
}

/// Putting an entry whose key lies within the bounds of an ordered node keeps
/// the order.
pub proof fn lemma_put_ordered<K: Ord, V>(
    node: Shape<K, V>,
    k: K,
    v: V,
    lo: Option<K>,
    hi: Option<K>,
)
    requires
        total_order::<K>(),
        node.structured(),
        node.ordered_in(lo, hi),
        not_below(k, lo),
        below(k, hi),
    ensures
        match node.put(k, v) {
            Outcome::Fit(s) => s.ordered_in(lo, hi),
            Outcome::Split(l, sep, r) => {
                &&& l.ordered_in(lo, Some(sep))
                &&& r.ordered_in(Some(sep), hi)
                &&& above(sep, lo)
                &&& below(sep, hi)
            },
        },
    decreases node,
{
    broadcast use group_order;
    match node {
        Shape::Leaf { keys, values } => {
            lemma_slot(keys, k);
            lemma_slot_finds(keys, k);
            let i = slot(keys, k);
            if i < keys.len() && keys[i] == k {
            } else {
                lemma_insert_at_slot(keys, k);
                let ks = keys.insert(i, k);
                let full = Shape::Leaf { keys: ks, values: values.insert(i, v) };
                assert forall|a: int| 0 <= a < ks.len() implies not_below(#[trigger] ks[a], lo)
                    && below(ks[a], hi) by {
                    if a < i {
                        assert(ks[a] == keys[a]);
                    } else if a > i {
                        assert(ks[a] == keys[a - 1]);
                    }
                }
                lemma_settle_ordered(full, lo, hi);
            }
        },
        Shape::Interior { keys, children } => {
            lemma_route(keys, k);
            let i = route(keys, k);
            let clo = lower(keys, lo, i);
            let chi = upper(keys, hi, i);
            assert(children[i].ordered_in(clo, chi));
            lemma_put_ordered(children[i], k, v, clo, chi);
            match children[i].put(k, v) {
                Outcome::Fit(c) => {
                    let s = Shape::Interior { keys, children: children.update(i, c) };
                    assert forall|j: int| 0 <= j < s.children().len() implies (
                    #[trigger] s.children()[j]).ordered_in(
                        lower(keys, lo, j),
                        upper(keys, hi, j),
                    ) by {
                        if j != i {
                            assert(s.children()[j] == children[j]);
                        }
                    }
                },
                Outcome::Split(left, sep, right) => {
                    let ks = keys.insert(i, sep);
                    let cs = children.update(i, left).insert(i + 1, right);
                    let full = Shape::Interior { keys: ks, children: cs };
                    lemma_insert_between(keys, i, sep);
                    assert(within(ks, lo, hi)) by {
                        assert forall|a: int| 0 <= a < ks.len() implies not_below(
                            #[trigger] ks[a],
                            lo,
                        ) && below(ks[a], hi) by {
                            if a < i {
                                assert(ks[a] == keys[a]);
                            } else if a > i {
                                assert(ks[a] == keys[a - 1]);
                            } else {
                                if i > 0 {
                                    assert(not_below(keys[i - 1], lo));
                                }
                                if i < keys.len() {
                                    assert(below(keys[i], hi));
                                }
                            }
                        }
                    }
                    assert forall|j: int| 0 <= j < cs.len() implies (#[trigger] cs[j]).ordered_in(
                        lower(ks, lo, j),
                        upper(ks, hi, j),
                    ) by {
                        if j < i {
                            assert(cs[j] == children[j]);
                            assert(children[j].ordered_in(
                                lower(keys, lo, j),
                                upper(keys, hi, j),
                            ));
                            if j > 0 {
                                assert(ks[j - 1] == keys[j - 1]);
                            }
                            assert(ks[j] == keys[j]);
                        } else if j == i {
                            assert(cs[j] == left);
                            if j > 0 {
                                assert(ks[j - 1] == keys[j - 1]);
                            }
                            assert(ks[j] == sep);
                        } else if j == i + 1 {
                            assert(cs[j] == right);
                            assert(ks[j - 1] == sep);
                            if j < ks.len() {
                                assert(ks[j] == keys[j - 1]);
                            }
                        } else {
                            assert(cs[j] == children[j - 1]);
                            assert(children[j - 1].ordered_in(
                                lower(keys, lo, j - 1),
                                upper(keys, hi, j - 1),
                            ));
                            assert(ks[j - 1] == keys[j - 2]);
                            if j < ks.len() {
                                assert(ks[j] == keys[j - 1]);
                            }
                        }
                    }
                    lemma_settle_ordered(full, lo, hi);
                },
            }
        },
    }
}

/// Every key stored below an ordered node lies within the bounds of the node.
pub proof fn lemma_holds_in_range<K: Ord, V>(
    node: Shape<K, V>,
    lo: Option<K>,
    hi: Option<K>,
    k: K,
    v: V,
)
    requires
        total_order::<K>(),
        node.ordered_in(lo, hi),
        node.holds(k, v),
    ensures
        not_below(k, lo),
        below(k, hi),
    decreases node,
{
    broadcast use group_order;
    match node {
        Shape::Leaf { keys, values } => {
            let i = choose|i: int|
                0 <= i < keys.len() && i < values.len() && #[trigger] keys[i] == k && values[i]
                    == v;
            assert(not_below(keys[i], lo) && below(keys[i], hi));
        },
        Shape::Interior { keys, children } => {
            let i = choose|i: int| 0 <= i < children.len() && (#[trigger] children[i]).holds(k, v);
            lemma_holds_in_range(children[i], lower(keys, lo, i), upper(keys, hi, i), k, v);
            if 0 < i <= keys.len() {
                assert(not_below(keys[i - 1], lo));
            }
            if 0 <= i < keys.len() {
                assert(below(keys[i], hi));
            }
        },
    }
}

/// In an ordered interior node a key is stored below no child but the one
/// that `route` selects.
pub proof fn lemma_holds_routes<K: Ord, V>(
    node: Shape<K, V>,
    lo: Option<K>,
    hi: Option<K>,
    j: int,
    k: K,
    v: V,
)
    requires
        total_order::<K>(),
        node is Interior,
        node.children().len() == node.keys().len() + 1,
        node.ordered_in(lo, hi),
        0 <= j < node.children().len(),
        node.children()[j].holds(k, v),
    ensures
        route(node.keys(), k) == j,
{
    let keys = node.keys();
    lemma_holds_in_range(node.children()[j], lower(keys, lo, j), upper(keys, hi, j), k, v);
    crate::keys::lemma_route_unique(keys, k, j);
}

/// Descending for a key finds a value exactly when a leaf below the node
/// stores the key with that value.
pub proof fn lemma_lookup_holds<K: Ord, V>(
    node: Shape<K, V>,
    lo: Option<K>,
    hi: Option<K>,
    k: K,
    v: V,
)
    requires
        total_order::<K>(),
        node.structured(),
        node.ordered_in(lo, hi),
    ensures
        node.lookup(k) == Some(v) <==> node.holds(k, v),
    decreases node,
{
    broadcast use group_order;
    match node {
        Shape::Leaf { keys, values } => {
            lemma_slot(keys, k);
            lemma_slot_finds(keys, k);
            let s = slot(keys, k);
            if node.holds(k, v) {
                let i = choose|i: int|
                    0 <= i < keys.len() && i < values.len() && #[trigger] keys[i] == k
                        && values[i] == v;
                assert(keys.contains(k));
                if i < s {
                    assert(precedes(keys[i], keys[s]));
                } else if s < i {
                    assert(precedes(keys[s], keys[i]));
                }
            }
        },
        Shape::Interior { keys, children } => {
            lemma_route(keys, k);
            let i = route(keys, k);
            lemma_lookup_holds(children[i], lower(keys, lo, i), upper(keys, hi, i), k, v);
            if node.holds(k, v) {
                let j = choose|j: int|
                    0 <= j < children.len() && (#[trigger] children[j]).holds(k, v);
                lemma_holds_routes(node, lo, hi, j, k, v);
            }
        },
    }
}

/// Splitting a leaf neither drops nor adds an entry.
proof fn lemma_split_leaf_holds<K: Ord, V>(keys: Seq<K>, values: Seq<V>, m: int, k: K, v: V)
    requires
        0 <= m <= keys.len(),
        values.len() == keys.len(),
    ensures
        (Shape::Leaf { keys, values }).holds(k, v) <==> ((Shape::Leaf {
            keys: keys.take(m),
            values: values.take(m),
        }).holds(k, v) || (Shape::Leaf { keys: keys.skip(m), values: values.skip(m) }).holds(k, v)),
{
    let whole = Shape::Leaf { keys, values };
    let l = Shape::Leaf { keys: keys.take(m), values: values.take(m) };
    let r = Shape::Leaf { keys: keys.skip(m), values: values.skip(m) };
    if whole.holds(k, v) {
        let i = choose|i: int|
            0 <= i < keys.len() && i < values.len() && #[trigger] keys[i] == k && values[i] == v;
        if i < m {
            assert(l.keys()[i] == k && l->values[i] == v);
        } else {
            assert(r.keys()[i - m] == k && r->values[i - m] == v);
        }
    }
    if l.holds(k, v) {
        let i = choose|i: int|
            0 <= i < keys.take(m).len() && i < values.take(m).len() && #[trigger] keys.take(m)[i]
                == k && values.take(m)[i] == v;
        assert(whole.keys()[i] == k && whole->values[i] == v);
    }
    if r.holds(k, v) {
        let i = choose|i: int|
            0 <= i < keys.skip(m).len() && i < values.skip(m).len() && #[trigger] keys.skip(m)[i]
                == k && values.skip(m)[i] == v;
        assert(whole.keys()[i + m] == k && whole->values[i + m] == v);
    }
}

/// Splitting an interior node neither drops nor adds an entry.
proof fn lemma_split_interior_holds<K: Ord, V>(
    keys: Seq<K>,
    children: Seq<Shape<K, V>>,
    lk: Seq<K>,
    rk: Seq<K>,
    m: int,
    k: K,
    v: V,
)
    requires
        0 <= m <= children.len(),
    ensures
        (Shape::Interior { keys, children }).holds(k, v) <==> ((Shape::Interior {
            keys: lk,
            children: children.take(m),
        }).holds(k, v) || (Shape::Interior { keys: rk, children: children.skip(m) }).holds(k, v)),
{
    let whole = Shape::Interior { keys, children };
    let l = Shape::Interior { keys: lk, children: children.take(m) };
    let r = Shape::Interior { keys: rk, children: children.skip(m) };
    if whole.holds(k, v) {
        let i = choose|i: int| 0 <= i < children.len() && (#[trigger] children[i]).holds(k, v);
        if i < m {
            assert(l.children()[i].holds(k, v));
        } else {
            assert(r.children()[i - m].holds(k, v));
        }
    }
    if l.holds(k, v) {
        let i = choose|i: int|
            0 <= i < children.take(m).len() && (#[trigger] children.take(m)[i]).holds(k, v);
        assert(whole.children()[i].holds(k, v));
    }
    if r.holds(k, v) {
        let i = choose|i: int|
            0 <= i < children.skip(m).len() && (#[trigger] children.skip(m)[i]).holds(k, v);
        assert(whole.children()[i + m].holds(k, v));
    }
}

/// What `put` leaves behind stores `(k, v)`, in either half where it split.
pub open spec fn outcome_holds<K: Ord, V>(outcome: Outcome<K, V>, k: K, v: V) -> bool {
    match outcome {
        Outcome::Fit(s) => s.holds(k, v),
        Outcome::Split(l, sep, r) => l.holds(k, v) || r.holds(k, v),
    }
}

/// Settling neither drops nor adds an entry.
pub proof fn lemma_settle_holds<K: Ord, V>(node: Shape<K, V>, k: K, v: V)
    requires
        node.keys().len() <= MAX_KEYS + 1,
        node is Interior ==> node.children().len() == node.keys().len() + 1,
        node is Leaf ==> node->values.len() == node.keys().len(),
    ensures
        outcome_holds(node.settle(), k, v) <==> node.holds(k, v),
{
    if node.keys().len() > MAX_KEYS {
        match node {
            Shape::Leaf { keys, values } => {
                lemma_split_leaf_holds(keys, values, LEAF_SPLIT as int, k, v);
            },
            Shape::Interior { keys, children } => {
                let m = INTERIOR_SPLIT as int;
                lemma_split_interior_holds(
                    keys,
                    children,
                    keys.take(m),
                    keys.skip(m + 1),
                    m + 1,
                    k,
                    v,
                );
            },
        }
    }
}

/// A leaf whose value at index `i` was replaced stores the new value under
/// that key and is unchanged under every other key.
proof fn lemma_leaf_update_holds<K: Ord, V>(
    keys: Seq<K>,
    values: Seq<V>,
    i: int,
    v: V,
    k2: K,
    v2: V,
)
    requires
        total_order::<K>(),
        ascending(keys),
        values.len() == keys.len(),
        0 <= i < keys.len(),
    ensures
        (Shape::Leaf { keys, values: values.update(i, v) }).holds(k2, v2) <==> (if k2 == keys[i] {
            v2 == v
        } else {
            (Shape::Leaf { keys, values }).holds(k2, v2)
        }),
{
    broadcast use group_order;
    let vs = values.update(i, v);
    let before = Shape::Leaf { keys, values };
    let after = Shape::Leaf { keys, values: vs };
    if after.holds(k2, v2) {
        let j = choose|j: int|
            0 <= j < keys.len() && j < vs.len() && #[trigger] keys[j] == k2 && vs[j] == v2;
        if j < i {
            assert(precedes(keys[j], keys[i]));
        } else if i < j {
            assert(precedes(keys[i], keys[j]));
        }
        if j != i {
            assert(before.keys()[j] == k2 && before->values[j] == v2);
        }
    }
    if k2 == keys[i] && v2 == v {
        assert(after.keys()[i] == k2 && after->values[i] == v2);
    }
    if k2 != keys[i] && before.holds(k2, v2) {
        let j = choose|j: int|
            0 <= j < keys.len() && j < values.len() && #[trigger] keys[j] == k2 && values[j] == v2;
        assert(after.keys()[j] == k2 && after->values[j] == v2);
    }
}

/// A leaf that took in an entry with a new key stores that entry and what it
/// stored before.
proof fn lemma_leaf_insert_holds<K: Ord, V>(
    keys: Seq<K>,
    values: Seq<V>,
    i: int,
    k: K,
    v: V,
    k2: K,
    v2: V,
)
    requires
        !keys.contains(k),
        values.len() == keys.len(),
        0 <= i <= keys.len(),
    ensures
        (Shape::Leaf { keys: keys.insert(i, k), values: values.insert(i, v) }).holds(k2, v2) <==> (
        if k2 == k {
            v2 == v
        } else {
            (Shape::Leaf { keys, values }).holds(k2, v2)
        }),
{
    let ks = keys.insert(i, k);
    let vs = values.insert(i, v);
    let before = Shape::Leaf { keys, values };
    let after = Shape::Leaf { keys: ks, values: vs };
    if after.holds(k2, v2) {
        let j = choose|j: int|
            0 <= j < ks.len() && j < vs.len() && #[trigger] ks[j] == k2 && vs[j] == v2;
        if j < i {
            assert(before.keys()[j] == k2 && before->values[j] == v2);
            assert(keys.contains(k2));
        } else if j > i {
            assert(before.keys()[j - 1] == k2 && before->values[j - 1] == v2);
            assert(keys.contains(k2));
        }
    }
    if k2 == k && v2 == v {
        assert(after.keys()[i] == k2 && after->values[i] == v2);
    }
    if k2 != k && before.holds(k2, v2) {
        let j = choose|j: int|
            0 <= j < keys.len() && j < values.len() && #[trigger] keys[j] == k2 && values[j] == v2;
        if j < i {
            assert(after.keys()[j] == k2 && after->values[j] == v2);
        } else {
            assert(after.keys()[j + 1] == k2 && after->values[j + 1] == v2);
        }
    }
}

/// Replacing child `i` changes what the node stores only by what that child
/// stores.
proof fn lemma_replace_child_holds<K: Ord, V>(
    keys: Seq<K>,
    children: Seq<Shape<K, V>>,
    i: int,
    c: Shape<K, V>,
    k: K,
    v: V,
)
    requires
        0 <= i < children.len(),
    ensures
        (Shape::Interior { keys, children: children.update(i, c) }).holds(k, v) <==> (c.holds(k, v)
            || exists|j: int|
            0 <= j < children.len() && j != i && (#[trigger] children[j]).holds(k, v)),
{
    let cs = children.update(i, c);
    let after = Shape::Interior { keys, children: cs };
    if after.holds(k, v) {
        let j = choose|j: int| 0 <= j < cs.len() && (#[trigger] cs[j]).holds(k, v);
        if j != i {
            assert(children[j].holds(k, v));
        }
    }
    if c.holds(k, v) {
        assert(after.children()[i].holds(k, v));
    }
    if exists|j: int| 0 <= j < children.len() && j != i && (#[trigger] children[j]).holds(k, v) {
        let j = choose|j: int|
            0 <= j < children.len() && j != i && (#[trigger] children[j]).holds(k, v);
        assert(after.children()[j].holds(k, v));
    }
}

/// Replacing child `i` by the two halves of its split changes what the node
/// stores only by what the halves store.
proof fn lemma_replace_by_halves_holds<K: Ord, V>(
    ks: Seq<K>,
    children: Seq<Shape<K, V>>,
    i: int,
    left: Shape<K, V>,
    right: Shape<K, V>,
    k: K,
    v: V,
)
    requires
        0 <= i < children.len(),
    ensures
        (Shape::Interior { keys: ks, children: children.update(i, left).insert(i + 1, right) }).holds(
            k,
            v,
        ) <==> (left.holds(k, v) || right.holds(k, v) || exists|j: int|
            0 <= j < children.len() && j != i && (#[trigger] children[j]).holds(k, v)),
{
    let cs = children.update(i, left).insert(i + 1, right);
    let after = Shape::Interior { keys: ks, children: cs };
    if after.holds(k, v) {
        let j = choose|j: int| 0 <= j < cs.len() && (#[trigger] cs[j]).holds(k, v);
        if j < i {
            assert(children[j].holds(k, v));
        } else if j == i {
            assert(cs[j] == left);
        } else if j == i + 1 {
            assert(cs[j] == right);
        } else {
            assert(cs[j] == children[j - 1]);
            assert(children[j - 1].holds(k, v));
        }
    }
    if left.holds(k, v) {
        assert(after.children()[i].holds(k, v));
    }
    if right.holds(k, v) {
        assert(after.children()[i + 1].holds(k, v));
    }
    if exists|j: int| 0 <= j < children.len() && j != i && (#[trigger] children[j]).holds(k, v) {
        let j = choose|j: int|
            0 <= j < children.len() && j != i && (#[trigger] children[j]).holds(k, v);
        if j < i {
            assert(after.children()[j].holds(k, v));
        } else {
            assert(cs[j + 1] == children[j]);
            assert(after.children()[j + 1].holds(k, v));
        }
    }
}

/// After `put` the node stores the new entry, no other value under its key,
/// and under every other key what it stored before.
pub proof fn lemma_put_holds<K: Ord, V>(
    node: Shape<K, V>,
    lo: Option<K>,
    hi: Option<K>,
    k: K,
    v: V,
    k2: K,
    v2: V,
)
    requires
        total_order::<K>(),
        node.structured(),
        node.ordered_in(lo, hi),
    ensures
        outcome_holds(node.put(k, v), k2, v2) <==> (if k2 == k {
            v2 == v
        } else {
            node.holds(k2, v2)
        }),
    decreases node,
{
    match node {
        Shape::Leaf { keys, values } => {
            lemma_slot(keys, k);
            lemma_slot_finds(keys, k);
            let i = slot(keys, k);
            if i < keys.len() && keys[i] == k {
                lemma_leaf_update_holds(keys, values, i, v, k2, v2);
            } else {
                let full = Shape::Leaf { keys: keys.insert(i, k), values: values.insert(i, v) };
                lemma_settle_holds(full, k2, v2);
                lemma_leaf_insert_holds(keys, values, i, k, v, k2, v2);
            }
        },
        Shape::Interior { keys, children } => {
            lemma_route(keys, k);
            let i = route(keys, k);
            lemma_put_holds(children[i], lower(keys, lo, i), upper(keys, hi, i), k, v, k2, v2);
            let after = children[i].put(k, v);
            let elsewhere = exists|j: int|
                0 <= j < children.len() && j != i && (#[trigger] children[j]).holds(k2, v2);
            let goal = if k2 == k {
                v2 == v
            } else {
                node.holds(k2, v2)
            };
            assert((outcome_holds(after, k2, v2) || elsewhere) <==> goal) by {
                if elsewhere {
                    let j = choose|j: int|
                        0 <= j < children.len() && j != i && (#[trigger] children[j]).holds(
                            k2,
                            v2,
                        );
                    lemma_holds_routes(node, lo, hi, j, k2, v2);
                    assert(k2 != k);
                    assert(node.holds(k2, v2));
                }
                if k2 != k && node.holds(k2, v2) {
                    let j = choose|j: int|
                        0 <= j < children.len() && (#[trigger] children[j]).holds(k2, v2);
                    if j == i {
                        assert(outcome_holds(after, k2, v2));
                    } else {
                        assert(elsewhere);
                    }
                }
                if k2 != k && outcome_holds(after, k2, v2) {
                    assert(children[i].holds(k2, v2));
                    assert(node.holds(k2, v2));
                }
            }
            match after {
                Outcome::Fit(c) => {
                    lemma_replace_child_holds(keys, children, i, c, k2, v2);
                },
                Outcome::Split(left, sep, right) => {
                    let ks = keys.insert(i, sep);
                    let cs = children.update(i, left).insert(i + 1, right);
                    let full = Shape::Interior { keys: ks, children: cs };
                    lemma_settle_holds(full, k2, v2);
                    lemma_replace_by_halves_holds(ks, children, i, left, right, k2, v2);
                },
            }
        },
    }
}

/// Below a well-formed node each key is stored once: the map of its entries
/// has the pair `(k, v)` exactly when a leaf stores it, and descending for `k`
/// finds what the map has.
pub proof fn lemma_entries<K: Ord, V>(node: Shape<K, V>, k: K)
    requires
        total_order::<K>(),
        node.structured(),
        node.ordered(),
    ensures
        forall|v: V| node.holds(k, v) <==> (node.entries().contains_key(k) && node.entries()[k] == v),
        node.lookup(k) == (if node.entries().contains_key(k) {
            Some(node.entries()[k])
        } else {
            None
        }),
{
    assert forall|v: V| node.holds(k, v) <==> node.lookup(k) == Some(v) by {
        lemma_lookup_holds(node, None, None, k, v);
    }
    if node.entries().contains_key(k) {
        let w = choose|v: V| node.holds(k, v);
        assert(node.holds(k, w));
        assert(node.entries()[k] == w);
    }
    if node.lookup(k) is Some {
        assert(node.holds(k, node.lookup(k).unwrap()));
    }
}

/// Storing an entry in a well-formed tree leaves a well-formed tree.
pub proof fn lemma_inserted_wf<K: Ord, V>(root: Option<Shape<K, V>>, k: K, v: V)
    requires
        total_order::<K>(),
        root_wf(root),
    ensures
        root_wf(Some(inserted(root, k, v))),
{
    broadcast use group_order;
    let start = match root {
        Some(shape) => shape,
        None => Shape::Leaf { keys: Seq::empty(), values: Seq::empty() },
    };
    lemma_put_form(start, k, v);
    lemma_put_ordered(start, k, v, None, None);
    match start.put(k, v) {
        Outcome::Fit(s) => {},
        Outcome::Split(l, sep, r) => {
            let top = grown(start.put(k, v));
            assert(top.keys() == seq![sep]);
            assert(top.children() == seq![l, r]);
            assert(top.children()[0] == l);
            assert(top.children()[1] == r);
            assert(lower(top.keys(), None, 0) == None::<K>);
            assert(upper(top.keys(), None, 0) == Some(sep));
            assert(lower(top.keys(), None, 1) == Some(sep));
            assert(upper(top.keys(), None, 1) == None::<K>);
        },
    }
}

/// A tree grows by one level exactly when its root splits, and never
/// otherwise changes its height. An empty tree gets its first level.
pub proof fn lemma_inserted_height<K: Ord, V>(root: Option<Shape<K, V>>, k: K, v: V)
    requires
        root_wf(root),
    ensures
        inserted(root, k, v).height() == match root {
            None => 1,
            Some(shape) => if shape.put(k, v) is Split {
                shape.height() + 1
            } else {
                shape.height()
            },
        },
{
    let start = match root {
        Some(shape) => shape,
        None => Shape::Leaf { keys: Seq::empty(), values: Seq::empty() },
    };
    lemma_put_form(start, k, v);
    match start.put(k, v) {
        Outcome::Fit(s) => {},
        Outcome::Split(l, sep, r) => {
            let top = grown(start.put(k, v));
            assert(top.children()[0] == l);
        },
    }
}

/// After storing `(k, v)` the tree stores `v` under `k` and, under every
/// other key, what it stored before.
pub proof fn lemma_inserted_entries<K: Ord, V>(root: Option<Shape<K, V>>, k: K, v: V)
    requires
        total_order::<K>(),
        root_wf(root),
    ensures
        inserted(root, k, v).entries() == root_entries(root).insert(k, v),
{
    let start = match root {
        Some(shape) => shape,
        None => Shape::Leaf { keys: Seq::empty(), values: Seq::empty() },
    };
    let after = inserted(root, k, v);
    lemma_inserted_wf(root, k, v);
    assert forall|k2: K, v2: V| after.holds(k2, v2) <==> (if k2 == k {
        v2 == v
    } else {
        start.holds(k2, v2)
    }) by {
        lemma_put_holds(start, None, None, k, v, k2, v2);
        match start.put(k, v) {
            Outcome::Fit(s) => {},
            Outcome::Split(l, sep, r) => {
                if l.holds(k2, v2) {
                    assert(after.children()[0].holds(k2, v2));
                }
                if r.holds(k2, v2) {
                    assert(after.children()[1].holds(k2, v2));
                }
                if after.holds(k2, v2) {
                    let j = choose|j: int|
                        0 <= j < after.children().len() && (#[trigger] after.children()[j]).holds(
                            k2,
                            v2,
                        );
                    assert(j == 0 || j == 1);
                }
            },
        }
    }
    assert(start.entries() =~= root_entries(root)) by {
        if root is None {
            assert forall|k2: K| !start.entries().contains_key(k2) by {
                if start.entries().contains_key(k2) {
                    let w = choose|w: V| start.holds(k2, w);
                    assert(start.holds(k2, w));
                }
            }
        }
    }
    assert forall|k2: K| #[trigger]
        after.entries().contains_key(k2) <==> start.entries().insert(k, v).contains_key(k2) by {
        if after.entries().contains_key(k2) {
            let w = choose|w: V| after.holds(k2, w);
            assert(after.holds(k2, w));
            if k2 != k {
                assert(start.holds(k2, w));
            }
        }
        if k2 == k {
            assert(after.holds(k2, v));
        } else if start.entries().contains_key(k2) {
            let w = choose|w: V| start.holds(k2, w);
            assert(after.holds(k2, w));
        }
    }
    assert forall|k2: K| #[trigger]
        after.entries().contains_key(k2) implies after.entries()[k2] == start.entries().insert(
        k,
        v,
    )[k2] by {
        lemma_entries(after, k2);
        let w = after.entries()[k2];
        assert(after.holds(k2, w));
        if k2 != k {
            lemma_entries(start, k2);
            assert(start.holds(k2, w));
        }
    }
    assert(after.entries() =~= start.entries().insert(k, v));
}

/// A node with a key stores an entry.
pub proof fn lemma_root_has_entry<K: Ord, V>(node: Shape<K, V>)
    requires
        node.structured(),
        node.keys().len() >= 1,
    ensures
        node.entries() != Map::<K, V>::empty(),
    decreases node,
{
    match node {
        Shape::Leaf { keys, values } => {
            assert(node.keys()[0] == keys[0] && node->values[0] == values[0]);
            assert(node.holds(keys[0], values[0]));
            assert(node.entries().contains_key(keys[0]));
        },
        Shape::Interior { keys, children } => {
            lemma_root_has_entry(children[0]);
            let child = children[0];
            assert(exists|k: K| child.entries().contains_key(k)) by {
                if forall|k: K| !child.entries().contains_key(k) {
                    assert(child.entries() =~= Map::<K, V>::empty());
                }
            }
            let k = choose|k: K| child.entries().contains_key(k);
            let v = choose|v: V| child.holds(k, v);
            assert(node.children()[0].holds(k, v));
            assert(node.holds(k, v));
            assert(node.entries().contains_key(k));
        },
    }
}

} // verus!
