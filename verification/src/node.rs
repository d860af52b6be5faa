//! The nodes of the tree and the operations on one node and what is below it.

use vstd::prelude::*;
use crate::keys::{find_route, find_slot, lemma_route, lemma_slot};
use crate::order::{less, total_order};
use crate::shape::{Outcome, Shape, INTERIOR_SPLIT, LEAF_SPLIT, MAX_KEYS};

verus! {

/// A node at the bottom of the tree: keys in ascending order, each with its
/// value at the same index.
pub struct BPlusLeaf<K: Ord + Copy, V: Copy> {
    pub keys: Vec<K>,
    pub values: Vec<V>,
}

/// A node above the leaves: separator keys in ascending order and one child
/// more than keys. The node owns its children, and a child holds no link to
/// its parent: what a split hands up travels back along the descent.
pub struct BPlusInterior<K: Ord + Copy, V: Copy> {
    pub keys: Vec<K>,
    pub children: Vec<BPlusNode<K, V>>,
}

/// A node of the tree.
pub enum BPlusNode<K: Ord + Copy, V: Copy> {
    Leaf(BPlusLeaf<K, V>),
    Interior(BPlusInterior<K, V>),
}

/// The shapes of a sequence of nodes, in the same order.
pub open spec fn shapes<K: Ord + Copy, V: Copy>(nodes: Seq<BPlusNode<K, V>>) -> Seq<Shape<K, V>>
    decreases nodes,
{
    Seq::new(
        nodes.len(),
        |i: int|
            if 0 <= i < nodes.len() {
                nodes[i].view()
            } else {
                arbitrary()
            },
    )
}

impl<K: Ord + Copy, V: Copy> View for BPlusNode<K, V> {
    type V = Shape<K, V>;

    open spec fn view(&self) -> Shape<K, V>
        decreases self,
    {
        match self {
            BPlusNode::Leaf(leaf) => Shape::Leaf { keys: leaf.keys@, values: leaf.values@ },
            BPlusNode::Interior(node) => Shape::Interior {
                keys: node.keys@,
                children: shapes(node.children@),
            },
        }
    }
}

impl<K: Ord + Copy, V: Copy> View for BPlusLeaf<K, V> {
    type V = Shape<K, V>;

    open spec fn view(&self) -> Shape<K, V> {
        Shape::Leaf { keys: self.keys@, values: self.values@ }
    }
}

impl<K: Ord + Copy, V: Copy> View for BPlusInterior<K, V> {
    type V = Shape<K, V>;

    open spec fn view(&self) -> Shape<K, V> {
        Shape::Interior { keys: self.keys@, children: shapes(self.children@) }
    }
}

impl<K: Ord + Copy, V: Copy> BPlusLeaf<K, V> {
    /// Splits a leaf that holds one entry too many. The leaf keeps the left
    /// half; the separator and the right half are returned.
    pub fn split(&mut self) -> (halves: (K, BPlusLeaf<K, V>))
        requires
            old(self).keys@.len() == MAX_KEYS + 1,
            old(self).values@.len() == MAX_KEYS + 1,
        ensures
            (final(self)@, halves.0, halves.1@) == old(self)@.split(),
    {
        let right_keys = self.keys.split_off(LEAF_SPLIT);
        let right_values = self.values.split_off(LEAF_SPLIT);
        let separator = right_keys[0];
        (separator, BPlusLeaf { keys: right_keys, values: right_values })
    }

    /// Stores `value` under `key` in this leaf and splits the leaf if it
    /// overflows; the separator and the new right sibling are then returned.
    pub fn insert(&mut self, key: &K, value: &V) -> (split: Option<(K, BPlusLeaf<K, V>)>)
        requires
            total_order::<K>(),
            old(self)@.structured(),
        ensures
            match old(self)@.put(*key, *value) {
                Outcome::Fit(s) => split is None && final(self)@ == s,
                Outcome::Split(l, sep, r) => {
                    &&& split matches Some((k, right))
                    &&& k == sep
                    &&& right@ == r
                    &&& final(self)@ == l
                },
            },
    {
        let i = find_slot(&self.keys, key);
        proof {
            lemma_slot(self.keys@, *key);
            broadcast use crate::order::group_order;
        }
        if i < self.keys.len() && !less(key, &self.keys[i]) {
            self.values[i] = *value;
            return None;
        }
        self.keys.insert(i, *key);
        self.values.insert(i, *value);
        if self.keys.len() <= MAX_KEYS {
            None
        } else {
            Some(self.split())
        }
    }

    /// The value stored under `key` in this leaf.
    pub fn get(&self, key: &K) -> (found: Option<V>)
        requires
            total_order::<K>(),
            self@.structured(),
        ensures
            found == self@.lookup(*key),
    {
        let i = find_slot(&self.keys, key);
        proof {
            lemma_slot(self.keys@, *key);
            broadcast use crate::order::group_order;
        }
        if i < self.keys.len() && !less(key, &self.keys[i]) {
            Some(self.values[i])
        } else {
            None
        }
    }
}

impl<K: Ord + Copy, V: Copy> BPlusInterior<K, V> {
    /// Splits an interior node that holds one key too many. The node keeps
    /// the left half; the key that moves up and the right half are returned.
    pub fn split(&mut self) -> (halves: (K, BPlusInterior<K, V>))
        requires
            old(self).keys@.len() == MAX_KEYS + 1,
            old(self).children@.len() == MAX_KEYS + 2,
        ensures
            (final(self)@, halves.0, halves.1@) == old(self)@.split(),
    {
        let right_keys = self.keys.split_off(INTERIOR_SPLIT + 1);
        let right_children = self.children.split_off(INTERIOR_SPLIT + 1);
        let promoted = self.keys.pop().unwrap();
        let sibling = BPlusInterior { keys: right_keys, children: right_children };
        proof {
            let full = old(self)@;
            assert(self@.keys() =~= full.keys().take(INTERIOR_SPLIT as int));
            assert(self@.children() =~= full.children().take(INTERIOR_SPLIT + 1));
            assert(sibling@.keys() =~= full.keys().skip(INTERIOR_SPLIT + 1));
            assert(sibling@.children() =~= full.children().skip(INTERIOR_SPLIT + 1));
        }
        (promoted, sibling)
    }

    /// Takes in what the split of child `i` handed up: the separator becomes
    /// key `i` and `right` the child behind child `i`. Splits this node if it
    /// then overflows.
    pub fn absorb(&mut self, i: usize, separator: K, right: BPlusNode<K, V>) -> (split: Option<
        (K, BPlusInterior<K, V>),
    >)
        requires
            old(self).keys@.len() <= MAX_KEYS,
            old(self).children@.len() == old(self).keys@.len() + 1,
            i <= old(self).keys@.len(),
        ensures
            match (Shape::Interior {
                keys: old(self)@.keys().insert(i as int, separator),
                children: old(self)@.children().insert(i + 1, right@),
            }).settle() {
                Outcome::Fit(s) => split is None && final(self)@ == s,
                Outcome::Split(l, sep, r) => {
                    &&& split matches Some((k, sibling))
                    &&& k == sep
                    &&& sibling@ == r
                    &&& final(self)@ == l
                },
            },
    {
        self.keys.insert(i, separator);
        self.children.insert(i + 1, right);
        assert(self@.children() =~= old(self)@.children().insert(i + 1, right@));
        if self.keys.len() <= MAX_KEYS {
            None
        } else {
            Some(self.split())
        }
    }
}

impl<K: Ord + Copy, V: Copy> BPlusNode<K, V> {
    /// Stores `value` under `key` below this node. Where the node overflows
    /// it keeps its left half, and the separator and the new right sibling
    /// are returned for the parent to take in.
    pub fn insert(&mut self, key: &K, value: &V) -> (split: Option<(K, BPlusNode<K, V>)>)
        requires
            total_order::<K>(),
            old(self)@.structured(),
        ensures
            match old(self)@.put(*key, *value) {
                Outcome::Fit(s) => split is None && final(self)@ == s,
                Outcome::Split(l, sep, r) => {
                    &&& split matches Some((k, right))
                    &&& k == sep
                    &&& right@ == r
                    &&& final(self)@ == l
                },
            },
        decreases *old(self),
    {
        match self {
            BPlusNode::Leaf(leaf) => {
                match leaf.insert(key, value) {
                    None => None,
                    Some((separator, right)) => Some((separator, BPlusNode::Leaf(right))),
                }
            },
            BPlusNode::Interior(node) => {
                let i = find_route(&node.keys, key);
                proof {
                    lemma_route(node.keys@, *key);
                }
                let ghost before = node@;
                assert(before.children()[i as int] == node.children@[i as int]@);
                assert(before.children()[i as int].structured());
                match node.children[i].insert(key, value) {
                    None => {
                        assert(node@.children() =~= before.children().update(
                            i as int,
                            node.children@[i as int]@,
                        ));
                        None
                    },
                    Some((separator, right)) => {
                        assert(node@.children() =~= before.children().update(
                            i as int,
                            node.children@[i as int]@,
                        ));
                        match node.absorb(i, separator, right) {
                            None => None,
                            Some((promoted, sibling)) => Some(
                                (promoted, BPlusNode::Interior(sibling)),
                            ),
                        }
                    },
                }
            },
        }
    }

    /// The value found for `key` by descending from this node.
    pub fn get(&self, key: &K) -> (found: Option<V>)
        requires
            total_order::<K>(),
            self@.structured(),
        ensures
            found == self@.lookup(*key),
        decreases self,
    {
        match self {
            BPlusNode::Leaf(leaf) => leaf.get(key),
            BPlusNode::Interior(node) => {
                let i = find_route(&node.keys, key);
                proof {
                    lemma_route(node.keys@, *key);
                }
                assert(self@ == node@);
                assert(node@.children()[i as int] == node.children@[i as int]@);
                node.children[i].get(key)
            },
        }
    }

    /// Number of levels from this node down to its leaves, the node itself
    /// included; `usize::MAX` where the number does not fit.
    pub fn height(&self) -> (h: usize)
        requires
            self@.structured(),
        ensures
            h == (if self@.height() <= usize::MAX {
                self@.height()
            } else {
                usize::MAX as nat
            }),
        decreases self,
    {
        match self {
            BPlusNode::Leaf(_) => 1,
            BPlusNode::Interior(node) => {
                assert(self@ == node@);
                assert(node@.children()[0] == node.children@[0]@);
                let below = node.children[0].height();
                below.saturating_add(1)
            },
        }
    }
}

} // verus!
