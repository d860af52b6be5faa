//! The tree: the owner of the root.

use vstd::prelude::*;
use crate::invariants::{
    lemma_entries, lemma_inserted_entries, lemma_inserted_height, lemma_inserted_wf,
};
use crate::node::{BPlusInterior, BPlusLeaf, BPlusNode};
use crate::order::total_order;
use crate::shape::{
    grown, inserted, root_entries, root_height, root_lookup, root_wf, Outcome, Shape,
};

verus! {

/// An in-memory B+ tree that maps each key to one value. Storing under a key
/// that is already there replaces its value.
pub struct BPlusTree<K: Ord + Copy, V: Copy> {
    root: Option<BPlusNode<K, V>>,
}

impl<K: Ord + Copy, V: Copy> View for BPlusTree<K, V> {
    type V = Map<K, V>;

    /// The entries of the tree.
    open spec fn view(&self) -> Map<K, V> {
        root_entries(self.shape())
    }
}

impl<K: Ord + Copy, V: Copy> BPlusNode<K, V> {
    /// The root that takes the place of a root that has split: an interior
    /// node with the separator as its one key, over the two halves.
    pub fn grow_root(left: BPlusNode<K, V>, separator: K, right: BPlusNode<K, V>) -> (root:
        BPlusNode<K, V>)
        ensures
            root@ == grown(Outcome::Split(left@, separator, right@)),
    {
        let mut keys: Vec<K> = Vec::new();
        keys.push(separator);
        let mut children: Vec<BPlusNode<K, V>> = Vec::new();
        children.push(left);
        children.push(right);
        let node = BPlusInterior { keys, children };
        assert(node@.keys() =~= seq![separator]);
        assert(node@.children() =~= seq![left@, right@]);
        BPlusNode::Interior(node)
    }
}

impl<K: Ord + Copy, V: Copy> BPlusTree<K, V> {
    /// The root node as a mathematical value; `None` for the empty tree.
    pub closed spec fn shape(&self) -> Option<Shape<K, V>> {
        match self.root {
            Some(node) => Some(node@),
            None => None,
        }
    }

    /// The invariants of the tree: in every node the keys ascend strictly and
    /// are at most `MAX_KEYS`, every interior node has one child more than
    /// keys and separates its children, and all leaves are at one depth.
    pub open spec fn wf(&self) -> bool {
        root_wf(self.shape())
    }

    /// The number of levels; 0 for the empty tree.
    pub open spec fn levels(&self) -> nat {
        root_height(self.shape())
    }

    /// Whether storing `v` under `k` adds a level: the tree is empty, or its
    /// root splits.
    pub open spec fn grows_by(&self, k: K, v: V) -> bool {
        match self.shape() {
            Some(shape) => shape.put(k, v) is Split,
            None => true,
        }
    }

    /// An empty tree.
    pub fn new() -> (tree: Self)
        ensures
            tree.shape() is None,
            tree.wf(),
            tree@ == Map::<K, V>::empty(),
    {
        BPlusTree { root: None }
    }

    /// Stores `value` under `key`. The tree stays well formed, its root is
    /// the one that `inserted` describes, and its entries are those it had,
    /// with `key` now mapped to `value`.
    pub fn insert(&mut self, key: &K, value: &V)
        requires
            total_order::<K>(),
            old(self).wf(),
        ensures
            final(self).shape() == Some(inserted(old(self).shape(), *key, *value)),
            final(self).wf(),
            final(self)@ == old(self)@.insert(*key, *value),
            final(self).levels() == old(self).levels() + (if old(self).grows_by(*key, *value) {
                1nat
            } else {
                0nat
            }),
    {
        proof {
            lemma_inserted_wf(self.shape(), *key, *value);
            lemma_inserted_entries(self.shape(), *key, *value);
            lemma_inserted_height(self.shape(), *key, *value);
        }
        let mut root = match self.root.take() {
            Some(node) => node,
            None => BPlusNode::Leaf(BPlusLeaf { keys: Vec::new(), values: Vec::new() }),
        };
        match root.insert(key, value) {
            None => {
                self.root = Some(root);
            },
            Some((separator, right)) => {
                self.root = Some(BPlusNode::grow_root(root, separator, right));
            },
        }
    }

    /// The value stored under `key`, if there is one.
    pub fn get(&self, key: &K) -> (found: Option<V>)
        requires
            total_order::<K>(),
            self.wf(),
        ensures
            found == (if self@.contains_key(*key) {
                Some(self@[*key])
            } else {
                None
            }),
            found == root_lookup(self.shape(), *key),
    {
        match &self.root {
            None => None,
            Some(node) => {
                proof {
                    lemma_entries(node@, *key);
                }
                node.get(key)
            },
        }
    }

    /// The root node, for reading; `None` for the empty tree.
    pub fn root(&self) -> (root: Option<&BPlusNode<K, V>>)
        ensures
            match root {
                Some(node) => self.shape() == Some(node@),
                None => self.shape() is None,
            },
    {
        self.root.as_ref()
    }

    /// The number of levels: 0 for the empty tree, 1 for a single leaf;
    /// `usize::MAX` where the number does not fit.
    pub fn height(&self) -> (h: usize)
        requires
            self.wf(),
        ensures
            h == (if self.levels() <= usize::MAX {
                self.levels()
            } else {
                usize::MAX as nat
            }),
    {
        match &self.root {
            None => 0,
            Some(node) => node.height(),
        }
    }

    /// Whether the tree has no entry.
    pub fn is_empty(&self) -> (empty: bool)
        requires
            self.wf(),
        ensures
            empty == (self.shape() is None),
            empty == (self@ == Map::<K, V>::empty()),
    {
        proof {
            if self.shape() is Some {
                crate::invariants::lemma_root_has_entry(self.shape().unwrap());
            }
        }
        self.root.is_none()
    }
}

} // verus!
