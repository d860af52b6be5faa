//! The mathematical model: nodes as values, the invariants of a tree, and
//! insertion and lookup as functions on those values.

use vstd::prelude::*;
use crate::keys::{ascending, route, slot};
use crate::order::precedes;

verus! {

/// Greatest number of children of an interior node.
pub const ORDER: usize = 5;

/// Greatest number of keys of a node.
pub const MAX_KEYS: usize = ORDER - 1;

/// Smallest number of keys of a node other than the root.
pub const MIN_KEYS: usize = (ORDER + 1) / 2 - 1;

/// Number of entries that stay in the left half when a leaf splits.
pub const LEAF_SPLIT: usize = (MAX_KEYS + 2) / 2;

/// Index of the key that moves up when an interior node splits.
pub const INTERIOR_SPLIT: usize = (MAX_KEYS + 1) / 2;

/// The mathematical value of a node: what it stores, without how it is
/// allocated.
pub enum Shape<K, V> {
    Leaf { keys: Seq<K>, values: Seq<V> },
    Interior { keys: Seq<K>, children: Seq<Shape<K, V>> },
}

/// What putting an entry into a node leaves behind.
pub enum Outcome<K, V> {
    /// The node, changed in place.
    Fit(Shape<K, V>),
    /// The node overflowed: its left half, the separator that moves up, and
    /// its right half.
    Split(Shape<K, V>, K, Shape<K, V>),
}

/// `lo`, where there is one, does not sort after `k`.
pub open spec fn not_below<K: Ord>(k: K, lo: Option<K>) -> bool {
    lo matches Some(l) ==> !precedes(k, l)
}

/// `lo`, where there is one, sorts strictly before `k`.
pub open spec fn above<K: Ord>(k: K, lo: Option<K>) -> bool {
    lo matches Some(l) ==> precedes(l, k)
}

/// `k` sorts strictly before `hi`, where there is one.
pub open spec fn below<K: Ord>(k: K, hi: Option<K>) -> bool {
    hi matches Some(h) ==> precedes(k, h)
}

/// Every key lies in `[lo, hi)`.
pub open spec fn within<K: Ord>(keys: Seq<K>, lo: Option<K>, hi: Option<K>) -> bool {
    forall|i: int| 0 <= i < keys.len() ==> not_below(#[trigger] keys[i], lo) && below(keys[i], hi)
}

/// Lower bound of child `i` of a node with these separators and the lower
/// bound `lo`.
pub open spec fn lower<K>(keys: Seq<K>, lo: Option<K>, i: int) -> Option<K> {
    if 0 < i <= keys.len() {
        Some(keys[i - 1])
    } else {
        lo
    }
}

/// Upper bound of child `i` of a node with these separators and the upper
/// bound `hi`.
pub open spec fn upper<K>(keys: Seq<K>, hi: Option<K>, i: int) -> Option<K> {
    if 0 <= i < keys.len() {
        Some(keys[i])
    } else {
        hi
    }
}

/// The root that a tree gets from what putting an entry into its old root
/// left behind: the old root where it did not split, else a new interior node
/// over the two halves, one level higher.
pub open spec fn grown<K, V>(outcome: Outcome<K, V>) -> Shape<K, V> {
    match outcome {
        Outcome::Fit(root) => root,
        Outcome::Split(left, separator, right) => Shape::Interior {
            keys: seq![separator],
            children: seq![left, right],
        },
    }
}

/// The root of a tree after `v` was stored under `k`. An empty tree starts
/// from a leaf without entries.
pub open spec fn inserted<K: Ord, V>(root: Option<Shape<K, V>>, k: K, v: V) -> Shape<K, V> {
    let start = match root {
        Some(shape) => shape,
        None => Shape::Leaf { keys: Seq::empty(), values: Seq::empty() },
    };
    grown(start.put(k, v))
}

/// A root is well formed: it has a key, and the invariants hold below it. No
/// root at all is the empty tree.
pub open spec fn root_wf<K: Ord, V>(root: Option<Shape<K, V>>) -> bool {
    root matches Some(shape) ==> shape.wf() && shape.keys().len() >= 1
}

/// The entries below a root; none where there is no root.
pub open spec fn root_entries<K: Ord, V>(root: Option<Shape<K, V>>) -> Map<K, V> {
    match root {
        Some(shape) => shape.entries(),
        None => Map::empty(),
    }
}

/// What descending for `k` from a root finds; nothing where there is no root.
pub open spec fn root_lookup<K: Ord, V>(root: Option<Shape<K, V>>, k: K) -> Option<V> {
    match root {
        Some(shape) => shape.lookup(k),
        None => None,
    }
}

/// The number of levels of a tree with this root; 0 where there is no root.
pub open spec fn root_height<K: Ord, V>(root: Option<Shape<K, V>>) -> nat {
    match root {
        Some(shape) => shape.height(),
        None => 0,
    }
}

impl<K: Ord, V> Shape<K, V> {
    pub open spec fn keys(self) -> Seq<K> {
        match self {
            Shape::Leaf { keys, .. } => keys,
            Shape::Interior { keys, .. } => keys,
        }
    }

    /// The children of an interior node; a leaf has none.
    pub open spec fn children(self) -> Seq<Shape<K, V>> {
        match self {
            Shape::Leaf { .. } => Seq::empty(),
            Shape::Interior { children, .. } => children,
        }
    }

    /// Number of levels from this node down to its leftmost leaf, the node
    /// itself included.
    pub open spec fn height(self) -> nat
        decreases self,
    {
        match self {
            Shape::Leaf { .. } => 1,
            Shape::Interior { children, .. } => if children.len() > 0 {
                1 + children[0].height()
            } else {
                1
            },
        }
    }

    /// `n` is a node `depth` levels below this one; at depth 0 it is this
    /// node itself.
    pub open spec fn has_node_at(self, n: Shape<K, V>, depth: nat) -> bool
        decreases self,
    {
        if depth == 0 {
            self == n
        } else {
            match self {
                Shape::Leaf { .. } => false,
                Shape::Interior { children, .. } => exists|i: int|
                    0 <= i < children.len() && (#[trigger] children[i]).has_node_at(
                        n,
                        (depth - 1) as nat,
                    ),
            }
        }
    }

    /// The pair `(k, v)` is stored in a leaf below this node.
    pub open spec fn holds(self, k: K, v: V) -> bool
        decreases self,
    {
        match self {
            Shape::Leaf { keys, values } => exists|i: int|
                0 <= i < keys.len() && i < values.len() && #[trigger] keys[i] == k && values[i]
                    == v,
            Shape::Interior { children, .. } => exists|i: int|
                0 <= i < children.len() && (#[trigger] children[i]).holds(k, v),
        }
    }

    /// The entries below this node as a map.
    pub open spec fn entries(self) -> Map<K, V> {
        Map::new(|k: K| exists|v: V| self.holds(k, v), |k: K| choose|v: V| self.holds(k, v))
    }

    /// The counts fit: a leaf has a value for each key, an interior node has a
    /// key and one child more than keys, no node has more than `MAX_KEYS`
    /// keys, and every child has at least `MIN_KEYS`.
    pub open spec fn structured(self) -> bool
        decreases self,
    {
        match self {
            Shape::Leaf { keys, values } => keys.len() <= MAX_KEYS && values.len() == keys.len(),
            Shape::Interior { keys, children } => {
                &&& 1 <= keys.len() <= MAX_KEYS
                &&& children.len() == keys.len() + 1
                &&& forall|i: int|
                    0 <= i < children.len() ==> {
                        &&& (#[trigger] children[i]).structured()
                        &&& children[i].keys().len() >= MIN_KEYS
                    }
            },
        }
    }

    /// The keys of every node ascend strictly and lie in `[lo, hi)`, and the
    /// separators of an interior node bound its children: child `i` lies in
    /// `[keys[i - 1], keys[i])`, the first child from `lo` and the last one up
    /// to `hi`. `None` stands for no bound.
    pub open spec fn ordered_in(self, lo: Option<K>, hi: Option<K>) -> bool
        decreases self,
    {
        match self {
            Shape::Leaf { keys, .. } => ascending(keys) && within(keys, lo, hi),
            Shape::Interior { keys, children } => {
                &&& ascending(keys)
                &&& within(keys, lo, hi)
                &&& forall|i: int|
                    0 <= i < children.len() ==> (#[trigger] children[i]).ordered_in(
                        lower(keys, lo, i),
                        upper(keys, hi, i),
                    )
            },
        }
    }

    pub open spec fn ordered(self) -> bool {
        self.ordered_in(None, None)
    }

    /// Every leaf below this node is at the same depth.
    pub open spec fn balanced(self) -> bool
        decreases self,
    {
        match self {
            Shape::Leaf { .. } => true,
            Shape::Interior { children, .. } => forall|i: int|
                0 <= i < children.len() ==> {
                    &&& (#[trigger] children[i]).balanced()
                    &&& children[i].height() == children[0].height()
                },
        }
    }

    /// What holds of every node of a tree between two operations.
    pub open spec fn wf(self) -> bool {
        &&& self.structured()
        &&& self.ordered()
        &&& self.balanced()
    }

    /// The value found for `k` by descending from this node: at each interior
    /// node into the child that `route` selects, and in the leaf to the slot
    /// of `k`.
    pub open spec fn lookup(self, k: K) -> Option<V>
        decreases self,
    {
        match self {
            Shape::Leaf { keys, values } => {
                let i = slot(keys, k);
                if i < keys.len() && i < values.len() && keys[i] == k {
                    Some(values[i])
                } else {
                    None
                }
            },
            Shape::Interior { keys, children } => {
                let i = route(keys, k);
                if 0 <= i < children.len() {
                    children[i].lookup(k)
                } else {
                    None
                }
            },
        }
    }

    /// The two halves of an overfull node and the separator between them. A
    /// leaf keeps its first `LEAF_SPLIT` entries on the left, and the
    /// separator is a copy of the first key on the right. An interior node
    /// moves the key at `INTERIOR_SPLIT` up and keeps it in neither half.
    pub open spec fn split(self) -> (Shape<K, V>, K, Shape<K, V>) {
        match self {
            Shape::Leaf { keys, values } => {
                let m = LEAF_SPLIT as int;
                (
                    Shape::Leaf { keys: keys.take(m), values: values.take(m) },
                    keys[m],
                    Shape::Leaf { keys: keys.skip(m), values: values.skip(m) },
                )
            },
            Shape::Interior { keys, children } => {
                let m = INTERIOR_SPLIT as int;
                (
                    Shape::Interior { keys: keys.take(m), children: children.take(m + 1) },
                    keys[m],
                    Shape::Interior { keys: keys.skip(m + 1), children: children.skip(m + 1) },
                )
            },
        }
    }

    /// A node after an entry or a child was added to it: as it is where it
    /// has at most `MAX_KEYS` keys, split otherwise.
    pub open spec fn settle(self) -> Outcome<K, V> {
        if self.keys().len() <= MAX_KEYS {
            Outcome::Fit(self)
        } else {
            let (left, separator, right) = self.split();
            Outcome::Split(left, separator, right)
        }
    }

    /// The result of storing `v` under `k` below this node. In the leaf that
    /// `route` leads to, a key that is already there keeps its place and takes
    /// the new value; a new key is put at its slot. A parent takes in what a
    /// split child hands up: the separator at the index of the child, the
    /// right half directly behind the left one. Each node that then has more
    /// than `MAX_KEYS` keys splits in turn.
    pub open spec fn put(self, k: K, v: V) -> Outcome<K, V>
        decreases self,
    {
        match self {
            Shape::Leaf { keys, values } => {
                let i = slot(keys, k);
                if i < keys.len() && keys[i] == k {
                    Outcome::Fit(Shape::Leaf { keys, values: values.update(i, v) })
                } else {
                    (Shape::Leaf { keys: keys.insert(i, k), values: values.insert(i, v) }).settle()
                }
            },
            Shape::Interior { keys, children } => {
                let i = route(keys, k);
                if 0 <= i < children.len() {
                    match children[i].put(k, v) {
                        Outcome::Fit(c) => Outcome::Fit(
                            Shape::Interior { keys, children: children.update(i, c) },
                        ),
                        Outcome::Split(left, separator, right) => (Shape::Interior {
                            keys: keys.insert(i, separator),
                            children: children.update(i, left).insert(i + 1, right),
                        }).settle(),
                    }
                } else {
                    Outcome::Fit(self)
                }
            },
        }
    }
}

} // verus!
