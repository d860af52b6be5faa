//! An in-memory B+ tree with verified insertion and lookup.
//!
//! `shape` holds the mathematical model of a node and of insertion, `node`
//! and `tree` the executable tree, `invariants` the proofs that insertion
//! keeps the tree well formed, and `laws` what follows for every tree.

pub mod order;
pub mod keys;
pub mod shape;
pub mod node;
pub mod invariants;
pub mod tree;
pub mod laws;

pub use crate::node::{BPlusInterior, BPlusLeaf, BPlusNode};
pub use crate::tree::BPlusTree;
