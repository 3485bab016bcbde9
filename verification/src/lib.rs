//! Sorted collections backed by an AA tree.
//!
//! An AA tree is a balanced binary search tree that keeps one small integer,
//! the level, in every node and restores balance with two local rewrites,
//! `skew` and `split`. [`AANode`] is the tree itself; [`AATreeSet`] and
//! [`AATreeMap`] wrap a root together with an element count.
//!
//! Every tree is described by its in-order sequence of payloads (`tree@`),
//! and all contracts are stated over that sequence.

pub mod iter;
pub mod laws;
pub mod map;
pub mod node;
pub mod order;
pub mod set;
pub mod tree;

pub use map::AATreeMap;
pub use node::AANode;
pub use set::AATreeSet;
pub use tree::AATree;
