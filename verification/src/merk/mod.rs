//! Merk: a Merkle AVL tree over a source of stored nodes.
use crate::tree::{Fetch, Tree};
use vstd::prelude::*;

pub mod chunks;

verus! {

/// A handle to a Merkle key/value store: its tree, as far as it is in memory,
/// and the source of its other nodes.
pub struct Merk<S: Fetch> {
    /// The root node, unless the tree is empty.
    pub tree: Option<Tree>,
    /// Where nodes that are not in memory come from.
    pub source: S,
}

} // verus!
