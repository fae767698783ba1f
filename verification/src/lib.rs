//! The verified core of a hierarchical authenticated data structure: operation
//! costs, chunk proofs of merk trees, batches of operations on subtrees, and
//! the root tree above them.
use vstd::prelude::*;

pub mod batch;
pub mod bytes;
pub mod costs;
pub mod element;
pub mod error;
pub mod hash;
pub mod is_empty_tree;
pub mod merk;
pub mod proofs;
pub mod propagation;
pub mod raw_iterator;
pub mod root_leaves;
pub mod root_tree;
pub mod tree;
pub mod worst_case_costs;

verus! {

/// A hierarchical authenticated data structure: a root tree above subtrees that
/// hold elements and further subtrees. What storage does for it, its functions
/// take as arguments.
#[derive(Debug)]
pub struct GroveDb;

} // verus!
