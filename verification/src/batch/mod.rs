//! Batches of operations on subtrees.
use crate::element::Element;
use vstd::prelude::*;

pub mod apply;
pub mod collection;
pub mod effects;
pub mod ops;
pub mod order;
pub mod path;
pub mod progress;
pub mod rules;
pub mod runs;
pub mod validate;
pub mod validity;

verus! {

/// What a batch operation does.
#[derive(Debug, PartialEq, Eq)]
pub enum Op {
    /// Inserts an element.
    Insert {
        /// The element.
        element: Element,
    },
    /// Deletes what is there.
    Delete,
}

/// A batch operation: what is done under which key of which subtree.
#[derive(Debug, PartialEq, Eq)]
pub struct GroveDbOp {
    /// Path of the subtree.
    pub path: Vec<Vec<u8>>,
    /// Key in the subtree.
    pub key: Vec<u8>,
    /// What is done.
    pub op: Op,
}

impl GroveDbOp {
    /// An operation that inserts an element.
    pub fn insert(path: Vec<Vec<u8>>, key: Vec<u8>, element: Element) -> (op: GroveDbOp)
        ensures
            op == (GroveDbOp { path, key, op: Op::Insert { element } }),
    {
        GroveDbOp { path, key, op: Op::Insert { element } }
    }

    /// An operation that deletes what is there.
    pub fn delete(path: Vec<Vec<u8>>, key: Vec<u8>) -> (op: GroveDbOp)
        ensures
            op == (GroveDbOp { path, key, op: Op::Delete }),
    {
        GroveDbOp { path, key, op: Op::Delete }
    }
}

} // verus!
