//! Elements, which are what a subtree holds under its keys.
use crate::hash::NodeHash;
use vstd::prelude::*;

verus! {

/// Optional bytes that an application may attach to an element.
pub type ElementFlags = Option<Vec<u8>>;

/// What a subtree holds under a key.
#[derive(Debug, PartialEq, Eq)]
pub enum Element {
    /// An ordinary value.
    Item(Vec<u8>, ElementFlags),
    /// A reference to another element by its path.
    Reference(Vec<Vec<u8>>, ElementFlags),
    /// A subtree, with its root hash.
    Tree(NodeHash, ElementFlags),
}

impl Element {
    /// A subtree with the given root hash, without flags.
    pub fn new_tree(tree_hash: NodeHash) -> (element: Element)
        ensures
            element == Element::Tree(tree_hash, None),
    {
        Element::new_tree_with_flags(tree_hash, None)
    }

    /// A subtree with the given root hash and flags.
    pub fn new_tree_with_flags(tree_hash: NodeHash, flags: ElementFlags) -> (element: Element)
        ensures
            element == Element::Tree(tree_hash, flags),
    {
        Element::Tree(tree_hash, flags)
    }
}

} // verus!
