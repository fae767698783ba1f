//! Proofs about merk trees: nodes, operators, and what they build.
use crate::hash::NodeHash;
use crate::tree::FetchError;
use vstd::prelude::*;

pub mod chunk;
pub mod content;
pub mod encoding;
pub mod loading;
pub mod reopened;
pub mod replication;
pub mod roundtrip;
pub mod soundness;
pub mod tree;

verus! {

/// A proof node, which holds all or part of the data of a tree node.
#[derive(Debug, Clone, PartialEq, Eq)]
pub enum Node {
    /// The node hash only.
    Hash(NodeHash),
    /// The hash of the key and value only.
    KVHash(NodeHash),
    /// The key and the value.
    KV(Vec<u8>, Vec<u8>),
}

/// A proof operator, executed on a stack of proof trees.
#[derive(Debug, Clone, PartialEq, Eq)]
pub enum Op {
    /// Pushes a node.
    Push(Node),
    /// Pops the top as the parent and the next item as its left child, and
    /// pushes the parent with the child attached.
    Parent,
    /// Pops the top as the child and the next item as its parent, and pushes
    /// the parent with the child attached on the right.
    Child,
}

/// What a `Node` holds.
pub enum NodeView {
    /// The node hash only.
    Hash(Seq<u8>),
    /// The hash of the key and value only.
    KVHash(Seq<u8>),
    /// The key and the value.
    KV(Seq<u8>, Seq<u8>),
}

/// What an `Op` does.
pub enum OpView {
    /// Pushes a node.
    Push(NodeView),
    /// Attaches a left child to its parent.
    Parent,
    /// Attaches a right child to its parent.
    Child,
}

impl View for Node {
    type V = NodeView;

    open spec fn view(&self) -> NodeView {
        match self {
            Node::Hash(hash) => NodeView::Hash(hash@),
            Node::KVHash(hash) => NodeView::KVHash(hash@),
            Node::KV(key, value) => NodeView::KV(key@, value@),
        }
    }
}

impl View for Op {
    type V = OpView;

    open spec fn view(&self) -> OpView {
        match self {
            Op::Push(node) => OpView::Push(node@),
            Op::Parent => OpView::Parent,
            Op::Child => OpView::Child,
        }
    }
}

/// What a list of operators does.
pub open spec fn ops_view(ops: Seq<Op>) -> Seq<OpView> {
    Seq::new(ops.len(), |i: int| ops[i]@)
}

/// Adding an operator adds what it does.
pub broadcast proof fn lemma_ops_view_push(ops: Seq<Op>, op: Op)
    ensures
        #[trigger] ops_view(ops.push(op)) == ops_view(ops).push(op@),
{
    assert(ops_view(ops.push(op)) =~= ops_view(ops).push(op@));
}

/// Why a proof could not be created, encoded, decoded or verified.
#[derive(Debug, PartialEq, Eq)]
pub enum ProofError {
    /// A node that is needed could not be fetched.
    Fetch(FetchError),
    /// The left edge of the tree is longer than a counter can count.
    HeightOverflow,
    /// Chunk index out of bounds.
    ChunkIndexOutOfBounds,
    /// A chunk was asked for and the tree is empty.
    EmptyTree,
    /// A key or a value is too long for the chunk encoding.
    CannotEncode,
    /// The bytes are no encoding of an operator.
    CannotDecode,
    /// Keys do not increase from push to push.
    KeyOrder,
    /// An operator found too few items on the stack.
    StackUnderflow,
    /// A child was attached where there is one already.
    ChildExists,
    /// Execution did not end with exactly one item on the stack.
    StackRemainder,
    /// A leaf chunk must contain a full subtree.
    IncompleteLeaf,
    /// A leaf chunk does not hash to what was expected.
    LeafHashMismatch {
        /// The hash that was expected.
        expected: NodeHash,
        /// The hash of the chunk.
        actual: NodeHash,
    },
    /// A height proof may only contain `KV` and `KVHash` nodes.
    AbridgedHeightProof,
    /// Inner nodes of a trunk must contain keys and values.
    AbridgedTrunkNode,
    /// The leaves of a trunk must contain `Hash` nodes.
    UnabridgedTrunkLeaf,
    /// The leftmost leaf of a trunk must contain a `KVHash` node.
    WrongLeftmostTrunkLeaf,
}

/// What operators do shows in what they are, one for one: those that push a node push
/// what this node holds.
pub proof fn law_what_operators_hold(ops: Seq<Op>, i: int)
    requires
        0 <= i < ops.len(),
    ensures
        ops_view(ops).len() == ops.len(),
        ops[i] matches Op::Push(Node::Hash(hash)) ==> ops_view(ops)[i] == OpView::Push(
            NodeView::Hash(hash@),
        ),
        ops[i] matches Op::Push(Node::KVHash(hash)) ==> ops_view(ops)[i] == OpView::Push(
            NodeView::KVHash(hash@),
        ),
        ops[i] matches Op::Push(Node::KV(key, value)) ==> ops_view(ops)[i] == OpView::Push(
            NodeView::KV(key@, value@),
        ),
        ops[i] is Parent ==> ops_view(ops)[i] is Parent,
        ops[i] is Child ==> ops_view(ops)[i] is Child,
{
}

} // verus!
