//! Proof trees, and the machine that builds them from proof operators.
use crate::bytes::{bytes_less, copy_bytes, lex_less};
use crate::hash::{
    kv_hash, kv_hash_view, node_hash, node_hash_view, null_hash, null_hash_view, NodeHash,
};
use crate::proofs::{Node, NodeView, Op, OpView, ProofError};
use vstd::prelude::*;

verus! {

/// A tree of proof nodes.
#[derive(Debug)]
pub struct ProofTree {
    /// The node itself.
    pub node: Node,
    /// The left child, if there is one.
    pub left: Option<Child>,
    /// The right child, if there is one.
    pub right: Option<Child>,
}

/// A child of a proof tree.
#[derive(Debug)]
pub struct Child {
    /// The child.
    pub tree: Box<ProofTree>,
    /// The hash of the child.
    pub hash: NodeHash,
}

/// What a proof tree holds.
pub struct ProofTreeView {
    /// The node itself.
    pub node: NodeView,
    /// The left child, if there is one.
    pub left: Option<Box<ProofTreeView>>,
    /// The right child, if there is one.
    pub right: Option<Box<ProofTreeView>>,
}

/// What a child slot of a proof tree holds.
pub open spec fn child_view(child: Option<Child>) -> Option<Box<ProofTreeView>>
    decreases child,
{
    match child {
        None => None,
        Some(child) => Some(Box::new(tree_view(*child.tree))),
    }
}

/// What a proof tree holds.
pub open spec fn tree_view(tree: ProofTree) -> ProofTreeView
    decreases tree,
{
    ProofTreeView {
        node: tree.node@,
        left: child_view(tree.left),
        right: child_view(tree.right),
    }
}

impl View for ProofTree {
    type V = ProofTreeView;

    open spec fn view(&self) -> ProofTreeView {
        tree_view(*self)
    }
}

/// The hash that a child slot contributes to its parent's hash.
pub open spec fn child_hash_view(child: Option<Box<ProofTreeView>>) -> Seq<u8>
    decreases child,
{
    match child {
        None => null_hash_view(),
        Some(tree) => proof_hash(*tree),
    }
}

/// The hash of a proof tree: what its root node says, with the hashes of the
/// children where the root is not just a hash.
pub open spec fn proof_hash(tree: ProofTreeView) -> Seq<u8>
    decreases tree,
{
    match tree.node {
        NodeView::Hash(hash) => hash,
        NodeView::KVHash(kv) => node_hash_view(
            kv,
            child_hash_view(tree.left),
            child_hash_view(tree.right),
        ),
        NodeView::KV(key, value) => node_hash_view(
            kv_hash_view(key, value),
            child_hash_view(tree.left),
            child_hash_view(tree.right),
        ),
    }
}

/// Whether a child carries the hash of its tree, and so do all below it.
pub open spec fn child_well_formed(child: Option<Child>) -> bool
    decreases child,
{
    match child {
        None => true,
        Some(child) => child.hash@ == proof_hash(tree_view(*child.tree)) && well_formed(*child.tree),
    }
}

/// Whether all children in a tree carry the hashes of their trees.
pub open spec fn well_formed(tree: ProofTree) -> bool
    decreases tree,
{
    child_well_formed(tree.left) && child_well_formed(tree.right)
}

/// The state of the proof machine: the stack, the last key that was pushed, and
/// whether all nodes that were pushed had keys and values.
#[verifier::ext_equal]
pub struct Execution {
    /// The stack, with its top at the end.
    pub stack: Seq<ProofTreeView>,
    /// The last key that was pushed.
    pub last_key: Option<Seq<u8>>,
    /// Whether all nodes that were pushed had keys and values.
    pub kv_only: bool,
}

/// The proof machine before the first operator.
pub open spec fn start() -> Execution {
    Execution { stack: seq![], last_key: None, kv_only: true }
}

/// A tree of one node.
pub open spec fn leaf(node: NodeView) -> ProofTreeView {
    ProofTreeView { node, left: None, right: None }
}

/// What pushing a node does. Keys must increase; where `full` is set, nodes
/// without a key and a value are refused.
pub open spec fn push(state: Execution, node: NodeView, full: bool) -> Result<Execution, ProofError> {
    let last_key = match node {
        NodeView::KV(key, value) => Some(key),
        _ => state.last_key,
    };
    if node is KV && state.last_key is Some && !lex_less(state.last_key->0, node->KV_0) {
        Err(ProofError::KeyOrder)
    } else if full && !(node is KV) {
        Err(ProofError::IncompleteLeaf)
    } else {
        Ok(
            Execution {
                stack: state.stack.push(leaf(node)),
                last_key,
                kv_only: state.kv_only && node is KV,
            },
        )
    }
}

/// What attaching a child does to the stack: the top is the parent (`left`) or
/// the child, and the item below it is the other one.
pub open spec fn join(stack: Seq<ProofTreeView>, left: bool) -> Result<
    Seq<ProofTreeView>,
    ProofError,
> {
    if stack.len() < 2 {
        Err(ProofError::StackUnderflow)
    } else {
        let top = stack.last();
        let below = stack[stack.len() - 2];
        let rest = stack.take(stack.len() - 2);
        if left {
            if top.left is Some {
                Err(ProofError::ChildExists)
            } else {
                Ok(rest.push(ProofTreeView { left: Some(Box::new(below)), ..top }))
            }
        } else {
            if below.right is Some {
                Err(ProofError::ChildExists)
            } else {
                Ok(rest.push(ProofTreeView { right: Some(Box::new(top)), ..below }))
            }
        }
    }
}

/// What attaching a child does.
pub open spec fn join_step(state: Execution, left: bool) -> Result<Execution, ProofError> {
    match join(state.stack, left) {
        Ok(stack) => Ok(Execution { stack, ..state }),
        Err(e) => Err(e),
    }
}

/// What one operator does.
pub open spec fn step(state: Execution, op: OpView, full: bool) -> Result<Execution, ProofError> {
    match op {
        OpView::Push(node) => push(state, node, full),
        OpView::Parent => join_step(state, true),
        OpView::Child => join_step(state, false),
    }
}

/// What the machine does with a list of operators, each of which may be an
/// error: it stops at the first error.
pub open spec fn run(
    state: Result<Execution, ProofError>,
    ops: Seq<Result<OpView, ProofError>>,
    full: bool,
) -> Result<Execution, ProofError>
    decreases ops.len(),
{
    if ops.len() == 0 {
        state
    } else {
        match (run(state, ops.drop_last(), full), ops.last()) {
            (Err(e), _) => Err(e),
            (Ok(state), Err(e)) => Err(e),
            (Ok(state), Ok(op)) => step(state, op, full),
        }
    }
}

/// The result of executing a proof: the one tree on the stack, and whether all
/// nodes had keys and values.
pub open spec fn executed(
    ops: Seq<Result<OpView, ProofError>>,
    full: bool,
) -> Result<(ProofTreeView, bool), ProofError> {
    match run(Ok(start()), ops, full) {
        Err(e) => Err(e),
        Ok(state) => if state.stack.len() == 1 {
            Ok((state.stack[0], state.kv_only))
        } else {
            Err(ProofError::StackRemainder)
        },
    }
}

/// What a list of operators does, each of which may be an error.
pub open spec fn items_view(ops: Seq<Result<Op, ProofError>>) -> Seq<Result<OpView, ProofError>> {
    Seq::new(
        ops.len(),
        |i: int|
            match ops[i] {
                Ok(op) => Ok(op@),
                Err(e) => Err(e),
            },
    )
}

/// A list of operators none of which is an error.
pub open spec fn oks(ops: Seq<OpView>) -> Seq<Result<OpView, ProofError>> {
    Seq::new(ops.len(), |i: int| Ok(ops[i]))
}

/// Once the machine has stopped with an error, it stays there.
pub proof fn lemma_run_error(e: ProofError, ops: Seq<Result<OpView, ProofError>>, full: bool)
    ensures
        run(Err(e), ops, full) == Err::<Execution, ProofError>(e),
    decreases ops.len(),
{
    if ops.len() > 0 {
        lemma_run_error(e, ops.drop_last(), full);
    }
}

/// Running two lists of operators one after the other is running their
/// concatenation.
pub proof fn lemma_run_concat(
    state: Result<Execution, ProofError>,
    first: Seq<Result<OpView, ProofError>>,
    second: Seq<Result<OpView, ProofError>>,
    full: bool,
)
    ensures
        run(state, first + second, full) == run(run(state, first, full), second, full),
    decreases second.len(),
{
    if second.len() == 0 {
        assert(first + second =~= first);
    } else {
        lemma_run_concat(state, first, second.drop_last(), full);
        assert((first + second).drop_last() =~= first + second.drop_last());
    }
}

impl ProofTree {
    /// A tree of one node.
    fn leaf(node: Node) -> (tree: ProofTree)
        ensures
            tree@ == leaf(node@),
            well_formed(tree),
    {
        ProofTree { node, left: None, right: None }
    }

    /// The left child (`true`) or the right child (`false`).
    pub fn child(&self, left: bool) -> (child: Option<&Child>)
        ensures
            child == (match if left { self.left } else { self.right } {
                None => None::<&Child>,
                Some(c) => Some(&c),
            }),
    {
        if left {
            self.left.as_ref()
        } else {
            self.right.as_ref()
        }
    }

    /// The hash of the tree.
    pub fn hash(&self) -> (hash: NodeHash)
        requires
            well_formed(*self),
        ensures
            hash@ == proof_hash(self@),
    {
        let kv = match &self.node {
            Node::Hash(hash) => {
                return *hash;
            },
            Node::KVHash(kv) => *kv,
            Node::KV(key, value) => kv_hash(key.as_slice(), value.as_slice()),
        };
        let left = match &self.left {
            Some(child) => child.hash,
            None => null_hash(),
        };
        let right = match &self.right {
            Some(child) => child.hash,
            None => null_hash(),
        };
        node_hash(&kv, &left, &right)
    }
}

impl Child {
    /// A child that carries the hash of its tree.
    fn new(tree: ProofTree) -> (child: Child)
        requires
            well_formed(tree),
        ensures
            child_well_formed(Some(child)),
            *child.tree == tree,
    {
        let hash = tree.hash();
        Child { tree: Box::new(tree), hash }
    }
}

/// What the items of a stack hold.
pub open spec fn stack_view(stack: Seq<ProofTree>) -> Seq<ProofTreeView> {
    Seq::new(stack.len(), |i: int| stack[i]@)
}

/// Takes the top two items off the stack, and attaches one to the other: as a
/// left child, with the parent on top, or as a right child, with the child on
/// top.
fn join_top(stack: &mut Vec<ProofTree>, left: bool) -> (result: Result<(), ProofError>)
    requires
        forall|i: int| 0 <= i < old(stack)@.len() ==> well_formed(#[trigger] old(stack)@[i]),
    ensures
        match join(stack_view(old(stack)@), left) {
            Ok(after) => result is Ok && stack_view(final(stack)@) == after,
            Err(e) => result == Err::<(), ProofError>(e),
        },
        result is Ok ==> forall|i: int|
            0 <= i < final(stack)@.len() ==> well_formed(#[trigger] final(stack)@[i]),
{
    let top = match stack.pop() {
        Some(tree) => tree,
        None => {
            return Err(ProofError::StackUnderflow);
        },
    };
    let below = match stack.pop() {
        Some(tree) => tree,
        None => {
            return Err(ProofError::StackUnderflow);
        },
    };
    assert(old(stack)@ =~= stack@.push(below).push(top));
    let ghost rest = stack@;
    assert(stack_view(rest) =~= stack_view(old(stack)@).take(old(stack)@.len() - 2));
    let joined = if left {
        if top.left.is_some() {
            return Err(ProofError::ChildExists);
        }
        ProofTree { node: top.node, left: Some(Child::new(below)), right: top.right }
    } else {
        if below.right.is_some() {
            return Err(ProofError::ChildExists);
        }
        ProofTree { node: below.node, left: below.left, right: Some(Child::new(top)) }
    };
    stack.push(joined);
    assert(stack_view(stack@) =~= stack_view(rest).push(joined@));
    Ok(())
}

/// Executes a proof by running its operators, and returns the tree that is left
/// on the stack together with whether all nodes had keys and values. Where
/// `full` is set, nodes without a key and a value are refused.
pub fn execute(
    ops: Vec<Result<Op, ProofError>>,
    full: bool,
) -> (result: Result<(ProofTree, bool), ProofError>)
    ensures
        match executed(items_view(ops@), full) {
            Ok((view, kv_only)) => {
                &&& result matches Ok((tree, only))
                &&& tree@ == view
                &&& only == kv_only
                &&& well_formed(tree)
            },
            Err(e) => result == Err::<(ProofTree, bool), ProofError>(e),
        },
{
    let mut stack: Vec<ProofTree> = Vec::new();
    let mut last_key: Option<Vec<u8>> = None;
    let mut kv_only = true;
    let ghost items = items_view(ops@);
    assert(stack_view(stack@) =~= seq![]);
    assert(items.take(0) =~= seq![]);
    for item in iter: ops
        invariant
            iter.seq() == ops@,
            items == items_view(ops@),
            run(Ok(start()), items.take(iter.index() as int), full) == Ok::<Execution, ProofError>(
                Execution {
                    stack: stack_view(stack@),
                    last_key: match last_key {
                        None => None,
                        Some(key) => Some(key@),
                    },
                    kv_only,
                },
            ),
            forall|i: int| 0 <= i < stack@.len() ==> well_formed(#[trigger] stack@[i]),
    {
        let ghost before = stack@;
        proof {
            let i = iter.index() as int;
            assert(items.take(i + 1).drop_last() =~= items.take(i));
            lemma_prefix_error(items, i + 1, full);
        }
        match item {
            Err(e) => {
                return Err(e);
            },
            Ok(Op::Push(node)) => {
                if let Node::KV(key, _) = &node {
                    if let Some(last) = &last_key {
                        if !bytes_less(last.as_slice(), key.as_slice()) {
                            return Err(ProofError::KeyOrder);
                        }
                    }
                    last_key = Some(copy_bytes(key.as_slice()));
                } else {
                    if full {
                        return Err(ProofError::IncompleteLeaf);
                    }
                    kv_only = false;
                }
                let tree = ProofTree::leaf(node);
                stack.push(tree);
                assert(stack_view(stack@) =~= stack_view(before).push(tree@));
            },
            Ok(Op::Parent) => {
                match join_top(&mut stack, true) {
                    Ok(()) => {},
                    Err(e) => {
                        return Err(e);
                    },
                }
            },
            Ok(Op::Child) => {
                match join_top(&mut stack, false) {
                    Ok(()) => {},
                    Err(e) => {
                        return Err(e);
                    },
                }
            },
        }
    }
    assert(items.take(items.len() as int) =~= items);
    if stack.len() != 1 {
        return Err(ProofError::StackRemainder);
    }
    let tree = stack.pop();
    match tree {
        Some(tree) => Ok((tree, kv_only)),
        None => Err(ProofError::StackRemainder),
    }
}

/// Where the machine stops within a prefix of its operators, it stops with the
/// same error on all of them.
proof fn lemma_prefix_error(ops: Seq<Result<OpView, ProofError>>, i: int, full: bool)
    requires
        0 <= i <= ops.len(),
    ensures
        run(Ok(start()), ops.take(i), full) matches Err(e) ==> run(Ok(start()), ops, full) == Err::<
            Execution,
            ProofError,
        >(e),
{
    lemma_run_concat(Ok(start()), ops.take(i), ops.skip(i), full);
    assert(ops.take(i) + ops.skip(i) =~= ops);
    if let Err(e) = run(Ok(start()), ops.take(i), full) {
        lemma_run_error(e, ops.skip(i), full);
    }
}

/// The hash of a proof tree: that of its node, where the node is just a hash, and
/// otherwise made of the hash of the node's key and value and of the hashes of the
/// children, the left one first, with zeros where there is no child.
pub proof fn law_hash_of_a_proof_tree(tree: ProofTreeView, left: Seq<u8>, right: Seq<u8>)
    requires
        match tree.left {
            None => left == Seq::new(32, |i: int| 0u8),
            Some(child) => left == proof_hash(*child),
        },
        match tree.right {
            None => right == Seq::new(32, |i: int| 0u8),
            Some(child) => right == proof_hash(*child),
        },
    ensures
        proof_hash(tree) == match tree.node {
            NodeView::Hash(hash) => hash,
            NodeView::KVHash(kv) => node_hash_view(kv, left, right),
            NodeView::KV(key, value) => node_hash_view(kv_hash_view(key, value), left, right),
        },
{
    assert(null_hash_view() =~= Seq::new(32, |i: int| 0u8));
}

/// When the machine refuses an operator, and why: a node whose key is not above the last
/// one, a node without its key and value where these are asked for, too few items
/// to join, or a child where there is one already. All other operators are
/// accepted.
pub proof fn law_refused_operators(state: Execution, op: OpView, full: bool)
    ensures
        step(state, op, full) is Err <==> match op {
            OpView::Push(NodeView::KV(key, _)) => state.last_key is Some && !lex_less(
                state.last_key->0,
                key,
            ),
            OpView::Push(_) => full,
            OpView::Parent => state.stack.len() < 2 || state.stack.last().left is Some,
            OpView::Child => state.stack.len() < 2 || state.stack[state.stack.len()
                - 2].right is Some,
        },
        step(state, op, full) matches Err(e) ==> e == match op {
            OpView::Push(NodeView::KV(_, _)) => ProofError::KeyOrder,
            OpView::Push(_) => ProofError::IncompleteLeaf,
            _ => if state.stack.len() < 2 {
                ProofError::StackUnderflow
            } else {
                ProofError::ChildExists
            },
        },
{
}

/// A proof is refused with the first error among its operators, be it one that an
/// operator is, or one that the machine refuses it with, or because it does not
/// leave one tree.
pub proof fn law_refused_proofs(ops: Seq<Result<OpView, ProofError>>, full: bool)
    ensures
        executed(ops, full) matches Err(e) ==> {
            ||| run(Ok(start()), ops, full) matches Ok(state) && state.stack.len() != 1 && e
                == ProofError::StackRemainder
            ||| exists|i: int|
                #![trigger ops[i]]
                0 <= i < ops.len() && (run(Ok(start()), ops.take(i), full) matches Ok(state)
                    && match ops[i] {
                    Err(error) => e == error,
                    Ok(op) => step(state, op, full) == Err::<Execution, ProofError>(e),
                })
        },
    decreases ops.len(),
{
    if ops.len() > 0 && run(Ok(start()), ops, full) is Err {
        let n = ops.len() - 1;
        let short = ops.drop_last();
        assert(ops.take(n) =~= short);
        if run(Ok(start()), short, full) is Err {
            law_refused_proofs(short, full);
            let e = run(Ok(start()), short, full)->Err_0;
            let i = choose|i: int|
                #![trigger short[i]]
                0 <= i < short.len() && (run(Ok(start()), short.take(i), full) matches Ok(state)
                    && match short[i] {
                    Err(error) => e == error,
                    Ok(op) => step(state, op, full) == Err::<Execution, ProofError>(e),
                });
            assert(short.take(i) =~= ops.take(i));
            assert(ops[i] == short[i]);
        } else {
            assert(ops[n] == ops.last());
        }
    }
}

/// Every child in a proof tree whose children carry their hashes carries the hash of its
/// own tree, and so do all below it.
pub proof fn law_children_carry_their_hashes(tree: ProofTree, child: Child)
    requires
        well_formed(tree),
        tree.left == Some(child) || tree.right == Some(child),
    ensures
        child.hash@ == proof_hash(child.tree@),
        well_formed(*child.tree),
{
}

/// A proof tree shows its own node, and its children where it has them.
pub proof fn law_what_a_proof_tree_holds(tree: ProofTree)
    ensures
        tree@.node == tree.node@,
        match tree.left {
            None => tree@.left is None,
            Some(child) => tree@.left is Some && *tree@.left->0 == child.tree@,
        },
        match tree.right {
            None => tree@.right is None,
            Some(child) => tree@.right is Some && *tree@.right->0 == child.tree@,
        },
{
}

/// What is executed of a list is the list itself, one for one, with its errors as they
/// are.
pub proof fn law_what_is_executed(ops: Seq<Result<Op, ProofError>>, i: int)
    requires
        0 <= i < ops.len(),
    ensures
        items_view(ops).len() == ops.len(),
        items_view(ops)[i] == match ops[i] {
            Ok(op) => Ok::<OpView, ProofError>(op@),
            Err(e) => Err::<OpView, ProofError>(e),
        },
{
}

} // verus!
