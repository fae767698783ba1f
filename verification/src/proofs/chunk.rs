//! Chunk proofs: creation and verification of the trunk and of leaf chunks.
use crate::bytes::{bytes_equal, bytes_less, copy_bytes, lex_less};
use crate::hash::{hashes_equal, kv_hash_view, NodeHash};
use crate::proofs::tree::{
    execute, executed, items_view, proof_hash, run, start, step, tree_view, well_formed, ProofTree,
    ProofTreeView,
};
use crate::proofs::{lemma_ops_view_push, ops_view, Node, NodeView, Op, OpView, ProofError};
use crate::raw_iterator::{entry_view, EntryView, RawIterator};
use crate::tree::{
    fetch_fails, fetched, lacks, lemma_child_fetch_fails, lemma_link_loads_reflexive,
    lemma_loads_reflexive, lemma_loads_transitive, lemma_loads_wider, link_hash_view, loads, Fetch,
    FetchError, Link, RefWalker, Tree,
};
use vstd::prelude::*;

verus! {

/// The minimum number of layers the trunk will be guaranteed to have before
/// splitting into multiple chunks. If the tree's height is less than double
/// this value, the trunk should be verified as a leaf chunk.
pub const MIN_TRUNK_HEIGHT: usize = 5;

/// The number of nodes on the left edge of the part of a tree that is in
/// memory.
pub open spec fn left_height(tree: Tree) -> nat
    decreases tree,
{
    match tree.left {
        Some(Link::Loaded { hash, tree: child }) => left_height(*child) + 1,
        _ => 1,
    }
}

/// Whether the left edge of a tree is in memory.
pub open spec fn left_edge_loaded(tree: Tree) -> bool
    decreases tree,
{
    match tree.left {
        None => true,
        Some(Link::Reference { key, hash }) => false,
        Some(Link::Loaded { hash, tree: child }) => left_edge_loaded(*child),
    }
}

/// Whether the nodes down to `depth` layers below a tree's root are in memory.
pub open spec fn layers_loaded(tree: Tree, depth: nat) -> bool
    decreases tree,
{
    depth > 0 ==> {
        &&& match tree.left {
            None => true,
            Some(Link::Reference { key, hash }) => false,
            Some(Link::Loaded { hash, tree: child }) => layers_loaded(*child, (depth - 1) as nat),
        }
        &&& match tree.right {
            None => true,
            Some(Link::Reference { key, hash }) => false,
            Some(Link::Loaded { hash, tree: child }) => layers_loaded(*child, (depth - 1) as nat),
        }
    }
}

/// The operators for one node of a height proof, after those for its left
/// child: the node with its key and value hashed, and the hash of its right
/// child.
pub open spec fn height_node_ops(tree: Tree) -> Seq<OpView> {
    let node = seq![OpView::Push(NodeView::KVHash(kv_hash_view(tree.key@, tree.value@)))];
    let parent = if tree.left is Some {
        seq![OpView::Parent]
    } else {
        seq![]
    };
    let child = if tree.right is Some {
        seq![OpView::Push(NodeView::Hash(link_hash_view(tree.right))), OpView::Child]
    } else {
        seq![]
    };
    node + parent + child
}

/// The height proof of a tree whose root is in layer `depth`: its left edge,
/// bottom up, as far as it lies below layer `trunk_height`.
pub open spec fn height_ops(tree: Tree, depth: nat, trunk_height: nat) -> Seq<OpView>
    decreases tree,
{
    let below = match tree.left {
        Some(Link::Loaded { hash, tree: child }) => height_ops(*child, depth + 1, trunk_height),
        _ => seq![],
    };
    if depth > trunk_height {
        below + height_node_ops(tree)
    } else {
        below
    }
}

/// The operators for the node itself, after those for its left child: the node
/// with its key and value.
pub open spec fn node_layer_ops(tree: Tree) -> Seq<OpView> {
    let node = seq![OpView::Push(NodeView::KV(tree.key@, tree.value@))];
    if tree.left is Some {
        node.push(OpView::Parent)
    } else {
        node
    }
}

/// The operators for what lies below the left link in the top `depth` layers of
/// a tree.
pub open spec fn left_layer_ops(tree: Tree, depth: nat, leftmost: bool) -> Seq<OpView>
    decreases tree, 0int,
{
    match tree.left {
        Some(Link::Loaded { hash, tree: child }) => layer_ops(*child, (depth - 1) as nat, leftmost),
        _ => seq![],
    }
}

/// The operators for what lies below the right link in the top `depth` layers
/// of a tree, with the operator that attaches it.
pub open spec fn right_layer_ops(tree: Tree, depth: nat) -> Seq<OpView>
    decreases tree, 0int,
{
    match tree.right {
        Some(Link::Loaded { hash, tree: child }) => layer_ops(
            *child,
            (depth - 1) as nat,
            false,
        ).push(OpView::Child),
        _ => seq![],
    }
}

/// The operators for the top `depth` layers of a tree, in key order: nodes in
/// these layers with their keys and values, and of the next layer the hashes
/// only. Of the leftmost node of the next layer there is nothing: the height
/// proof has it.
pub open spec fn layer_ops(tree: Tree, depth: nat, leftmost: bool) -> Seq<OpView>
    decreases tree, 1int,
{
    if depth == 0 {
        if leftmost {
            seq![]
        } else {
            seq![OpView::Push(NodeView::Hash(tree.hash_view()))]
        }
    } else {
        left_layer_ops(tree, depth, leftmost) + node_layer_ops(tree) + right_layer_ops(tree, depth)
    }
}

/// The height of the trunk of a tree: half of its left edge.
pub open spec fn trunk_height(tree: Tree) -> nat {
    left_height(tree) / 2
}

/// The trunk proof of a tree: the whole tree, where it is too low for a trunk,
/// or its height proof and the layers of the trunk.
pub open spec fn trunk_ops(tree: Tree) -> Seq<OpView> {
    if trunk_height(tree) < MIN_TRUNK_HEIGHT {
        layer_ops(tree, usize::MAX as nat, true)
    } else {
        height_ops(tree, 1, trunk_height(tree)) + layer_ops(tree, trunk_height(tree), true)
    }
}

/// How many layers below the root of a tree its trunk proof needs, besides the
/// left edge.
pub open spec fn trunk_reach(tree: Tree) -> nat {
    if trunk_height(tree) < MIN_TRUNK_HEIGHT {
        usize::MAX as nat
    } else {
        trunk_height(tree)
    }
}

/// Whether all nodes that the trunk proof of a tree needs are in memory.
pub open spec fn trunk_loaded(tree: Tree) -> bool {
    left_edge_loaded(tree) && layers_loaded(tree, trunk_reach(tree))
}

/// What it means that walking a tree for its trunk proof fails with an error of the
/// source: either a node on the left edge, or, with the left edge in memory, a
/// node in the layers that the proof needs, is not in memory, and the source
/// answers the fetch of that node with the error. Nothing else was loaded than
/// what comes before it.
pub open spec fn trunk_fetch_fails<S: Fetch>(
    source: &S,
    before: Tree,
    after: Tree,
    e: FetchError,
) -> bool {
    ||| loads(source, before, after, 0, true) && fetch_fails(source, after, 0, true, e)
    ||| {
        &&& left_edge_loaded(after)
        &&& loads(source, before, after, trunk_reach(after), true)
        &&& fetch_fails(source, after, trunk_reach(after), false, e)
    }
}

/// What creating the trunk proof of a tree comes to. Nodes that it needs and that
/// are not in memory are loaded. There is a proof, unless the source answers the
/// fetch of a node that it needs with an error, or the left edge is too long to
/// be counted, and always if all nodes that it needs are in memory.
pub open spec fn trunk_created<S: Fetch>(
    source: &S,
    before: Tree,
    after: Tree,
    result: Result<(Vec<Op>, bool), ProofError>,
) -> bool {
    &&& loads(source, before, after, usize::MAX as nat, true)
    &&& match result {
        Ok((proof, has_more)) => {
            &&& loads(source, before, after, trunk_reach(after), true)
            &&& trunk_loaded(after)
            &&& ops_view(proof@) == trunk_ops(after)
            &&& has_more == (trunk_height(after) >= MIN_TRUNK_HEIGHT)
        },
        Err(ProofError::Fetch(e)) => trunk_fetch_fails(source, before, after, e),
        Err(e) => {
            &&& e == ProofError::HeightOverflow
            &&& left_height(after) >= usize::MAX
            &&& loads(source, before, after, 0, true)
        },
    }
    &&& trunk_loaded(before) && left_height(before) < usize::MAX ==> result is Ok && after == before
}

/// Loading more nodes changes nothing that a height proof reads.
pub proof fn lemma_height_ops_stable<S: Fetch>(
    source: &S,
    before: Tree,
    after: Tree,
    reach: nat,
    edge: bool,
    depth: nat,
    trunk_height: nat,
)
    requires
        loads(source, before, after, reach, edge),
        left_edge_loaded(before),
    ensures
        left_edge_loaded(after),
        left_height(after) == left_height(before),
        height_ops(after, depth, trunk_height) == height_ops(before, depth, trunk_height),
    decreases before,
{
    if let Some(Link::Loaded { hash, tree: child }) = before.left {
        let below = if reach > 0 {
            (reach - 1) as nat
        } else {
            0
        };
        if reach > 0 || edge {
            lemma_height_ops_stable(
                source,
                *child,
                *after.left->0->tree,
                below,
                edge,
                depth + 1,
                trunk_height,
            );
        }
    }
}

impl Tree {
    /// A proof node with the key and value hashed.
    fn to_kvhash_node(&self) -> (node: Node)
        ensures
            node@ == NodeView::KVHash(kv_hash_view(self.key@, self.value@)),
    {
        Node::KVHash(self.kv_hash())
    }

    /// A proof node with the node hash.
    fn to_hash_node(&self) -> (node: Node)
        ensures
            node@ == NodeView::Hash(self.hash_view()),
    {
        Node::Hash(self.hash())
    }

    /// A proof node with the key and value.
    fn to_kv_node(&self) -> (node: Node)
        ensures
            node@ == NodeView::KV(self.key@, self.value@),
    {
        Node::KV(copy_bytes(self.key.as_slice()), copy_bytes(self.value.as_slice()))
    }
}

impl<'a, S: Fetch> RefWalker<'a, S> {
    /// Generates a trunk proof by traversing the tree.
    ///
    /// Returns a tuple containing the produced proof, and a boolean indicating
    /// whether or not there will be more chunks to follow. If the chunk
    /// contains the entire tree, the boolean will be `false`, if the chunk
    /// is abridged and will be connected to leaf chunks, it will be `true`.
    ///
    /// Nodes that are needed and are not in memory are fetched and stay in
    /// memory.
    pub fn create_trunk_proof(&mut self) -> (result: Result<(Vec<Op>, bool), ProofError>)
        ensures
            trunk_created(&old(self).source, *old(self).tree, *final(self).tree, result),
            final(self).source == old(self).source,
            *final(final(self).tree) == *final(old(self).tree),
    {
        Self::trunk_proof(self.tree, &self.source)
    }

    /// Generates a trunk proof by traversing `tree`, as `create_trunk_proof`
    /// does.
    pub fn trunk_proof(tree: &mut Tree, source: &S) -> (result: Result<(Vec<Op>, bool), ProofError>)
        ensures
            trunk_created(source, *old(tree), *final(tree), result),
    {
        let mut proof: Vec<Op> = Vec::new();
        let trunk_height: usize = match Self::traverse_for_height_proof(
            tree,
            source,
            &mut proof,
            1,
        ) {
            Ok(height) => height,
            Err(e) => {
                proof {
                    lemma_loads_wider(source, *old(tree), *tree, 0, true, usize::MAX as nat, true);
                }
                return Err(e);
            },
        };
        let ghost edge = *tree;
        let has_more = trunk_height >= MIN_TRUNK_HEIGHT;
        let remaining_depth: usize = if has_more {
            trunk_height
        } else {
            proof.clear();
            usize::MAX
        };
        let trunk = Self::traverse_for_trunk(
            tree,
            source,
            &mut proof,
            remaining_depth,
            true,
        );
        proof {
            let reach = remaining_depth as nat;
            lemma_loads_wider(source, *old(tree), edge, 0, true, reach, true);
            lemma_loads_wider(source, edge, *tree, reach, false, reach, true);
            lemma_loads_transitive(source, *old(tree), edge, *tree, reach, true);
            lemma_loads_wider(source, *old(tree), *tree, reach, true, usize::MAX as nat, true);
            lemma_height_ops_stable(source, edge, *tree, reach, true, 1, trunk_height as nat);
            assert(ops_view(Seq::<Op>::empty()) =~= seq![]);
        }
        match trunk {
            Ok(()) => Ok((proof, has_more)),
            Err(e) => Err(ProofError::Fetch(e)),
        }
    }

    /// Traverses down the left edge of the tree and pushes ops to the proof, to
    /// act as a proof of the height of the tree. This is the first step in
    /// generating a trunk proof. Returns the height of the trunk.
    fn traverse_for_height_proof(
        tree: &mut Tree,
        source: &S,
        proof: &mut Vec<Op>,
        depth: usize,
    ) -> (result: Result<usize, ProofError>)
        requires
            depth > 0,
        ensures
            loads(source, *old(tree), *final(tree), 0, true),
            match result {
                Ok(trunk_height) => {
                    &&& left_edge_loaded(*final(tree))
                    &&& trunk_height == (depth + left_height(*final(tree)) - 1) / 2
                    &&& ops_view(final(proof)@) == ops_view(old(proof)@) + height_ops(
                        *final(tree),
                        depth as nat,
                        trunk_height as nat,
                    )
                },
                Err(ProofError::Fetch(e)) => fetch_fails(source, *final(tree), 0, true, e),
                Err(e) => e == ProofError::HeightOverflow && depth + left_height(*final(tree)) - 1
                    >= usize::MAX,
            },
            left_edge_loaded(*old(tree)) && depth + left_height(*old(tree)) - 1 < usize::MAX
                ==> result is Ok && *final(tree) == *old(tree),
        decreases usize::MAX - depth,
    {
        broadcast use lemma_ops_view_push;

        match tree.load_child(true, source) {
            Ok(()) => {},
            Err(e) => {
                assert(fetched(source, tree.left->0, Err(e)));
                assert(lacks(*tree, tree.left->0, 0, true));
                return Err(ProofError::Fetch(e));
            },
        }
        if depth == usize::MAX {
            return Err(ProofError::HeightOverflow);
        }
        let ghost loaded = *tree;
        let below = match &mut tree.left {
            Some(Link::Loaded { tree: child, .. }) => Some(
                Self::traverse_for_height_proof(child, source, proof, depth + 1),
            ),
            _ => None,
        };
        proof {
            lemma_loads_transitive(source, *old(tree), loaded, *tree, 0, true);
        }
        let (has_left_child, trunk_height): (bool, usize) = match below {
            Some(Ok(height)) => (true, height),
            Some(Err(e)) => {
                proof {
                    if e is Fetch {
                        lemma_child_fetch_fails(source, *tree, true, 0, true, e->Fetch_0);
                    }
                }
                return Err(e);
            },
            None => (false, depth / 2),
        };
        if depth > trunk_height {
            proof.push(Op::Push(tree.to_kvhash_node()));
            if has_left_child {
                proof.push(Op::Parent);
            }
            if let Some(right) = tree.link(false) {
                proof.push(Op::Push(Node::Hash(*right.hash())));
                proof.push(Op::Child);
            }
        }
        Ok(trunk_height)
    }

    /// Traverses down the tree and adds KV push ops for all nodes up to a
    /// certain depth. This expects the proof to contain a height proof as
    /// generated by `traverse_for_height_proof`.
    #[verifier::spinoff_prover]
    #[verifier::rlimit(40)]
    fn traverse_for_trunk(
        tree: &mut Tree,
        source: &S,
        proof: &mut Vec<Op>,
        remaining_depth: usize,
        is_leftmost: bool,
    ) -> (result: Result<(), FetchError>)
        ensures
            loads(source, *old(tree), *final(tree), remaining_depth as nat, false),
            match result {
                Ok(()) => {
                    &&& layers_loaded(*final(tree), remaining_depth as nat)
                    &&& ops_view(final(proof)@) == ops_view(old(proof)@) + layer_ops(
                        *final(tree),
                        remaining_depth as nat,
                        is_leftmost,
                    )
                },
                Err(e) => fetch_fails(source, *final(tree), remaining_depth as nat, false, e),
            },
            layers_loaded(*old(tree), remaining_depth as nat) ==> result is Ok && *final(tree)
                == *old(tree),
        decreases remaining_depth,
    {
        broadcast use lemma_ops_view_push;

        let ghost reach = remaining_depth as nat;
        let ghost below = (reach - 1) as nat;
        proof {
            lemma_loads_reflexive(source, *tree, reach, false);
        }
        if remaining_depth == 0 {
            // the bottom of the trunk; of the leftmost node there already is
            // the height proof
            if !is_leftmost {
                proof.push(Op::Push(tree.to_hash_node()));
            }
            return Ok(());
        }
        match tree.load_child(true, source) {
            Ok(()) => {},
            Err(e) => {
                assert(fetched(source, tree.left->0, Err(e)));
                assert(lacks(*tree, tree.left->0, reach, false));
                return Err(e);
            },
        }
        let ghost loaded_left = *tree;
        let left = match &mut tree.left {
            Some(Link::Loaded { tree: child, .. }) => Some(
                Self::traverse_for_trunk(child, source, proof, remaining_depth - 1, is_leftmost),
            ),
            _ => None,
        };
        proof {
            lemma_link_loads_reflexive(source, loaded_left.right, below, false);
            lemma_link_loads_reflexive(source, loaded_left.left, below, false);
            lemma_loads_transitive(source, *old(tree), loaded_left, *tree, reach, false);
        }
        let has_left_child = match left {
            Some(Ok(())) => true,
            Some(Err(e)) => {
                proof {
                    lemma_child_fetch_fails(source, *tree, true, reach, false, e);
                }
                return Err(e);
            },
            None => false,
        };
        let ghost walked_left = *tree;
        let ghost left_ops = left_layer_ops(*tree, remaining_depth as nat, is_leftmost);
        assert(ops_view(proof@) =~= ops_view(old(proof)@) + left_ops);
        proof.push(Op::Push(tree.to_kv_node()));
        if has_left_child {
            proof.push(Op::Parent);
        }
        let ghost node_ops = node_layer_ops(*tree);
        assert(ops_view(proof@) =~= ops_view(old(proof)@) + left_ops + node_ops);
        let loaded = tree.load_child(false, source);
        let ghost loaded_right = *tree;
        proof {
            lemma_loads_transitive(source, *old(tree), walked_left, loaded_right, reach, false);
        }
        match loaded {
            Ok(()) => {},
            Err(e) => {
                assert(fetched(source, tree.right->0, Err(e)));
                assert(lacks(*tree, tree.right->0, reach, false));
                return Err(e);
            },
        }
        let right = match &mut tree.right {
            Some(Link::Loaded { tree: child, .. }) => Some(
                Self::traverse_for_trunk(child, source, proof, remaining_depth - 1, false),
            ),
            _ => None,
        };
        proof {
            lemma_link_loads_reflexive(source, loaded_right.left, below, false);
            lemma_link_loads_reflexive(source, loaded_right.right, below, false);
            lemma_loads_transitive(source, *old(tree), loaded_right, *tree, reach, false);
        }
        match right {
            Some(Ok(())) => {
                proof.push(Op::Child);
            },
            Some(Err(e)) => {
                proof {
                    lemma_child_fetch_fails(source, *tree, false, reach, false, e);
                }
                return Err(e);
            },
            None => {},
        }
        assert(ops_view(proof@) =~= ops_view(old(proof)@) + left_ops + node_ops + right_layer_ops(
            *tree,
            remaining_depth as nat,
        ));
        Ok(())
    }
}

/// How many keys at the end of `stack`, counted from its end up to the first
/// one that `key` is below, `key` is not below.
pub open spec fn completed(stack: Seq<Seq<u8>>, key: Seq<u8>) -> nat
    decreases stack.len(),
{
    if stack.len() == 0 || lex_less(key, stack.last()) {
        0
    } else {
        completed(stack.drop_last(), key) + 1
    }
}

/// The state of chunk building: the operators so far, and the keys of the right
/// children that are not complete yet.
#[verifier::ext_equal]
pub struct ChunkView {
    /// The operators so far.
    pub ops: Seq<OpView>,
    /// The keys of the right children that are not complete yet.
    pub stack: Seq<Seq<u8>>,
}

/// A number of `Child` operators.
pub open spec fn child_ops(n: nat) -> Seq<OpView> {
    Seq::new(n, |i: int| OpView::Child)
}

/// What chunk building does with one entry: it pushes the node, attaches the
/// left child, and either waits for the right child or attaches all right
/// children that are complete with this entry.
pub open spec fn chunk_step(chunk: ChunkView, entry: EntryView) -> ChunkView {
    let pushed = chunk.ops.push(OpView::Push(NodeView::KV(entry.key, entry.value)));
    let ops = if entry.left is Some {
        pushed.push(OpView::Parent)
    } else {
        pushed
    };
    match entry.right {
        Some(child) => ChunkView { ops, stack: chunk.stack.push(child) },
        None => {
            let n = completed(chunk.stack, entry.key);
            ChunkView { ops: ops + child_ops(n), stack: chunk.stack.take(chunk.stack.len() - n) }
        },
    }
}

/// What chunk building does with a list of entries.
pub open spec fn chunk_run(chunk: ChunkView, entries: Seq<EntryView>) -> ChunkView
    decreases entries.len(),
{
    if entries.len() == 0 {
        chunk
    } else {
        chunk_step(chunk_run(chunk, entries.drop_last()), entries.last())
    }
}

/// The chunk that a list of entries makes.
pub open spec fn chunk_ops(entries: Seq<EntryView>) -> Seq<OpView> {
    chunk_run(ChunkView { ops: seq![], stack: seq![] }, entries).ops
}

/// The position of the first entry, from `position` on, that has the end key, or
/// the number of entries.
pub open spec fn chunk_end(entries: Seq<EntryView>, position: nat, end_key: Option<Seq<u8>>) -> nat
    decreases entries.len() - position,
{
    if position >= entries.len() {
        entries.len()
    } else if end_key == Some(entries[position as int].key) {
        position
    } else {
        chunk_end(entries, position + 1, end_key)
    }
}

/// Keys as byte strings.
pub open spec fn keys_view(keys: Seq<Vec<u8>>) -> Seq<Seq<u8>> {
    Seq::new(keys.len(), |i: int| keys[i]@)
}

/// The key that ends a chunk, if any.
pub open spec fn end_key_view(end_key: Option<&[u8]>) -> Option<Seq<u8>> {
    match end_key {
        Some(key) => Some(key@),
        None => None,
    }
}

/// Adds a stored node to a chunk.
fn push_entry(chunk: &mut Vec<Op>, stack: &mut Vec<Vec<u8>>, node: &Tree)
    ensures
        (ChunkView { ops: ops_view(final(chunk)@), stack: keys_view(final(stack)@) }) == chunk_step(
            ChunkView { ops: ops_view(old(chunk)@), stack: keys_view(old(stack)@) },
            entry_view(*node),
        ),
{
    broadcast use lemma_ops_view_push;

    chunk.push(Op::Push(node.to_kv_node()));
    if node.link(true).is_some() {
        chunk.push(Op::Parent);
    }
    let ghost pushed = ops_view(chunk@);
    let ghost keys = keys_view(stack@);
    match node.link(false) {
        Some(child) => {
            stack.push(copy_bytes(child.key().as_slice()));
            assert(keys_view(stack@) =~= keys.push(child.key_view()));
        },
        None => {
            let ghost mut n: nat = 0;
            assert(pushed + child_ops(0) =~= pushed);
            assert(keys.take(keys.len() as int) =~= keys);
            while stack.len() > 0 && !bytes_less(node.key.as_slice(), stack[stack.len() - 1].as_slice())
                invariant
                    n <= keys.len(),
                    ops_view(chunk@) == pushed + child_ops(n),
                    keys_view(stack@) == keys.take(keys.len() - n),
                    completed(keys, node.key@) == completed(keys_view(stack@), node.key@) + n,
                decreases stack@.len(),
            {
                assert(keys_view(stack@).drop_last() =~= keys_view(stack@.drop_last()));
                stack.pop();
                chunk.push(Op::Child);
                proof {
                    n = n + 1;
                }
                assert(pushed + child_ops(n) =~= (pushed + child_ops((n - 1) as nat)).push(
                    OpView::Child,
                ));
                assert(keys_view(stack@) =~= keys.take(keys.len() - n));
            }
        },
    }
}

/// Builds a chunk proof by iterating over stored nodes, ending the chunk when a
/// node with key `end_key` is encountered.
///
/// Advances the iterator for all nodes in the chunk and the `end_key` (if any).
pub fn get_next_chunk(iter: &mut RawIterator, end_key: Option<&[u8]>) -> (chunk: Vec<Op>)
    ensures
        ({
            let entries = old(iter).entries();
            let start = old(iter).position();
            let end = chunk_end(entries, start, end_key_view(end_key));
            &&& start <= end <= entries.len()
            &&& ops_view(chunk@) == chunk_ops(entries.subrange(start as int, end as int))
            &&& final(iter).entries() == entries
            &&& final(iter).position() == if end < entries.len() {
                end + 1
            } else {
                end
            }
        }),
{
    let mut chunk: Vec<Op> = Vec::new();
    let mut stack: Vec<Vec<u8>> = Vec::new();
    let ghost entries = iter.entries();
    let ghost start = iter.position() as int;
    let ghost empty = ChunkView { ops: seq![], stack: seq![] };
    proof {
        iter.lemma_position();
        assert(entries.subrange(start, start) =~= seq![]);
        assert(ops_view(chunk@) =~= seq![]);
        assert(keys_view(stack@) =~= seq![]);
    }
    while iter.valid()
        invariant
            entries == iter.entries(),
            0 <= start <= iter.position() <= entries.len(),
            chunk_run(empty, entries.subrange(start, iter.position() as int)) == (ChunkView {
                ops: ops_view(chunk@),
                stack: keys_view(stack@),
            }),
            chunk_end(entries, start as nat, end_key_view(end_key)) == chunk_end(
                entries,
                iter.position(),
                end_key_view(end_key),
            ),
        ensures
            chunk_end(entries, iter.position(), end_key_view(end_key)) == iter.position(),
        decreases entries.len() - iter.position(),
    {
        let node = match iter.value() {
            Some(node) => node,
            None => {
                break;
            },
        };
        if let Some(end_key) = end_key {
            if bytes_equal(node.key.as_slice(), end_key) {
                break;
            }
        }
        push_entry(&mut chunk, &mut stack, node);
        proof {
            let i = iter.position() as int;
            assert(entries.subrange(start, i + 1).drop_last() =~= entries.subrange(start, i));
        }
        iter.next();
    }
    if iter.valid() {
        iter.next();
    }
    chunk
}

/// The number of nodes on the left edge of a proof tree.
pub open spec fn proof_height(tree: ProofTreeView) -> nat
    decreases tree,
{
    match tree.left {
        Some(child) => proof_height(*child) + 1,
        None => 1,
    }
}

/// Whether no node on the left edge of a proof tree, below its root, is just a
/// hash.
pub open spec fn height_proven(tree: ProofTreeView) -> bool
    decreases tree,
{
    match tree.left {
        Some(child) => !(child.node is Hash) && height_proven(*child),
        None => true,
    }
}

/// What is wrong with the first node, parents before children and left before
/// right, that is wrong for a trunk of `depth` layers: nodes in these layers
/// must have keys and values, and nodes in the next layer must be hashes,
/// except for the leftmost one, which must have the hash of its key and value.
pub open spec fn completeness(tree: ProofTreeView, depth: nat, leftmost: bool) -> Result<
    (),
    ProofError,
>
    decreases tree,
{
    if depth > 0 {
        if !(tree.node is KV) {
            Err(ProofError::AbridgedTrunkNode)
        } else {
            let left = match tree.left {
                Some(child) => completeness(*child, (depth - 1) as nat, leftmost),
                None => Ok(()),
            };
            match left {
                Err(e) => Err(e),
                Ok(()) => match tree.right {
                    Some(child) => completeness(*child, (depth - 1) as nat, false),
                    None => Ok(()),
                },
            }
        }
    } else if !leftmost {
        if tree.node is Hash {
            Ok(())
        } else {
            Err(ProofError::UnabridgedTrunkLeaf)
        }
    } else {
        if tree.node is KVHash {
            Ok(())
        } else {
            Err(ProofError::WrongLeftmostTrunkLeaf)
        }
    }
}

/// What verifying a trunk returns: the tree that its operators build and the
/// height that its height proof gives, or the first error.
pub open spec fn verified_trunk(ops: Seq<Result<OpView, ProofError>>) -> Result<
    (ProofTreeView, nat),
    ProofError,
> {
    match executed(ops, false) {
        Err(e) => Err(e),
        Ok((tree, kv_only)) => {
            let height = proof_height(tree);
            if !height_proven(tree) {
                Err(ProofError::AbridgedHeightProof)
            } else if height / 2 < MIN_TRUNK_HEIGHT {
                if kv_only {
                    Ok((tree, height))
                } else {
                    Err(ProofError::IncompleteLeaf)
                }
            } else {
                match completeness(tree, height / 2, true) {
                    Ok(()) => Ok((tree, height)),
                    Err(e) => Err(e),
                }
            }
        },
    }
}

/// The sum of the heights of the items on a stack.
spec fn stack_height(stack: Seq<ProofTreeView>) -> nat
    decreases stack.len(),
{
    if stack.len() == 0 {
        0
    } else {
        stack_height(stack.drop_last()) + proof_height(stack.last())
    }
}

/// The items on the stack together are no higher than there were operators.
proof fn lemma_stack_height(ops: Seq<Result<OpView, ProofError>>, full: bool)
    ensures
        run(Ok(start()), ops, full) matches Ok(state) ==> stack_height(state.stack) <= ops.len(),
    decreases ops.len(),
{
    if ops.len() > 0 {
        lemma_stack_height(ops.drop_last(), full);
        if let Ok(before) = run(Ok(start()), ops.drop_last(), full) {
            if let Ok(op) = ops.last() {
                if let Ok(after) = step(before, op, full) {
                    let stack = before.stack;
                    reveal_with_fuel(stack_height, 3);
                    reveal_with_fuel(proof_height, 2);
                    assert(after.stack.drop_last() =~= match op {
                        OpView::Push(node) => stack,
                        _ => stack.drop_last().drop_last(),
                    });
                }
            }
        }
    }
}

/// The number of nodes on the left edge of a tree, where none of them below the
/// root is just a hash.
fn verify_height_proof(tree: &ProofTree) -> (result: Result<usize, ProofError>)
    requires
        proof_height(tree@) <= usize::MAX,
    ensures
        result == if height_proven(tree@) {
            Ok::<usize, ProofError>(proof_height(tree@) as usize)
        } else {
            Err(ProofError::AbridgedHeightProof)
        },
    decreases tree,
{
    match tree.child(true) {
        Some(child) => {
            if let Node::Hash(_) = child.tree.node {
                assert(tree_view(*child.tree).node is Hash);
                return Err(ProofError::AbridgedHeightProof);
            }
            match verify_height_proof(&child.tree) {
                Ok(height) => Ok(height + 1),
                Err(e) => Err(e),
            }
        },
        None => Ok(1),
    }
}

/// Checks that the top `remaining_depth` layers of a tree have keys and values,
/// and that the next layer has hashes, with the leftmost node having the hash
/// of its key and value.
fn verify_completeness(tree: &ProofTree, remaining_depth: usize, leftmost: bool) -> (result: Result<
    (),
    ProofError,
>)
    ensures
        result == completeness(tree@, remaining_depth as nat, leftmost),
    decreases tree,
{
    if remaining_depth > 0 {
        match tree.node {
            Node::KV(..) => {},
            _ => {
                return Err(ProofError::AbridgedTrunkNode);
            },
        }
        if let Some(child) = tree.child(true) {
            match verify_completeness(&child.tree, remaining_depth - 1, leftmost) {
                Ok(()) => {},
                Err(e) => {
                    return Err(e);
                },
            }
        }
        match tree.child(false) {
            Some(child) => verify_completeness(&child.tree, remaining_depth - 1, false),
            None => Ok(()),
        }
    } else if !leftmost {
        match tree.node {
            Node::Hash(_) => Ok(()),
            _ => Err(ProofError::UnabridgedTrunkLeaf),
        }
    } else {
        match tree.node {
            Node::KVHash(_) => Ok(()),
            _ => Err(ProofError::WrongLeftmostTrunkLeaf),
        }
    }
}

/// Verifies a leaf chunk proof by executing its operators. Checks that there
/// were no abridged nodes (Hash or KVHash) and the proof hashes to
/// `expected_hash`.
pub fn verify_leaf(ops: Vec<Result<Op, ProofError>>, expected_hash: NodeHash) -> (result: Result<
    ProofTree,
    ProofError,
>)
    ensures
        match executed(items_view(ops@), true) {
            Err(e) => result == Err::<ProofTree, ProofError>(e),
            Ok((view, _)) => if proof_hash(view) == expected_hash@ {
                result matches Ok(tree) && tree@ == view && well_formed(tree)
            } else {
                result matches Err(ProofError::LeafHashMismatch { expected, actual }) && expected
                    == expected_hash && actual@ == proof_hash(view)
            },
        },
{
    let tree = match execute(ops, true) {
        Ok((tree, _)) => tree,
        Err(e) => {
            return Err(e);
        },
    };
    let actual = tree.hash();
    if !hashes_equal(&actual, &expected_hash) {
        return Err(ProofError::LeafHashMismatch { expected: expected_hash, actual });
    }
    Ok(tree)
}

/// Verifies a trunk chunk proof by executing its operators. Ensures the
/// resulting tree contains a valid height proof, the trunk is the correct
/// height, and all of its inner nodes are not abridged. Returns the tree and
/// the height given by the height proof.
pub fn verify_trunk(ops: Vec<Result<Op, ProofError>>) -> (result: Result<
    (ProofTree, usize),
    ProofError,
>)
    ensures
        match verified_trunk(items_view(ops@)) {
            Err(e) => result == Err::<(ProofTree, usize), ProofError>(e),
            Ok((view, height)) => {
                &&& result matches Ok((tree, h))
                &&& tree@ == view
                &&& h == height
                &&& well_formed(tree)
            },
        },
{
    let ghost items = items_view(ops@);
    let ghost len = ops.len();
    let (tree, kv_only) = match execute(ops, false) {
        Ok(executed) => executed,
        Err(e) => {
            return Err(e);
        },
    };
    proof {
        lemma_stack_height(items, false);
        let stack = run(Ok(start()), items, false)->Ok_0.stack;
        assert(stack_height(stack) == stack_height(stack.drop_last()) + proof_height(tree@));
    }
    let height: usize = match verify_height_proof(&tree) {
        Ok(height) => height,
        Err(e) => {
            return Err(e);
        },
    };
    let trunk_height: usize = height / 2;
    if trunk_height < MIN_TRUNK_HEIGHT {
        if !kv_only {
            return Err(ProofError::IncompleteLeaf);
        }
    } else {
        match verify_completeness(&tree, trunk_height, true) {
            Ok(()) => {},
            Err(e) => {
                return Err(e);
            },
        }
    }
    Ok((tree, height))
}

/// A chunk ends before the first entry, from its start on, that has the end key, and
/// goes on to the last entry where there is none or no end key.
pub proof fn law_chunks_end_at_the_end_key(
    entries: Seq<EntryView>,
    position: nat,
    end_key: Option<Seq<u8>>,
)
    requires
        position <= entries.len(),
    ensures
        position <= chunk_end(entries, position, end_key) <= entries.len(),
        forall|i: int|
            position <= i < chunk_end(entries, position, end_key) ==> end_key != Some(
                (#[trigger] entries[i]).key,
            ),
        chunk_end(entries, position, end_key) < entries.len() ==> end_key == Some(
            entries[chunk_end(entries, position, end_key) as int].key,
        ),
    decreases entries.len() - position,
{
    if position < entries.len() && end_key != Some(entries[position as int].key) {
        law_chunks_end_at_the_end_key(entries, position + 1, end_key);
    }
}

/// Creating the trunk proof of a tree that is in memory needs nothing of the source:
/// whatever that is, there is a proof, and the tree stays as it is.
pub proof fn law_trees_in_memory_need_no_source<S: Fetch>(
    source: &S,
    before: Tree,
    after: Tree,
    result: Result<(Vec<Op>, bool), ProofError>,
)
    requires
        trunk_created(source, before, after, result),
        forall|depth: nat| layers_loaded(before, depth),
        left_height(before) < usize::MAX,
    ensures
        after == before,
        result matches Ok((proof, has_more)) && ops_view(proof@) == trunk_ops(before) && has_more
            == (left_height(before) >= 10),
{
    lemma_layers_edge(before);
    assert(layers_loaded(before, trunk_reach(before)));
}

/// Where all layers are in memory, so is the left edge.
proof fn lemma_layers_edge(tree: Tree)
    requires
        forall|depth: nat| layers_loaded(tree, depth),
    ensures
        left_edge_loaded(tree),
    decreases tree,
{
    assert(layers_loaded(tree, 1));
    if let Some(Link::Loaded { hash, tree: child }) = tree.left {
        assert forall|depth: nat| layers_loaded(*child, depth) by {
            assert(layers_loaded(tree, depth + 1));
        }
        lemma_layers_edge(*child);
    }
}

/// Keys in memory are their bytes, one for one.
pub proof fn law_what_keys_hold(keys: Seq<Vec<u8>>, i: int, end_key: &[u8])
    requires
        0 <= i < keys.len(),
    ensures
        keys_view(keys).len() == keys.len(),
        keys_view(keys)[i] == keys[i]@,
        end_key_view(Some(end_key)) == Some(end_key@),
        end_key_view(None) is None,
{
}

} // verus!
