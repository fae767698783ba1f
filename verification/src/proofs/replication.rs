//! What the chunks of a stored tree are, and that they replicate it.
use crate::bytes::{lemma_lex_asymmetric, lemma_lex_irreflexive, lemma_lex_transitive, lex_less};
use crate::merk::chunks::{
    boundary_after, chunk_count, lemma_height_ops_pushes_no_keys, lemma_pushed_keys_concat,
    pushed_keys, ChunkProducer, ProducerView,
};
use crate::proofs::chunk::{
    child_ops, chunk_end, chunk_ops, chunk_run, chunk_step, completed, height_ops, layer_ops,
    layers_loaded, left_edge_loaded, left_height, left_layer_ops, node_layer_ops, right_layer_ops,
    trunk_height, trunk_loaded, trunk_ops, verified_trunk, ChunkView, MIN_TRUNK_HEIGHT,
};
use crate::proofs::encoding::{decoded, encoding, law_encoding_roundtrip, lemma_ops_sized, sized};
use crate::proofs::roundtrip::{
    committed, full_ops, full_tree, fully_loaded, keys_above, keys_below, law_leaf_roundtrip,
    law_trunk_roundtrip, layers, lemma_edge_hash, ordered, trunk_tree, trunk_view,
};
use crate::proofs::tree::{executed, oks, proof_hash, ProofTreeView};
use crate::proofs::{ops_view, NodeView, Op, OpView, ProofError};
use crate::raw_iterator::{entry_view, lemma_lower_bound_found, lower_bound, EntryView};
use crate::tree::{Link, Tree};
use vstd::prelude::*;

verus! {

/// The child that a link leads to, where it is in memory.
pub open spec fn child_of(link: Option<Link>) -> Option<Tree> {
    match link {
        Some(Link::Loaded { hash, tree }) => Some(*tree),
        _ => None,
    }
}

/// What is stored of a tree, in the order of its keys.
pub open spec fn stored(tree: Tree) -> Seq<EntryView>
    decreases tree,
{
    let left = match tree.left {
        Some(Link::Loaded { hash, tree: child }) => stored(*child),
        _ => seq![],
    };
    let right = match tree.right {
        Some(Link::Loaded { hash, tree: child }) => stored(*child),
        _ => seq![],
    };
    left.push(entry_view(tree)) + right
}

/// What is stored of a tree, if there is one.
pub open spec fn stored_opt(tree: Option<Tree>) -> Seq<EntryView> {
    match tree {
        Some(tree) => stored(tree),
        None => seq![],
    }
}

/// The operators that build a whole tree, if there is one.
pub open spec fn full_ops_opt(tree: Option<Tree>) -> Seq<OpView> {
    match tree {
        Some(tree) => full_ops(tree),
        None => seq![],
    }
}

/// The keys in the top `depth` layers of a tree, in order.
pub open spec fn layer_keys(tree: Tree, depth: nat) -> Seq<Seq<u8>>
    decreases tree,
{
    if depth == 0 {
        seq![]
    } else {
        let left = match tree.left {
            Some(Link::Loaded { hash, tree: child }) => layer_keys(*child, (depth - 1) as nat),
            _ => seq![],
        };
        let right = match tree.right {
            Some(Link::Loaded { hash, tree: child }) => layer_keys(*child, (depth - 1) as nat),
            _ => seq![],
        };
        left.push(tree.key@) + right
    }
}

/// The subtrees below the top `depth` layers of a tree, in order, with `None`
/// where there is none.
pub open spec fn subtrees(tree: Tree, depth: nat) -> Seq<Option<Tree>>
    decreases tree,
{
    if depth == 0 {
        seq![Some(tree)]
    } else {
        let left = match tree.left {
            Some(Link::Loaded { hash, tree: child }) => subtrees(*child, (depth - 1) as nat),
            _ => seq![None],
        };
        let right = match tree.right {
            Some(Link::Loaded { hash, tree: child }) => subtrees(*child, (depth - 1) as nat),
            _ => seq![None],
        };
        left + right
    }
}

/// The hashes of the subtrees below the top `depth` layers of a proof tree, in
/// order, with `None` where there is none.
pub open spec fn subtree_hashes(tree: ProofTreeView, depth: nat) -> Seq<Option<Seq<u8>>>
    decreases tree,
{
    if depth == 0 {
        seq![Some(proof_hash(tree))]
    } else {
        let left = match tree.left {
            Some(child) => subtree_hashes(*child, (depth - 1) as nat),
            None => seq![None],
        };
        let right = match tree.right {
            Some(child) => subtree_hashes(*child, (depth - 1) as nat),
            None => seq![None],
        };
        left + right
    }
}

/// Building a chunk from two lists of entries one after the other.
proof fn lemma_chunk_run_concat(chunk: ChunkView, a: Seq<EntryView>, b: Seq<EntryView>)
    ensures
        chunk_run(chunk, a + b) == chunk_run(chunk_run(chunk, a), b),
    decreases b.len(),
{
    if b.len() == 0 {
        assert(a + b =~= a);
    } else {
        lemma_chunk_run_concat(chunk, a, b.drop_last());
        assert((a + b).drop_last() =~= a + b.drop_last());
    }
}

/// Of a stack whose upper part is not above a key and whose lower part is,
/// the upper part is complete.
proof fn lemma_completed(lower: Seq<Seq<u8>>, upper: Seq<Seq<u8>>, key: Seq<u8>)
    requires
        lower.len() > 0 ==> lex_less(key, lower.last()),
        forall|i: int| 0 <= i < upper.len() ==> !lex_less(key, #[trigger] upper[i]),
    ensures
        completed(lower + upper, key) == upper.len(),
    decreases upper.len(),
{
    if upper.len() == 0 {
        assert(lower + upper =~= lower);
    } else {
        assert((lower + upper).drop_last() =~= lower + upper.drop_last());
        assert((lower + upper).last() == upper[upper.len() - 1]);
        lemma_completed(lower, upper.drop_last(), key);
    }
}

/// Building a chunk from the entries of a tree adds the operators that build
/// the tree, and then completes the right children in the upper part of the
/// stack, of which the tree is the last.
#[verifier::spinoff_prover]
#[verifier::rlimit(60)]
proof fn lemma_chunk_of_tree(
    tree: Tree,
    ops: Seq<OpView>,
    lower: Seq<Seq<u8>>,
    upper: Seq<Seq<u8>>,
)
    requires
        fully_loaded(tree),
        ordered(tree),
        lower.len() > 0 ==> keys_below(tree, lower.last()),
        upper.len() > 0 ==> upper.last() == tree.key@,
        forall|i: int| 0 <= i < upper.len() ==> !lex_less(tree.key@, #[trigger] upper[i]),
    ensures
        chunk_run(ChunkView { ops, stack: lower + upper }, stored(tree)) == (ChunkView {
            ops: ops + full_ops(tree) + child_ops(upper.len()),
            stack: lower,
        }),
    decreases tree,
{
    let stack = lower + upper;
    let first = ChunkView { ops, stack };
    let left = stored_opt(child_of(tree.left));
    let right = stored_opt(child_of(tree.right));
    let entry = entry_view(tree);
    assert(stored(tree) =~= left + seq![entry] + right);
    lemma_chunk_run_concat(first, left + seq![entry], right);
    lemma_chunk_run_concat(first, left, seq![entry]);
    let left_ops = full_ops_opt(child_of(tree.left));
    match tree.left {
        Some(Link::Loaded { hash, tree: child }) => {
            assert(stack + seq![] =~= stack);
            lemma_chunk_of_tree(*child, ops, stack, seq![]);
            assert(ops + left_ops + child_ops(0) =~= ops + left_ops);
        },
        _ => {
            assert(ops + left_ops =~= ops);
        },
    }
    let after_left = ChunkView { ops: ops + left_ops, stack };
    assert(chunk_run(first, left) == after_left);
    assert(seq![entry].drop_last() =~= seq![]);
    assert(chunk_run(after_left, seq![entry]) == chunk_step(
        chunk_run(after_left, seq![]),
        entry,
    ));
    let after_node = chunk_step(after_left, entry);
    let node_ops = ops + left_ops + node_layer_ops(tree);
    match tree.right {
        Some(Link::Loaded { hash, tree: child }) => {
            assert(after_node.ops =~= node_ops);
            let waiting = upper.push(child.key@);
            assert(after_node.stack =~= lower + waiting);
            assert forall|i: int| 0 <= i < waiting.len() implies !lex_less(
                child.key@,
                #[trigger] waiting[i],
            ) by {
                if i < upper.len() {
                    if lex_less(child.key@, upper[i]) {
                        lemma_lex_transitive(tree.key@, child.key@, upper[i]);
                    }
                } else {
                    lemma_lex_irreflexive(child.key@);
                }
            }
            lemma_chunk_of_tree(*child, node_ops, lower, waiting);
            assert(node_ops + full_ops(*child) + child_ops(waiting.len()) =~= ops + full_ops(tree)
                + child_ops(upper.len()));
        },
        _ => {
            lemma_completed(lower, upper, tree.key@);
            assert(stack.take(stack.len() - upper.len()) =~= lower);
            assert(after_node.ops =~= ops + full_ops(tree) + child_ops(upper.len()));
        },
    }
}

/// The chunk that the stored nodes of a tree make consists of the operators
/// that build the tree.
pub proof fn law_chunk_builds_tree(tree: Tree)
    requires
        fully_loaded(tree),
        ordered(tree),
    ensures
        chunk_ops(stored(tree)) == full_ops(tree),
{
    assert(Seq::<Seq<u8>>::empty() + seq![] =~= seq![]);
    lemma_chunk_of_tree(tree, seq![], seq![], seq![]);
    assert(seq![] + full_ops(tree) + child_ops(0) =~= full_ops(tree));
}

/// The position, among the stored entries of a tree, of the entry with the
/// `i`-th key of its top `depth` layers.
pub open spec fn key_position(tree: Tree, depth: nat, i: int) -> int
    decreases tree,
{
    let d = (depth - 1) as nat;
    let left_keys = match tree.left {
        Some(Link::Loaded { hash, tree: child }) => layer_keys(*child, d).len(),
        _ => 0,
    };
    let left_entries = match tree.left {
        Some(Link::Loaded { hash, tree: child }) => stored(*child).len(),
        _ => 0,
    };
    if i < left_keys {
        match tree.left {
            Some(Link::Loaded { hash, tree: child }) => key_position(*child, d, i),
            _ => 0,
        }
    } else if i == left_keys {
        left_entries as int
    } else {
        match tree.right {
            Some(Link::Loaded { hash, tree: child }) => left_entries + 1 + key_position(
                *child,
                d,
                i - left_keys - 1,
            ),
            _ => 0,
        }
    }
}

/// Where the `i`-th subtree below the top layers starts among the stored
/// entries.
pub open spec fn subtree_start(tree: Tree, depth: nat, i: int) -> int {
    if i == 0 {
        0
    } else {
        key_position(tree, depth, i - 1) + 1
    }
}

/// Where the `i`-th subtree below the top layers ends among the stored entries.
pub open spec fn subtree_end(tree: Tree, depth: nat, i: int) -> int {
    if i < layer_keys(tree, depth).len() {
        key_position(tree, depth, i)
    } else {
        stored(tree).len() as int
    }
}

/// There is one subtree more than there are keys in the top layers.
proof fn lemma_subtree_count(tree: Tree, depth: nat)
    ensures
        subtrees(tree, depth).len() == layer_keys(tree, depth).len() + 1,
    decreases tree,
{
    if depth > 0 {
        let d = (depth - 1) as nat;
        if let Some(Link::Loaded { hash, tree: child }) = tree.left {
            lemma_subtree_count(*child, d);
        }
        if let Some(Link::Loaded { hash, tree: child }) = tree.right {
            lemma_subtree_count(*child, d);
        }
    }
}

/// The keys of the top layers are found at their positions.
pub proof fn lemma_key_position(tree: Tree, depth: nat, i: int)
    requires
        0 <= i < layer_keys(tree, depth).len(),
    ensures
        0 <= key_position(tree, depth, i) < stored(tree).len(),
        stored(tree)[key_position(tree, depth, i)].key == layer_keys(tree, depth)[i],
    decreases tree,
{
    let d = (depth - 1) as nat;
    let left_keys = match tree.left {
        Some(Link::Loaded { hash, tree: child }) => layer_keys(*child, d).len(),
        _ => 0,
    };
    if i < left_keys {
        lemma_key_position(*tree.left->0->tree, d, i);
    } else if i > left_keys {
        lemma_key_position(*tree.right->0->tree, d, i - left_keys - 1);
    }
}

/// Between the keys of the top layers lie the entries of the subtrees.
#[verifier::rlimit(40)]
proof fn lemma_subtree_entries(tree: Tree, depth: nat, i: int)
    requires
        0 <= i <= layer_keys(tree, depth).len(),
    ensures
        0 <= subtree_start(tree, depth, i) <= subtree_end(tree, depth, i) <= stored(tree).len(),
        stored(tree).subrange(subtree_start(tree, depth, i), subtree_end(tree, depth, i))
            == stored_opt(subtrees(tree, depth)[i]),
    decreases tree,
{
    let all = stored(tree);
    if depth == 0 {
        assert(all.subrange(0, all.len() as int) =~= all);
    } else {
        let d = (depth - 1) as nat;
        let left = stored_opt(child_of(tree.left));
        let right = stored_opt(child_of(tree.right));
        let left_keys = match tree.left {
            Some(Link::Loaded { hash, tree: child }) => layer_keys(*child, d).len(),
            _ => 0,
        };
        let from = subtree_start(tree, depth, i);
        let to = subtree_end(tree, depth, i);
        assert(all =~= left + seq![entry_view(tree)] + right);
        if i <= left_keys {
            match tree.left {
                Some(Link::Loaded { hash, tree: child }) => {
                    lemma_subtree_entries(*child, d, i);
                    lemma_subtree_count(*child, d);
                    assert(all.subrange(from, to) =~= left.subrange(from, to));
                },
                _ => {
                    assert(all.subrange(from, to) =~= seq![]);
                },
            }
        } else {
            let j = i - left_keys - 1;
            if let Some(Link::Loaded { hash, tree: child }) = tree.left {
                lemma_subtree_count(*child, d);
            }
            match tree.right {
                Some(Link::Loaded { hash, tree: child }) => {
                    lemma_subtree_entries(*child, d, j);
                    lemma_subtree_count(*child, d);
                    let skipped = left.len() + 1;
                    assert(all.subrange(from, to) =~= right.subrange(from - skipped, to - skipped));
                },
                _ => {
                    assert(all.subrange(from, to) =~= seq![]);
                },
            }
        }
    }
}

/// A bound above the keys of a tree is above the keys of its entries.
proof fn lemma_stored_below(tree: Tree, bound: Seq<u8>, i: int)
    requires
        keys_below(tree, bound),
        0 <= i < stored(tree).len(),
    ensures
        lex_less(stored(tree)[i].key, bound),
    decreases tree,
{
    let left = stored_opt(child_of(tree.left));
    if i < left.len() {
        lemma_stored_below(*tree.left->0->tree, bound, i);
    } else if i > left.len() {
        lemma_stored_below(*tree.right->0->tree, bound, i - left.len() - 1);
    }
}

/// A bound below the keys of a tree is below the keys of its entries.
proof fn lemma_stored_above(tree: Tree, bound: Seq<u8>, i: int)
    requires
        keys_above(tree, bound),
        0 <= i < stored(tree).len(),
    ensures
        lex_less(bound, stored(tree)[i].key),
    decreases tree,
{
    let left = stored_opt(child_of(tree.left));
    if i < left.len() {
        lemma_stored_above(*tree.left->0->tree, bound, i);
    } else if i > left.len() {
        lemma_stored_above(*tree.right->0->tree, bound, i - left.len() - 1);
    }
}

/// The entries of a search tree are stored in the order of their keys.
proof fn lemma_stored_sorted(tree: Tree, i: int, j: int)
    requires
        ordered(tree),
        0 <= i < j < stored(tree).len(),
    ensures
        lex_less(stored(tree)[i].key, stored(tree)[j].key),
    decreases tree,
{
    let n = stored_opt(child_of(tree.left)).len() as int;
    if j < n {
        lemma_stored_sorted(*tree.left->0->tree, i, j);
    } else if i > n {
        lemma_stored_sorted(*tree.right->0->tree, i - n - 1, j - n - 1);
    } else {
        if i < n {
            lemma_stored_below(*tree.left->0->tree, tree.key@, i);
        }
        if j > n {
            lemma_stored_above(*tree.right->0->tree, tree.key@, j - n - 1);
        }
        if i < n < j {
            lemma_lex_transitive(stored(tree)[i].key, tree.key@, stored(tree)[j].key);
        }
    }
}

/// Where all entries are below a key, their number is the lower bound.
proof fn lemma_lower_bound_behind(entries: Seq<EntryView>, key: Seq<u8>)
    requires
        forall|i: int| 0 <= i < entries.len() ==> lex_less((#[trigger] entries[i]).key, key),
    ensures
        lower_bound(entries, key) == entries.len(),
    decreases entries.len(),
{
    if entries.len() > 0 {
        lemma_lower_bound_behind(entries.drop_last(), key);
    }
}

/// Seeking a stored key finds its entry.
proof fn lemma_seek_stored(tree: Tree, position: int)
    requires
        ordered(tree),
        0 <= position < stored(tree).len(),
    ensures
        lower_bound(stored(tree), stored(tree)[position].key) == position,
{
    let entries = stored(tree);
    let key = entries[position].key;
    assert forall|i: int| 0 <= i < position implies lex_less((#[trigger] entries.take(position)[i]).key, key) by {
        lemma_stored_sorted(tree, i, position);
    }
    lemma_lower_bound_behind(entries.take(position), key);
    lemma_lex_irreflexive(key);
    lemma_lower_bound_found(entries, position as nat, key);
}

/// A chunk ends at the entry with the end key.
proof fn lemma_chunk_end_stored(tree: Tree, from: nat, position: nat)
    requires
        ordered(tree),
        from <= position < stored(tree).len(),
    ensures
        chunk_end(stored(tree), from, Some(stored(tree)[position as int].key)) == position,
    decreases position - from,
{
    if from < position {
        lemma_stored_sorted(tree, from as int, position as int);
        lemma_lex_asymmetric(stored(tree)[from as int].key, stored(tree)[position as int].key);
        lemma_chunk_end_stored(tree, from + 1, position);
    }
}

/// A chunk without an end key ends behind the last entry.
proof fn lemma_chunk_end_last(entries: Seq<EntryView>, from: nat)
    ensures
        chunk_end(entries, from, None) == entries.len(),
    decreases entries.len() - from,
{
    if from < entries.len() {
        lemma_chunk_end_last(entries, from + 1);
    }
}

/// The keys that the layers of a trunk push are the keys of these layers.
proof fn lemma_layer_keys_pushed(tree: Tree, depth: nat, leftmost: bool)
    requires
        layers_loaded(tree, depth),
    ensures
        pushed_keys(layer_ops(tree, depth, leftmost)) == layer_keys(tree, depth),
    decreases tree,
{
    reveal_with_fuel(pushed_keys, 3);
    if depth == 0 {
        let ops = layer_ops(tree, depth, leftmost);
        if ops.len() > 0 {
            assert(ops.drop_last() =~= seq![]);
        }
    } else {
        let d = (depth - 1) as nat;
        let left_ops = left_layer_ops(tree, depth, leftmost);
        let node_ops = node_layer_ops(tree);
        let right_ops = right_layer_ops(tree, depth);
        lemma_pushed_keys_concat(left_ops + node_ops, right_ops);
        lemma_pushed_keys_concat(left_ops, node_ops);
        let op = OpView::Push(NodeView::KV(tree.key@, tree.value@));
        assert(seq![op].drop_last() =~= seq![]);
        assert(pushed_keys(seq![op]) =~= seq![tree.key@]);
        if tree.left is Some {
            assert(node_ops.drop_last() =~= seq![op]);
        }
        assert(pushed_keys(node_ops) =~= seq![tree.key@]);
        if let Some(Link::Loaded { hash, tree: child }) = tree.left {
            lemma_layer_keys_pushed(*child, d, leftmost);
        }
        if let Some(Link::Loaded { hash, tree: child }) = tree.right {
            lemma_layer_keys_pushed(*child, d, false);
            assert(right_ops.drop_last() =~= layer_ops(*child, d, false));
        }
        assert(pushed_keys(layer_ops(tree, depth, leftmost)) =~= layer_keys(tree, depth));
    }
}

/// The subtrees of a tree are whole search trees with the right hashes.
pub proof fn lemma_subtree_valid(tree: Tree, depth: nat, i: int)
    requires
        ordered(tree),
        committed(tree),
        fully_loaded(tree),
        0 <= i < subtrees(tree, depth).len(),
        subtrees(tree, depth)[i] is Some,
    ensures
        ordered(subtrees(tree, depth)[i]->0),
        committed(subtrees(tree, depth)[i]->0),
        fully_loaded(subtrees(tree, depth)[i]->0),
    decreases tree,
{
    if depth > 0 {
        let d = (depth - 1) as nat;
        let n = match tree.left {
            Some(Link::Loaded { hash, tree: child }) => subtrees(*child, d).len(),
            _ => 1,
        };
        if i < n {
            lemma_subtree_valid(*tree.left->0->tree, d, i);
        } else {
            lemma_subtree_valid(*tree.right->0->tree, d, i - n);
        }
    }
}

/// The trunk has the hashes of the subtrees below it.
proof fn lemma_trunk_subtree_hashes(tree: Tree, depth: nat, leftmost: bool)
    requires
        committed(tree),
        fully_loaded(tree),
    ensures
        subtree_hashes(trunk_tree(tree, depth, leftmost), depth).len() == subtrees(
            tree,
            depth,
        ).len(),
        forall|i: int|
            0 <= i < subtrees(tree, depth).len() ==> #[trigger] subtree_hashes(
                trunk_tree(tree, depth, leftmost),
                depth,
            )[i] == match subtrees(tree, depth)[i] {
                Some(subtree) => Some(subtree.hash_view()),
                None => None,
            },
    decreases tree,
{
    if depth == 0 {
        if leftmost {
            lemma_fully_loaded_edge(tree);
            lemma_edge_hash(tree);
        }
    } else {
        let d = (depth - 1) as nat;
        if let Some(Link::Loaded { hash, tree: child }) = tree.left {
            lemma_trunk_subtree_hashes(*child, d, leftmost);
        }
        if let Some(Link::Loaded { hash, tree: child }) = tree.right {
            lemma_trunk_subtree_hashes(*child, d, false);
        }
    }
}

/// Of a tree that is in memory, so is the left edge.
proof fn lemma_fully_loaded_edge(tree: Tree)
    requires
        fully_loaded(tree),
    ensures
        left_edge_loaded(tree),
    decreases tree,
{
    if let Some(Link::Loaded { hash, tree: child }) = tree.left {
        lemma_fully_loaded_edge(*child);
    }
}

/// Of a tree that is in memory, so are its top layers.
proof fn lemma_fully_loaded_layers(tree: Tree, depth: nat)
    requires
        fully_loaded(tree),
    ensures
        layers_loaded(tree, depth),
    decreases tree,
{
    if depth > 0 {
        let d = (depth - 1) as nat;
        if let Some(Link::Loaded { hash, tree: child }) = tree.left {
            lemma_fully_loaded_layers(*child, d);
        }
        if let Some(Link::Loaded { hash, tree: child }) = tree.right {
            lemma_fully_loaded_layers(*child, d);
        }
    }
}

/// The state of a chunk producer over the stored nodes of a tree that has a
/// trunk, before its first chunk.
pub open spec fn stored_producer(tree: Tree) -> ProducerView {
    ChunkProducer::initial(trunk_ops(tree), true, stored(tree))
}

/// The chunks of a tree are cut at the keys in its trunk.
proof fn lemma_boundaries(tree: Tree)
    requires
        fully_loaded(tree),
        trunk_height(tree) >= MIN_TRUNK_HEIGHT,
    ensures
        stored_producer(tree).boundaries == layer_keys(tree, trunk_height(tree)),
        layer_keys(tree, trunk_height(tree)).len() > 0,
{
    let height = trunk_height(tree);
    lemma_fully_loaded_layers(tree, height);
    lemma_height_ops_pushes_no_keys(tree, 1, height);
    lemma_pushed_keys_concat(height_ops(tree, 1, height), layer_ops(tree, height, true));
    lemma_layer_keys_pushed(tree, height, true);
    assert(stored_producer(tree).boundaries =~= layer_keys(tree, height));
}

/// Where the chunk with a given index starts and ends.
proof fn lemma_chunk_range(tree: Tree, index: nat)
    requires
        ordered(tree),
        fully_loaded(tree),
        trunk_height(tree) >= MIN_TRUNK_HEIGHT,
        0 < index < chunk_count(stored_producer(tree).boundaries),
    ensures
        ({
            let height = trunk_height(tree);
            let state = stored_producer(tree).at(index);
            let end = chunk_end(
                state.entries,
                state.position,
                boundary_after(state.boundaries, index),
            );
            &&& state.position == subtree_start(tree, height, index - 1)
            &&& end == subtree_end(tree, height, index - 1)
            &&& index <= layer_keys(tree, height).len() ==> end < stored(tree).len()
        }),
{
    let height = trunk_height(tree);
    let keys = layer_keys(tree, height);
    let state = stored_producer(tree).at(index);
    lemma_boundaries(tree);
    lemma_subtree_entries(tree, height, index - 1);
    if index > 1 {
        lemma_key_position(tree, height, index - 2);
        lemma_seek_stored(tree, key_position(tree, height, index - 2));
    }
    if index <= keys.len() {
        lemma_key_position(tree, height, index - 1);
        lemma_chunk_end_stored(
            tree,
            state.position,
            key_position(tree, height, index - 1) as nat,
        );
    } else {
        lemma_chunk_end_last(state.entries, state.position);
    }
}

/// Every chunk after the trunk builds the subtree at its place below the trunk,
/// with all keys and values, and nothing where there is no subtree. Verified as
/// a leaf chunk, it gives that subtree, and the subtree hashes to the hash that
/// the verified trunk has at this place.
pub proof fn law_chunks_replicate(tree: Tree, index: nat)
    requires
        ordered(tree),
        committed(tree),
        fully_loaded(tree),
        trunk_height(tree) >= MIN_TRUNK_HEIGHT,
        0 < index < chunk_count(stored_producer(tree).boundaries),
    ensures
        ({
            let height = trunk_height(tree);
            let hashes = subtree_hashes(trunk_view(tree), height);
            &&& hashes.len() == chunk_count(stored_producer(tree).boundaries) - 1
            &&& subtrees(tree, height).len() == hashes.len()
            &&& stored_producer(tree).at(index).next().0 == encoding(
                full_ops_opt(subtrees(tree, height)[index - 1]),
            )
            &&& match subtrees(tree, height)[index - 1] {
                None => hashes[index - 1] is None,
                Some(subtree) => {
                    &&& executed(oks(full_ops(subtree)), true) == Ok::<
                        (ProofTreeView, bool),
                        ProofError,
                    >((full_tree(subtree), true))
                    &&& hashes[index - 1] == Some(proof_hash(full_tree(subtree)))
                },
            }
        }),
{
    let height = trunk_height(tree);
    lemma_boundaries(tree);
    lemma_chunk_range(tree, index);
    lemma_subtree_count(tree, height);
    lemma_subtree_entries(tree, height, index - 1);
    lemma_trunk_subtree_hashes(tree, height, true);
    let subtree = subtrees(tree, height)[index - 1];
    if subtree is Some {
        lemma_subtree_valid(tree, height, index - 1);
        law_chunk_builds_tree(subtree->0);
        law_leaf_roundtrip(subtree->0);
    }
}

/// Chunks can be taken in any order: after a chunk, by whatever way it was
/// reached, the producer stands where seeking the next chunk would put it. So
/// chunks that are iterated in order are the chunks that random access gives.
pub proof fn law_random_access_is_sequential(tree: Tree, index: nat)
    requires
        ordered(tree),
        fully_loaded(tree),
        trunk_height(tree) >= MIN_TRUNK_HEIGHT,
        index + 1 < chunk_count(stored_producer(tree).boundaries),
    ensures
        stored_producer(tree).at(0) == stored_producer(tree),
        stored_producer(tree).at(index).next().1 == stored_producer(tree).at(index + 1),
{
    let height = trunk_height(tree);
    lemma_boundaries(tree);
    if index == 0 {
        lemma_trunk_not_empty(tree);
    } else {
        lemma_chunk_range(tree, index);
        lemma_chunk_range(tree, index + 1);
    }
}

/// The trunk of a tree has operators.
proof fn lemma_trunk_not_empty(tree: Tree)
    requires
        trunk_height(tree) >= MIN_TRUNK_HEIGHT,
    ensures
        trunk_ops(tree).len() > 0,
{
    assert(node_layer_ops(tree).len() > 0);
}

/// The operators that build a whole tree have no hashes.
proof fn lemma_full_ops_sized(tree: Tree, i: int)
    requires
        0 <= i < full_ops(tree).len(),
    ensures
        sized(full_ops(tree)[i]),
    decreases tree,
{
    let left = full_ops_opt(child_of(tree.left)).len();
    let node = node_layer_ops(tree).len();
    if i < left {
        lemma_full_ops_sized(*tree.left->0->tree, i);
    } else if i >= left + node {
        let child = *tree.right->0->tree;
        if i - left - node < full_ops(child).len() {
            lemma_full_ops_sized(child, i - left - node);
        }
    }
}

/// The first chunk, decoded, verifies as the trunk of the tree: verification
/// gives the trunk and the number of nodes on the left edge, and the trunk
/// hashes to the hash of the tree.
pub proof fn law_first_chunk_verifies(tree: Tree, trunk: Seq<Op>, bytes: Seq<u8>)
    requires
        ordered(tree),
        committed(tree),
        trunk_loaded(tree),
        trunk_height(tree) < MIN_TRUNK_HEIGHT ==> layers(tree) <= usize::MAX,
        ops_view(trunk) == trunk_ops(tree),
        encoding(ops_view(trunk)) == Ok::<Seq<u8>, ProofError>(bytes),
    ensures
        verified_trunk(decoded(bytes)) == Ok::<(ProofTreeView, nat), ProofError>(
            (trunk_view(tree), left_height(tree)),
        ),
        proof_hash(trunk_view(tree)) == tree.hash_view(),
{
    lemma_ops_sized(trunk);
    law_encoding_roundtrip(ops_view(trunk));
    law_trunk_roundtrip(tree);
}

/// Every other chunk, decoded, verifies as a leaf chunk: verification gives the
/// whole subtree at its place below the trunk, and the subtree hashes to the
/// hash that the verified trunk has at this place.
pub proof fn law_other_chunks_verify(tree: Tree, index: nat, bytes: Seq<u8>)
    requires
        ordered(tree),
        committed(tree),
        fully_loaded(tree),
        trunk_height(tree) >= MIN_TRUNK_HEIGHT,
        0 < index < chunk_count(stored_producer(tree).boundaries),
        stored_producer(tree).at(index).next().0 == Ok::<Seq<u8>, ProofError>(bytes),
        subtrees(tree, trunk_height(tree))[index - 1] is Some,
    ensures
        ({
            let height = trunk_height(tree);
            let subtree = subtrees(tree, height)[index - 1]->0;
            &&& executed(decoded(bytes), true) == Ok::<(ProofTreeView, bool), ProofError>(
                (full_tree(subtree), true),
            )
            &&& subtree_hashes(trunk_view(tree), height)[index - 1] == Some(
                proof_hash(full_tree(subtree)),
            )
        }),
{
    let subtree = subtrees(tree, trunk_height(tree))[index - 1]->0;
    law_chunks_replicate(tree, index);
    assert forall|i: int| 0 <= i < full_ops(subtree).len() implies sized(
        #[trigger] full_ops(subtree)[i],
    ) by {
        lemma_full_ops_sized(subtree, i);
    }
    law_encoding_roundtrip(full_ops(subtree));
}

/// The chunks replicate the entire tree: what is stored of it is what is stored
/// of the subtrees below the trunk, in order, with one key of the trunk between
/// each two of them.
pub proof fn law_chunks_cover_the_tree(tree: Tree, depth: nat, i: int)
    requires
        0 <= i <= layer_keys(tree, depth).len(),
    ensures
        subtrees(tree, depth).len() == layer_keys(tree, depth).len() + 1,
        stored(tree).subrange(subtree_start(tree, depth, i), subtree_end(tree, depth, i))
            == stored_opt(subtrees(tree, depth)[i]),
        i == 0 ==> subtree_start(tree, depth, i) == 0,
        i < layer_keys(tree, depth).len() ==> {
            let end = subtree_end(tree, depth, i);
            &&& 0 <= end < stored(tree).len()
            &&& stored(tree)[end].key == layer_keys(tree, depth)[i]
            &&& subtree_start(tree, depth, i + 1) == end + 1
        },
        i == layer_keys(tree, depth).len() ==> subtree_end(tree, depth, i) == stored(tree).len(),
{
    lemma_subtree_count(tree, depth);
    lemma_subtree_entries(tree, depth, i);
    if i < layer_keys(tree, depth).len() {
        lemma_key_position(tree, depth, i);
    }
}

} // verus!
