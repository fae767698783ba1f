//! What the chunks of a tree hold, told by what is stored of the tree.
use crate::bytes::lex_less;
use crate::merk::chunks::{
    boundary_after, chunk_count, chunk_start, ChunkProducer, ProducerView,
};
use crate::proofs::chunk::{
    child_ops, chunk_end, chunk_ops, chunk_run, chunk_step, completed,
    law_chunks_end_at_the_end_key, left_height, node_layer_ops, trunk_height, trunk_loaded,
    trunk_ops, verified_trunk, ChunkView, MIN_TRUNK_HEIGHT,
};
use crate::proofs::encoding::{decoded, encodable, encoding};
use crate::proofs::replication::{
    child_of, full_ops_opt, key_position, law_chunks_replicate, law_first_chunk_verifies,
    law_other_chunks_verify, layer_keys, lemma_key_position, lemma_subtree_valid, stored,
    stored_opt, stored_producer, subtrees,
};
use crate::proofs::roundtrip::{
    committed, edge_tree, full_ops, full_tree, fully_loaded, law_leaf_roundtrip,
    law_trunk_roundtrip, layers, ordered, trunk_tree, trunk_view,
};
use crate::proofs::soundness::{law_executed_proofs, nodes_of, pushed_nodes};
use crate::proofs::tree::{executed, oks, proof_hash, ProofTreeView};
use crate::proofs::{ops_view, NodeView, Op, OpView, ProofError};
use crate::raw_iterator::{entry_view, law_seeking_finds_the_first, lower_bound, EntryView};
use crate::tree::{Link, Tree};
use vstd::prelude::*;

verus! {

/// What proof nodes hold of stored entries: their keys and values.
pub open spec fn entry_nodes(entries: Seq<EntryView>) -> Seq<NodeView> {
    Seq::new(entries.len(), |i: int| NodeView::KV(entries[i].key, entries[i].value))
}

/// The keys and values in a list of nodes, in order.
pub open spec fn pairs_of(nodes: Seq<NodeView>) -> Seq<(Seq<u8>, Seq<u8>)>
    decreases nodes.len(),
{
    if nodes.len() == 0 {
        seq![]
    } else {
        let before = pairs_of(nodes.drop_last());
        match nodes.last() {
            NodeView::KV(key, value) => before.push((key, value)),
            _ => before,
        }
    }
}

/// Keys and values of two lists one after the other.
proof fn lemma_pairs_concat(a: Seq<NodeView>, b: Seq<NodeView>)
    ensures
        pairs_of(a + b) == pairs_of(a) + pairs_of(b),
    decreases b.len(),
{
    if b.len() == 0 {
        assert(a + b =~= a);
        assert(pairs_of(a) + pairs_of(b) =~= pairs_of(a));
    } else {
        lemma_pairs_concat(a, b.drop_last());
        assert((a + b).drop_last() =~= a + b.drop_last());
        assert(pairs_of(a + b) =~= pairs_of(a) + pairs_of(b));
    }
}

/// The proof tree of a whole tree holds all that is stored of it, in order, and
/// nothing else.
pub proof fn law_whole_trees_hold_all_entries(tree: Tree)
    requires
        fully_loaded(tree),
    ensures
        nodes_of(full_tree(tree)) == entry_nodes(stored(tree)),
    decreases tree,
{
    let left = stored_opt(child_of(tree.left));
    let right = stored_opt(child_of(tree.right));
    if let Some(Link::Loaded { hash, tree: child }) = tree.left {
        law_whole_trees_hold_all_entries(*child);
    }
    if let Some(Link::Loaded { hash, tree: child }) = tree.right {
        law_whole_trees_hold_all_entries(*child);
    }
    assert(nodes_of(full_tree(tree)) =~= entry_nodes(stored(tree)));
}

/// A height proof holds no keys and values.
proof fn lemma_edge_pairs(tree: Tree)
    ensures
        pairs_of(nodes_of(edge_tree(tree))) == Seq::<(Seq<u8>, Seq<u8>)>::empty(),
    decreases tree,
{
    let proof_tree = edge_tree(tree);
    let left = match proof_tree.left {
        Some(child) => nodes_of(*child),
        None => seq![],
    };
    let right = match proof_tree.right {
        Some(child) => nodes_of(*child),
        None => seq![],
    };
    if let Some(Link::Loaded { hash, tree: child }) = tree.left {
        lemma_edge_pairs(*child);
    }
    let node = seq![proof_tree.node];
    assert(nodes_of(proof_tree) =~= left + node + right);
    lemma_pairs_concat(left + node, right);
    lemma_pairs_concat(left, node);
    reveal_with_fuel(pairs_of, 2);
    assert(node.drop_last() =~= seq![]);
    if right.len() > 0 {
        assert(right.len() == 1);
        assert(right.drop_last() =~= seq![]);
    }
    assert(pairs_of(nodes_of(proof_tree)) =~= seq![]);
}

/// A trunk of some layers holds, in order, the keys and values that are stored in
/// these layers, and no others.
pub proof fn law_trunks_hold_their_layers(tree: Tree, depth: nat, leftmost: bool, i: int)
    requires
        fully_loaded(tree),
    ensures
        ({
            let pairs = pairs_of(nodes_of(trunk_tree(tree, depth, leftmost)));
            &&& pairs.len() == layer_keys(tree, depth).len()
            &&& 0 <= i < pairs.len() ==> pairs[i] == (
                stored(tree)[key_position(tree, depth, i)].key,
                stored(tree)[key_position(tree, depth, i)].value,
            )
        }),
    decreases tree,
{
    let proof_tree = trunk_tree(tree, depth, leftmost);
    let pairs = pairs_of(nodes_of(proof_tree));
    reveal_with_fuel(pairs_of, 2);
    if depth == 0 {
        if leftmost {
            lemma_edge_pairs(tree);
        } else {
            let nodes = nodes_of(proof_tree);
            assert(nodes =~= seq![proof_tree.node]);
            assert(nodes.drop_last() =~= seq![]);
        }
    } else {
        let d = (depth - 1) as nat;
        let left = match proof_tree.left {
            Some(child) => nodes_of(*child),
            None => seq![],
        };
        let right = match proof_tree.right {
            Some(child) => nodes_of(*child),
            None => seq![],
        };
        let node = seq![proof_tree.node];
        assert(nodes_of(proof_tree) =~= left + node + right);
        lemma_pairs_concat(left + node, right);
        lemma_pairs_concat(left, node);
        assert(node.drop_last() =~= seq![]);
        assert(pairs_of(node) =~= seq![(tree.key@, tree.value@)]);
        let left_keys = match tree.left {
            Some(Link::Loaded { hash, tree: child }) => layer_keys(*child, d).len(),
            _ => 0,
        };
        let left_entries = stored_opt(child_of(tree.left));
        let right_entries = stored_opt(child_of(tree.right));
        if let Some(Link::Loaded { hash, tree: child }) = tree.left {
            law_trunks_hold_their_layers(*child, d, leftmost, i);
        }
        if let Some(Link::Loaded { hash, tree: child }) = tree.right {
            law_trunks_hold_their_layers(*child, d, false, i - left_keys - 1);
        }
        assert(stored(tree) =~= left_entries.push(entry_view(tree))
            + right_entries);
        if 0 <= i < pairs.len() {
            if i < left_keys {
                let child = *tree.left->0->tree;
                lemma_key_position(child, d, i);
                assert(pairs[i] == pairs_of(left)[i]);
            } else if i > left_keys {
                let child = *tree.right->0->tree;
                lemma_key_position(child, d, i - left_keys - 1);
                assert(pairs[i] == pairs_of(right)[i - left_keys - 1]);
            }
        }
    }
}

/// Whether the chunk encoding has room for a node: its key has at most 255 bytes, and
/// its value at most 65535.
pub open spec fn has_room(node: NodeView) -> bool {
    node matches NodeView::KV(key, value) ==> key.len() <= 255 && value.len() <= 65535
}

/// What operators push is what they push.
proof fn lemma_pushed_ok(ops: Seq<OpView>)
    ensures
        forall|i: int|
            0 <= i < pushed_nodes(oks(ops)).len() ==> exists|j: int|
                0 <= j < ops.len() && #[trigger] ops[j] == OpView::Push(
                    #[trigger] pushed_nodes(oks(ops))[i],
                ),
        forall|j: int, node: NodeView|
            0 <= j < ops.len() && #[trigger] ops[j] == OpView::Push(node) ==> #[trigger] pushed_nodes(
                oks(ops),
            ).contains(node),
    decreases ops.len(),
{
    if ops.len() > 0 {
        let short = ops.drop_last();
        lemma_pushed_ok(short);
        let all = oks(ops);
        assert(all.drop_last() =~= oks(short));
        let before = pushed_nodes(oks(short));
        let now = pushed_nodes(all);
        assert forall|i: int| 0 <= i < now.len() implies exists|j: int|
            0 <= j < ops.len() && #[trigger] ops[j] == OpView::Push(#[trigger] now[i]) by {
            if i < before.len() {
                assert(now[i] == before[i]);
                let j = choose|j: int|
                    0 <= j < short.len() && #[trigger] short[j] == OpView::Push(before[i]);
                assert(ops[j] == OpView::Push(now[i]));
            } else {
                assert(ops[ops.len() - 1] == OpView::Push(now[i]));
            }
        }
        assert forall|j: int, node: NodeView|
            0 <= j < ops.len() && #[trigger] ops[j] == OpView::Push(node) implies #[trigger] now.contains(
            node,
        ) by {
            if j < short.len() {
                assert(short[j] == OpView::Push(node));
                assert(before.contains(node));
                let i = choose|i: int| 0 <= i < before.len() && before[i] == node;
                assert(now[i] == node);
            } else {
                assert(now[now.len() - 1] == node);
            }
        }
    }
}

/// Operators can be encoded exactly if there is room for all nodes that they push.
pub proof fn law_what_can_be_encoded(ops: Seq<OpView>)
    ensures
        encoding(ops) is Ok <==> forall|i: int|
            0 <= i < pushed_nodes(oks(ops)).len() ==> has_room(
                #[trigger] pushed_nodes(oks(ops))[i],
            ),
        encoding(ops) is Err ==> encoding(ops) == Err::<Seq<u8>, ProofError>(
            ProofError::CannotEncode,
        ),
{
    let nodes = pushed_nodes(oks(ops));
    lemma_pushed_ok(ops);
    if encoding(ops) is Ok {
        assert forall|i: int| 0 <= i < nodes.len() implies has_room(#[trigger] nodes[i]) by {
            let j = choose|j: int| 0 <= j < ops.len() && #[trigger] ops[j] == OpView::Push(nodes[i]);
            assert(encodable(ops[j]));
        }
    }
    if forall|i: int| 0 <= i < nodes.len() ==> has_room(#[trigger] nodes[i]) {
        assert forall|j: int| 0 <= j < ops.len() implies encodable(
            #[trigger] ops[j],
        ) by {
            if let OpView::Push(node) = ops[j] {
                assert(ops[j] == OpView::Push(node));
                assert(nodes.contains(node));
                let i = choose|i: int| 0 <= i < nodes.len() && nodes[i] == node;
                assert(has_room(nodes[i]));
            }
        }
    }
}

/// The first chunk that a producer gives is the trunk of its tree: unless it has a key
/// or a value that is too long for the encoding, there is a chunk, and verifying
/// it as a trunk gives the trunk of the tree and the height of its left edge, and
/// the hash of the tree. A tree that is too low for a trunk is in this chunk as a
/// whole, and there are no others.
pub proof fn law_the_first_chunk_is_the_trunk(
    tree: Tree,
    trunk: Seq<Op>,
    entries: Seq<EntryView>,
    producer: ProducerView,
)
    requires
        ordered(tree),
        committed(tree),
        trunk_loaded(tree),
        trunk_height(tree) < MIN_TRUNK_HEIGHT ==> layers(tree) <= usize::MAX,
        ops_view(trunk) == trunk_ops(tree),
        producer == ChunkProducer::initial(
            ops_view(trunk),
            left_height(tree) / 2 >= MIN_TRUNK_HEIGHT,
            entries,
        ),
    ensures
        match producer.at(0).next().0 {
            Ok(bytes) => verified_trunk(decoded(bytes)) == Ok::<(ProofTreeView, nat), ProofError>(
                (trunk_view(tree), left_height(tree)),
            ),
            Err(e) => e == ProofError::CannotEncode,
        },
        producer.at(0).next().0 is Ok <==> forall|i: int|
            0 <= i < nodes_of(trunk_view(tree)).len() ==> has_room(
                #[trigger] nodes_of(trunk_view(tree))[i],
            ),
        proof_hash(trunk_view(tree)) == tree.hash_view(),
        left_height(tree) / 2 < MIN_TRUNK_HEIGHT ==> {
            &&& chunk_count(producer.boundaries) == 1
            &&& trunk_view(tree) == full_tree(tree)
        },
        left_height(tree) / 2 >= MIN_TRUNK_HEIGHT ==> trunk_view(tree) == trunk_tree(
            tree,
            left_height(tree) / 2,
            true,
        ),
        producer.at(0) == producer,
{
    let ops = ops_view(trunk);
    law_trunk_roundtrip(tree);
    law_executed_proofs(oks(ops), false);
    law_what_can_be_encoded(ops);
    lemma_trunk_has_ops(tree);
    if let Ok(bytes) = encoding(ops) {
        law_first_chunk_verifies(tree, trunk, bytes);
    }
}

/// The trunk of a tree has operators.
proof fn lemma_trunk_has_ops(tree: Tree)
    ensures
        trunk_ops(tree).len() > 0,
{
    assert(node_layer_ops(tree).len() > 0);
}

/// Every other chunk holds all that is stored of the subtree at its place below the
/// trunk, in order, and nothing else. There is such a chunk, unless a key or a
/// value is too long for the encoding, and where there is no subtree, it is empty.
pub proof fn law_other_chunks_hold_all_entries(tree: Tree, index: nat)
    requires
        ordered(tree),
        committed(tree),
        fully_loaded(tree),
        trunk_height(tree) >= MIN_TRUNK_HEIGHT,
        0 < index < chunk_count(stored_producer(tree).boundaries),
    ensures
        chunk_count(stored_producer(tree).boundaries) == subtrees(tree, left_height(tree) / 2).len()
            + 1,
        match subtrees(tree, left_height(tree) / 2)[index - 1] {
            None => stored_producer(tree).at(index).next().0 == Ok::<Seq<u8>, ProofError>(seq![]),
            Some(subtree) => match stored_producer(tree).at(index).next().0 {
                Ok(bytes) => {
                    &&& forall|i: int|
                        0 <= i < stored(subtree).len() ==> (#[trigger] stored(subtree)[i]).key.len()
                            <= 255 && stored(subtree)[i].value.len() <= 65535
                    &&& executed(decoded(bytes), true) matches Ok((proof_tree, _)) && nodes_of(
                        proof_tree,
                    ) == entry_nodes(stored(subtree)) && proof_hash(proof_tree)
                        == subtree.hash_view()
                },
                Err(e) => {
                    &&& e == ProofError::CannotEncode
                    &&& exists|i: int|
                        0 <= i < stored(subtree).len() && ((#[trigger] stored(
                            subtree,
                        )[i]).key.len() > 255 || stored(subtree)[i].value.len() > 65535)
                },
            },
        },
{
    law_chunks_replicate(tree, index);
    let subtree = subtrees(tree, trunk_height(tree))[index - 1];
    if subtree is Some {
        let below = subtree->0;
        lemma_subtree_valid(tree, trunk_height(tree), index - 1);
        law_leaf_roundtrip(below);
        law_whole_trees_hold_all_entries(below);
        let ops = full_ops(below);
        law_executed_proofs(oks(ops), true);
        law_what_can_be_encoded(ops);
        let nodes = nodes_of(full_tree(below));
        match encoding(ops) {
            Ok(bytes) => {
                law_other_chunks_verify(tree, index, bytes);
                assert forall|i: int| 0 <= i < stored(below).len() implies (#[trigger] stored(
                    below,
                )[i]).key.len() <= 255 && stored(below)[i].value.len() <= 65535 by {
                    assert(has_room(nodes[i]));
                }
            },
            Err(_) => {
                let i = choose|i: int| 0 <= i < nodes.len() && !has_room(#[trigger] nodes[i]);
                assert(stored(below)[i].key.len() > 255 || stored(below)[i].value.len() > 65535);
            },
        }
    } else {
        assert(full_ops_opt(subtree) =~= seq![]);
        assert(encoding(seq![]) == Ok::<Seq<u8>, ProofError>(seq![]));
    }
}

/// The chunk with a given index is the same whatever chunks were taken before: where a
/// producer stands does not matter for it.
pub proof fn law_chunks_do_not_depend_on_the_order(a: ProducerView, b: ProducerView, index: nat)
    requires
        a.trunk == b.trunk,
        a.boundaries == b.boundaries,
        a.entries == b.entries,
    ensures
        a.at(index) == b.at(index),
        a.at(index).index == index,
{
}

/// Taking a chunk moves a producer to the next one, and changes nothing else. For an
/// empty tree there is none, and the producer stays where it is.
pub proof fn law_producers_move_on(producer: ProducerView)
    ensures
        producer.next().1.trunk == producer.trunk,
        producer.next().1.boundaries == producer.boundaries,
        producer.next().1.entries == producer.entries,
        producer.index == 0 && producer.trunk.len() == 0 ==> producer.next() == (
            Err::<Seq<u8>, ProofError>(ProofError::EmptyTree),
            producer,
        ),
        producer.index > 0 || producer.trunk.len() > 0 ==> producer.next().1.index == producer.index
            + 1,
{
}

/// Where a chunk starts: the trunk and the first chunk behind it at the first entry, and
/// another one behind the first entry that is not below the boundary before it.
pub proof fn law_chunks_start_behind_boundaries(
    entries: Seq<EntryView>,
    boundaries: Seq<Seq<u8>>,
    index: nat,
    first: nat,
)
    requires
        first <= entries.len(),
        index >= 2 ==> forall|i: int|
            0 <= i < first ==> lex_less((#[trigger] entries[i]).key, boundaries[index - 2]),
        index >= 2 && first < entries.len() ==> !lex_less(
            entries[first as int].key,
            boundaries[index - 2],
        ),
    ensures
        index < 2 ==> chunk_start(entries, boundaries, index) == 0,
        index >= 2 && first < entries.len() ==> chunk_start(entries, boundaries, index) == first + 1,
        index >= 2 && first == entries.len() ==> chunk_start(entries, boundaries, index) == first,
{
    if index >= 2 {
        let key = boundaries[index - 2];
        let found = lower_bound(entries, key);
        law_seeking_finds_the_first(entries, key);
        if found < first {
            assert(lex_less(entries[found as int].key, key));
        }
        if first < found {
            assert(lex_less(entries[first as int].key, key));
        }
    }
}

/// What a chunk other than the trunk is made of, whatever the entries are: those from the
/// cursor on up to the boundary that ends it, or up to the last one. The cursor then
/// stands behind that boundary.
pub proof fn law_chunks_go_up_to_boundaries(producer: ProducerView, end: nat)
    requires
        producer.index > 0,
        producer.position <= end <= producer.entries.len(),
        forall|i: int|
            producer.position <= i < end && producer.index <= producer.boundaries.len() ==> (
            #[trigger] producer.entries[i]).key != producer.boundaries[producer.index - 1],
        end < producer.entries.len() ==> producer.index <= producer.boundaries.len()
            && producer.entries[end as int].key == producer.boundaries[producer.index - 1],
    ensures
        producer.next().0 == encoding(
            chunk_ops(producer.entries.subrange(producer.position as int, end as int)),
        ),
        producer.next().1.position == if end < producer.entries.len() {
            end + 1
        } else {
            end
        },
{
    let entries = producer.entries;
    let boundary = boundary_after(producer.boundaries, producer.index);
    let found = chunk_end(entries, producer.position, boundary);
    law_chunks_end_at_the_end_key(entries, producer.position, boundary);
    if found < end {
        assert(entries[found as int].key != producer.boundaries[producer.index - 1]);
    }
    if end < found {
        assert(boundary != Some(entries[end as int].key));
    }
}

/// Whatever the entries are, a chunk pushes the key and value of each of them, in order,
/// and nothing else.
pub proof fn law_chunks_push_every_entry(entries: Seq<EntryView>)
    ensures
        pushed_nodes(oks(chunk_ops(entries))) == entry_nodes(entries),
{
    let none = ChunkView { ops: seq![], stack: seq![] };
    lemma_chunk_run_pushes(none, entries);
    assert(oks(none.ops) =~= seq![]);
    assert(pushed_nodes(oks(none.ops)) + entry_nodes(entries) =~= entry_nodes(entries));
}

/// What is pushed by two lists of operators, one after the other.
proof fn lemma_pushed_concat(a: Seq<OpView>, b: Seq<OpView>)
    ensures
        pushed_nodes(oks(a + b)) == pushed_nodes(oks(a)) + pushed_nodes(oks(b)),
    decreases b.len(),
{
    if b.len() == 0 {
        assert(a + b =~= a);
        assert(oks(b) =~= seq![]);
        assert(pushed_nodes(oks(a)) + pushed_nodes(oks(b)) =~= pushed_nodes(oks(a)));
    } else {
        lemma_pushed_concat(a, b.drop_last());
        assert(oks(a + b).drop_last() =~= oks(a + b.drop_last()));
        assert(oks(b).drop_last() =~= oks(b.drop_last()));
        assert(pushed_nodes(oks(a + b)) =~= pushed_nodes(oks(a)) + pushed_nodes(oks(b)));
    }
}

/// Operators that attach children push nothing.
proof fn lemma_child_ops_push_nothing(n: nat)
    ensures
        pushed_nodes(oks(child_ops(n))) == Seq::<NodeView>::empty(),
    decreases n,
{
    if n > 0 {
        lemma_child_ops_push_nothing((n - 1) as nat);
        assert(oks(child_ops(n)).drop_last() =~= oks(child_ops((n - 1) as nat)));
    }
}

/// One entry is pushed by what chunk building does with it.
proof fn lemma_chunk_step_pushes(chunk: ChunkView, entry: EntryView)
    ensures
        pushed_nodes(oks(chunk_step(chunk, entry).ops)) == pushed_nodes(oks(chunk.ops)).push(
            NodeView::KV(entry.key, entry.value),
        ),
{
    let node = NodeView::KV(entry.key, entry.value);
    let pushed = chunk.ops.push(OpView::Push(node));
    assert(oks(pushed).drop_last() =~= oks(chunk.ops));
    assert(oks(pushed).last() == Ok::<OpView, ProofError>(OpView::Push(node)));
    assert(pushed_nodes(oks(pushed)) == pushed_nodes(oks(chunk.ops)).push(node));
    let ops = if entry.left is Some {
        pushed.push(OpView::Parent)
    } else {
        pushed
    };
    if entry.left is Some {
        assert(oks(ops).drop_last() =~= oks(pushed));
        assert(oks(ops).last() == Ok::<OpView, ProofError>(OpView::Parent));
    }
    assert(pushed_nodes(oks(ops)) == pushed_nodes(oks(chunk.ops)).push(node));
    if entry.right is None {
        let n = completed(chunk.stack, entry.key);
        lemma_pushed_concat(ops, child_ops(n));
        lemma_child_ops_push_nothing(n);
        assert(pushed_nodes(oks(ops)) + Seq::<NodeView>::empty() =~= pushed_nodes(oks(ops)));
    }
}

/// All entries are pushed by what chunk building does with them.
proof fn lemma_chunk_run_pushes(chunk: ChunkView, entries: Seq<EntryView>)
    ensures
        pushed_nodes(oks(chunk_run(chunk, entries).ops)) == pushed_nodes(oks(chunk.ops))
            + entry_nodes(entries),
    decreases entries.len(),
{
    let before = pushed_nodes(oks(chunk.ops));
    if entries.len() == 0 {
        assert(before + entry_nodes(entries) =~= before);
    } else {
        lemma_chunk_run_pushes(chunk, entries.drop_last());
        lemma_chunk_step_pushes(chunk_run(chunk, entries.drop_last()), entries.last());
        assert(before + entry_nodes(entries) =~= (before + entry_nodes(entries.drop_last())).push(
            NodeView::KV(entries.last().key, entries.last().value),
        ));
    }
}

/// Which operators an entry adds to a chunk: behind its node there is one for its left
/// child, if it has one. An entry with a right child adds no other, and this child
/// is then waited for. One without adds one for each right child, from the latest on,
/// that its key is not below, up to the first one that its key is below, and these
/// are no longer waited for.
pub proof fn law_operators_of_an_entry(chunk: ChunkView, entry: EntryView, n: nat)
    requires
        n <= chunk.stack.len(),
        entry.right is Some ==> n == 0,
        entry.right is None ==> {
            &&& forall|i: int|
                chunk.stack.len() - n <= i < chunk.stack.len() ==> !lex_less(
                    entry.key,
                    #[trigger] chunk.stack[i],
                )
            &&& n < chunk.stack.len() ==> lex_less(
                entry.key,
                chunk.stack[chunk.stack.len() - n - 1],
            )
        },
    ensures
        ({
            let after = chunk_step(chunk, entry);
            let start = chunk.ops.len() as int;
            let lefts: int = if entry.left is Some {
                1
            } else {
                0
            };
            &&& after.ops.len() == start + 1 + lefts + n
            &&& after.ops.take(start) == chunk.ops
            &&& after.ops[start] == OpView::Push(NodeView::KV(entry.key, entry.value))
            &&& lefts == 1 ==> after.ops[start + 1] == OpView::Parent
            &&& forall|i: int|
                start + 1 + lefts <= i < after.ops.len() ==> #[trigger] after.ops[i]
                    == OpView::Child
            &&& after.stack == match entry.right {
                Some(child) => chunk.stack.push(child),
                None => chunk.stack.take(chunk.stack.len() - n),
            }
        }),
{
    if entry.right is None {
        lemma_completed(chunk.stack, entry.key, n);
    }
    assert(chunk_step(chunk, entry).ops.take(chunk.ops.len() as int) =~= chunk.ops);
}

/// How many right children are complete is found from the end.
proof fn lemma_completed(stack: Seq<Seq<u8>>, key: Seq<u8>, n: nat)
    requires
        n <= stack.len(),
        forall|i: int|
            stack.len() - n <= i < stack.len() ==> !lex_less(key, #[trigger] stack[i]),
        n < stack.len() ==> lex_less(key, stack[stack.len() - n - 1]),
    ensures
        completed(stack, key) == n,
    decreases n,
{
    if n > 0 {
        assert(!lex_less(key, stack[stack.len() - 1]));
        let short = stack.drop_last();
        assert forall|i: int| short.len() - (n - 1) <= i < short.len() implies !lex_less(
            key,
            #[trigger] short[i],
        ) by {
            assert(short[i] == stack[i]);
        }
        lemma_completed(short, key, (n - 1) as nat);
    }
}

/// A chunk is built one entry after the other.
pub proof fn law_chunks_are_built_in_order(
    chunk: ChunkView,
    first: Seq<EntryView>,
    entry: EntryView,
)
    ensures
        chunk_run(chunk, seq![]) == chunk,
        chunk_run(chunk, first.push(entry)) == chunk_step(chunk_run(chunk, first), entry),
{
    assert(first.push(entry).drop_last() =~= first);
}

} // verus!
