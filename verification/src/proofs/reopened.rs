//! Trees that are in memory in part: what is created of them is what is created of
//! the whole tree, where the source holds the rest of it.
use crate::costs::{CostContext, OperationCost};
use crate::merk::chunks::{created, ChunkProducer};
use crate::merk::Merk;
use crate::proofs::chunk::{
    height_ops, layer_ops, layers_loaded, left_edge_loaded, left_height, trunk_created,
    trunk_height, trunk_loaded, trunk_ops, trunk_reach, MIN_TRUNK_HEIGHT,
};
use crate::proofs::replication::{stored, stored_producer};
use crate::proofs::{ops_view, Op, ProofError};
use crate::raw_iterator::EntryView;
use crate::tree::{
    fetch_fails, fetched, lacks, link_loads, loads, slot_lacks, Fetch, FetchError, Link, Tree,
};
use vstd::prelude::*;

verus! {

/// Whether a link slot is that of a whole tree, or a reference to the node that
/// the whole tree has there.
pub open spec fn slot_part_of(part: Option<Link>, whole: Option<Link>) -> bool
    decreases part,
{
    match (part, whole) {
        (None, None) => true,
        (
            Some(Link::Reference { key, hash }),
            Some(Link::Loaded { hash: whole_hash, tree: whole_tree }),
        ) => key@ == whole_tree.key@ && hash@ == whole_hash@,
        (
            Some(Link::Loaded { hash, tree }),
            Some(Link::Loaded { hash: whole_hash, tree: whole_tree }),
        ) => hash@ == whole_hash@ && part_of(*tree, *whole_tree),
        _ => false,
    }
}

/// Whether a tree is a whole tree with some of its subtrees replaced by references
/// to them.
pub open spec fn part_of(part: Tree, whole: Tree) -> bool
    decreases part,
{
    &&& part.key@ == whole.key@
    &&& part.value@ == whole.value@
    &&& slot_part_of(part.left, whole.left)
    &&& slot_part_of(part.right, whole.right)
}

/// Whether `source` answers the fetch of a node with that node, as the whole tree
/// has it below a link.
pub open spec fn slot_served<S: Fetch>(source: &S, slot: Option<Link>) -> bool
    decreases slot,
{
    match slot {
        None => true,
        Some(Link::Reference { key, hash }) => false,
        Some(Link::Loaded { hash, tree }) => {
            &&& serves(source, *tree)
            &&& forall|link: Link, outcome: Result<Tree, FetchError>| #[trigger]
                fetched(source, link, outcome) && slot_part_of(Some(link), slot)
                    && link is Reference ==> (outcome matches Ok(fresh) && part_of(fresh, *tree))
        },
    }
}

/// Whether `source` holds all nodes below the root of a whole tree: it answers the
/// fetch of each of them with the node.
pub open spec fn serves<S: Fetch>(source: &S, whole: Tree) -> bool
    decreases whole,
{
    slot_served(source, whole.left) && slot_served(source, whole.right)
}

/// Loading nodes of a whole tree from a source that holds them gives more of that
/// tree, and nothing else.
pub proof fn law_loading_keeps_the_tree<S: Fetch>(
    source: &S,
    before: Tree,
    after: Tree,
    depth: nat,
    edge: bool,
    whole: Tree,
)
    requires
        loads(source, before, after, depth, edge),
        part_of(before, whole),
        serves(source, whole),
    ensures
        part_of(after, whole),
    decreases after,
{
    let below = if depth > 0 {
        (depth - 1) as nat
    } else {
        0
    };
    if depth > 0 || edge {
        lemma_loading_keeps_the_slot(source, before.left, after.left, below, edge, whole.left);
    }
    if depth > 0 {
        lemma_loading_keeps_the_slot(source, before.right, after.right, below, false, whole.right);
    }
}

/// Loading nodes below a link gives more of what the whole tree has there.
proof fn lemma_loading_keeps_the_slot<S: Fetch>(
    source: &S,
    before: Option<Link>,
    after: Option<Link>,
    depth: nat,
    edge: bool,
    whole: Option<Link>,
)
    requires
        link_loads(source, before, after, depth, edge),
        slot_part_of(before, whole),
        slot_served(source, whole),
    ensures
        slot_part_of(after, whole),
    decreases after,
{
    match before {
        None => {},
        Some(Link::Loaded { hash, tree }) => {
            law_loading_keeps_the_tree(
                source,
                *tree,
                *after->0->tree,
                depth,
                edge,
                *whole->0->tree,
            );
        },
        Some(Link::Reference { key, hash }) => {
            if after != before {
                let loaded = *after->0->tree;
                let fresh = choose|fresh: Tree| #[trigger]
                    fetched(source, before->0, Ok(fresh)) && loads(
                        source,
                        fresh,
                        loaded,
                        depth,
                        edge,
                    );
                assert(slot_part_of(Some(before->0), whole));
                law_loading_keeps_the_tree(source, fresh, loaded, depth, edge, *whole->0->tree);
            }
        },
    }
}

/// A source that holds a whole tree gives no error for a node that a part of the
/// tree lacks.
pub proof fn law_stored_nodes_can_be_fetched<S: Fetch>(
    source: &S,
    part: Tree,
    whole: Tree,
    depth: nat,
    edge: bool,
    e: FetchError,
)
    requires
        part_of(part, whole),
        serves(source, whole),
    ensures
        !fetch_fails(source, part, depth, edge, e),
{
    if fetch_fails(source, part, depth, edge, e) {
        let link = choose|link: Link| #[trigger]
            fetched(source, link, Err(e)) && lacks(part, link, depth, edge);
        lemma_lacked_is_served(source, part, whole, link, depth, edge, Err(e));
    }
}

/// Whatever a source that holds a whole tree answers for a node that a part of the
/// tree lacks is a node.
proof fn lemma_lacked_is_served<S: Fetch>(
    source: &S,
    part: Tree,
    whole: Tree,
    link: Link,
    depth: nat,
    edge: bool,
    outcome: Result<Tree, FetchError>,
)
    requires
        part_of(part, whole),
        serves(source, whole),
        lacks(part, link, depth, edge),
        fetched(source, link, outcome),
    ensures
        outcome is Ok,
    decreases part,
{
    let below = if depth > 0 {
        (depth - 1) as nat
    } else {
        0
    };
    if (depth > 0 || edge) && slot_lacks(part.left, link, below, edge) {
        if let Some(Link::Loaded { hash, tree }) = part.left {
            let child = *whole.left->0->tree;
            lemma_lacked_is_served(source, *tree, child, link, below, edge, outcome);
        } else {
            assert(slot_part_of(Some(link), whole.left));
        }
    } else {
        if let Some(Link::Loaded { hash, tree }) = part.right {
            let child = *whole.right->0->tree;
            lemma_lacked_is_served(source, *tree, child, link, below, false, outcome);
        } else {
            assert(slot_part_of(Some(link), whole.right));
        }
    }
}

/// The left edge of a part, where it is in memory, is that of the whole tree.
proof fn lemma_part_edge(part: Tree, whole: Tree, depth: nat, trunk_height: nat)
    requires
        part_of(part, whole),
        left_edge_loaded(part),
    ensures
        left_edge_loaded(whole),
        left_height(part) == left_height(whole),
        height_ops(part, depth, trunk_height) == height_ops(whole, depth, trunk_height),
    decreases part,
{
    if let Some(Link::Loaded { hash, tree }) = part.left {
        lemma_part_edge(*tree, *whole.left->0->tree, depth + 1, trunk_height);
    }
}

/// No part of a tree has a longer left edge than the tree.
proof fn lemma_part_height(part: Tree, whole: Tree)
    requires
        part_of(part, whole),
    ensures
        left_height(part) <= left_height(whole),
    decreases part,
{
    if let Some(Link::Loaded { hash, tree }) = part.left {
        lemma_part_height(*tree, *whole.left->0->tree);
    }
}

/// The top layers of a part, where they are in memory, are those of the whole
/// tree.
proof fn lemma_part_layers(part: Tree, whole: Tree, depth: nat, leftmost: bool)
    requires
        part_of(part, whole),
        layers_loaded(part, depth),
    ensures
        layers_loaded(whole, depth),
        layer_ops(part, depth, leftmost) == layer_ops(whole, depth, leftmost),
    decreases part,
{
    if depth > 0 {
        let below = (depth - 1) as nat;
        if let Some(Link::Loaded { hash, tree }) = part.left {
            lemma_part_layers(*tree, *whole.left->0->tree, below, leftmost);
        }
        if let Some(Link::Loaded { hash, tree }) = part.right {
            lemma_part_layers(*tree, *whole.right->0->tree, below, false);
        }
    }
}

/// A part of a tree that has in memory what the trunk proof needs has the trunk
/// proof of the tree, and its hash.
pub proof fn law_part_has_the_trunk_of_the_tree(part: Tree, whole: Tree)
    requires
        part_of(part, whole),
        trunk_loaded(part),
    ensures
        trunk_loaded(whole),
        left_height(part) == left_height(whole),
        trunk_height(part) == trunk_height(whole),
        trunk_ops(part) == trunk_ops(whole),
        part.hash_view() == whole.hash_view(),
{
    lemma_part_edge(part, whole, 1, trunk_height(part));
    lemma_part_layers(part, whole, trunk_reach(part), true);
}

/// Creating the trunk proof of a tree that is in memory in part, with a source that
/// holds the rest, succeeds, and gives the trunk proof of the whole tree. What is
/// in memory afterwards is a part of that tree.
pub proof fn law_reopened_trunk<S: Fetch>(
    source: &S,
    before: Tree,
    after: Tree,
    result: Result<(Vec<Op>, bool), ProofError>,
    whole: Tree,
)
    requires
        trunk_created(source, before, after, result),
        part_of(before, whole),
        serves(source, whole),
        left_height(whole) < usize::MAX,
    ensures
        part_of(after, whole),
        result matches Ok((proof, has_more)) && ops_view(proof@) == trunk_ops(whole) && has_more
            == (trunk_height(whole) >= MIN_TRUNK_HEIGHT),
{
    law_loading_keeps_the_tree(source, before, after, usize::MAX as nat, true, whole);
    lemma_part_height(after, whole);
    if let Err(ProofError::Fetch(e)) = result {
        law_stored_nodes_can_be_fetched(source, after, whole, 0, true, e);
        law_stored_nodes_can_be_fetched(source, after, whole, trunk_reach(after), false, e);
    }
    if result is Ok {
        law_part_has_the_trunk_of_the_tree(after, whole);
    }
}

/// Creating a chunk producer for a Merk that is in memory in part, with a source
/// that holds the rest, succeeds, and gives the producer of the whole tree. So its
/// chunks are those that replicate the tree.
pub proof fn law_reopened_producer<S: Fetch>(
    before: Merk<S>,
    after: Merk<S>,
    entries: Seq<EntryView>,
    result: CostContext<Result<ChunkProducer, ProofError>>,
    whole: Tree,
)
    requires
        created(before, after, entries, result),
        before.tree matches Some(part) && part_of(part, whole),
        serves(&before.source, whole),
        left_height(whole) < usize::MAX,
    ensures
        after.tree matches Some(part) && part_of(part, whole),
        result.value matches Ok(producer) && producer@ == ChunkProducer::initial(
            trunk_ops(whole),
            trunk_height(whole) >= MIN_TRUNK_HEIGHT,
            entries,
        ),
        trunk_height(whole) >= MIN_TRUNK_HEIGHT && entries == stored(whole) ==> result.value->Ok_0@
            == stored_producer(whole),
        result.cost == (OperationCost { seek_count: 1, ..OperationCost::zero() }),
{
    let source = &before.source;
    let loaded = after.tree->0;
    law_loading_keeps_the_tree(source, before.tree->0, loaded, usize::MAX as nat, true, whole);
    lemma_part_height(loaded, whole);
    if let Err(ProofError::Fetch(e)) = result.value {
        law_stored_nodes_can_be_fetched(source, loaded, whole, 0, true, e);
        law_stored_nodes_can_be_fetched(source, loaded, whole, trunk_reach(loaded), false, e);
    }
    if result.value is Ok {
        law_part_has_the_trunk_of_the_tree(loaded, whole);
    }
}

} // verus!
