//! What is loaded of a tree that is in memory in part, and when that fails, told by the
//! routes to its nodes.
use crate::costs::CostContext;
use crate::merk::chunks::{created, ChunkProducer};
use crate::merk::Merk;
use crate::proofs::chunk::{
    layers_loaded, left_edge_loaded, left_height, trunk_created, trunk_fetch_fails, trunk_ops,
    trunk_reach,
};
use crate::proofs::{ops_view, Op, ProofError};
use crate::raw_iterator::EntryView;
use crate::tree::{
    fetch_fails, fetched, lacks, link_loads, loads, slot_lacks, Fetch, FetchError, Link, Tree,
};
use vstd::prelude::*;

verus! {

/// The node at the end of a route from the root of a tree, if it is in memory. A step to
/// the left child is `true`.
pub open spec fn tree_at(tree: Tree, route: Seq<bool>) -> Option<Tree>
    decreases route.len(),
{
    if route.len() == 0 {
        Some(tree)
    } else {
        let link = if route[0] {
            tree.left
        } else {
            tree.right
        };
        match link {
            Some(Link::Loaded { hash, tree: child }) => tree_at(*child, route.drop_first()),
            _ => None,
        }
    }
}

/// Whether a route goes to the left only.
pub open spec fn all_left(route: Seq<bool>) -> bool {
    forall|i: int| 0 <= i < route.len() ==> #[trigger] route[i]
}

/// Whether there is a reference to a node in place of the left (`true`) or right child
/// of the node at the end of a route.
pub open spec fn refers_at(tree: Tree, route: Seq<bool>, left: bool, link: Link) -> bool {
    tree_at(tree, route) matches Some(node) && link is Reference && Some(link) == if left {
        node.left
    } else {
        node.right
    }
}

/// Whether the trunk proof of a tree needs the left (`true`) or right child of the node
/// at the end of a route: it needs the nodes on the left edge, those in the upper
/// half of the tree, and all nodes of a tree with less than ten on its left edge.
pub open spec fn needed(tree: Tree, route: Seq<bool>, left: bool) -> bool {
    ||| left && all_left(route)
    ||| left_height(tree) < 10
    ||| route.len() < left_height(tree) / 2
}

/// Whether a tree has a reference to a node in a place where its trunk proof needs the
/// node, and `source` may answer the fetch of this node with the error `e`.
pub open spec fn needs_what_fails<S: Fetch>(source: &S, tree: Tree, e: FetchError) -> bool {
    exists|route: Seq<bool>, left: bool, link: Link| #[trigger]
        refers_at(tree, route, left, link) && needed(tree, route, left) && fetched(
            source,
            link,
            Err(e),
        )
}

/// Whether a tree has all nodes in memory that its trunk proof needs.
pub open spec fn has_what_is_needed(tree: Tree) -> bool {
    forall|route: Seq<bool>, left: bool, link: Link| #[trigger]
        refers_at(tree, route, left, link) ==> !needed(tree, route, left)
}

/// A route with a step in front of it.
proof fn lemma_one_step(tree: Tree, first: bool, route: Seq<bool>)
    ensures
        tree_at(tree, seq![first] + route) == match if first {
            tree.left
        } else {
            tree.right
        } {
            Some(Link::Loaded { hash, tree: child }) => tree_at(*child, route),
            _ => None,
        },
{
    assert((seq![first] + route).drop_first() =~= route);
}

/// There is a route to what a tree lacks.
proof fn lemma_route_to_lacked(tree: Tree, link: Link, depth: nat, edge: bool) -> (found: (
    Seq<bool>,
    bool,
))
    requires
        lacks(tree, link, depth, edge),
    ensures
        refers_at(tree, found.0, found.1, link),
        found.0.len() < depth || (edge && found.1 && all_left(found.0)),
    decreases tree,
{
    let below = if depth > 0 {
        (depth - 1) as nat
    } else {
        0
    };
    let left = (depth > 0 || edge) && slot_lacks(tree.left, link, below, edge);
    let slot = if left {
        tree.left
    } else {
        tree.right
    };
    match slot {
        Some(Link::Loaded { hash, tree: child }) => {
            let (more, side) = lemma_route_to_lacked(*child, link, below, left && edge);
            let route = seq![left] + more;
            lemma_one_step(tree, left, more);
            assert forall|i: int| 0 <= i < route.len() && left && all_left(more) implies #[trigger]
            route[i] by {
                if i > 0 {
                    assert(more[i - 1]);
                }
            }
            (route, side)
        },
        _ => (seq![], left),
    }
}

/// As many nodes as there are on the left edge are on the way to the left.
proof fn lemma_left_route(tree: Tree, n: nat)
    requires
        n < left_height(tree),
    ensures
        tree_at(tree, Seq::new(n, |i: int| true)) is Some,
    decreases n,
{
    let route = Seq::new(n, |i: int| true);
    if n > 0 {
        let child = *tree.left->0->tree;
        lemma_left_route(child, (n - 1) as nat);
        assert(route.drop_first() =~= Seq::new((n - 1) as nat, |i: int| true));
    }
}

/// If the left edge is not in memory, there is a reference on it.
proof fn lemma_edge_reference(tree: Tree) -> (found: (Seq<bool>, Link))
    requires
        !left_edge_loaded(tree),
    ensures
        refers_at(tree, found.0, true, found.1),
        all_left(found.0),
    decreases tree,
{
    match tree.left {
        Some(Link::Loaded { hash, tree: child }) => {
            let (more, link) = lemma_edge_reference(*child);
            let route = seq![true] + more;
            lemma_one_step(tree, true, more);
            assert forall|i: int| 0 <= i < route.len() implies #[trigger] route[i] by {
                if i > 0 {
                    assert(more[i - 1]);
                }
            }
            (route, link)
        },
        _ => (seq![], tree.left->0),
    }
}

/// If the top layers are not in memory, there is a reference in them.
proof fn lemma_layer_reference(tree: Tree, depth: nat) -> (found: (Seq<bool>, bool, Link))
    requires
        !layers_loaded(tree, depth),
    ensures
        refers_at(tree, found.0, found.1, found.2),
        found.0.len() < depth,
    decreases tree,
{
    let below = (depth - 1) as nat;
    let left = match tree.left {
        None => false,
        Some(Link::Reference { key, hash }) => true,
        Some(Link::Loaded { hash, tree: child }) => !layers_loaded(*child, below),
    };
    let slot = if left {
        tree.left
    } else {
        tree.right
    };
    match slot {
        Some(Link::Loaded { hash, tree: child }) => {
            let (more, side, link) = lemma_layer_reference(*child, below);
            lemma_one_step(tree, left, more);
            (seq![left] + more, side, link)
        },
        _ => (seq![], left, slot->0),
    }
}

/// An error of the source is one for a node that the trunk proof needs.
proof fn lemma_needed_fetch_fails<S: Fetch>(
    source: &S,
    before: Tree,
    after: Tree,
    e: FetchError,
)
    requires
        trunk_fetch_fails(source, before, after, e),
    ensures
        needs_what_fails(source, after, e),
{
    if fetch_fails(source, after, 0, true, e) {
        let link = choose|link: Link| #[trigger]
            fetched(source, link, Err(e)) && lacks(after, link, 0, true);
        let (route, left) = lemma_route_to_lacked(after, link, 0, true);
        assert(refers_at(after, route, left, link) && needed(after, route, left));
    } else {
        let reach = trunk_reach(after);
        let link = choose|link: Link| #[trigger]
            fetched(source, link, Err(e)) && lacks(after, link, reach, false);
        let (route, left) = lemma_route_to_lacked(after, link, reach, false);
        assert(refers_at(after, route, left, link) && needed(after, route, left));
    }
}

/// Creating a trunk proof fails only for one of two reasons: the source answers the
/// fetch of a node that the proof needs, and that is not in memory, with an error,
/// which is then the error. Or the left edge has too many nodes to be counted.
pub proof fn law_trunk_proofs_fail_as_the_source_does<S: Fetch>(
    source: &S,
    before: Tree,
    after: Tree,
    result: Result<(Vec<Op>, bool), ProofError>,
)
    requires
        trunk_created(source, before, after, result),
    ensures
        match result {
            Ok(_) => true,
            Err(ProofError::Fetch(e)) => needs_what_fails(source, after, e),
            Err(e) => e == ProofError::HeightOverflow && tree_at(
                after,
                Seq::new((usize::MAX - 1) as nat, |i: int| true),
            ) is Some,
        },
{
    match result {
        Ok(_) => {},
        Err(ProofError::Fetch(e)) => {
            lemma_needed_fetch_fails(source, before, after, e);
        },
        Err(_) => {
            lemma_left_route(after, (usize::MAX - 1) as nat);
        },
    }
}

/// Where all nodes that a trunk proof needs are in memory, they are loaded.
proof fn lemma_needed_is_loaded(tree: Tree)
    requires
        has_what_is_needed(tree),
    ensures
        left_edge_loaded(tree),
        layers_loaded(tree, trunk_reach(tree)),
{
    if !left_edge_loaded(tree) {
        let (route, link) = lemma_edge_reference(tree);
        assert(refers_at(tree, route, true, link));
        assert(needed(tree, route, true));
    }
    if !layers_loaded(tree, trunk_reach(tree)) {
        let (route, left, link) = lemma_layer_reference(tree, trunk_reach(tree));
        assert(refers_at(tree, route, left, link));
        assert(needed(tree, route, left));
    }
}

/// Where all nodes that a trunk proof needs are in memory, and no others need be, there
/// is a proof, whatever the source is, and the tree stays as it is.
pub proof fn law_trunk_proofs_need_the_upper_half<S: Fetch>(
    source: &S,
    before: Tree,
    after: Tree,
    result: Result<(Vec<Op>, bool), ProofError>,
)
    requires
        trunk_created(source, before, after, result),
        has_what_is_needed(before),
        left_height(before) < usize::MAX,
    ensures
        after == before,
        result matches Ok((proof, has_more)) && ops_view(proof@) == trunk_ops(before) && has_more
            == (left_height(before) >= 10),
{
    lemma_needed_is_loaded(before);
}

/// Out of reach nothing is loaded.
proof fn lemma_out_of_reach<S: Fetch>(
    source: &S,
    before: Tree,
    after: Tree,
    depth: nat,
    edge: bool,
    route: Seq<bool>,
)
    requires
        loads(source, before, after, depth, edge),
        tree_at(before, route) is Some,
        route.len() >= depth,
        edge ==> !all_left(route),
    ensures
        tree_at(after, route) == tree_at(before, route),
    decreases route.len(),
{
    if route.len() > 0 {
        let left = route[0];
        let more = route.drop_first();
        let below = if depth > 0 {
            (depth - 1) as nat
        } else {
            0
        };
        if left && edge && all_left(more) {
            assert forall|i: int| 0 <= i < route.len() implies #[trigger] route[i] by {
                if i > 0 {
                    assert(more[i - 1]);
                }
            }
        }
        if depth > 0 || (left && edge) {
            let (a, b) = if left {
                (before.left, after.left)
            } else {
                (before.right, after.right)
            };
            assert(link_loads(source, a, b, below, left && edge));
            lemma_out_of_reach(source, *a->0->tree, *b->0->tree, below, left && edge, more);
        }
    }
}

/// Creating the trunk proof of a tree with ten nodes or more on its left edge loads
/// nothing below the upper half of the tree, but for the left edge.
pub proof fn law_nothing_below_the_upper_half_is_loaded<S: Fetch>(
    source: &S,
    before: Tree,
    after: Tree,
    result: Result<(Vec<Op>, bool), ProofError>,
    route: Seq<bool>,
)
    requires
        trunk_created(source, before, after, result),
        result is Ok,
        left_height(after) >= 10,
        tree_at(before, route) is Some,
        route.len() >= left_height(after) / 2,
        !all_left(route),
    ensures
        tree_at(after, route) == tree_at(before, route),
{
    lemma_out_of_reach(source, before, after, left_height(after) / 2, true, route);
}

/// Loading nodes takes nothing away: every node that was in memory still is, with its
/// key, its value and its hash.
pub proof fn law_loading_takes_nothing_away<S: Fetch>(
    source: &S,
    before: Tree,
    after: Tree,
    depth: nat,
    edge: bool,
    route: Seq<bool>,
)
    requires
        loads(source, before, after, depth, edge),
    ensures
        tree_at(before, route) matches Some(node) ==> tree_at(after, route) matches Some(now)
            && now.key@ == node.key@ && now.value@ == node.value@ && now.hash_view()
            == node.hash_view(),
    decreases route.len(),
{
    if route.len() > 0 && tree_at(before, route) is Some {
        let left = route[0];
        let more = route.drop_first();
        let below = if depth > 0 {
            (depth - 1) as nat
        } else {
            0
        };
        let (a, b) = if left {
            (before.left, after.left)
        } else {
            (before.right, after.right)
        };
        if depth > 0 || (left && edge) {
            assert(link_loads(source, a, b, below, left && edge));
            law_loading_takes_nothing_away(
                source,
                *a->0->tree,
                *b->0->tree,
                below,
                left && edge,
                more,
            );
        }
    }
}

/// What creating a chunk producer comes to. For an empty Merk there is a producer
/// without operators and boundaries. For another one there is a producer wherever
/// all nodes that the trunk needs are in memory, and it fails only as creating the
/// trunk proof does. A producer stands before its first chunk, over the entries that
/// it was given, and costs one seek; a failure costs nothing.
pub proof fn law_what_creating_a_producer_comes_to<S: Fetch>(
    before: Merk<S>,
    after: Merk<S>,
    entries: Seq<EntryView>,
    result: CostContext<Result<ChunkProducer, ProofError>>,
)
    requires
        created(before, after, entries, result),
    ensures
        before.tree is None ==> {
            &&& after.tree is None
            &&& result.value matches Ok(producer) && producer@.trunk.len() == 0
                && producer@.boundaries.len() == 0
        },
        before.tree matches Some(tree) ==> has_what_is_needed(tree) && left_height(tree)
            < usize::MAX ==> {
            &&& after.tree == Some(tree)
            &&& result.value matches Ok(producer) && producer@ == ChunkProducer::initial(
                trunk_ops(tree),
                left_height(tree) >= 10,
                entries,
            )
        },
        match result.value {
            Ok(producer) => {
                &&& producer@.entries == entries
                &&& producer@.index == 0
                &&& producer@.position == 0
                &&& result.cost.seek_count == 1
            },
            Err(e) => {
                &&& after.tree matches Some(tree)
                &&& match e {
                    ProofError::Fetch(error) => needs_what_fails(&before.source, tree, error),
                    _ => e == ProofError::HeightOverflow && tree_at(
                        tree,
                        Seq::new((usize::MAX - 1) as nat, |i: int| true),
                    ) is Some,
                }
                &&& result.cost.seek_count == 0
            },
        },
        result.cost.storage_written_bytes == 0,
        result.cost.storage_loaded_bytes == 0,
        result.cost.loaded_bytes == 0,
        result.cost.hash_byte_calls == 0,
        result.cost.hash_node_calls == 0,
{
    if let Some(tree) = before.tree {
        if has_what_is_needed(tree) {
            lemma_needed_is_loaded(tree);
        }
        let loaded = after.tree->0;
        match result.value {
            Ok(_) => {},
            Err(ProofError::Fetch(e)) => {
                lemma_needed_fetch_fails(&before.source, tree, loaded, e);
            },
            Err(_) => {
                lemma_left_route(loaded, (usize::MAX - 1) as nat);
            },
        }
    }
}

} // verus!
