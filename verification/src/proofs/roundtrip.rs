//! What verification gives back of the chunks that were created.
use crate::bytes::lex_less;
use crate::hash::kv_hash_view;
use crate::proofs::chunk::{
    completeness, height_node_ops, height_ops, height_proven, layer_ops, layers_loaded,
    left_edge_loaded, left_height, left_layer_ops, node_layer_ops, proof_height, right_layer_ops,
    trunk_height, trunk_loaded, trunk_ops, verified_trunk, MIN_TRUNK_HEIGHT,
};
use crate::proofs::soundness::build_ops;
use crate::proofs::tree::{
    child_hash_view, executed, leaf, lemma_run_concat, oks, proof_hash, run, start, step,
    Execution, ProofTreeView,
};
use crate::proofs::{NodeView, OpView, ProofError};
use crate::tree::{link_hash_view, Link, Tree};
use vstd::prelude::*;

verus! {

/// Whether all keys of a tree are below `bound`.
pub open spec fn keys_below(tree: Tree, bound: Seq<u8>) -> bool
    decreases tree,
{
    &&& lex_less(tree.key@, bound)
    &&& match tree.left {
        Some(Link::Loaded { hash, tree: child }) => keys_below(*child, bound),
        _ => true,
    }
    &&& match tree.right {
        Some(Link::Loaded { hash, tree: child }) => keys_below(*child, bound),
        _ => true,
    }
}

/// Whether all keys of a tree are above `bound`.
pub open spec fn keys_above(tree: Tree, bound: Seq<u8>) -> bool
    decreases tree,
{
    &&& lex_less(bound, tree.key@)
    &&& match tree.left {
        Some(Link::Loaded { hash, tree: child }) => keys_above(*child, bound),
        _ => true,
    }
    &&& match tree.right {
        Some(Link::Loaded { hash, tree: child }) => keys_above(*child, bound),
        _ => true,
    }
}

/// Whether a tree is a search tree, as far as it is in memory.
pub open spec fn ordered(tree: Tree) -> bool
    decreases tree,
{
    &&& match tree.left {
        Some(Link::Loaded { hash, tree: child }) => keys_below(*child, tree.key@) && ordered(*child),
        _ => true,
    }
    &&& match tree.right {
        Some(Link::Loaded { hash, tree: child }) => keys_above(*child, tree.key@) && ordered(*child),
        _ => true,
    }
}

/// Whether each link in a tree carries the hash of the node that it leads to,
/// as far as the tree is in memory.
pub open spec fn committed(tree: Tree) -> bool
    decreases tree,
{
    &&& match tree.left {
        Some(Link::Loaded { hash, tree: child }) => hash@ == child.hash_view() && committed(*child),
        _ => true,
    }
    &&& match tree.right {
        Some(Link::Loaded { hash, tree: child }) => hash@ == child.hash_view() && committed(*child),
        _ => true,
    }
}

/// Whether a whole tree is in memory.
pub open spec fn fully_loaded(tree: Tree) -> bool
    decreases tree,
{
    &&& match tree.left {
        None => true,
        Some(Link::Reference { key, hash }) => false,
        Some(Link::Loaded { hash, tree: child }) => fully_loaded(*child),
    }
    &&& match tree.right {
        None => true,
        Some(Link::Reference { key, hash }) => false,
        Some(Link::Loaded { hash, tree: child }) => fully_loaded(*child),
    }
}

/// The number of layers of a tree, as far as it is in memory.
pub open spec fn layers(tree: Tree) -> nat
    decreases tree,
{
    let left = match tree.left {
        Some(Link::Loaded { hash, tree: child }) => layers(*child),
        _ => 0,
    };
    let right = match tree.right {
        Some(Link::Loaded { hash, tree: child }) => layers(*child),
        _ => 0,
    };
    if left < right {
        right + 1
    } else {
        left + 1
    }
}

/// The operators that build a whole tree with its keys and values.
pub open spec fn full_ops(tree: Tree) -> Seq<OpView>
    decreases tree,
{
    let left = match tree.left {
        Some(Link::Loaded { hash, tree: child }) => full_ops(*child),
        _ => seq![],
    };
    let right = match tree.right {
        Some(Link::Loaded { hash, tree: child }) => full_ops(*child).push(OpView::Child),
        _ => seq![],
    };
    left + node_layer_ops(tree) + right
}

/// The proof tree with all keys and values of a tree.
pub open spec fn full_tree(tree: Tree) -> ProofTreeView
    decreases tree,
{
    ProofTreeView {
        node: NodeView::KV(tree.key@, tree.value@),
        left: match tree.left {
            Some(Link::Loaded { hash, tree: child }) => Some(Box::new(full_tree(*child))),
            _ => None,
        },
        right: match tree.right {
            Some(Link::Loaded { hash, tree: child }) => Some(Box::new(full_tree(*child))),
            _ => None,
        },
    }
}

/// The height proof of a whole left edge, as operators.
pub open spec fn edge_ops(tree: Tree) -> Seq<OpView>
    decreases tree,
{
    let below = match tree.left {
        Some(Link::Loaded { hash, tree: child }) => edge_ops(*child),
        _ => seq![],
    };
    below + height_node_ops(tree)
}

/// The height proof of a whole left edge, as a proof tree.
pub open spec fn edge_tree(tree: Tree) -> ProofTreeView
    decreases tree,
{
    ProofTreeView {
        node: NodeView::KVHash(kv_hash_view(tree.key@, tree.value@)),
        left: match tree.left {
            Some(Link::Loaded { hash, tree: child }) => Some(Box::new(edge_tree(*child))),
            _ => None,
        },
        right: if tree.right is Some {
            Some(Box::new(leaf(NodeView::Hash(link_hash_view(tree.right)))))
        } else {
            None
        },
    }
}

/// The proof tree of a trunk: the top `depth` layers of a tree with their keys
/// and values, and of the next layer the hashes, with the height proof in place
/// of the leftmost one.
pub open spec fn trunk_tree(tree: Tree, depth: nat, leftmost: bool) -> ProofTreeView
    decreases tree,
{
    if depth == 0 {
        if leftmost {
            edge_tree(tree)
        } else {
            leaf(NodeView::Hash(tree.hash_view()))
        }
    } else {
        ProofTreeView {
            node: NodeView::KV(tree.key@, tree.value@),
            left: match tree.left {
                Some(Link::Loaded { hash, tree: child }) => Some(
                    Box::new(trunk_tree(*child, (depth - 1) as nat, leftmost)),
                ),
                _ => None,
            },
            right: match tree.right {
                Some(Link::Loaded { hash, tree: child }) => Some(
                    Box::new(trunk_tree(*child, (depth - 1) as nat, false)),
                ),
                _ => None,
            },
        }
    }
}

/// The last key in the top `depth` layers of a tree.
spec fn layer_max(tree: Tree, depth: nat) -> Seq<u8>
    decreases tree,
{
    match tree.right {
        Some(Link::Loaded { hash, tree: child }) => if depth > 1 {
            layer_max(*child, (depth - 1) as nat)
        } else {
            tree.key@
        },
        _ => tree.key@,
    }
}

/// The node that `steps` left links lead to.
spec fn leftmost(tree: Tree, steps: nat) -> Tree
    decreases tree,
{
    if steps == 0 {
        tree
    } else {
        match tree.left {
            Some(Link::Loaded { hash, tree: child }) => leftmost(*child, (steps - 1) as nat),
            _ => tree,
        }
    }
}

/// A bound on the keys of a tree bounds the last key of its layers.
proof fn lemma_layer_max_below(tree: Tree, depth: nat, bound: Seq<u8>)
    requires
        keys_below(tree, bound),
    ensures
        lex_less(layer_max(tree, depth), bound),
    decreases tree,
{
    if let Some(Link::Loaded { hash, tree: child }) = tree.right {
        if depth > 1 {
            lemma_layer_max_below(*child, (depth - 1) as nat, bound);
        }
    }
}

/// Running one operator.
pub proof fn lemma_run_one(state: Execution, op: OpView, full: bool)
    ensures
        run(Ok(state), oks(seq![op]), full) == step(state, op, full),
{
    let ops = oks(seq![op]);
    assert(ops.drop_last() =~= seq![]);
    assert(run(Ok(state), ops.drop_last(), full) == Ok::<Execution, ProofError>(state));
}

/// Running two lists of operators one after the other.
pub proof fn lemma_run_both(
    state: Result<Execution, ProofError>,
    first: Seq<OpView>,
    second: Seq<OpView>,
    full: bool,
)
    ensures
        run(state, oks(first + second), full) == run(run(state, oks(first), full), oks(second), full),
{
    lemma_run_concat(state, oks(first), oks(second), full);
    assert(oks(first + second) =~= oks(first) + oks(second));
}

/// Running no operators.
proof fn lemma_run_none(state: Result<Execution, ProofError>, full: bool)
    ensures
        run(state, oks(seq![]), full) == state,
{
}

/// Running the operators of one node, with its left child on top of the stack if
/// it has one.
proof fn lemma_run_node(
    tree: Tree,
    state: Execution,
    base: Seq<ProofTreeView>,
    left: Option<Box<ProofTreeView>>,
    full: bool,
)
    requires
        left is Some <==> tree.left is Some,
        state.stack == match left {
            Some(child) => base.push(*child),
            None => base,
        },
        state.last_key matches Some(key) ==> lex_less(key, tree.key@),
    ensures
        run(Ok(state), oks(node_layer_ops(tree)), full) == Ok::<Execution, ProofError>(
            Execution {
                stack: base.push(
                    ProofTreeView {
                        node: NodeView::KV(tree.key@, tree.value@),
                        left,
                        right: None,
                    },
                ),
                last_key: Some(tree.key@),
                kv_only: state.kv_only,
            },
        ),
{
    let node = NodeView::KV(tree.key@, tree.value@);
    let op = OpView::Push(node);
    lemma_run_one(state, op, full);
    let pushed = step(state, op, full)->Ok_0;
    assert(node_layer_ops(tree) =~= if tree.left is Some {
        seq![op] + seq![OpView::Parent]
    } else {
        seq![op]
    });
    if tree.left is Some {
        lemma_run_both(Ok(state), seq![op], seq![OpView::Parent], full);
        lemma_run_one(pushed, OpView::Parent, full);
        assert(pushed.stack.take(pushed.stack.len() - 2) =~= base);
    }
}

/// Running `Child` with the child on top of the stack and its parent below it.
proof fn lemma_run_child(
    state: Execution,
    base: Seq<ProofTreeView>,
    parent: ProofTreeView,
    child: ProofTreeView,
    full: bool,
)
    requires
        state.stack == base.push(parent).push(child),
        parent.right is None,
    ensures
        run(Ok(state), oks(seq![OpView::Child]), full) == Ok::<Execution, ProofError>(
            Execution {
                stack: base.push(ProofTreeView { right: Some(Box::new(child)), ..parent }),
                ..state
            },
        ),
{
    lemma_run_one(state, OpView::Child, full);
    assert(state.stack.take(state.stack.len() - 2) =~= base);
}

/// Running the operators for the top layers of a tree that is not on the left
/// edge pushes its proof tree.
#[verifier::spinoff_prover]
#[verifier::rlimit(60)]
proof fn lemma_run_layers(tree: Tree, depth: nat, state: Execution, full: bool)
    requires
        layers_loaded(tree, depth),
        ordered(tree),
        state.last_key matches Some(key) ==> keys_above(tree, key),
        full ==> layers(tree) <= depth,
    ensures
        run(Ok(state), oks(layer_ops(tree, depth, false)), full) == Ok::<Execution, ProofError>(
            Execution {
                stack: state.stack.push(trunk_tree(tree, depth, false)),
                last_key: if depth == 0 {
                    state.last_key
                } else {
                    Some(layer_max(tree, depth))
                },
                kv_only: state.kv_only && layers(tree) <= depth,
            },
        ),
    decreases tree,
{
    let ops = layer_ops(tree, depth, false);
    if depth == 0 {
        let op = OpView::Push(NodeView::Hash(tree.hash_view()));
        lemma_run_one(state, op, full);
    } else {
        let base = state.stack;
        let d = (depth - 1) as nat;
        let left_ops = left_layer_ops(tree, depth, false);
        let node_ops = node_layer_ops(tree);
        let right_ops = right_layer_ops(tree, depth);
        let done = trunk_tree(tree, depth, false);
        lemma_run_both(Ok(state), left_ops + node_ops, right_ops, full);
        lemma_run_both(Ok(state), left_ops, node_ops, full);
        let after_left = match tree.left {
            Some(Link::Loaded { hash, tree: child }) => {
                lemma_run_layers(*child, d, state, full);
                if d > 0 {
                    lemma_layer_max_below(*child, d, tree.key@);
                }
                Execution {
                    stack: base.push(trunk_tree(*child, d, false)),
                    last_key: if d == 0 {
                        state.last_key
                    } else {
                        Some(layer_max(*child, d))
                    },
                    kv_only: state.kv_only && layers(*child) <= d,
                }
            },
            _ => {
                lemma_run_none(Ok(state), full);
                state
            },
        };
        assert(run(Ok(state), oks(left_ops), full) == Ok::<Execution, ProofError>(after_left));
        lemma_run_node(tree, after_left, base, done.left, full);
        let node = ProofTreeView { right: None, ..done };
        let after_node = Execution {
            stack: base.push(node),
            last_key: Some(tree.key@),
            kv_only: after_left.kv_only,
        };
        match tree.right {
            Some(Link::Loaded { hash, tree: child }) => {
                lemma_run_layers(*child, d, after_node, full);
                let child_ops = layer_ops(*child, d, false);
                assert(right_ops =~= child_ops + seq![OpView::Child]);
                lemma_run_both(Ok(after_node), child_ops, seq![OpView::Child], full);
                let after_right = Execution {
                    stack: base.push(node).push(trunk_tree(*child, d, false)),
                    last_key: if d == 0 {
                        after_node.last_key
                    } else {
                        Some(layer_max(*child, d))
                    },
                    kv_only: after_node.kv_only && layers(*child) <= d,
                };
                lemma_run_child(after_right, base, node, trunk_tree(*child, d, false), full);
            },
            _ => {
                lemma_run_none(Ok(after_node), full);
            },
        }
    }
}

/// Running the operators of one node of a height proof, with its left child on
/// top of the stack if it has one.
proof fn lemma_run_edge_node(
    tree: Tree,
    state: Execution,
    base: Seq<ProofTreeView>,
    left: Option<Box<ProofTreeView>>,
)
    requires
        left is Some <==> tree.left is Some,
        state.stack == match left {
            Some(child) => base.push(*child),
            None => base,
        },
    ensures
        run(Ok(state), oks(height_node_ops(tree)), false) == Ok::<Execution, ProofError>(
            Execution {
                stack: base.push(
                    ProofTreeView {
                        node: NodeView::KVHash(kv_hash_view(tree.key@, tree.value@)),
                        left,
                        right: if tree.right is Some {
                            Some(Box::new(leaf(NodeView::Hash(link_hash_view(tree.right)))))
                        } else {
                            None
                        },
                    },
                ),
                last_key: state.last_key,
                kv_only: false,
            },
        ),
{
    let op = OpView::Push(NodeView::KVHash(kv_hash_view(tree.key@, tree.value@)));
    let parent_ops = if tree.left is Some {
        seq![OpView::Parent]
    } else {
        seq![]
    };
    let hash_op = OpView::Push(NodeView::Hash(link_hash_view(tree.right)));
    let right_ops = if tree.right is Some {
        seq![hash_op, OpView::Child]
    } else {
        seq![]
    };
    lemma_run_both(Ok(state), seq![op] + parent_ops, right_ops, false);
    lemma_run_both(Ok(state), seq![op], parent_ops, false);
    lemma_run_one(state, op, false);
    let pushed = step(state, op, false)->Ok_0;
    let node = ProofTreeView {
        node: NodeView::KVHash(kv_hash_view(tree.key@, tree.value@)),
        left,
        right: None,
    };
    let after_node = Execution {
        stack: base.push(node),
        last_key: state.last_key,
        kv_only: false,
    };
    if tree.left is Some {
        lemma_run_one(pushed, OpView::Parent, false);
        assert(pushed.stack.take(pushed.stack.len() - 2) =~= base);
    } else {
        lemma_run_none(Ok(pushed), false);
    }
    assert(run(Ok(state), oks(seq![op] + parent_ops), false) == Ok::<Execution, ProofError>(
        after_node,
    ));
    if tree.right is Some {
        assert(right_ops =~= seq![hash_op] + seq![OpView::Child]);
        lemma_run_both(Ok(after_node), seq![hash_op], seq![OpView::Child], false);
        lemma_run_one(after_node, hash_op, false);
        let after_right = step(after_node, hash_op, false)->Ok_0;
        lemma_run_child(after_right, base, node, leaf(hash_op->Push_0), false);
    } else {
        lemma_run_none(Ok(after_node), false);
    }
}

/// Running a height proof pushes its proof tree.
proof fn lemma_run_edge(tree: Tree, state: Execution)
    requires
        left_edge_loaded(tree),
    ensures
        run(Ok(state), oks(edge_ops(tree)), false) == Ok::<Execution, ProofError>(
            Execution {
                stack: state.stack.push(edge_tree(tree)),
                last_key: state.last_key,
                kv_only: false,
            },
        ),
    decreases tree,
{
    let base = state.stack;
    match tree.left {
        Some(Link::Loaded { hash, tree: child }) => {
            let below = edge_ops(*child);
            lemma_run_edge(*child, state);
            lemma_run_both(Ok(state), below, height_node_ops(tree), false);
            let after_left = Execution {
                stack: base.push(edge_tree(*child)),
                last_key: state.last_key,
                kv_only: false,
            };
            lemma_run_edge_node(tree, after_left, base, edge_tree(tree).left);
        },
        _ => {
            assert(seq![] + height_node_ops(tree) =~= height_node_ops(tree));
            lemma_run_edge_node(tree, state, base, None);
        },
    }
}

/// The height proof below the trunk is the height proof of the node on the left
/// edge that lies just below the trunk.
proof fn lemma_height_ops_edge(tree: Tree, depth: nat, trunk_height: nat)
    requires
        depth > trunk_height || depth + left_height(tree) > trunk_height + 1,
    ensures
        height_ops(tree, depth, trunk_height) == if depth > trunk_height {
            edge_ops(tree)
        } else {
            edge_ops(leftmost(tree, (trunk_height + 1 - depth) as nat))
        },
    decreases tree,
{
    if let Some(Link::Loaded { hash, tree: child }) = tree.left {
        lemma_height_ops_edge(*child, depth + 1, trunk_height);
    }
}

/// Running the operators for the top layers of a tree on the left edge, with
/// the height proof on top of the stack, replaces it by the proof tree of the
/// trunk.
#[verifier::spinoff_prover]
#[verifier::rlimit(60)]
proof fn lemma_run_left_layers(
    tree: Tree,
    depth: nat,
    state: Execution,
    base: Seq<ProofTreeView>,
)
    requires
        left_height(tree) > depth,
        layers_loaded(tree, depth),
        ordered(tree),
        state.last_key matches Some(key) ==> keys_above(tree, key),
        !state.kv_only,
        state.stack == base.push(edge_tree(leftmost(tree, depth))),
    ensures
        run(Ok(state), oks(layer_ops(tree, depth, true)), false) == Ok::<Execution, ProofError>(
            Execution {
                stack: base.push(trunk_tree(tree, depth, true)),
                last_key: if depth == 0 {
                    state.last_key
                } else {
                    Some(layer_max(tree, depth))
                },
                kv_only: false,
            },
        ),
    decreases tree,
{
    if depth == 0 {
        lemma_run_none(Ok(state), false);
    } else {
        let d = (depth - 1) as nat;
        let left_ops = left_layer_ops(tree, depth, true);
        let node_ops = node_layer_ops(tree);
        let right_ops = right_layer_ops(tree, depth);
        let done = trunk_tree(tree, depth, true);
        lemma_run_both(Ok(state), left_ops + node_ops, right_ops, false);
        lemma_run_both(Ok(state), left_ops, node_ops, false);
        let child = *tree.left->0->tree;
        lemma_run_left_layers(child, d, state, base);
        if d > 0 {
            lemma_layer_max_below(child, d, tree.key@);
        }
        let after_left = Execution {
            stack: base.push(trunk_tree(child, d, true)),
            last_key: if d == 0 {
                state.last_key
            } else {
                Some(layer_max(child, d))
            },
            kv_only: false,
        };
        lemma_run_node(tree, after_left, base, done.left, false);
        let node = ProofTreeView { right: None, ..done };
        let after_node = Execution {
            stack: base.push(node),
            last_key: Some(tree.key@),
            kv_only: false,
        };
        match tree.right {
            Some(Link::Loaded { hash, tree: child }) => {
                lemma_run_layers(*child, d, after_node, false);
                let child_ops = layer_ops(*child, d, false);
                assert(right_ops =~= child_ops + seq![OpView::Child]);
                lemma_run_both(Ok(after_node), child_ops, seq![OpView::Child], false);
                let after_right = Execution {
                    stack: base.push(node).push(trunk_tree(*child, d, false)),
                    last_key: if d == 0 {
                        after_node.last_key
                    } else {
                        Some(layer_max(*child, d))
                    },
                    kv_only: false,
                };
                lemma_run_child(after_right, base, node, trunk_tree(*child, d, false), false);
            },
            _ => {
                lemma_run_none(Ok(after_node), false);
            },
        }
    }
}

/// A tree has at least as many layers as nodes on its left edge.
proof fn lemma_left_height_layers(tree: Tree)
    ensures
        left_height(tree) <= layers(tree),
    decreases tree,
{
    if let Some(Link::Loaded { hash, tree: child }) = tree.left {
        lemma_left_height_layers(*child);
    }
}

/// Layers beyond the last one add nothing.
proof fn lemma_layers_full(tree: Tree, depth: nat, leftmost: bool)
    requires
        layers(tree) <= depth,
    ensures
        layer_ops(tree, depth, leftmost) == full_ops(tree),
        trunk_tree(tree, depth, leftmost) == full_tree(tree),
        fully_loaded(tree) ==> layers_loaded(tree, depth),
    decreases tree,
{
    let d = (depth - 1) as nat;
    if let Some(Link::Loaded { hash, tree: child }) = tree.left {
        lemma_layers_full(*child, d, leftmost);
    }
    if let Some(Link::Loaded { hash, tree: child }) = tree.right {
        lemma_layers_full(*child, d, false);
    }
}

/// The height proof hashes to the hash of its tree.
pub proof fn lemma_edge_hash(tree: Tree)
    requires
        committed(tree),
        left_edge_loaded(tree),
    ensures
        proof_hash(edge_tree(tree)) == tree.hash_view(),
        proof_height(edge_tree(tree)) == left_height(tree),
        height_proven(edge_tree(tree)),
    decreases tree,
{
    reveal_with_fuel(proof_hash, 2);
    reveal_with_fuel(child_hash_view, 2);
    if let Some(Link::Loaded { hash, tree: child }) = tree.left {
        lemma_edge_hash(*child);
    }
}

/// The proof tree of a trunk hashes to the hash of its tree, and is complete.
pub proof fn lemma_trunk_tree(tree: Tree, depth: nat, leftmost: bool)
    requires
        committed(tree),
        layers_loaded(tree, depth),
        leftmost ==> left_edge_loaded(tree),
    ensures
        proof_hash(trunk_tree(tree, depth, leftmost)) == tree.hash_view(),
        leftmost ==> proof_height(trunk_tree(tree, depth, leftmost)) == left_height(tree),
        leftmost ==> height_proven(trunk_tree(tree, depth, leftmost)),
        completeness(trunk_tree(tree, depth, leftmost), depth, leftmost) == Ok::<(), ProofError>(()),
    decreases tree,
{
    if depth == 0 {
        if leftmost {
            lemma_edge_hash(tree);
        }
    } else {
        let d = (depth - 1) as nat;
        if let Some(Link::Loaded { hash, tree: child }) = tree.left {
            lemma_trunk_tree(*child, d, leftmost);
        }
        if let Some(Link::Loaded { hash, tree: child }) = tree.right {
            lemma_trunk_tree(*child, d, false);
        }
    }
}

/// The proof tree with all keys and values of a tree hashes to the hash of the
/// tree, and has its height.
proof fn lemma_full_tree(tree: Tree)
    requires
        committed(tree),
        fully_loaded(tree),
    ensures
        proof_hash(full_tree(tree)) == tree.hash_view(),
        proof_height(full_tree(tree)) == left_height(tree),
        height_proven(full_tree(tree)),
    decreases tree,
{
    if let Some(Link::Loaded { hash, tree: child }) = tree.left {
        lemma_full_tree(*child);
    }
    if let Some(Link::Loaded { hash, tree: child }) = tree.right {
        lemma_full_tree(*child);
    }
}

/// Where all layers of a tree are in memory, the whole tree is.
proof fn lemma_fully_loaded(tree: Tree, depth: nat)
    requires
        layers_loaded(tree, depth),
        layers(tree) <= depth,
    ensures
        fully_loaded(tree),
    decreases tree,
{
    let d = (depth - 1) as nat;
    if let Some(Link::Loaded { hash, tree: child }) = tree.left {
        lemma_fully_loaded(*child, d);
    }
    if let Some(Link::Loaded { hash, tree: child }) = tree.right {
        lemma_fully_loaded(*child, d);
    }
}

/// The proof tree that the trunk proof of a tree builds: the whole tree, where
/// it is too low for a trunk, or the trunk with its height proof.
pub open spec fn trunk_view(tree: Tree) -> ProofTreeView {
    if trunk_height(tree) < MIN_TRUNK_HEIGHT {
        full_tree(tree)
    } else {
        trunk_tree(tree, trunk_height(tree), true)
    }
}

/// Every trunk proof that is created verifies: for any search tree whose links
/// carry the right hashes, verification returns the trunk of that tree and the
/// number of nodes on its left edge, and the trunk hashes to the hash of the
/// tree.
pub proof fn law_trunk_roundtrip(tree: Tree)
    requires
        ordered(tree),
        committed(tree),
        trunk_loaded(tree),
        trunk_height(tree) < MIN_TRUNK_HEIGHT ==> layers(tree) <= usize::MAX,
    ensures
        verified_trunk(oks(trunk_ops(tree))) == Ok::<(ProofTreeView, nat), ProofError>(
            (trunk_view(tree), left_height(tree)),
        ),
        proof_hash(trunk_view(tree)) == tree.hash_view(),
{
    let height = trunk_height(tree);
    let first = start();
    if height < MIN_TRUNK_HEIGHT {
        let depth = usize::MAX as nat;
        lemma_layers_full(tree, depth, true);
        lemma_layers_full(tree, depth, false);
        lemma_fully_loaded(tree, depth);
        lemma_run_layers(tree, depth, first, false);
        lemma_full_tree(tree);
    } else {
        let height_part = height_ops(tree, 1, height);
        let layer_part = layer_ops(tree, height, true);
        let edge = leftmost(tree, height);
        lemma_run_both(Ok(first), height_part, layer_part, false);
        lemma_height_ops_edge(tree, 1, height);
        lemma_leftmost_loaded(tree, height);
        lemma_run_edge(edge, first);
        let after_height = Execution {
            stack: first.stack.push(edge_tree(edge)),
            last_key: None,
            kv_only: false,
        };
        lemma_run_left_layers(tree, height, after_height, first.stack);
        lemma_trunk_tree(tree, height, true);
    }
}

/// The left edge of a node on a left edge that is in memory is in memory.
proof fn lemma_leftmost_loaded(tree: Tree, steps: nat)
    requires
        left_edge_loaded(tree),
    ensures
        left_edge_loaded(leftmost(tree, steps)),
    decreases tree,
{
    if steps > 0 {
        if let Some(Link::Loaded { hash, tree: child }) = tree.left {
            lemma_leftmost_loaded(*child, (steps - 1) as nat);
        }
    }
}

/// Every whole tree verifies as a leaf chunk: executing the operators that build
/// it, with abridged nodes refused, gives the tree with all keys and values,
/// and that hashes to the hash of the tree.
pub proof fn law_leaf_roundtrip(tree: Tree)
    requires
        ordered(tree),
        committed(tree),
        fully_loaded(tree),
    ensures
        executed(oks(full_ops(tree)), true) == Ok::<(ProofTreeView, bool), ProofError>(
            (full_tree(tree), true),
        ),
        proof_hash(full_tree(tree)) == tree.hash_view(),
{
    lemma_layers_full(tree, layers(tree), false);
    lemma_run_layers(tree, layers(tree), start(), true);
    lemma_full_tree(tree);
}

/// The height proof of a whole left edge builds its proof tree.
proof fn lemma_edge_builds(tree: Tree)
    requires
        left_edge_loaded(tree),
    ensures
        edge_ops(tree) == build_ops(edge_tree(tree)),
    decreases tree,
{
    if let Some(Link::Loaded { hash, tree: child }) = tree.left {
        lemma_edge_builds(*child);
    }
    if tree.right is Some {
        let right = leaf(NodeView::Hash(link_hash_view(tree.right)));
        assert(build_ops(right) =~= seq![OpView::Push(right.node)]);
    }
    assert(edge_ops(tree) =~= build_ops(edge_tree(tree)));
}

/// The operators for the top layers of a tree build their proof tree.
proof fn lemma_layers_build(tree: Tree, depth: nat)
    requires
        layers_loaded(tree, depth),
    ensures
        layer_ops(tree, depth, false) == build_ops(trunk_tree(tree, depth, false)),
    decreases tree,
{
    let d = (depth - 1) as nat;
    if depth > 0 {
        if let Some(Link::Loaded { hash, tree: child }) = tree.left {
            lemma_layers_build(*child, d);
        }
        if let Some(Link::Loaded { hash, tree: child }) = tree.right {
            lemma_layers_build(*child, d);
        }
    }
    assert(layer_ops(tree, depth, false) =~= build_ops(trunk_tree(tree, depth, false)));
}

/// The height proof and the operators for the top layers of a tree on the left edge
/// build the proof tree of the trunk.
proof fn lemma_left_layers_build(tree: Tree, depth: nat)
    requires
        left_height(tree) > depth,
        left_edge_loaded(tree),
        layers_loaded(tree, depth),
    ensures
        edge_ops(leftmost(tree, depth)) + layer_ops(tree, depth, true) == build_ops(
            trunk_tree(tree, depth, true),
        ),
    decreases tree,
{
    let edge = edge_ops(leftmost(tree, depth));
    if depth == 0 {
        lemma_edge_builds(tree);
        assert(edge + layer_ops(tree, depth, true) =~= edge);
    } else {
        let d = (depth - 1) as nat;
        let child = *tree.left->0->tree;
        lemma_left_layers_build(child, d);
        if let Some(Link::Loaded { hash, tree: child }) = tree.right {
            lemma_layers_build(*child, d);
        }
        let left = build_ops(trunk_tree(child, d, true));
        assert(edge + layer_ops(tree, depth, true) =~= left + node_layer_ops(tree)
            + right_layer_ops(tree, depth));
        assert(edge + layer_ops(tree, depth, true) =~= build_ops(trunk_tree(tree, depth, true)));
    }
}

/// The trunk proof of any tree, be it a search tree or not, and whatever its links carry,
/// is made of the operators that build its trunk, one after the other, and no others.
pub proof fn law_trunk_proofs_build_the_trunk(tree: Tree)
    requires
        trunk_loaded(tree),
        trunk_height(tree) < MIN_TRUNK_HEIGHT ==> layers(tree) <= usize::MAX,
    ensures
        trunk_ops(tree) == build_ops(trunk_view(tree)),
{
    let height = trunk_height(tree);
    if height < MIN_TRUNK_HEIGHT {
        let depth = usize::MAX as nat;
        lemma_layers_full(tree, depth, true);
        lemma_layers_full(tree, depth, false);
        lemma_layers_build(tree, depth);
    } else {
        lemma_height_ops_edge(tree, 1, height);
        lemma_left_layers_build(tree, height);
    }
}

} // verus!
