//! What a proof that is accepted says, told by its nodes alone: which nodes the tree
//! has, in which order, and what each of them holds.
use crate::bytes::{lemma_lex_transitive, lex_less};
use crate::proofs::chunk::{
    completeness, height_proven, proof_height, verified_trunk, MIN_TRUNK_HEIGHT,
};
use crate::proofs::roundtrip::{lemma_run_both, lemma_run_one};
use crate::proofs::tree::{
    executed, oks, run, start, step, Execution, ProofTreeView,
};
use crate::proofs::{NodeView, OpView, ProofError};
use vstd::prelude::*;

verus! {

/// The nodes of a proof tree, from left to right.
pub open spec fn nodes_of(tree: ProofTreeView) -> Seq<NodeView>
    decreases tree,
{
    let left = match tree.left {
        Some(child) => nodes_of(*child),
        None => seq![],
    };
    let right = match tree.right {
        Some(child) => nodes_of(*child),
        None => seq![],
    };
    left.push(tree.node) + right
}

/// The nodes that a list of operators pushes, in order.
pub open spec fn pushed_nodes(ops: Seq<Result<OpView, ProofError>>) -> Seq<NodeView>
    decreases ops.len(),
{
    if ops.len() == 0 {
        seq![]
    } else {
        let before = pushed_nodes(ops.drop_last());
        match ops.last() {
            Ok(OpView::Push(node)) => before.push(node),
            _ => before,
        }
    }
}

/// Whether all nodes in a list have their keys and values.
pub open spec fn all_kv(nodes: Seq<NodeView>) -> bool {
    forall|i: int| 0 <= i < nodes.len() ==> #[trigger] nodes[i] is KV
}

/// Whether the keys in a list of nodes increase.
pub open spec fn keys_increase(nodes: Seq<NodeView>) -> bool {
    forall|i: int, j: int|
        0 <= i < j < nodes.len() ==> ((#[trigger] nodes[i]) matches NodeView::KV(a, _) ==> ((
        #[trigger] nodes[j]) matches NodeView::KV(b, _) ==> lex_less(a, b)))
}

/// The last key in a list of nodes, or the one before the list.
spec fn last_key_of(before: Option<Seq<u8>>, nodes: Seq<NodeView>) -> Option<Seq<u8>>
    decreases nodes.len(),
{
    if nodes.len() == 0 {
        before
    } else {
        match nodes.last() {
            NodeView::KV(key, _) => Some(key),
            _ => last_key_of(before, nodes.drop_last()),
        }
    }
}

/// Whether the keys in a list of nodes increase from the one before the list on.
spec fn keys_follow(before: Option<Seq<u8>>, nodes: Seq<NodeView>) -> bool
    decreases nodes.len(),
{
    nodes.len() > 0 ==> {
        &&& keys_follow(before, nodes.drop_last())
        &&& nodes.last() matches NodeView::KV(key, _) ==> (last_key_of(before, nodes.drop_last()) matches Some(
            last,
        ) ==> lex_less(last, key))
    }
}

/// The last key of a list is in it, with no key behind it.
proof fn lemma_last_key(nodes: Seq<NodeView>) -> (k: int)
    ensures
        last_key_of(None, nodes) is None ==> forall|i: int|
            0 <= i < nodes.len() ==> !(#[trigger] nodes[i] is KV),
        last_key_of(None, nodes) is Some ==> {
            &&& 0 <= k < nodes.len()
            &&& nodes[k] is KV
            &&& nodes[k]->KV_0 == last_key_of(None, nodes)->0
            &&& forall|i: int| k < i < nodes.len() ==> !(#[trigger] nodes[i] is KV)
        },
    decreases nodes.len(),
{
    if nodes.len() == 0 {
        0
    } else if nodes.last() is KV {
        nodes.len() - 1
    } else {
        let short = nodes.drop_last();
        let k = lemma_last_key(short);
        assert forall|i: int| 0 <= i < short.len() implies #[trigger] nodes[i] == short[i] by {}
        k
    }
}

/// That keys follow one another is that they increase.
proof fn lemma_keys_follow(nodes: Seq<NodeView>)
    ensures
        keys_follow(None, nodes) <==> keys_increase(nodes),
    decreases nodes.len(),
{
    if nodes.len() > 0 {
        let short = nodes.drop_last();
        let n = nodes.len() - 1;
        lemma_keys_follow(short);
        let k = lemma_last_key(short);
        assert forall|i: int| 0 <= i < n implies #[trigger] nodes[i] == short[i] by {}
        if keys_increase(nodes) {
            assert forall|i: int, j: int| 0 <= i < j < short.len() implies ((
            #[trigger] short[i]) matches NodeView::KV(a, _) ==> ((
            #[trigger] short[j]) matches NodeView::KV(b, _) ==> lex_less(a, b))) by {
                assert(nodes[i] == short[i] && nodes[j] == short[j]);
            }
            if last_key_of(None, short) is Some {
                assert(nodes[k] == short[k]);
                assert(nodes[n] == nodes.last());
            }
        }
        if keys_follow(None, nodes) {
            assert forall|i: int, j: int| 0 <= i < j < nodes.len() implies ((
            #[trigger] nodes[i]) matches NodeView::KV(a, _) ==> ((
            #[trigger] nodes[j]) matches NodeView::KV(b, _) ==> lex_less(a, b))) by {
                if j < n {
                    assert(nodes[i] == short[i] && nodes[j] == short[j]);
                } else if nodes[i] is KV && nodes[j] is KV {
                    assert(short[i] is KV);
                    let last = last_key_of(None, short)->0;
                    assert(i <= k);
                    if i < k {
                        assert(lex_less(short[i]->KV_0, short[k]->KV_0));
                        lemma_lex_transitive(nodes[i]->KV_0, last, nodes[j]->KV_0);
                    }
                }
            }
        }
    }
}

/// Keys and the last of them in two lists one after the other.
proof fn lemma_keys_concat(before: Option<Seq<u8>>, a: Seq<NodeView>, b: Seq<NodeView>)
    ensures
        last_key_of(before, a + b) == last_key_of(last_key_of(before, a), b),
        keys_follow(before, a + b) <==> keys_follow(before, a) && keys_follow(
            last_key_of(before, a),
            b,
        ),
    decreases b.len(),
{
    if b.len() == 0 {
        assert(a + b =~= a);
    } else {
        lemma_keys_concat(before, a, b.drop_last());
        assert((a + b).drop_last() =~= a + b.drop_last());
        assert((a + b).last() == b.last());
    }
}

/// The nodes of the items on a stack, from its bottom up.
spec fn stack_nodes(stack: Seq<ProofTreeView>) -> Seq<NodeView>
    decreases stack.len(),
{
    if stack.len() == 0 {
        seq![]
    } else {
        stack_nodes(stack.drop_last()) + nodes_of(stack.last())
    }
}

/// Joining the two items on top of a stack keeps the nodes in order.
proof fn lemma_join_nodes(state: Execution, left: bool)
    ensures
        crate::proofs::tree::join(state.stack, left) matches Ok(stack) ==> stack_nodes(stack)
            == stack_nodes(state.stack),
{
    let stack = state.stack;
    if stack.len() >= 2 {
        let top = stack.last();
        let below = stack[stack.len() - 2];
        let rest = stack.take(stack.len() - 2);
        assert(stack.drop_last().drop_last() =~= rest);
        assert(stack.drop_last().last() == below);
        reveal_with_fuel(stack_nodes, 3);
        if let Ok(joined) = crate::proofs::tree::join(stack, left) {
            assert(joined.drop_last() =~= rest);
            let node = joined.last();
            assert(nodes_of(node) =~= nodes_of(below) + nodes_of(top));
            assert(stack_nodes(joined) =~= stack_nodes(stack));
        }
    }
}

/// What the machine holds after a list of operators: the nodes that were pushed, in
/// order, with increasing keys.
proof fn lemma_run_nodes(ops: Seq<Result<OpView, ProofError>>, full: bool)
    ensures
        run(Ok(start()), ops, full) matches Ok(state) ==> {
            &&& stack_nodes(state.stack) == pushed_nodes(ops)
            &&& state.last_key == last_key_of(None, pushed_nodes(ops))
            &&& keys_follow(None, pushed_nodes(ops))
            &&& state.kv_only <==> all_kv(pushed_nodes(ops))
            &&& full ==> all_kv(pushed_nodes(ops))
            &&& forall|i: int| 0 <= i < ops.len() ==> #[trigger] ops[i] is Ok
        },
    decreases ops.len(),
{
    if ops.len() > 0 {
        let short = ops.drop_last();
        lemma_run_nodes(short, full);
        if let Ok(before) = run(Ok(start()), short, full) {
            if let Ok(op) = ops.last() {
                if let Ok(after) = step(before, op, full) {
                    assert forall|i: int| 0 <= i < ops.len() implies #[trigger] ops[i] is Ok by {
                        if i < short.len() {
                            assert(short[i] is Ok);
                        }
                    }
                    match op {
                        OpView::Push(node) => {
                            let nodes = pushed_nodes(short);
                            let now = nodes.push(node);
                            assert(now.drop_last() =~= nodes);
                            assert(after.stack.drop_last() =~= before.stack);
                            assert(nodes_of(after.stack.last()) =~= seq![node]);
                            assert(stack_nodes(after.stack) =~= now);
                            assert(now[now.len() - 1] == node);
                            if all_kv(now) {
                                assert forall|i: int| 0 <= i < nodes.len() implies #[trigger]
                                    nodes[i] is KV by {
                                    assert(now[i] is KV);
                                }
                            }
                        },
                        OpView::Parent => {
                            lemma_join_nodes(before, true);
                        },
                        OpView::Child => {
                            lemma_join_nodes(before, false);
                        },
                    }
                }
            }
        }
    }
}

/// What executing a proof gives: no operator was an error, the nodes of the tree, from
/// left to right, are the nodes that were pushed, in order, and their keys
/// increase. That all nodes had keys and values is told exactly if it is so, and
/// where it is asked for, it is so.
pub proof fn law_executed_proofs(ops: Seq<Result<OpView, ProofError>>, full: bool)
    ensures
        executed(ops, full) matches Ok((tree, kv_only)) ==> {
            &&& forall|i: int| 0 <= i < ops.len() ==> #[trigger] ops[i] is Ok
            &&& nodes_of(tree) == pushed_nodes(ops)
            &&& keys_increase(nodes_of(tree))
            &&& kv_only <==> all_kv(nodes_of(tree))
            &&& full ==> all_kv(nodes_of(tree))
        },
{
    lemma_run_nodes(ops, full);
    if let Ok(state) = run(Ok(start()), ops, full) {
        if state.stack.len() == 1 {
            let tree = state.stack[0];
            assert(state.stack.drop_last() =~= seq![]);
            reveal_with_fuel(stack_nodes, 2);
            assert(stack_nodes(state.stack) =~= nodes_of(tree));
            lemma_keys_follow(nodes_of(tree));
        }
    }
}

/// The operators that build a proof tree: those for its left child, its node, which
/// the left child is attached to, and those for its right child, which is attached
/// then.
pub open spec fn build_ops(tree: ProofTreeView) -> Seq<OpView>
    decreases tree,
{
    let left = match tree.left {
        Some(child) => build_ops(*child),
        None => seq![],
    };
    let parent = if tree.left is Some {
        seq![OpView::Parent]
    } else {
        seq![]
    };
    let right = match tree.right {
        Some(child) => build_ops(*child).push(OpView::Child),
        None => seq![],
    };
    left + seq![OpView::Push(tree.node)] + parent + right
}

/// Running the operators that build a tree puts it on the stack.
proof fn lemma_run_build(tree: ProofTreeView, state: Execution, full: bool)
    requires
        keys_follow(state.last_key, nodes_of(tree)),
        full ==> all_kv(nodes_of(tree)),
    ensures
        run(Ok(state), oks(build_ops(tree)), full) == Ok::<Execution, ProofError>(
            Execution {
                stack: state.stack.push(tree),
                last_key: last_key_of(state.last_key, nodes_of(tree)),
                kv_only: state.kv_only && all_kv(nodes_of(tree)),
            },
        ),
    decreases tree,
{
    let left_nodes = match tree.left {
        Some(child) => nodes_of(*child),
        None => seq![],
    };
    let right_nodes = match tree.right {
        Some(child) => nodes_of(*child),
        None => seq![],
    };
    let left_ops = match tree.left {
        Some(child) => build_ops(*child),
        None => seq![],
    };
    let node = seq![tree.node];
    let all = nodes_of(tree);
    assert(all =~= left_nodes + node + right_nodes);
    lemma_keys_concat(state.last_key, left_nodes + node, right_nodes);
    lemma_keys_concat(state.last_key, left_nodes, node);
    assert forall|i: int| 0 <= i < left_nodes.len() implies #[trigger] left_nodes[i] == all[i] by {}
    assert forall|i: int| 0 <= i < right_nodes.len() implies #[trigger] right_nodes[i] == all[
        left_nodes.len() + 1 + i] by {}
    assert(all[left_nodes.len() as int] == tree.node);
    if full {
        assert(all_kv(left_nodes) && all_kv(right_nodes)) by {
            assert forall|i: int| 0 <= i < left_nodes.len() implies #[trigger] left_nodes[i] is KV by {
                assert(all[i] is KV);
            }
            assert forall|i: int| 0 <= i < right_nodes.len() implies #[trigger]
                right_nodes[i] is KV by {
                assert(all[left_nodes.len() + 1 + i] is KV);
            }
        }
    }
    let after_left = Execution {
        stack: match tree.left {
            Some(child) => state.stack.push(*child),
            None => state.stack,
        },
        last_key: last_key_of(state.last_key, left_nodes),
        kv_only: state.kv_only && all_kv(left_nodes),
    };
    match tree.left {
        Some(child) => {
            lemma_run_build(*child, state, full);
        },
        None => {
            assert(oks(left_ops) =~= seq![]);
        },
    }
    assert(run(Ok(state), oks(left_ops), full) == Ok::<Execution, ProofError>(after_left));
    let push = OpView::Push(tree.node);
    assert(node.drop_last() =~= seq![]);
    assert(keys_follow(after_left.last_key, node));
    assert(last_key_of(after_left.last_key, node.drop_last()) == after_left.last_key);
    lemma_run_one(after_left, push, full);
    lemma_run_both(Ok(state), left_ops, seq![push], full);
    if full {
        assert(all[left_nodes.len() as int] is KV);
    }
    let pushed = Execution {
        stack: after_left.stack.push(
            ProofTreeView { node: tree.node, left: None, right: None },
        ),
        last_key: last_key_of(after_left.last_key, node),
        kv_only: after_left.kv_only && tree.node is KV,
    };
    assert(step(after_left, push, full) == Ok::<Execution, ProofError>(pushed));
    let half = ProofTreeView { node: tree.node, left: tree.left, right: None };
    let joined = Execution { stack: state.stack.push(half), ..pushed };
    let so_far = left_ops + seq![push] + if tree.left is Some {
        seq![OpView::Parent]
    } else {
        seq![]
    };
    if tree.left is Some {
        lemma_run_both(Ok(state), left_ops + seq![push], seq![OpView::Parent], full);
        lemma_run_one(pushed, OpView::Parent, full);
        assert(pushed.stack.take(pushed.stack.len() - 2) =~= state.stack);
    } else {
        assert(so_far =~= left_ops + seq![push]);
    }
    assert(run(Ok(state), oks(so_far), full) == Ok::<Execution, ProofError>(joined));
    let kv = all_kv(all);
    assert(kv <==> all_kv(left_nodes) && tree.node is KV && all_kv(right_nodes)) by {
        if kv {
            assert forall|i: int| 0 <= i < left_nodes.len() implies #[trigger] left_nodes[i] is KV by {
                assert(all[i] is KV);
            }
            assert forall|i: int| 0 <= i < right_nodes.len() implies #[trigger]
                right_nodes[i] is KV by {
                assert(all[left_nodes.len() + 1 + i] is KV);
            }
            assert(all[left_nodes.len() as int] is KV);
        }
        if all_kv(left_nodes) && tree.node is KV && all_kv(right_nodes) {
            assert forall|i: int| 0 <= i < all.len() implies #[trigger] all[i] is KV by {
                if i < left_nodes.len() {
                    assert(left_nodes[i] is KV);
                } else if i > left_nodes.len() {
                    assert(right_nodes[i - left_nodes.len() - 1] is KV);
                }
            }
        }
    }
    match tree.right {
        Some(child) => {
            let right_ops = build_ops(*child);
            lemma_run_build(*child, joined, full);
            let with_right = Execution {
                stack: joined.stack.push(*child),
                last_key: last_key_of(joined.last_key, right_nodes),
                kv_only: joined.kv_only && all_kv(right_nodes),
            };
            lemma_run_both(Ok(state), so_far, right_ops, full);
            lemma_run_both(Ok(state), so_far + right_ops, seq![OpView::Child], full);
            lemma_run_one(with_right, OpView::Child, full);
            assert(with_right.stack.take(with_right.stack.len() - 2) =~= state.stack);
            assert(build_ops(tree) =~= so_far + right_ops + seq![OpView::Child]);
        },
        None => {
            assert(build_ops(tree) =~= so_far);
            assert(last_key_of(joined.last_key, right_nodes) == joined.last_key);
        },
    }
}

/// Every proof tree with increasing keys can be proved: the operators that build it
/// are accepted, and give that tree. Where nodes without keys and values are
/// refused, that is so for trees that have none.
pub proof fn law_every_tree_can_be_built(tree: ProofTreeView, full: bool)
    requires
        keys_increase(nodes_of(tree)),
        full ==> all_kv(nodes_of(tree)),
    ensures
        executed(oks(build_ops(tree)), full) == Ok::<(ProofTreeView, bool), ProofError>(
            (tree, all_kv(nodes_of(tree))),
        ),
{
    lemma_keys_follow(nodes_of(tree));
    lemma_run_build(tree, start(), full);
    let stack = Seq::<ProofTreeView>::empty().push(tree);
    assert(stack.len() == 1 && stack[0] == tree);
}

/// The subtree of a proof tree that a list of steps leads to, each to the left
/// (`true`) or to the right (`false`), if there is one.
pub open spec fn subtree_at(tree: ProofTreeView, route: Seq<bool>) -> Option<ProofTreeView>
    decreases route.len(),
{
    if route.len() == 0 {
        Some(tree)
    } else {
        let child = if route[0] {
            tree.left
        } else {
            tree.right
        };
        match child {
            Some(child) => subtree_at(*child, route.drop_first()),
            None => None,
        }
    }
}

/// A number of steps to the left.
pub open spec fn lefts(n: nat) -> Seq<bool> {
    Seq::new(n, |i: int| true)
}

/// A list of steps to the left, and one that starts with a step to the left.
proof fn lemma_lefts(n: nat)
    requires
        n > 0,
    ensures
        lefts(n)[0],
        lefts(n).drop_first() == lefts((n - 1) as nat),
{
    assert(lefts(n).drop_first() =~= lefts((n - 1) as nat));
}

/// The height of a proof tree counts the nodes on its left edge.
proof fn lemma_left_edge(tree: ProofTreeView, k: nat)
    ensures
        subtree_at(tree, lefts(k)) is Some <==> k < proof_height(tree),
    decreases k,
{
    if k > 0 {
        lemma_lefts(k);
        if let Some(child) = tree.left {
            lemma_left_edge(*child, (k - 1) as nat);
        }
    }
}

/// A height proof has no node below the root that is just a hash on the left edge.
proof fn lemma_height_proven(tree: ProofTreeView)
    ensures
        height_proven(tree) <==> forall|k: nat|
            0 < k ==> (#[trigger] subtree_at(tree, lefts(k)) matches Some(at) ==> !(
            at.node is Hash)),
    decreases tree,
{
    if let Some(child) = tree.left {
        lemma_height_proven(*child);
        lemma_lefts(1);
        assert(subtree_at(*child, lefts(0)) == Some(*child));
        assert(subtree_at(tree, lefts(1)) == subtree_at(*child, lefts(0)));
        if height_proven(tree) {
            assert forall|k: nat| 0 < k implies (#[trigger] subtree_at(tree, lefts(k)) matches Some(
                at,
            ) ==> !(at.node is Hash)) by {
                lemma_lefts(k);
                if k > 1 {
                    assert(subtree_at(tree, lefts(k)) == subtree_at(
                        *child,
                        lefts((k - 1) as nat),
                    ));
                }
            }
        }
        if forall|k: nat|
            0 < k ==> (#[trigger] subtree_at(tree, lefts(k)) matches Some(at) ==> !(
            at.node is Hash)) {
            assert forall|k: nat| 0 < k implies (
            #[trigger] subtree_at(*child, lefts(k)) matches Some(at) ==> !(at.node is Hash)) by {
                lemma_lefts(k + 1);
                assert(subtree_at(tree, lefts(k + 1)) == subtree_at(*child, lefts(k)));
            }
        }
    } else {
        assert forall|k: nat| 0 < k implies (#[trigger] subtree_at(tree, lefts(k)) matches Some(at)
            ==> !(at.node is Hash)) by {
            lemma_lefts(k);
        }
    }
}

/// Whether a node may stand where a list of steps leads to in a trunk of `depth`
/// layers: in these layers it has its key and value, and in the next layer it is
/// a hash, but for the leftmost one, which has the hash of its key and value.
pub open spec fn fits_in_trunk(
    node: NodeView,
    route: Seq<bool>,
    depth: nat,
    leftmost: bool,
) -> bool {
    &&& route.len() < depth ==> node is KV
    &&& route.len() == depth ==> if leftmost && route == lefts(depth) {
        node is KVHash
    } else {
        node is Hash
    }
}

/// A trunk is complete exactly if every node, wherever it is, may stand where it is.
proof fn lemma_completeness(tree: ProofTreeView, depth: nat, leftmost: bool)
    ensures
        completeness(tree, depth, leftmost) is Ok <==> forall|route: Seq<bool>| #[trigger]
            subtree_at(tree, route) matches Some(at) ==> fits_in_trunk(
                at.node,
                route,
                depth,
                leftmost,
            ),
    decreases tree,
{
    let none = Seq::<bool>::empty();
    assert(subtree_at(tree, none) == Some(tree));
    assert(lefts(0) =~= none);
    if depth == 0 {
        assert forall|route: Seq<bool>| fits_in_trunk(tree.node, none, 0, leftmost) implies (
        #[trigger] subtree_at(tree, route) matches Some(at) ==> fits_in_trunk(
            at.node,
            route,
            depth,
            leftmost,
        )) by {
            if route.len() == 0 {
                assert(route =~= none);
            }
        }
        if completeness(tree, depth, leftmost) is Ok {
            assert(fits_in_trunk(tree.node, none, 0, leftmost));
        }
    } else {
        let d = (depth - 1) as nat;
        if let Some(child) = tree.left {
            lemma_completeness(*child, d, leftmost);
        }
        if let Some(child) = tree.right {
            lemma_completeness(*child, d, false);
        }
        if completeness(tree, depth, leftmost) is Ok {
            assert forall|route: Seq<bool>| (#[trigger] subtree_at(tree, route) matches Some(at)
                ==> fits_in_trunk(at.node, route, depth, leftmost)) by {
                if route.len() > 0 && subtree_at(tree, route) is Some {
                    let rest = route.drop_first();
                    let at = subtree_at(tree, route)->0;
                    if route[0] {
                        assert(subtree_at(*tree.left->0, rest) == Some(at));
                        assert(fits_in_trunk(at.node, rest, d, leftmost));
                    } else {
                        assert(subtree_at(*tree.right->0, rest) == Some(at));
                        assert(fits_in_trunk(at.node, rest, d, false));
                    }
                    lemma_step_left(route, depth);
                }
            }
        }
        if forall|route: Seq<bool>| #[trigger]
            subtree_at(tree, route) matches Some(at) ==> fits_in_trunk(
                at.node,
                route,
                depth,
                leftmost,
            ) {
            assert(fits_in_trunk(tree.node, none, depth, leftmost));
            if let Some(child) = tree.left {
                assert forall|rest: Seq<bool>| (#[trigger] subtree_at(*child, rest) matches Some(at)
                    ==> fits_in_trunk(at.node, rest, d, leftmost)) by {
                    let route = seq![true] + rest;
                    assert(route.drop_first() =~= rest);
                    assert(subtree_at(tree, route) == subtree_at(*child, rest));
                    lemma_step_left(route, depth);
                }
            }
            if let Some(child) = tree.right {
                assert forall|rest: Seq<bool>| (#[trigger] subtree_at(*child, rest) matches Some(at)
                    ==> fits_in_trunk(at.node, rest, d, false)) by {
                    let route = seq![false] + rest;
                    assert(route.drop_first() =~= rest);
                    assert(subtree_at(tree, route) == subtree_at(*child, rest));
                    lemma_step_left(route, depth);
                }
            }
        }
    }
}

/// A list of steps goes to the left only if its first step and the others do.
proof fn lemma_step_left(route: Seq<bool>, depth: nat)
    requires
        route.len() > 0,
        depth > 0,
    ensures
        route == lefts(depth) <==> route[0] && route.drop_first() == lefts((depth - 1) as nat),
{
    lemma_lefts(depth);
    if route[0] && route.drop_first() == lefts((depth - 1) as nat) {
        assert(route =~= seq![true] + route.drop_first());
        assert(lefts(depth) =~= seq![true] + lefts((depth - 1) as nat));
    }
}

/// What stands at the end of a list of steps is one of the nodes of a tree.
proof fn lemma_subtree_node(tree: ProofTreeView, route: Seq<bool>) -> (i: int)
    requires
        subtree_at(tree, route) is Some,
    ensures
        0 <= i < nodes_of(tree).len(),
        nodes_of(tree)[i] == subtree_at(tree, route)->0.node,
    decreases route.len(),
{
    let left = match tree.left {
        Some(child) => nodes_of(*child),
        None => seq![],
    };
    if route.len() == 0 {
        left.len() as int
    } else if route[0] {
        lemma_subtree_node(*tree.left->0, route.drop_first())
    } else {
        left.len() + 1 + lemma_subtree_node(*tree.right->0, route.drop_first())
    }
}

/// Each node of a tree stands at the end of a list of steps.
proof fn lemma_node_route(tree: ProofTreeView, i: int) -> (route: Seq<bool>)
    requires
        0 <= i < nodes_of(tree).len(),
    ensures
        subtree_at(tree, route) matches Some(at) && at.node == nodes_of(tree)[i],
    decreases tree,
{
    let left = match tree.left {
        Some(child) => nodes_of(*child),
        None => seq![],
    };
    if i < left.len() {
        let rest = lemma_node_route(*tree.left->0, i);
        let route = seq![true] + rest;
        assert(route.drop_first() =~= rest);
        route
    } else if i == left.len() {
        seq![]
    } else {
        let rest = lemma_node_route(*tree.right->0, i - left.len() - 1);
        let route = seq![false] + rest;
        assert(route.drop_first() =~= rest);
        route
    }
}

/// Whether a proof tree has a left edge of the given number of nodes, none of which
/// is just a hash, but perhaps for the root.
pub open spec fn has_left_edge(tree: ProofTreeView, height: nat) -> bool {
    forall|k: nat|
        {
            &&& #[trigger] subtree_at(tree, lefts(k)) is Some <==> k < height
            &&& 0 < k < height ==> !(subtree_at(tree, lefts(k))->0.node is Hash)
        }
}

/// Whether every node of a proof tree, wherever it is, is what a trunk of the given
/// height has there: in a tree that is too low for a trunk all nodes have keys
/// and values, and in another one those in the upper half of the layers do, the
/// next layer has hashes, and its leftmost node the hash of its key and value.
pub open spec fn is_trunk(tree: ProofTreeView, height: nat) -> bool {
    forall|route: Seq<bool>|
        (#[trigger] subtree_at(tree, route)) matches Some(at) ==> if height / 2
            < MIN_TRUNK_HEIGHT {
            at.node is KV
        } else {
            fits_in_trunk(at.node, route, height / 2, true)
        }
}

/// A trunk is accepted exactly if its operators build a tree that has what a trunk
/// must have, everywhere, with the height that the left edge shows. What is
/// returned is that tree and that height.
pub proof fn law_accepted_trunks(
    ops: Seq<Result<OpView, ProofError>>,
    tree: ProofTreeView,
    height: nat,
)
    ensures
        verified_trunk(ops) == Ok::<(ProofTreeView, nat), ProofError>((tree, height)) <==> {
            &&& executed(ops, false) == Ok::<(ProofTreeView, bool), ProofError>(
                (tree, all_kv(nodes_of(tree))),
            )
            &&& has_left_edge(tree, height)
            &&& is_trunk(tree, height)
        },
{
    law_executed_proofs(ops, false);
    lemma_height_proven(tree);
    lemma_completeness(tree, height / 2, true);
    assert forall|k: nat| #[trigger] subtree_at(tree, lefts(k)) is Some <==> k < proof_height(
        tree,
    ) by {
        lemma_left_edge(tree, k);
    }
    if has_left_edge(tree, height) {
        assert(subtree_at(tree, lefts(height)) is Some <==> height < proof_height(tree));
        if height > 0 {
            assert(subtree_at(tree, lefts((height - 1) as nat)) is Some);
        } else {
            assert(lefts(0) =~= seq![]);
            assert(subtree_at(tree, lefts(0)) is Some);
        }
        assert(height == proof_height(tree));
        assert forall|k: nat| 0 < k implies (#[trigger] subtree_at(tree, lefts(k)) matches Some(at)
            ==> !(at.node is Hash)) by {}
    }
    if height_proven(tree) && height == proof_height(tree) {
        assert forall|k: nat|
            {
                &&& #[trigger] subtree_at(tree, lefts(k)) is Some <==> k < height
                &&& 0 < k < height ==> !(subtree_at(tree, lefts(k))->0.node is Hash)
            } by {}
    }
    if height / 2 < MIN_TRUNK_HEIGHT {
        if all_kv(nodes_of(tree)) {
            assert forall|route: Seq<bool>| (#[trigger] subtree_at(tree, route) matches Some(at)
                ==> at.node is KV) by {
                if subtree_at(tree, route) is Some {
                    let i = lemma_subtree_node(tree, route);
                    assert(nodes_of(tree)[i] is KV);
                }
            }
        }
        if is_trunk(tree, height) {
            assert forall|i: int| 0 <= i < nodes_of(tree).len() implies #[trigger] nodes_of(
                tree,
            )[i] is KV by {
                let route = lemma_node_route(tree, i);
                assert(subtree_at(tree, route) is Some);
            }
        }
    }
}

/// What each error says of a trunk whose operators build a tree: a hash on the left edge
/// below the root, a node without its key and value in a tree that is too low for
/// a trunk, or somewhere in the upper half of the layers, or a node in the next
/// layer that is not what it must be there.
pub proof fn law_refused_trunks(
    ops: Seq<Result<OpView, ProofError>>,
    tree: ProofTreeView,
    kv_only: bool,
    e: ProofError,
)
    requires
        executed(ops, false) == Ok::<(ProofTreeView, bool), ProofError>((tree, kv_only)),
        verified_trunk(ops) == Err::<(ProofTreeView, nat), ProofError>(e),
    ensures
        match e {
            ProofError::AbridgedHeightProof => exists|k: nat|
                0 < k && (#[trigger] subtree_at(tree, lefts(k)) matches Some(at)
                    && at.node is Hash),
            ProofError::IncompleteLeaf => proof_height(tree) / 2 < MIN_TRUNK_HEIGHT && !all_kv(
                nodes_of(tree),
            ),
            ProofError::AbridgedTrunkNode => exists|route: Seq<bool>|
                route.len() < proof_height(tree) / 2 && (#[trigger] subtree_at(
                    tree,
                    route,
                ) matches Some(at) && !(at.node is KV)),
            ProofError::UnabridgedTrunkLeaf => exists|route: Seq<bool>|
                route.len() == proof_height(tree) / 2 && route != lefts(proof_height(tree) / 2) && (
                #[trigger] subtree_at(tree, route) matches Some(at) && !(at.node is Hash)),
            ProofError::WrongLeftmostTrunkLeaf => subtree_at(
                tree,
                lefts(proof_height(tree) / 2),
            ) matches Some(at) && !(at.node is KVHash),
            _ => false,
        },
{
    law_executed_proofs(ops, false);
    lemma_height_proven(tree);
    let depth = proof_height(tree) / 2;
    if height_proven(tree) && depth >= MIN_TRUNK_HEIGHT {
        let route = lemma_incomplete(tree, depth, true);
        if e is WrongLeftmostTrunkLeaf {
            assert(route == lefts(depth));
        }
    }
}

/// Where what makes a trunk incomplete stands.
proof fn lemma_incomplete(tree: ProofTreeView, depth: nat, leftmost: bool) -> (route: Seq<bool>)
    requires
        completeness(tree, depth, leftmost) is Err,
    ensures
        subtree_at(tree, route) is Some,
        ({
            let node = subtree_at(tree, route)->0.node;
            match completeness(tree, depth, leftmost)->Err_0 {
                ProofError::AbridgedTrunkNode => route.len() < depth && !(node is KV),
                ProofError::UnabridgedTrunkLeaf => route.len() == depth && !(leftmost && route
                    == lefts(depth)) && !(node is Hash),
                ProofError::WrongLeftmostTrunkLeaf => leftmost && route == lefts(depth) && !(
                node is KVHash),
                _ => false,
            }
        }),
    decreases tree,
{
    assert(lefts(0) =~= seq![]);
    if depth == 0 || !(tree.node is KV) {
        seq![]
    } else {
        let d = (depth - 1) as nat;
        let left_fails = match tree.left {
            Some(child) => completeness(*child, d, leftmost) is Err,
            None => false,
        };
        let rest = if left_fails {
            lemma_incomplete(*tree.left->0, d, leftmost)
        } else {
            lemma_incomplete(*tree.right->0, d, false)
        };
        let route = seq![left_fails] + rest;
        assert(route.drop_first() =~= rest);
        lemma_step_left(route, depth);
        route
    }
}

} // verus!
