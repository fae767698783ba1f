//! In which order a batch is applied.
use crate::batch::apply::{propagation, ApplicationView, Stage};
use crate::batch::ops::{lemma_op_irreflexive, op_less, op_upper_bound, sorted, BatchOpView};
use crate::batch::path::{lemma_path_irreflexive, lemma_path_transitive, path_less};
use crate::batch::progress::{
    in_subtree, lemma_op_upper_bound_range, lemma_propagation_sorted, lemma_upper_bound_splits,
};
use crate::batch::runs::{
    is_first, is_run, is_whole_run, law_steps_stay_reachable, performed, with_propagation, written,
    Answer, RunStep,
};
use crate::batch::Op;
use crate::bytes::{lemma_lex_irreflexive, lemma_lex_total, lemma_lex_transitive, lex_less};
use crate::element::Element;
use crate::hash::NodeHash;
use crate::root_leaves::{
    has_leaf, keys_sorted, law_added_leaves, leaf_lower_bound, lemma_leaf_lower_bound_range,
    lemma_with_leaf_sorted, with_new_leaf,
};
use vstd::prelude::*;

verus! {

/// Whether nothing that is left lies behind an operation.
spec fn none_behind(state: ApplicationView, op: BatchOpView) -> bool {
    &&& forall|i: int| 0 <= i < state.ops.len() ==> !op_less(op, #[trigger] state.ops[i])
    &&& state.pending matches Some(pending) ==> !op_less(op, pending)
    &&& in_subtree(state) ==> !path_less(op.path, state.path)
}

/// Whether nothing that is left lies behind the pending operation.
spec fn pending_is_last(state: ApplicationView) -> bool {
    state.pending matches Some(pending) ==> none_behind(state, pending)
}

/// Taking the operation at the back leaves nothing behind it, nor behind what nothing
/// was behind.
proof fn lemma_take_order(state: ApplicationView, op: BatchOpView)
    requires
        sorted(state.ops),
        state.pending is None,
        state.open ==> state.path.len() > 0 && state.ops.len() > 0 && state.ops.last().path
            == state.path,
    ensures
        (forall|i: int| 0 <= i < state.ops.len() ==> !op_less(op, #[trigger] state.ops[i]))
            ==> none_behind(state.take().1, op),
        pending_is_last(state.take().1),
        performed(state.take().0) is None,
    decreases state.ops.len(),
{
    if state.ops.len() > 0 {
        let last = state.ops.last();
        let rest = state.ops.drop_last();
        assert forall|i: int, j: int| 0 <= i < j < rest.len() implies !op_less(
            #[trigger] rest[j],
            #[trigger] rest[i],
        ) by {
            assert(!op_less(state.ops[j], state.ops[i]));
        }
        assert forall|i: int| 0 <= i < rest.len() implies !op_less(last, #[trigger] rest[i]) by {
            assert(!op_less(state.ops[state.ops.len() - 1], state.ops[i]));
        }
        lemma_op_irreflexive(last);
        lemma_path_irreflexive(last.path);
        if forall|i: int| 0 <= i < state.ops.len() ==> !op_less(op, #[trigger] state.ops[i]) {
            assert(!op_less(op, state.ops[state.ops.len() - 1]));
            assert forall|i: int| 0 <= i < rest.len() implies !op_less(op, #[trigger] rest[i]) by {
                assert(!op_less(op, state.ops[i]));
            }
        }
        if last.path.len() == 0 {
            let next = ApplicationView {
                ops: rest,
                leaves: with_new_leaf(state.leaves, last.key),
                path: seq![],
                ..state
            };
            assert(state.take() == next.take());
            lemma_take_order(next, op);
        }
    }
}

/// What a root hash goes up by lies before what was done.
proof fn lemma_hashed_order(state: ApplicationView, hash: NodeHash, op: BatchOpView)
    requires
        state.reachable(),
        state.stage == Stage::Hashing,
    ensures
        none_behind(state, op) ==> none_behind(state.hashed(hash).1, op),
        pending_is_last(state.hashed(hash).1),
        performed(state.hashed(hash).0) is None,
{
    let up = propagation(state.path, hash);
    let position = op_upper_bound(state.ops, up) as int;
    lemma_op_upper_bound_range(state.ops, up);
    lemma_propagation_sorted(state.ops, up);
    let now = state.ops.insert(position, up);
    assert(path_less(up.path, state.path));
    if none_behind(state, op) {
        assert forall|i: int| 0 <= i < now.len() implies !op_less(op, #[trigger] now[i]) by {
            if i < position {
                assert(now[i] == state.ops[i]);
            } else if i > position {
                assert(now[i] == state.ops[i - 1]);
            } else if op_less(op, up) {
                if path_less(op.path, up.path) {
                    lemma_path_transitive(op.path, up.path, state.path);
                }
            }
        }
    }
    lemma_take_order(with_propagation(state, hash), op);
}

/// A step keeps the order, and performs an operation that nothing is behind.
proof fn lemma_step_order(step: RunStep, op: BatchOpView)
    requires
        step.before.reachable(),
        step.valid(),
        pending_is_last(step.before),
    ensures
        none_behind(step.before, op) ==> none_behind(step.after, op),
        pending_is_last(step.after),
        performed(step.action) matches Some(done) ==> none_behind(step.after, done) && (none_behind(
            step.before,
            op,
        ) ==> !op_less(op, done)),
{
    let before = step.before;
    let ready = ApplicationView { stage: Stage::Ready, ..before };
    let moved = ready.path.len() > 0 && (ready.ops.len() == 0 || ready.ops.last().path
        != ready.path);
    if before.stage == Stage::Ready || before.stage == Stage::Writing {
        assert(before.stage == Stage::Ready ==> ready == before);
        if !moved {
            lemma_take_order(ready, op);
        }
    }
    if let Answer::RootHash(hash) = step.answer {
        lemma_hashed_order(before, hash, op);
    }
    if let Some(done) = performed(step.action) {
        assert(before.pending is Some);
        assert(done == before.pending->0);
    }
}

/// What was performed so far has nothing behind it.
proof fn lemma_run_order(steps: Seq<RunStep>, n: int)
    requires
        is_run(steps),
        is_first(steps[0].before),
        0 <= n <= steps.len(),
    ensures
        n > 0 ==> steps[n - 1].after.reachable() && pending_is_last(steps[n - 1].after),
        n > 0 ==> forall|i: int|
            0 <= i < written(steps.take(n)).len() ==> none_behind(
                steps[n - 1].after,
                #[trigger] written(steps.take(n))[i],
            ),
        forall|i: int, j: int|
            0 <= i < j < written(steps.take(n)).len() ==> !op_less(
                #[trigger] written(steps.take(n))[i],
                #[trigger] written(steps.take(n))[j],
            ),
    decreases n,
{
    if n > 0 {
        lemma_run_order(steps, n - 1);
        let step = steps[n - 1];
        assert(step.valid());
        if n > 1 {
            assert(steps[n - 1].before == steps[n - 2].after);
        } else {
            assert(steps.take(0) =~= seq![]);
        }
        law_steps_stay_reachable(step);
        let all = steps.take(n);
        assert(all.drop_last() =~= steps.take(n - 1));
        assert(all.last() == step);
        let before = written(steps.take(n - 1));
        let now = written(all);
        lemma_step_order(step, arbitrary());
        assert forall|i: int| 0 <= i < now.len() implies none_behind(step.after, #[trigger] now[i]) by {
            if i < before.len() {
                assert(now[i] == before[i]);
                assert(none_behind(step.before, before[i]));
                lemma_step_order(step, before[i]);
            }
        }
        assert forall|i: int, j: int| 0 <= i < j < now.len() implies !op_less(
            #[trigger] now[i],
            #[trigger] now[j],
        ) by {
            assert(now[i] == before[i]);
            if j < before.len() {
                assert(now[j] == before[j]);
            } else {
                assert(none_behind(step.before, before[i]));
                lemma_step_order(step, before[i]);
            }
        }
    } else {
        assert(steps.take(0) =~= seq![]);
    }
}

/// Operations are performed from the back to the front: none is performed before one
/// that stands behind it in the order of operations, be it of the batch or one by
/// which a root hash goes up. So deeper subtrees come first, and in each of them
/// the greater keys, and under one key the insertion comes before the deletion.
pub proof fn law_operations_are_performed_from_the_back(steps: Seq<RunStep>, i: int, j: int)
    requires
        is_whole_run(steps),
        0 <= i < j < written(steps).len(),
    ensures
        !op_less(written(steps)[i], written(steps)[j]),
{
    lemma_run_order(steps, steps.len() as int);
    assert(steps.take(steps.len() as int) =~= steps);
}

/// Taking operations on the root tree, the greatest key first, gives new leaves their
/// indexes in this order.
proof fn lemma_take_root_leaves(state: ApplicationView, a: (Seq<u8>, usize), b: (Seq<u8>, usize))
    requires
        sorted(state.ops),
        keys_sorted(state.leaves),
        forall|i: int| 0 <= i < state.ops.len() ==> (#[trigger] state.ops[i]).path.len() == 0,
        state.take().1.leaves.len() < usize::MAX,
    ensures
        keys_sorted(state.take().1.leaves),
        state.leaves.len() <= state.take().1.leaves.len(),
        state.take().0 is Done,
        state.leaves.contains(a) ==> state.take().1.leaves.contains(a),
        state.take().1.leaves.contains(a) && !state.leaves.contains(a) ==> {
            &&& state.leaves.len() <= a.1
            &&& state.ops.len() > 0
            &&& !lex_less(state.ops.last().key, a.0)
        },
        state.take().1.leaves.contains(a) && !state.leaves.contains(a)
            && state.take().1.leaves.contains(b) && !state.leaves.contains(b) && lex_less(a.0, b.0)
            ==> b.1 < a.1,
    decreases state.ops.len(),
{
    if state.ops.len() > 0 {
        let op = state.ops.last();
        let rest = state.ops.drop_last();
        assert(state.ops[state.ops.len() - 1].path.len() == 0);
        let next = ApplicationView {
            ops: rest,
            leaves: with_new_leaf(state.leaves, op.key),
            path: seq![],
            ..state
        };
        assert(state.take() == next.take());
        assert forall|i: int, j: int| 0 <= i < j < rest.len() implies !op_less(
            #[trigger] rest[j],
            #[trigger] rest[i],
        ) by {
            assert(!op_less(state.ops[j], state.ops[i]));
        }
        assert forall|i: int| 0 <= i < rest.len() implies (#[trigger] rest[i]).path.len() == 0 by {
            assert(state.ops[i].path.len() == 0);
        }
        lemma_with_leaf_sorted(state.leaves, op.key, state.leaves.len() as usize);
        lemma_take_lengths(next);
        lemma_new_length(state.leaves, op.key);
        lemma_take_root_leaves(next, a, b);
        lemma_take_root_leaves(next, b, a);
        law_added_leaves(state.leaves, op.key, a);
        law_added_leaves(state.leaves, op.key, b);
        if rest.len() > 0 {
            let last = rest.last();
            assert(!op_less(state.ops[state.ops.len() - 1], state.ops[state.ops.len() - 2]));
            assert(last.path =~= op.path);
            assert(!lex_less(op.key, last.key));
            lemma_not_below(op.key, last.key, a.0);
            lemma_not_below(op.key, last.key, b.0);
        }
        lemma_lex_irreflexive(op.key);
    }
}

/// What is not above a key that is not above another one is not above that one.
proof fn lemma_not_below(high: Seq<u8>, low: Seq<u8>, key: Seq<u8>)
    requires
        !lex_less(high, low),
    ensures
        !lex_less(low, key) ==> !lex_less(high, key),
{
    lemma_lex_total(high, low);
    lemma_lex_total(low, key);
    if lex_less(high, key) && !lex_less(low, key) {
        if lex_less(low, high) {
            lemma_lex_transitive(low, high, key);
        }
    }
}

/// A new leaf makes the list longer by one at most, and only where its key is new.
proof fn lemma_new_length(leaves: Seq<(Seq<u8>, usize)>, key: Seq<u8>)
    ensures
        with_new_leaf(leaves, key).len() == if has_leaf(leaves, key) {
            leaves.len()
        } else {
            leaves.len() + 1
        },
{
    let position = leaf_lower_bound(leaves, key) as int;
    lemma_leaf_lower_bound_range(leaves, key);
    if !has_leaf(leaves, key) && position < leaves.len() {
        assert(leaves[position].0 != key);
    }
}

/// Taking operations makes the list of leaves no shorter.
proof fn lemma_take_lengths(state: ApplicationView)
    ensures
        state.leaves.len() <= state.take().1.leaves.len(),
    decreases state.ops.len(),
{
    if state.ops.len() > 0 && state.ops.last().path.len() == 0 {
        let next = ApplicationView {
            ops: state.ops.drop_last(),
            leaves: with_new_leaf(state.leaves, state.ops.last().key),
            path: seq![],
            ..state
        };
        assert(state.take() == next.take());
        lemma_new_length(state.leaves, state.ops.last().key);
        lemma_take_lengths(next);
    }
}

/// Where root leaves are added, all that is left are operations on the root tree.
proof fn lemma_take_either(state: ApplicationView)
    requires
        sorted(state.ops),
    ensures
        state.take().1.leaves != state.leaves ==> forall|i: int|
            0 <= i < state.ops.len() ==> (#[trigger] state.ops[i]).path.len() == 0,
{
    if state.ops.len() > 0 && state.ops.last().path.len() == 0 {
        assert forall|i: int| 0 <= i < state.ops.len() implies (
        #[trigger] state.ops[i]).path.len() == 0 by {
            let last = state.ops.len() - 1;
            if i < last {
                assert(!op_less(state.ops[last], state.ops[i]));
            }
        }
    }
}

/// In a step either no root leaf is added, or all are, and it is the last step.
proof fn lemma_step_leaves(step: RunStep, a: (Seq<u8>, usize), b: (Seq<u8>, usize))
    requires
        step.before.reachable(),
        step.valid(),
        step.after.leaves.len() < usize::MAX,
        step.after.leaves.contains(a),
        !step.before.leaves.contains(a),
        step.after.leaves.contains(b),
        !step.before.leaves.contains(b),
        lex_less(a.0, b.0),
    ensures
        b.1 < a.1,
{
    let before = step.before;
    let ready = ApplicationView { stage: Stage::Ready, ..before };
    let moved = ready.path.len() > 0 && (ready.ops.len() == 0 || ready.ops.last().path
        != ready.path);
    if before.stage == Stage::Ready || before.stage == Stage::Writing {
        assert(before.stage == Stage::Ready ==> ready == before);
        if !moved {
            lemma_take_either(ready);
            lemma_take_root_leaves(ready, a, b);
        }
    }
    if let Answer::RootHash(hash) = step.answer {
        lemma_propagation_sorted(before.ops, propagation(before.path, hash));
        let next = with_propagation(before, hash);
        lemma_take_either(next);
        lemma_take_root_leaves(next, a, b);
    }
}

/// Where root leaves are added, all operations have been applied.
proof fn lemma_step_adds_last(step: RunStep)
    requires
        step.before.reachable(),
        step.valid(),
        step.after.leaves != step.before.leaves,
        step.after.leaves.len() < usize::MAX,
    ensures
        step.after.stage == Stage::Finished,
{
    let before = step.before;
    let ready = ApplicationView { stage: Stage::Ready, ..before };
    let moved = ready.path.len() > 0 && (ready.ops.len() == 0 || ready.ops.last().path
        != ready.path);
    law_steps_stay_reachable(step);
    if before.stage == Stage::Ready || before.stage == Stage::Writing {
        assert(before.stage == Stage::Ready ==> ready == before);
        if !moved {
            lemma_take_either(ready);
            lemma_take_root_leaves(ready, arbitrary(), arbitrary());
        }
    }
    if let Answer::RootHash(hash) = step.answer {
        lemma_propagation_sorted(before.ops, propagation(before.path, hash));
        let next = with_propagation(before, hash);
        lemma_take_either(next);
        lemma_take_root_leaves(next, arbitrary(), arbitrary());
    }
}

/// Before the last step no root leaf is added.
proof fn lemma_run_leaves(steps: Seq<RunStep>, n: int)
    requires
        is_whole_run(steps),
        0 <= n < steps.len(),
        forall|i: int| 0 <= i < steps.len() ==> (#[trigger] steps[i]).after.leaves.len() < usize::MAX,
    ensures
        steps[n].before.reachable(),
        steps[n].before.leaves == steps[0].before.leaves,
    decreases n,
{
    if n > 0 {
        lemma_run_leaves(steps, n - 1);
        let step = steps[n - 1];
        assert(step.valid());
        assert(steps[n].valid());
        assert(steps[n].before == step.after);
        law_steps_stay_reachable(step);
        assert(step.after.leaves.len() < usize::MAX);
        if step.after.leaves != step.before.leaves {
            lemma_step_adds_last(step);
        }
    }
}

/// The root leaves that a batch adds get their indexes from the greatest key to the
/// smallest: of two new ones, the one with the greater key has the smaller index.
pub proof fn law_new_root_leaves_are_indexed_from_the_back(
    steps: Seq<RunStep>,
    a: (Seq<u8>, usize),
    b: (Seq<u8>, usize),
)
    requires
        is_whole_run(steps),
        forall|i: int| 0 <= i < steps.len() ==> (#[trigger] steps[i]).after.leaves.len() < usize::MAX,
        steps.last().after.leaves.contains(a),
        !steps[0].before.leaves.contains(a),
        steps.last().after.leaves.contains(b),
        !steps[0].before.leaves.contains(b),
        lex_less(a.0, b.0),
    ensures
        b.1 < a.1,
{
    let n = steps.len() - 1;
    lemma_run_leaves(steps, n);
    assert(steps[n].valid());
    assert(steps[n].after.leaves.len() < usize::MAX);
    lemma_step_leaves(steps[n], a, b);
}

/// The operations that are left, in order, with the pending one behind the others.
pub open spec fn left_in_order(state: ApplicationView) -> Seq<BatchOpView> {
    match state.pending {
        Some(op) => state.ops.push(op),
        None => state.ops,
    }
}

/// The root hash of a subtree goes into its parent before the batch's own insertion at
/// this place, if there is one: of the operations that are left, none at this place
/// stands behind the one by which the hash goes up, and so it is performed first.
pub proof fn law_root_hashes_go_up_before_insertions(
    step: RunStep,
    path: Seq<Seq<u8>>,
    hash: NodeHash,
) -> (at: int)
    requires
        step.before.reachable(),
        step.valid(),
        step.answer == Answer::RootHash(hash),
        step.before.path == path,
        path.len() > 1,
    ensures
        ({
            let ops = left_in_order(step.after);
            &&& 0 <= at < ops.len()
            &&& ops.len() == step.before.ops.len() + 1
            &&& ops[at].path == path.take(path.len() - 1)
            &&& ops[at].key == path[path.len() - 1]
            &&& ops[at].op == (Op::Insert { element: Element::Tree(hash, None) })
            &&& forall|k: int|
                at < k < ops.len() ==> (#[trigger] ops[k]).path != ops[at].path || ops[k].key
                    != ops[at].key
            &&& forall|k: int| 0 <= k < at ==> #[trigger] ops[k] == step.before.ops[k]
            &&& forall|k: int| at < k < ops.len() ==> #[trigger] ops[k] == step.before.ops[k - 1]
        }),
{
    let before = step.before;
    let up = propagation(path, hash);
    let position = op_upper_bound(before.ops, up) as int;
    lemma_upper_bound_splits(before.ops, up);
    lemma_propagation_sorted(before.ops, up);
    let now = before.ops.insert(position, up);
    let next = with_propagation(before, hash);
    assert(up.path =~= path.take(path.len() - 1));
    let last = now.len() - 1;
    if now[last].path.len() == 0 {
        assert(position < last);
        assert(!op_less(now[last], now[position]));
    }
    assert(now.drop_last().push(now.last()) =~= now);
    assert(left_in_order(next.take().1) =~= now);
    lemma_path_irreflexive(up.path);
    lemma_lex_irreflexive(up.key);
    assert forall|k: int| position < k < now.len() implies (#[trigger] now[k]).path != up.path
        || now[k].key != up.key by {
        assert(now[k] == before.ops[k - 1]);
        assert(op_less(up, before.ops[k - 1]));
    }
    position
}

} // verus!
