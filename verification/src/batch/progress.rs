//! What the steps of the application of a batch come to.
use crate::batch::apply::{propagation, ActionView, ApplicationView, Stage};
use crate::batch::ops::{
    lemma_op_irreflexive, lemma_op_less_weak, lemma_op_transitive, op_less, op_upper_bound, sorted,
    BatchOpView,
};
use crate::batch::path::{
    lemma_path_irreflexive, lemma_path_total, lemma_path_transitive, path_less,
};
use crate::hash::NodeHash;
use crate::root_leaves::{has_leaf, leaf_lower_bound, lemma_leaf_lower_bound_range, with_new_leaf};
use vstd::prelude::*;

verus! {

/// How much work an operation in a subtree at a given depth can be: itself, and
/// the root hashes that go up from there.
pub open spec fn op_work(op: BatchOpView) -> nat {
    3 * op.path.len() + 1
}

/// How much work a list of operations can be.
pub open spec fn ops_work(ops: Seq<BatchOpView>) -> nat
    decreases ops.len(),
{
    if ops.len() == 0 {
        0
    } else {
        ops_work(ops.drop_last()) + op_work(ops.last())
    }
}

/// How much work is left: the operations, and the root hash of the subtree that
/// is open or to be opened.
pub open spec fn work(state: ApplicationView) -> nat {
    ops_work(state.ops) + if in_subtree(state) {
        (3 * state.path.len() - 1) as nat
    } else {
        0
    }
}

/// Whether a subtree is open or to be opened.
pub open spec fn in_subtree(state: ApplicationView) -> bool {
    state.path.len() > 0 && (state.open || state.pending is Some)
}

/// How many stages are left before some work is done.
pub open spec fn stages_left(stage: Stage) -> nat {
    match stage {
        Stage::Opening => 6,
        Stage::Reading => 5,
        Stage::Clearing => 4,
        Stage::Writing => 3,
        Stage::Ready => 2,
        Stage::Hashing => 1,
        Stage::Finished => 0,
    }
}

/// Whether less is left in a state than in another one.
pub open spec fn less_left(after: ApplicationView, before: ApplicationView) -> bool {
    work(after) < work(before) || (work(after) == work(before) && stages_left(after.stage)
        < stages_left(before.stage))
}

/// An operation more adds its work.
proof fn lemma_ops_work_insert(ops: Seq<BatchOpView>, position: int, op: BatchOpView)
    requires
        0 <= position <= ops.len(),
    ensures
        ops_work(ops.insert(position, op)) == ops_work(ops) + op_work(op),
    decreases ops.len(),
{
    let now = ops.insert(position, op);
    if position == ops.len() {
        assert(now.drop_last() =~= ops);
    } else {
        lemma_ops_work_insert(ops.drop_last(), position, op);
        assert(now.drop_last() =~= ops.drop_last().insert(position, op));
        assert(now.last() == ops.last());
    }
}

/// An upper bound is a position in the list or its end.
pub proof fn lemma_op_upper_bound_range(ops: Seq<BatchOpView>, op: BatchOpView)
    ensures
        op_upper_bound(ops, op) <= ops.len(),
    decreases ops.len(),
{
    if ops.len() > 0 {
        lemma_op_upper_bound_range(ops.drop_last(), op);
    }
}

/// Taking the operation at the back leaves less work.
proof fn lemma_take_progress(state: ApplicationView)
    requires
        state.ops.len() > 0,
        state.pending is None,
        state.open ==> state.path.len() > 0 && state.ops.last().path == state.path,
    ensures
        work(state.take().1) < work(state),
    decreases state.ops.len(),
{
    let op = state.ops.last();
    if op.path.len() == 0 {
        let next = ApplicationView {
            ops: state.ops.drop_last(),
            leaves: with_new_leaf(state.leaves, op.key),
            path: seq![],
            ..state
        };
        assert(state.take() == next.take());
        if next.ops.len() > 0 {
            lemma_take_progress(next);
        }
    }
}

/// The application of a batch comes to an end: whatever storage answers, every
/// step leaves less work, or as much work and fewer stages before some is done.
pub proof fn law_application_makes_progress(state: ApplicationView, hash: NodeHash)
    requires
        state.reachable(),
    ensures
        state.stage == Stage::Ready && (state.open || state.ops.len() > 0) ==> less_left(
            state.proceed().1,
            state,
        ),
        state.stage == Stage::Hashing ==> less_left(state.hashed(hash).1, state),
        state.stage == Stage::Opening ==> less_left(state.opened().1, state),
        state.stage == Stage::Reading ==> less_left(state.clearing().1, state),
        state.stage == Stage::Reading || state.stage == Stage::Clearing ==> less_left(
            state.writing().1,
            state,
        ),
        state.stage == Stage::Writing ==> less_left(state.written().1, state),
{
    if state.stage == Stage::Ready {
        if !(state.path.len() > 0 && (state.ops.len() == 0 || state.ops.last().path != state.path)) {
            if state.ops.len() > 0 {
                lemma_take_progress(state);
            }
        }
    }
    if state.stage == Stage::Hashing {
        let op = propagation(state.path, hash);
        let position = op_upper_bound(state.ops, op) as int;
        lemma_op_upper_bound_range(state.ops, op);
        lemma_ops_work_insert(state.ops, position, op);
        let next = ApplicationView {
            ops: state.ops.insert(position, op),
            open: false,
            ..state
        };
        lemma_take_progress(next);
    }
    if state.stage == Stage::Writing {
        let ready = ApplicationView { stage: Stage::Ready, ..state };
        if !(ready.path.len() > 0 && (ready.ops.len() == 0 || ready.ops.last().path != ready.path)) {
            lemma_take_progress(ready);
        }
    }
}

/// The root leaf that an operation lies under, or is about.
pub open spec fn root_of(op: BatchOpView) -> Seq<u8> {
    if op.path.len() == 0 {
        op.key
    } else {
        op.path[0]
    }
}

/// Whether some operation in a list lies under a root leaf, or is about it.
pub open spec fn some_under(ops: Seq<BatchOpView>, root: Seq<u8>) -> bool {
    exists|i: int| 0 <= i < ops.len() && root_of(#[trigger] ops[i]) == root
}

/// Whether a root leaf is there, or will come of what is left.
pub open spec fn accounted(state: ApplicationView, root: Seq<u8>) -> bool {
    ||| has_leaf(state.leaves, root)
    ||| some_under(state.ops, root)
    ||| in_subtree(state) && state.path[0] == root
}

/// Adding a leaf adds its key and keeps the other keys.
pub proof fn lemma_with_new_leaf(leaves: Seq<(Seq<u8>, usize)>, key: Seq<u8>, root: Seq<u8>)
    ensures
        has_leaf(with_new_leaf(leaves, key), root) <==> has_leaf(leaves, root) || root == key,
{
    let position = leaf_lower_bound(leaves, key) as int;
    let index = leaves.len() as usize;
    lemma_leaf_lower_bound_range(leaves, key);
    if !has_leaf(leaves, key) {
        if position < leaves.len() {
            assert(leaves[position].0 != key);
        }
        let now = leaves.insert(position, (key, index));
        assert(with_new_leaf(leaves, key) == now);
        assert(now[position].0 == key);
        if has_leaf(leaves, root) {
            let i = choose|i: int| 0 <= i < leaves.len() && (#[trigger] leaves[i]).0 == root;
            if i < position {
                assert(now[i].0 == root);
            } else {
                assert(now[i + 1].0 == root);
            }
        }
        if has_leaf(now, root) && root != key {
            let i = choose|i: int| 0 <= i < now.len() && (#[trigger] now[i]).0 == root;
            if i < position {
                assert(leaves[i].0 == root);
            } else {
                assert(leaves[i - 1].0 == root);
            }
        }
    }
}

/// Taking the operation at the back loses no root leaf.
proof fn lemma_take_accounts(state: ApplicationView, root: Seq<u8>)
    requires
        state.pending is None,
        state.open ==> state.path.len() > 0 && state.ops.len() > 0 && state.ops.last().path
            == state.path,
        has_leaf(state.leaves, root) || some_under(state.ops, root),
    ensures
        accounted(state.take().1, root),
    decreases state.ops.len(),
{
    if state.ops.len() > 0 {
        let op = state.ops.last();
        let rest = state.ops.drop_last();
        if some_under(state.ops, root) && root_of(op) != root {
            let i = choose|i: int|
                0 <= i < state.ops.len() && root_of(#[trigger] state.ops[i]) == root;
            assert(rest[i] == state.ops[i]);
        }
        if op.path.len() == 0 {
            let next = ApplicationView {
                ops: rest,
                leaves: with_new_leaf(state.leaves, op.key),
                path: seq![],
                ..state
            };
            assert(state.take() == next.take());
            lemma_with_new_leaf(state.leaves, op.key, root);
            lemma_take_accounts(next, root);
        }
    }
}

/// Everything that a batch touches ends up under a root leaf: a root leaf that is
/// there, or under which some operation lies, stays accounted for in every step,
/// and when all operations have been applied, it is there.
pub proof fn law_touched_roots_become_leaves(
    state: ApplicationView,
    hash: NodeHash,
    root: Seq<u8>,
)
    requires
        state.reachable(),
        accounted(state, root),
    ensures
        state.stage == Stage::Ready ==> accounted(state.proceed().1, root),
        state.stage == Stage::Hashing ==> accounted(state.hashed(hash).1, root),
        state.stage == Stage::Opening ==> accounted(state.opened().1, root),
        state.stage == Stage::Reading ==> accounted(state.clearing().1, root),
        state.stage == Stage::Reading || state.stage == Stage::Clearing ==> accounted(
            state.writing().1,
            root,
        ),
        state.stage == Stage::Writing ==> accounted(state.written().1, root),
        state.stage == Stage::Finished ==> has_leaf(state.leaves, root),
{
    let ready = ApplicationView { stage: Stage::Ready, ..state };
    if state.stage == Stage::Ready || state.stage == Stage::Writing {
        if !(ready.path.len() > 0 && (ready.ops.len() == 0 || ready.ops.last().path != ready.path)) {
            if ready.open && ready.path[0] == root {
                assert(root_of(ready.ops[ready.ops.len() - 1]) == root);
            }
            lemma_take_accounts(ready, root);
            assert(state.stage == Stage::Ready ==> ready == state);
        }
    }
    if state.stage == Stage::Hashing {
        let op = propagation(state.path, hash);
        let position = op_upper_bound(state.ops, op) as int;
        lemma_op_upper_bound_range(state.ops, op);
        let now = state.ops.insert(position, op);
        let next = ApplicationView { ops: now, open: false, ..state };
        assert(now[position] == op);
        assert(root_of(op) == state.path[0]) by {
            if state.path.len() == 1 {
                assert(state.path.last() == state.path[0]);
            } else {
                assert(state.path.drop_last()[0] == state.path[0]);
            }
        }
        if some_under(state.ops, root) {
            let i = choose|i: int|
                0 <= i < state.ops.len() && root_of(#[trigger] state.ops[i]) == root;
            if i < position {
                assert(now[i] == state.ops[i]);
            } else {
                assert(now[i + 1] == state.ops[i]);
            }
        }
        lemma_take_accounts(next, root);
    }
}

/// In a sorted list, an operation is below nothing before its upper bound, and
/// below everything from it on.
pub proof fn lemma_upper_bound_splits(ops: Seq<BatchOpView>, op: BatchOpView)
    requires
        sorted(ops),
    ensures
        op_upper_bound(ops, op) <= ops.len(),
        forall|i: int| 0 <= i < op_upper_bound(ops, op) ==> !op_less(op, #[trigger] ops[i]),
        forall|i: int| op_upper_bound(ops, op) <= i < ops.len() ==> op_less(op, #[trigger] ops[i]),
    decreases ops.len(),
{
    if ops.len() > 0 {
        let short = ops.drop_last();
        let last = ops.last();
        assert forall|i: int, j: int| 0 <= i < j < short.len() implies !op_less(
            #[trigger] short[j],
            #[trigger] short[i],
        ) by {
            assert(!op_less(ops[j], ops[i]));
        }
        lemma_upper_bound_splits(short, op);
        if !op_less(op, last) {
            assert forall|i: int| 0 <= i < ops.len() implies !op_less(op, #[trigger] ops[i]) by {
                if i < short.len() && op_less(op, ops[i]) {
                    assert(!op_less(ops[ops.len() - 1], ops[i]));
                    lemma_op_less_weak(op, ops[i], last);
                }
            }
        } else {
            let bound = op_upper_bound(ops, op);
            assert forall|i: int| 0 <= i < bound implies !op_less(op, #[trigger] ops[i]) by {
                assert(!op_less(op, short[i]));
            }
            assert forall|i: int| bound <= i < ops.len() implies op_less(op, #[trigger] ops[i]) by {
                if i < short.len() {
                    assert(op_less(op, short[i]));
                }
            }
        }
    }
}

/// Putting an operation at its upper bound keeps a list sorted.
pub proof fn lemma_propagation_sorted(ops: Seq<BatchOpView>, op: BatchOpView)
    requires
        sorted(ops),
    ensures
        op_upper_bound(ops, op) <= ops.len(),
        sorted(ops.insert(op_upper_bound(ops, op) as int, op)),
{
    let bound = op_upper_bound(ops, op) as int;
    let now = ops.insert(bound, op);
    lemma_upper_bound_splits(ops, op);
    assert forall|i: int, j: int| 0 <= i < j < now.len() implies !op_less(
        #[trigger] now[j],
        #[trigger] now[i],
    ) by {
        let a = if i < bound {
            i
        } else {
            i - 1
        };
        let b = if j < bound {
            j
        } else {
            j - 1
        };
        if i != bound && j != bound {
            assert(!op_less(ops[b], ops[a]));
        } else if i == bound {
            assert(op_less(op, ops[b]));
            if op_less(ops[b], op) {
                lemma_op_transitive(op, ops[b], op);
                lemma_op_irreflexive(op);
            }
        } else {
            assert(!op_less(op, ops[a]));
        }
    }
}

/// Whether all that is left to do lies before a path: the operations, and the
/// subtree that is open or to be opened.
pub open spec fn all_before(state: ApplicationView, path: Seq<Seq<u8>>) -> bool {
    &&& forall|i: int| 0 <= i < state.ops.len() ==> path_less((#[trigger] state.ops[i]).path, path)
    &&& in_subtree(state) ==> path_less(state.path, path)
}

/// Whether what storage is asked for lies before a path: the subtree that is
/// opened, hashed, read or written or, where a subtree is cleared, the subtree
/// that holds it.
pub open spec fn asks_before(action: ActionView, path: Seq<Seq<u8>>) -> bool {
    match action {
        ActionView::TakeRootHash(at) => path_less(at, path),
        ActionView::OpenSubtree(at) => path_less(at, path),
        ActionView::GetElement(at, _) => path_less(at, path),
        ActionView::ClearSubtree(at) => at.len() > 0 && path_less(at.drop_last(), path),
        ActionView::InsertElement(at, _, _) => path_less(at, path),
        ActionView::DeleteElement(at, _) => path_less(at, path),
        ActionView::Done => true,
    }
}

/// Whether no operation that is left lies behind the subtree of the latest one.
pub open spec fn deepest_first(state: ApplicationView) -> bool {
    forall|i: int|
        0 <= i < state.ops.len() ==> !path_less(state.path, (#[trigger] state.ops[i]).path)
}

/// Taking the operation at the back leaves no operation behind it.
proof fn lemma_take_deepest_first(state: ApplicationView)
    requires
        sorted(state.ops),
        state.ops.len() > 0,
    ensures
        deepest_first(state.take().1),
    decreases state.ops.len(),
{
    let op = state.ops.last();
    let rest = state.ops.drop_last();
    assert forall|i: int| 0 <= i < rest.len() implies !path_less(
        op.path,
        (#[trigger] rest[i]).path,
    ) by {
        assert(!op_less(state.ops[state.ops.len() - 1], state.ops[i]));
    }
    if op.path.len() == 0 {
        let next = ApplicationView {
            ops: rest,
            leaves: with_new_leaf(state.leaves, op.key),
            path: seq![],
            ..state
        };
        assert(state.take() == next.take());
        if rest.len() > 0 {
            assert forall|i: int, j: int| 0 <= i < j < rest.len() implies !op_less(
                #[trigger] rest[j],
                #[trigger] rest[i],
            ) by {
                assert(!op_less(state.ops[j], state.ops[i]));
            }
            lemma_take_deepest_first(next);
        }
    }
}

/// Taking the operation at the back moves nothing behind a path.
proof fn lemma_take_all_before(state: ApplicationView, path: Seq<Seq<u8>>)
    requires
        state.pending is None,
        forall|i: int| 0 <= i < state.ops.len() ==> path_less((#[trigger] state.ops[i]).path, path),
        state.open ==> state.path.len() > 0 && state.ops.len() > 0 && state.ops.last().path
            == state.path,
    ensures
        all_before(state.take().1, path),
        asks_before(state.take().0, path),
    decreases state.ops.len(),
{
    if state.ops.len() > 0 {
        let op = state.ops.last();
        let rest = state.ops.drop_last();
        assert(path_less(state.ops[state.ops.len() - 1].path, path));
        assert forall|i: int| 0 <= i < rest.len() implies path_less((#[trigger] rest[i]).path, path) by {
            assert(rest[i] == state.ops[i]);
        }
        if op.path.len() == 0 {
            let next = ApplicationView {
                ops: rest,
                leaves: with_new_leaf(state.leaves, op.key),
                path: seq![],
                ..state
            };
            assert(state.take() == next.take());
            lemma_take_all_before(next, path);
        }
    }
}

/// Deeper subtrees come first: no operation that is left ever lies behind the
/// subtree of the latest one. So when the root hash of a subtree is taken, all
/// operations that are left lie before it.
pub proof fn law_deepest_subtrees_come_first(state: ApplicationView, hash: NodeHash)
    requires
        state.reachable(),
        deepest_first(state),
    ensures
        state.stage == Stage::Ready ==> deepest_first(state.proceed().1),
        state.stage == Stage::Hashing ==> deepest_first(state.hashed(hash).1),
        state.stage == Stage::Opening ==> deepest_first(state.opened().1),
        state.stage == Stage::Reading ==> deepest_first(state.clearing().1),
        state.stage == Stage::Reading || state.stage == Stage::Clearing ==> deepest_first(
            state.writing().1,
        ),
        state.stage == Stage::Writing ==> deepest_first(state.written().1),
        state.stage == Stage::Hashing ==> forall|i: int|
            0 <= i < state.ops.len() ==> path_less((#[trigger] state.ops[i]).path, state.path),
{
    let ready = ApplicationView { stage: Stage::Ready, ..state };
    if state.stage == Stage::Ready || state.stage == Stage::Writing {
        assert(state.stage == Stage::Ready ==> ready == state);
        if !(ready.path.len() > 0 && (ready.ops.len() == 0 || ready.ops.last().path != ready.path)) {
            if ready.ops.len() > 0 {
                lemma_take_deepest_first(ready);
            }
        }
    }
    if state.stage == Stage::Hashing {
        let op = propagation(state.path, hash);
        let position = op_upper_bound(state.ops, op) as int;
        lemma_propagation_sorted(state.ops, op);
        let next = ApplicationView {
            ops: state.ops.insert(position, op),
            open: false,
            ..state
        };
        lemma_take_deepest_first(next);
        assert forall|i: int| 0 <= i < state.ops.len() implies path_less(
            (#[trigger] state.ops[i]).path,
            state.path,
        ) by {
            lemma_path_total(state.ops[i].path, state.path);
            if state.ops[i].path == state.path {
                let last = state.ops.len() - 1;
                lemma_path_total(state.ops[last].path, state.path);
                assert(!path_less(state.path, state.ops[last].path));
                assert(!op_less(state.ops[last], state.ops[i]));
            }
        }
    }
}

/// Operations never go back: once all that is left lies before a path, it stays so
/// in every step, and storage is asked to open, hash, read and write only
/// subtrees that lie before it. Clearing is the exception: an operation before
/// the path clears the subtree that it deletes or overwrites, and that one may
/// lie at the path or behind it.
pub proof fn law_operations_never_go_back(
    state: ApplicationView,
    hash: NodeHash,
    path: Seq<Seq<u8>>,
)
    requires
        state.reachable(),
        all_before(state, path),
    ensures
        state.stage == Stage::Ready ==> all_before(state.proceed().1, path) && asks_before(
            state.proceed().0,
            path,
        ),
        state.stage == Stage::Hashing ==> all_before(state.hashed(hash).1, path) && asks_before(
            state.hashed(hash).0,
            path,
        ),
        state.stage == Stage::Opening ==> all_before(state.opened().1, path) && asks_before(
            state.opened().0,
            path,
        ),
        state.stage == Stage::Reading ==> all_before(state.clearing().1, path) && asks_before(
            state.clearing().0,
            path,
        ),
        state.stage == Stage::Reading || state.stage == Stage::Clearing ==> all_before(
            state.writing().1,
            path,
        ) && asks_before(state.writing().0, path),
        state.stage == Stage::Writing ==> all_before(state.written().1, path) && asks_before(
            state.written().0,
            path,
        ),
{
    if state.pending is Some {
        let op = state.pending->0;
        assert(op.target().drop_last() =~= op.path);
    }
    let ready = ApplicationView { stage: Stage::Ready, ..state };
    if state.stage == Stage::Ready || state.stage == Stage::Writing {
        assert(state.stage == Stage::Ready ==> ready == state);
        if !(ready.path.len() > 0 && (ready.ops.len() == 0 || ready.ops.last().path != ready.path)) {
            lemma_take_all_before(ready, path);
        }
    }
    if state.stage == Stage::Hashing {
        lemma_hashed_all_before(state, hash, path);
    }
}

/// The root hash of a subtree goes up, to where all that is left lies.
proof fn lemma_hashed_all_before(state: ApplicationView, hash: NodeHash, path: Seq<Seq<u8>>)
    requires
        state.pending is None,
        state.path.len() > 0,
        state.path == path || path_less(state.path, path),
        forall|i: int| 0 <= i < state.ops.len() ==> path_less((#[trigger] state.ops[i]).path, path),
    ensures
        all_before(state.hashed(hash).1, path),
        asks_before(state.hashed(hash).0, path),
{
    let op = propagation(state.path, hash);
    let position = op_upper_bound(state.ops, op) as int;
    lemma_op_upper_bound_range(state.ops, op);
    let now = state.ops.insert(position, op);
    let next = ApplicationView { ops: now, open: false, ..state };
    assert(path_less(op.path, state.path));
    if state.path != path {
        lemma_path_transitive(op.path, state.path, path);
    }
    assert forall|i: int| 0 <= i < now.len() implies path_less((#[trigger] now[i]).path, path) by {
        if i < position {
            assert(now[i] == state.ops[i]);
        } else if i > position {
            assert(now[i] == state.ops[i - 1]);
        }
    }
    lemma_take_all_before(next, path);
}

/// Taking the root hash of a subtree leaves only what lies before it.
pub proof fn law_taking_the_hash_ends_a_subtree(state: ApplicationView, hash: NodeHash)
    requires
        state.reachable(),
        deepest_first(state),
        state.stage == Stage::Hashing,
    ensures
        all_before(state.hashed(hash).1, state.path),
{
    law_deepest_subtrees_come_first(state, hash);
    lemma_hashed_all_before(state, hash, state.path);
}

/// Before the first operation no operation lies behind the subtree that comes
/// first, and every root leaf that some operation lies under is accounted for.
pub proof fn law_application_starts_at_the_back(state: ApplicationView, root: Seq<u8>)
    requires
        sorted(state.ops),
        state.ops.len() > 0,
        state.path == state.ops.last().path,
    ensures
        deepest_first(state),
        some_under(state.ops, root) ==> accounted(state, root),
{
    let last = state.ops.len() - 1;
    assert forall|i: int| 0 <= i < state.ops.len() implies !path_less(
        state.path,
        (#[trigger] state.ops[i]).path,
    ) by {
        if i < last {
            assert(!op_less(state.ops[last], state.ops[i]));
        } else {
            lemma_path_irreflexive(state.path);
        }
    }
}

} // verus!
