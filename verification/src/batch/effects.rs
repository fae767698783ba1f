//! What storage is asked for while a batch is applied, told by what it is asked for
//! and what it answers alone.
use crate::batch::apply::{ActionView, ApplicationView, Stage};
use crate::batch::ops::BatchOpView;
use crate::batch::path::lemma_path_irreflexive;
use crate::batch::progress::{
    all_before, asks_before, deepest_first, law_application_starts_at_the_back,
    law_deepest_subtrees_come_first, law_operations_never_go_back,
    law_taking_the_hash_ends_a_subtree,
};
use crate::batch::runs::{
    is_first, is_run, is_whole_run, law_batches_are_performed, law_steps_stay_reachable, performed,
    raised, times, with_propagation, written, Answer, RunStep,
};
use crate::batch::Op;
use crate::element::Element;
use crate::hash::NodeHash;
use crate::root_leaves::with_new_leaf;
use vstd::prelude::*;

verus! {

/// All states of a run are ones that the application of a batch gets to.
proof fn lemma_run_reachable(steps: Seq<RunStep>, n: int)
    requires
        is_run(steps),
        steps[0].before.reachable(),
        0 <= n < steps.len(),
    ensures
        steps[n].valid(),
        steps[n].before.reachable(),
        steps[n].after.reachable(),
        n > 0 ==> steps[n].before == steps[n - 1].after,
    decreases n,
{
    if n > 0 {
        lemma_run_reachable(steps, n - 1);
        assert(steps[n].before == steps[n - 1].after);
    }
    assert(steps[n].valid());
    law_steps_stay_reachable(steps[n]);
}

/// How often an operation is there is no more than the times it is added.
proof fn lemma_times_contains(ops: Seq<BatchOpView>, i: int)
    requires
        0 <= i < ops.len(),
    ensures
        times(ops, ops[i]) > 0,
    decreases ops.len(),
{
    if i < ops.len() - 1 {
        lemma_times_contains(ops.drop_last(), i);
        assert(ops.drop_last()[i] == ops[i]);
    }
}

/// The hash that storage tells is among those that go up.
proof fn lemma_raised(steps: Seq<RunStep>, i: int, path: Seq<Seq<u8>>, hash: NodeHash, up: BatchOpView)
    requires
        0 < i < steps.len(),
        steps[i - 1].action == ActionView::TakeRootHash(path),
        steps[i].answer == Answer::RootHash(hash),
        path.len() > 0,
        up.path == path.take(path.len() - 1),
        up.key == path[path.len() - 1],
        up.op == (Op::Insert { element: Element::Tree(hash, None) }),
    ensures
        times(raised(steps), up) > 0,
    decreases steps.len(),
{
    let short = steps.drop_last();
    if i < steps.len() - 1 {
        lemma_raised(short, i, path, hash, up);
        if raised(steps) != raised(short) {
            let added = raised(steps).last();
            assert(raised(steps) =~= raised(short).push(added));
            assert(raised(steps).drop_last() =~= raised(short));
        }
    } else {
        let all = raised(steps);
        assert(all == raised(short).push(up));
        lemma_times_contains(all, all.len() - 1);
    }
}

/// The root hash that storage tells of a subtree goes into its parent: where it is
/// that of the subtree at a path with more than one part, storage is asked to
/// insert a tree with this hash into the subtree at the path without its last
/// part, under this last part.
pub proof fn law_root_hashes_go_into_the_parent(
    steps: Seq<RunStep>,
    i: int,
    path: Seq<Seq<u8>>,
    hash: NodeHash,
)
    requires
        is_whole_run(steps),
        0 < i < steps.len(),
        steps[i - 1].action == ActionView::TakeRootHash(path),
        steps[i].answer == Answer::RootHash(hash),
        path.len() > 1,
    ensures
        exists|j: int|
            0 <= j < steps.len() && (#[trigger] steps[j]).action == ActionView::InsertElement(
                path.take(path.len() - 1),
                path[path.len() - 1],
                Element::Tree(hash, None),
            ),
{
    let up = BatchOpView {
        path: path.take(path.len() - 1),
        key: path[path.len() - 1],
        op: Op::Insert { element: Element::Tree(hash, None) },
    };
    lemma_raised(steps, i, path, hash, up);
    law_batches_are_performed(steps, up);
    lemma_written(steps, up);
}

/// What was written was asked for.
proof fn lemma_written(steps: Seq<RunStep>, op: BatchOpView)
    requires
        times(written(steps), op) > 0,
    ensures
        exists|j: int| 0 <= j < steps.len() && performed((#[trigger] steps[j]).action) == Some(op),
    decreases steps.len(),
{
    if steps.len() > 0 {
        let short = steps.drop_last();
        let last = steps.last();
        if performed(last.action) == Some(op) {
            assert(performed(steps[steps.len() - 1].action) == Some(op));
        } else {
            if let Some(other) = performed(last.action) {
                assert(written(steps).drop_last() =~= written(short));
            }
            lemma_written(short, op);
            let j = choose|j: int|
                0 <= j < short.len() && performed((#[trigger] short[j]).action) == Some(op);
            assert(steps[j] == short[j]);
        }
    }
}

/// Before storage is asked to write under a key of a subtree, it is asked for what
/// lies there. If that is a tree, storage is asked to clear the subtree that lies
/// there, and asked to write once that is done, and if not, it is asked to write
/// at once.
pub proof fn law_reads_come_before_writes(
    steps: Seq<RunStep>,
    i: int,
    path: Seq<Seq<u8>>,
    key: Seq<u8>,
)
    requires
        is_run(steps),
        steps[0].before.reachable(),
        0 <= i,
        i + 1 < steps.len(),
        steps[i].action == ActionView::GetElement(path, key),
    ensures
        steps[i + 1].answer is FoundTree || steps[i + 1].answer is FoundNoTree,
        steps[i + 1].answer is FoundNoTree ==> (performed(steps[i + 1].action) matches Some(op)
            && op.path == path && op.key == key),
        steps[i + 1].answer is FoundTree ==> steps[i + 1].action == ActionView::ClearSubtree(
            path.push(key),
        ),
        steps[i + 1].answer is FoundTree && i + 2 < steps.len() ==> steps[i + 2].answer is Cleared
            && (performed(steps[i + 2].action) matches Some(op) && op.path == path && op.key
            == key),
{
    lemma_run_reachable(steps, i);
    lemma_run_reachable(steps, i + 1);
    law_steps_stay_reachable(steps[i]);
    lemma_reading_place(steps[i], path, key);
    if i + 2 < steps.len() {
        lemma_run_reachable(steps, i + 2);
    }
}

/// What storage is asked to read is what the pending operation is about.
proof fn lemma_reading_place(step: RunStep, path: Seq<Seq<u8>>, key: Seq<u8>)
    requires
        step.before.reachable(),
        step.valid(),
        step.action == ActionView::GetElement(path, key),
    ensures
        step.after.stage == Stage::Reading,
        step.after.pending matches Some(op) && op.path == path && op.key == key,
{
    law_steps_stay_reachable(step);
    let before = step.before;
    lemma_take_place(before);
    lemma_take_place(ApplicationView { stage: Stage::Ready, ..before });
    if let Answer::RootHash(hash) = step.answer {
        lemma_hashed_place(before, hash);
    }
}

/// Where the operation at the back asks for something to be read, it is pending.
proof fn lemma_take_place(state: ApplicationView)
    ensures
        state.take().0 matches ActionView::GetElement(path, key) ==> (state.take().1.pending matches Some(
            op,
        ) && op.path == path && op.key == key),
        state.take().0 matches ActionView::OpenSubtree(path) ==> (state.take().1.pending matches Some(
            op,
        ) && op.path == path),
        performed(state.take().0) is None,
        !(state.take().0 is ClearSubtree),
        !(state.take().0 is TakeRootHash),
    decreases state.ops.len(),
{
    if state.ops.len() > 0 && state.ops.last().path.len() == 0 {
        let next = ApplicationView {
            ops: state.ops.drop_last(),
            leaves: with_new_leaf(state.leaves, state.ops.last().key),
            path: seq![],
            ..state
        };
        assert(state.take() == next.take());
        lemma_take_place(next);
    }
}

/// After a root hash the operation at the back is taken.
proof fn lemma_hashed_place(state: ApplicationView, hash: NodeHash)
    ensures
        state.hashed(hash).0 matches ActionView::GetElement(path, key) ==> (state.hashed(
            hash,
        ).1.pending matches Some(op) && op.path == path && op.key == key),
        state.hashed(hash).0 matches ActionView::OpenSubtree(path) ==> (state.hashed(
            hash,
        ).1.pending matches Some(op) && op.path == path),
        performed(state.hashed(hash).0) is None,
        !(state.hashed(hash).0 is ClearSubtree),
        !(state.hashed(hash).0 is TakeRootHash),
{
    lemma_take_place(with_propagation(state, hash));
}

/// Nothing is written that was not asked for before, and nothing is cleared unless
/// a tree was found there: what storage is asked to write under a key, it was
/// asked to read just before, and what it is asked to clear, it has just told to
/// be a tree.
pub proof fn law_writes_follow_reads(steps: Seq<RunStep>, i: int)
    requires
        is_run(steps),
        is_first(steps[0].before),
        0 <= i < steps.len(),
    ensures
        performed(steps[i].action) matches Some(op) ==> {
            ||| i > 0 && steps[i].answer is FoundNoTree && steps[i - 1].action
                == ActionView::GetElement(op.path, op.key)
            ||| i > 1 && steps[i].answer is Cleared && steps[i - 1].answer is FoundTree && steps[i
                - 2].action == ActionView::GetElement(op.path, op.key)
        },
        steps[i].action matches ActionView::ClearSubtree(path) ==> i > 0
            && steps[i].answer is FoundTree && (steps[i - 1].action matches ActionView::GetElement(
            at,
            key,
        ) && path == at.push(key)),
{
    lemma_run_reachable(steps, i);
    let step = steps[i];
    let before = step.before;
    lemma_take_place(before);
    lemma_take_place(ApplicationView { stage: Stage::Ready, ..before });
    if let Answer::RootHash(hash) = step.answer {
        lemma_hashed_place(before, hash);
    }
    if i > 0 {
        lemma_run_reachable(steps, i - 1);
        law_steps_stay_reachable(steps[i - 1]);
        if let ActionView::GetElement(path, key) = steps[i - 1].action {
            lemma_reading_place(steps[i - 1], path, key);
        }
        if before.stage == Stage::Clearing {
            lemma_clearing_step(steps[i - 1]);
            if i > 1 {
                lemma_run_reachable(steps, i - 2);
                law_steps_stay_reachable(steps[i - 2]);
                if let ActionView::GetElement(path, key) = steps[i - 2].action {
                    lemma_reading_place(steps[i - 2], path, key);
                }
            }
        }
    }
}

/// A subtree is waited for to be cleared only after a tree was found.
proof fn lemma_clearing_step(step: RunStep)
    requires
        step.before.reachable(),
        step.valid(),
        step.after.stage == Stage::Clearing,
    ensures
        step.answer is FoundTree,
        step.before.stage == Stage::Reading,
        step.after.pending == step.before.pending,
{
    law_steps_stay_reachable(step);
    let before = step.before;
    lemma_take_place(before);
    lemma_take_place(ApplicationView { stage: Stage::Ready, ..before });
    if let Answer::RootHash(hash) = step.answer {
        lemma_hashed_place(before, hash);
    }
}

/// The subtree that is open after some steps: the one that storage was last asked to
/// open, unless it was asked for its root hash since.
pub open spec fn now_open(steps: Seq<RunStep>) -> Option<Seq<Seq<u8>>>
    decreases steps.len(),
{
    if steps.len() == 0 {
        None
    } else {
        match steps.last().action {
            ActionView::OpenSubtree(path) => Some(path),
            ActionView::TakeRootHash(_) => None,
            _ => now_open(steps.drop_last()),
        }
    }
}

/// The open subtree is that of the latest operation.
proof fn lemma_now_open(steps: Seq<RunStep>, n: int)
    requires
        is_run(steps),
        is_first(steps[0].before),
        0 <= n < steps.len(),
    ensures
        now_open(steps.take(n + 1)) == if steps[n].after.stage == Stage::Opening || (
        steps[n].after.open && steps[n].after.stage != Stage::Hashing) {
            Some(steps[n].after.path)
        } else {
            None
        },
        match steps[n].action {
            ActionView::OpenSubtree(path) => now_open(steps.take(n)) is None,
            ActionView::TakeRootHash(path) => now_open(steps.take(n)) == Some(path),
            ActionView::GetElement(path, _) => now_open(steps.take(n)) == Some(path),
            ActionView::InsertElement(path, _, _) => now_open(steps.take(n)) == Some(path),
            ActionView::DeleteElement(path, _) => now_open(steps.take(n)) == Some(path),
            ActionView::ClearSubtree(path) => true,
            ActionView::Done => now_open(steps.take(n)) is None,
        },
    decreases n,
{
    lemma_run_reachable(steps, n);
    let step = steps[n];
    law_steps_stay_reachable(step);
    assert(steps.take(n + 1).drop_last() =~= steps.take(n));
    assert(steps.take(n + 1).last() == step);
    if n > 0 {
        lemma_now_open(steps, n - 1);
    } else {
        assert(steps.take(0) =~= seq![]);
    }
    let before = step.before;
    let ready = ApplicationView { stage: Stage::Ready, ..before };
    let moved = ready.path.len() > 0 && (ready.ops.len() == 0 || ready.ops.last().path
        != ready.path);
    if before.stage == Stage::Ready || before.stage == Stage::Writing {
        assert(before.stage == Stage::Ready ==> ready == before);
        if !moved {
            lemma_take_open(ready);
        }
    }
    if let Answer::RootHash(hash) = step.answer {
        lemma_take_open(with_propagation(before, hash));
    }
}

/// Taking the operation at the back opens its subtree, unless it is open.
proof fn lemma_take_open(state: ApplicationView)
    requires
        state.open ==> state.ops.len() > 0 ==> state.ops.last().path.len() > 0,
    ensures
        state.take().1.open == state.open,
        match state.take().0 {
            ActionView::OpenSubtree(path) => !state.open && state.take().1.path == path
                && state.take().1.stage == Stage::Opening,
            ActionView::GetElement(path, _) => state.open && state.take().1.path == path
                && state.take().1.stage == Stage::Reading && path == state.ops.last().path,
            ActionView::Done => state.take().1.stage == Stage::Finished,
            _ => false,
        },
    decreases state.ops.len(),
{
    if state.ops.len() > 0 && state.ops.last().path.len() == 0 {
        let next = ApplicationView {
            ops: state.ops.drop_last(),
            leaves: with_new_leaf(state.leaves, state.ops.last().key),
            path: seq![],
            ..state
        };
        assert(state.take() == next.take());
        lemma_take_open(next);
    }
}

/// Storage has one subtree open at a time. It is asked to open one only where none
/// is open, to read, write and hash only in the one that is open, and when a batch
/// has been applied, none is left open.
pub proof fn law_one_subtree_is_open(steps: Seq<RunStep>, n: int)
    requires
        is_whole_run(steps),
        0 <= n < steps.len(),
    ensures
        match steps[n].action {
            ActionView::OpenSubtree(path) => now_open(steps.take(n)) is None,
            ActionView::TakeRootHash(path) => now_open(steps.take(n)) == Some(path),
            ActionView::GetElement(path, _) => now_open(steps.take(n)) == Some(path),
            ActionView::InsertElement(path, _, _) => now_open(steps.take(n)) == Some(path),
            ActionView::DeleteElement(path, _) => now_open(steps.take(n)) == Some(path),
            ActionView::ClearSubtree(path) => true,
            ActionView::Done => now_open(steps.take(n)) is None,
        },
        now_open(steps) is None,
{
    lemma_now_open(steps, n);
    lemma_now_open(steps, steps.len() - 1);
    lemma_run_reachable(steps, steps.len() - 1);
    assert(steps.take(steps.len() as int) =~= steps);
}

/// The subtree in which an action opens, hashes, reads or writes something, if any.
pub open spec fn place_of(action: ActionView) -> Option<Seq<Seq<u8>>> {
    match action {
        ActionView::TakeRootHash(path) => Some(path),
        ActionView::OpenSubtree(path) => Some(path),
        ActionView::GetElement(path, _) => Some(path),
        ActionView::InsertElement(path, _, _) => Some(path),
        ActionView::DeleteElement(path, _) => Some(path),
        ActionView::ClearSubtree(_) => None,
        ActionView::Done => None,
    }
}

/// In a run no operation that is left ever lies behind the latest one.
proof fn lemma_run_deepest_first(steps: Seq<RunStep>, n: int)
    requires
        is_run(steps),
        is_first(steps[0].before),
        0 <= n < steps.len(),
    ensures
        deepest_first(steps[n].before),
    decreases n,
{
    lemma_run_reachable(steps, n);
    if n == 0 {
        law_application_starts_at_the_back(steps[0].before, seq![]);
    } else {
        lemma_run_deepest_first(steps, n - 1);
        lemma_run_reachable(steps, n - 1);
        let step = steps[n - 1];
        let hash = match step.answer {
            Answer::RootHash(hash) => hash,
            _ => arbitrary(),
        };
        law_deepest_subtrees_come_first(step.before, hash);
    }
}

/// Once all that is left lies before a path, it stays so.
proof fn lemma_run_all_before(steps: Seq<RunStep>, path: Seq<Seq<u8>>, i: int, j: int)
    requires
        is_run(steps),
        is_first(steps[0].before),
        0 <= i <= j < steps.len(),
        all_before(steps[i].after, path),
    ensures
        all_before(steps[j].after, path),
        i < j ==> asks_before(steps[j].action, path),
    decreases j,
{
    if i < j {
        lemma_run_all_before(steps, path, i, j - 1);
        lemma_run_reachable(steps, j);
        let step = steps[j];
        let hash = match step.answer {
            Answer::RootHash(hash) => hash,
            _ => arbitrary(),
        };
        law_operations_never_go_back(step.before, hash, path);
    }
}

/// A root hash is that of the finished subtree: after storage was asked for it, it
/// is not asked to open, hash, read or write in that subtree again.
pub proof fn law_hashed_subtrees_are_finished(
    steps: Seq<RunStep>,
    i: int,
    j: int,
    path: Seq<Seq<u8>>,
)
    requires
        is_run(steps),
        is_first(steps[0].before),
        0 <= i < j < steps.len(),
        steps[i].action == ActionView::TakeRootHash(path),
    ensures
        place_of(steps[j].action) != Some(path),
{
    lemma_run_reachable(steps, i);
    lemma_run_reachable(steps, i + 1);
    law_steps_stay_reachable(steps[i]);
    lemma_run_deepest_first(steps, i + 1);
    let step = steps[i + 1];
    let hash = step.answer->RootHash_0;
    law_taking_the_hash_ends_a_subtree(step.before, hash);
    law_deepest_subtrees_come_first(step.before, hash);
    assert(all_before(step.after, path));
    lemma_run_all_before(steps, path, i + 1, j);
    lemma_path_irreflexive(path);
    if j == i + 1 {
        lemma_after_hash_asks_before(step, hash, path);
    }
}

/// What storage is asked for right after a root hash lies before its subtree.
proof fn lemma_after_hash_asks_before(step: RunStep, hash: NodeHash, path: Seq<Seq<u8>>)
    requires
        step.before.reachable(),
        deepest_first(step.before),
        step.valid(),
        step.answer == Answer::RootHash(hash),
        step.before.path == path,
        all_before(step.after, path),
    ensures
        asks_before(step.action, path),
{
    law_steps_stay_reachable(step);
    lemma_hashed_place(step.before, hash);
}

} // verus!
