//! What the application of a batch comes to from its first step to its last.
use crate::batch::apply::{awaited, propagation, ActionView, ApplicationView, Stage};
use crate::batch::ops::{op_less, op_upper_bound, sorted, BatchOpView};
use crate::batch::path::{lemma_path_irreflexive, path_less};
use crate::batch::progress::{
    accounted, deepest_first, in_subtree, law_application_starts_at_the_back,
    law_deepest_subtrees_come_first, law_touched_roots_become_leaves, lemma_op_upper_bound_range,
    lemma_propagation_sorted, lemma_with_new_leaf, root_of, some_under,
};
use crate::batch::Op;
use crate::element::Element;
use crate::hash::NodeHash;
use crate::root_leaves::{
    has_leaf, indexed, keys_sorted, leaf_lower_bound, lemma_insert_indexed,
    lemma_leaf_lower_bound_range, lemma_with_leaf_sorted, with_new_leaf,
};
use vstd::prelude::*;

verus! {

/// What storage answers, where it is not an error.
pub enum Answer {
    /// Nothing: the application begins.
    Begin,
    /// The root hash of the subtree in which nothing is left to do.
    RootHash(NodeHash),
    /// The subtree is open.
    Opened,
    /// The pending operation deletes or overwrites a subtree.
    FoundTree,
    /// The pending operation deletes or overwrites no subtree.
    FoundNoTree,
    /// The subtree is cleared.
    Cleared,
    /// The pending operation is performed.
    Written,
}

/// What storage is asked for after an answer, and the state from then on, where the
/// answer is one that the state waits for.
pub open spec fn answered(state: ApplicationView, answer: Answer) -> Option<
    (ActionView, ApplicationView),
> {
    match (state.stage, answer) {
        (Stage::Ready, Answer::Begin) => Some(state.proceed()),
        (Stage::Hashing, Answer::RootHash(hash)) => Some(state.hashed(hash)),
        (Stage::Opening, Answer::Opened) => Some(state.opened()),
        (Stage::Reading, Answer::FoundTree) => Some(state.clearing()),
        (Stage::Reading, Answer::FoundNoTree) => Some(state.writing()),
        (Stage::Clearing, Answer::Cleared) => Some(state.writing()),
        (Stage::Writing, Answer::Written) => Some(state.written()),
        _ => None,
    }
}

/// A step of the application of a batch.
pub struct RunStep {
    /// The state before the step.
    pub before: ApplicationView,
    /// What storage answered.
    pub answer: Answer,
    /// What storage is asked for next.
    pub action: ActionView,
    /// The state after the step.
    pub after: ApplicationView,
}

impl RunStep {
    /// Whether the application of a batch takes this step.
    pub open spec fn valid(self) -> bool {
        answered(self.before, self.answer) == Some((self.action, self.after))
    }
}

/// Whether a list of steps is a run: each step is taken, and starts where the one
/// before it ended.
pub open spec fn is_run(steps: Seq<RunStep>) -> bool {
    &&& steps.len() > 0
    &&& forall|i: int| 0 <= i < steps.len() ==> (#[trigger] steps[i]).valid()
    &&& forall|i: int, j: int|
        0 <= i && j == i + 1 && j < steps.len() ==> (#[trigger] steps[j]).before == (
        #[trigger] steps[i]).after
}

/// Whether a list of steps is a run from the first state of the application of a
/// batch to the last.
pub open spec fn is_whole_run(steps: Seq<RunStep>) -> bool {
    &&& is_run(steps)
    &&& is_first(steps[0].before)
    &&& steps.last().after.stage == Stage::Finished
}

/// Whether a state is the first of the application of a batch.
pub open spec fn is_first(state: ApplicationView) -> bool {
    &&& state.reachable()
    &&& state.stage == Stage::Ready
    &&& !state.open
    &&& state.ops.len() > 0
    &&& state.path == state.ops.last().path
}

/// A run without its last step is a run.
proof fn lemma_shorter_run(steps: Seq<RunStep>)
    requires
        is_run(steps),
        steps.len() > 1,
    ensures
        is_run(steps.drop_last()),
{
    let short = steps.drop_last();
    assert forall|i: int| 0 <= i < short.len() implies (#[trigger] short[i]).valid() by {
        assert(steps[i].valid());
    }
    assert forall|i: int, j: int| 0 <= i && j == i + 1 && j < short.len() implies (
    #[trigger] short[j]).before == (#[trigger] short[i]).after by {
        assert(steps[j].before == steps[i].after);
    }
}

/// Whether the back of the list can be taken.
spec fn can_take(state: ApplicationView) -> bool {
    &&& sorted(state.ops)
    &&& keys_sorted(state.leaves)
    &&& state.pending is None
    &&& state.open ==> state.path.len() > 0 && state.ops.len() > 0 && state.ops.last().path
        == state.path
}

/// The state after an operation on the root tree.
spec fn with_root_operation(state: ApplicationView) -> ApplicationView {
    ApplicationView {
        ops: state.ops.drop_last(),
        leaves: with_new_leaf(state.leaves, state.ops.last().key),
        path: seq![],
        ..state
    }
}

/// After an operation on the root tree the back of the list can be taken.
proof fn lemma_root_operation(state: ApplicationView)
    requires
        can_take(state),
        state.ops.len() > 0,
        state.ops.last().path.len() == 0,
    ensures
        can_take(with_root_operation(state)),
        state.take() == with_root_operation(state).take(),
{
    let key = state.ops.last().key;
    let rest = state.ops.drop_last();
    assert forall|i: int, j: int| 0 <= i < j < rest.len() implies !op_less(
        #[trigger] rest[j],
        #[trigger] rest[i],
    ) by {
        assert(!op_less(state.ops[j], state.ops[i]));
    }
    lemma_with_leaf_sorted(state.leaves, key, state.leaves.len() as usize);
}

/// Taking the operation at the back leads to a state that the application gets to.
proof fn lemma_take_reachable(state: ApplicationView)
    requires
        can_take(state),
    ensures
        state.take().1.reachable(),
        state.take().1.stage == awaited(state.take().0),
        !(state.take().0 is TakeRootHash),
    decreases state.ops.len(),
{
    if state.ops.len() > 0 {
        let op = state.ops.last();
        let rest = state.ops.drop_last();
        if op.path.len() == 0 {
            lemma_root_operation(state);
            lemma_take_reachable(with_root_operation(state));
        } else {
            assert forall|i: int, j: int| 0 <= i < j < rest.len() implies !op_less(
                #[trigger] rest[j],
                #[trigger] rest[i],
            ) by {
                assert(!op_less(state.ops[j], state.ops[i]));
            }
        }
    }
}

/// A new leaf keeps the others with their indexes, and gets the next one.
proof fn lemma_new_leaf_keeps(
    leaves: Seq<(Seq<u8>, usize)>,
    key: Seq<u8>,
    leaf: (Seq<u8>, usize),
)
    ensures
        leaves.contains(leaf) ==> with_new_leaf(leaves, key).contains(leaf),
        leaves.len() <= with_new_leaf(leaves, key).len() <= leaves.len() + 1,
        indexed(leaves) && with_new_leaf(leaves, key).len() <= usize::MAX ==> indexed(
            with_new_leaf(leaves, key),
        ),
{
    if !has_leaf(leaves, key) {
        let position = leaf_lower_bound(leaves, key) as int;
        let index = leaves.len() as usize;
        lemma_leaf_lower_bound_range(leaves, key);
        if position < leaves.len() {
            assert(leaves[position].0 != key);
        }
        let now = leaves.insert(position, (key, index));
        assert(with_new_leaf(leaves, key) == now);
        if leaves.contains(leaf) {
            let i = choose|i: int| 0 <= i < leaves.len() && leaves[i] == leaf;
            if i < position {
                assert(now[i] == leaf);
            } else {
                assert(now[i + 1] == leaf);
            }
        }
        if indexed(leaves) && now.len() <= usize::MAX {
            lemma_insert_indexed(leaves, position, key);
        }
    }
}

/// Taking the operation at the back keeps all leaves with their indexes, and takes
/// up no root leaf but those that were accounted for.
proof fn lemma_take_leaves(state: ApplicationView, root: Seq<u8>, leaf: (Seq<u8>, usize))
    requires
        can_take(state),
    ensures
        accounted(state.take().1, root) ==> has_leaf(state.leaves, root) || some_under(
            state.ops,
            root,
        ),
        state.leaves.contains(leaf) ==> state.take().1.leaves.contains(leaf),
        state.leaves.len() <= state.take().1.leaves.len(),
        indexed(state.leaves) && state.take().1.leaves.len() <= usize::MAX ==> indexed(
            state.take().1.leaves,
        ),
    decreases state.ops.len(),
{
    if state.ops.len() > 0 {
        let op = state.ops.last();
        let rest = state.ops.drop_last();
        assert(root_of(state.ops[state.ops.len() - 1]) == root_of(op));
        if some_under(rest, root) {
            let i = choose|i: int| 0 <= i < rest.len() && root_of(#[trigger] rest[i]) == root;
            assert(root_of(state.ops[i]) == root);
        }
        if op.path.len() == 0 {
            lemma_root_operation(state);
            lemma_with_new_leaf(state.leaves, op.key, root);
            lemma_new_leaf_keeps(state.leaves, op.key, leaf);
            lemma_take_leaves(with_root_operation(state), root, leaf);
        }
    }
}

/// The state once the root hash of a subtree has gone up.
pub open spec fn with_propagation(state: ApplicationView, hash: NodeHash) -> ApplicationView {
    let op = propagation(state.path, hash);
    ApplicationView {
        ops: state.ops.insert(op_upper_bound(state.ops, op) as int, op),
        open: false,
        ..state
    }
}

/// The root hash of a subtree goes up below the root leaf that the subtree lies
/// under.
proof fn lemma_propagation_root(state: ApplicationView, hash: NodeHash, root: Seq<u8>)
    requires
        state.reachable(),
        state.stage == Stage::Hashing,
    ensures
        can_take(with_propagation(state, hash)),
        some_under(with_propagation(state, hash).ops, root) ==> some_under(state.ops, root)
            || state.path[0] == root,
{
    let op = propagation(state.path, hash);
    let position = op_upper_bound(state.ops, op) as int;
    lemma_op_upper_bound_range(state.ops, op);
    lemma_propagation_sorted(state.ops, op);
    let now = state.ops.insert(position, op);
    if state.path.len() == 1 {
        assert(state.path.last() == state.path[0]);
    } else {
        assert(state.path.drop_last()[0] == state.path[0]);
    }
    assert(root_of(op) == state.path[0]);
    if some_under(now, root) {
        let i = choose|i: int| 0 <= i < now.len() && root_of(#[trigger] now[i]) == root;
        if i < position {
            assert(root_of(state.ops[i]) == root);
        } else if i > position {
            assert(root_of(state.ops[i - 1]) == root);
        }
    }
}

/// Whatever storage answers, the application of a batch stays in the states that it
/// is known to get to, and waits for what storage was asked for.
pub proof fn law_steps_stay_reachable(step: RunStep)
    requires
        step.before.reachable(),
        step.valid(),
    ensures
        step.after.reachable(),
        step.after.stage == awaited(step.action),
        step.action matches ActionView::TakeRootHash(path) ==> step.after.path == path,
{
    let before = step.before;
    let ready = ApplicationView { stage: Stage::Ready, ..before };
    let moved = ready.path.len() > 0 && (ready.ops.len() == 0 || ready.ops.last().path
        != ready.path);
    if before.stage == Stage::Ready || before.stage == Stage::Writing {
        assert(before.stage == Stage::Ready ==> ready == before);
        if !moved {
            lemma_take_reachable(ready);
        }
    }
    if let Answer::RootHash(hash) = step.answer {
        lemma_propagation_root(before, hash, seq![]);
        lemma_take_reachable(with_propagation(before, hash));
    }
}

/// In every step all root leaves keep their indexes, and the root leaves that are
/// there or will come of what is left are the same as before. Where the leaves
/// have the indexes from 0 on, each once, it stays so.
pub proof fn law_steps_keep_the_root_leaves(
    step: RunStep,
    root: Seq<u8>,
    leaf: (Seq<u8>, usize),
)
    requires
        step.before.reachable(),
        step.valid(),
    ensures
        accounted(step.after, root) <==> accounted(step.before, root),
        step.before.leaves.contains(leaf) ==> step.after.leaves.contains(leaf),
        step.before.leaves.len() <= step.after.leaves.len(),
        indexed(step.before.leaves) && step.after.leaves.len() <= usize::MAX ==> indexed(
            step.after.leaves,
        ),
{
    let before = step.before;
    let ready = ApplicationView { stage: Stage::Ready, ..before };
    let moved = ready.path.len() > 0 && (ready.ops.len() == 0 || ready.ops.last().path
        != ready.path);
    if before.stage == Stage::Ready || before.stage == Stage::Writing {
        assert(before.stage == Stage::Ready ==> ready == before);
        if !moved {
            lemma_take_leaves(ready, root, leaf);
        }
    }
    if let Answer::RootHash(hash) = step.answer {
        lemma_propagation_root(before, hash, root);
        lemma_take_leaves(with_propagation(before, hash), root, leaf);
        if accounted(before, root) {
            law_touched_roots_become_leaves(before, hash, root);
        }
    } else if accounted(before, root) {
        law_touched_roots_become_leaves(before, arbitrary(), root);
    }
}

/// What holds in a step holds along a run.
proof fn lemma_run_keeps_the_root_leaves(
    steps: Seq<RunStep>,
    root: Seq<u8>,
    leaf: (Seq<u8>, usize),
    n: int,
)
    requires
        is_run(steps),
        steps[0].before.reachable(),
        0 <= n < steps.len(),
    ensures
        steps[n].before.reachable(),
        steps[n].after.reachable(),
        accounted(steps[n].after, root) <==> accounted(steps[0].before, root),
        steps[0].before.leaves.contains(leaf) ==> steps[n].after.leaves.contains(leaf),
        steps[0].before.leaves.len() <= steps[n].after.leaves.len(),
        indexed(steps[0].before.leaves) && steps[n].after.leaves.len() <= usize::MAX ==> indexed(
            steps[n].after.leaves,
        ),
    decreases n,
{
    if n > 0 {
        lemma_run_keeps_the_root_leaves(steps, root, leaf, n - 1);
        assert(steps[n].before == steps[n - 1].after);
    }
    assert(steps[n].valid());
    law_steps_stay_reachable(steps[n]);
    law_steps_keep_the_root_leaves(steps[n], root, leaf);
}

/// When a whole batch has been applied, no operation is left, every root leaf that
/// was there is still there with its index, and the keys of the root leaves are
/// the old ones, the keys of the operations on the root tree, and the first parts
/// of the paths of the other operations. Where the leaves had the indexes from 0
/// on, each once, they have them again.
pub proof fn law_batches_settle_the_root_leaves(
    steps: Seq<RunStep>,
    root: Seq<u8>,
    leaf: (Seq<u8>, usize),
)
    requires
        is_whole_run(steps),
        steps.last().after.leaves.len() <= usize::MAX,
    ensures
        steps.last().after.ops.len() == 0,
        steps[0].before.leaves.contains(leaf) ==> steps.last().after.leaves.contains(leaf),
        has_leaf(steps.last().after.leaves, root) <==> has_leaf(steps[0].before.leaves, root)
            || some_under(steps[0].before.ops, root),
        keys_sorted(steps.last().after.leaves),
        indexed(steps[0].before.leaves) ==> indexed(steps.last().after.leaves),
{
    lemma_run_keeps_the_root_leaves(steps, root, leaf, steps.len() - 1);
}

/// How often an operation occurs in a list.
pub open spec fn times(ops: Seq<BatchOpView>, op: BatchOpView) -> nat
    decreases ops.len(),
{
    if ops.len() == 0 {
        0
    } else {
        times(ops.drop_last(), op) + if ops.last() == op {
            1nat
        } else {
            0
        }
    }
}

/// The operation that an action performs, if it does perform one.
pub open spec fn performed(action: ActionView) -> Option<BatchOpView> {
    match action {
        ActionView::InsertElement(path, key, element) => Some(
            BatchOpView { path, key, op: Op::Insert { element } },
        ),
        ActionView::DeleteElement(path, key) => Some(BatchOpView { path, key, op: Op::Delete }),
        _ => None,
    }
}

/// The operations that the actions of a run perform, in order.
pub open spec fn written(steps: Seq<RunStep>) -> Seq<BatchOpView>
    decreases steps.len(),
{
    if steps.len() == 0 {
        seq![]
    } else {
        let before = written(steps.drop_last());
        match performed(steps.last().action) {
            Some(op) => before.push(op),
            None => before,
        }
    }
}

/// The operations by which the root hashes that storage told in a run go up, in
/// order: the hash that is told when the subtree at a path is hashed is inserted
/// as a tree into the subtree at the path without its last part, under this last
/// part.
pub open spec fn raised(steps: Seq<RunStep>) -> Seq<BatchOpView>
    decreases steps.len(),
{
    if steps.len() == 0 {
        seq![]
    } else {
        let before = raised(steps.drop_last());
        if steps.len() > 1 {
            match (steps[steps.len() - 2].action, steps.last().answer) {
                (ActionView::TakeRootHash(path), Answer::RootHash(hash)) => before.push(
                    BatchOpView {
                        path: path.take(path.len() - 1),
                        key: path[path.len() - 1],
                        op: Op::Insert { element: Element::Tree(hash, None) },
                    },
                ),
                _ => before,
            }
        } else {
            before
        }
    }
}

/// How often an operation is still to be performed.
spec fn times_left(state: ApplicationView, op: BatchOpView) -> nat {
    times(state.ops, op) + if state.pending == Some(op) {
        1nat
    } else {
        0
    }
}

/// An operation at the end of a list occurs in it once more.
proof fn lemma_times_push(ops: Seq<BatchOpView>, last: BatchOpView, op: BatchOpView)
    ensures
        times(ops.push(last), op) == times(ops, op) + if last == op {
            1nat
        } else {
            0
        },
{
    assert(ops.push(last).drop_last() =~= ops);
}

/// An operation that is put into a list occurs in it once more.
proof fn lemma_times_insert(
    ops: Seq<BatchOpView>,
    position: int,
    added: BatchOpView,
    op: BatchOpView,
)
    requires
        0 <= position <= ops.len(),
    ensures
        times(ops.insert(position, added), op) == times(ops, op) + if added == op {
            1nat
        } else {
            0
        },
    decreases ops.len(),
{
    let now = ops.insert(position, added);
    if position == ops.len() {
        assert(now.drop_last() =~= ops);
    } else {
        lemma_times_insert(ops.drop_last(), position, added, op);
        assert(now.drop_last() =~= ops.drop_last().insert(position, added));
        assert(now.last() == ops.last());
    }
}

/// Taking the operation at the back loses no operation in a subtree.
proof fn lemma_take_keeps_operations(state: ApplicationView, op: BatchOpView)
    requires
        state.pending is None,
        op.path.len() > 0,
    ensures
        times_left(state.take().1, op) == times(state.ops, op),
        performed(state.take().0) is None,
    decreases state.ops.len(),
{
    if state.ops.len() > 0 && state.ops.last().path.len() == 0 {
        assert(state.take() == with_root_operation(state).take());
        lemma_take_keeps_operations(with_root_operation(state), op);
    }
}

/// In every step the operations in subtrees that are still to be performed are those
/// from before, without the one that is performed, and with the one by which a
/// root hash goes up.
proof fn lemma_step_keeps_operations(step: RunStep, op: BatchOpView)
    requires
        step.before.reachable(),
        step.valid(),
    ensures
        op.path.len() > 0 ==> times_left(step.after, op) + (if performed(step.action) == Some(op) {
            1nat
        } else {
            0
        }) == times_left(step.before, op) + match step.answer {
            Answer::RootHash(hash) => if propagation(step.before.path, hash) == op {
                1nat
            } else {
                0
            },
            _ => 0,
        },
        performed(step.action) matches Some(done) ==> done.path.len() > 0,
{
    let before = step.before;
    let ready = ApplicationView { stage: Stage::Ready, ..before };
    let moved = ready.path.len() > 0 && (ready.ops.len() == 0 || ready.ops.last().path
        != ready.path);
    let some_op = if op.path.len() > 0 {
        op
    } else {
        BatchOpView { path: seq![seq![]], ..op }
    };
    if before.stage == Stage::Ready || before.stage == Stage::Writing {
        assert(before.stage == Stage::Ready ==> ready == before);
        if !moved {
            lemma_take_keeps_operations(ready, some_op);
        }
    }
    if let Answer::RootHash(hash) = step.answer {
        let added = propagation(before.path, hash);
        lemma_op_upper_bound_range(before.ops, added);
        lemma_times_insert(before.ops, op_upper_bound(before.ops, added) as int, added, op);
        lemma_take_keeps_operations(with_propagation(before, hash), some_op);
    }
}

/// Along a run, the operations in subtrees that were performed and those that are
/// still to be performed are the first ones and those by which root hashes went
/// up.
proof fn lemma_run_keeps_operations(steps: Seq<RunStep>, op: BatchOpView)
    requires
        is_run(steps),
        steps[0].before.reachable(),
        steps[0].before.stage == Stage::Ready,
    ensures
        op.path.len() > 0 ==> times(written(steps), op) + times_left(steps.last().after, op)
            == times_left(steps[0].before, op) + times(raised(steps), op),
        op.path.len() == 0 ==> times(written(steps), op) == 0,
    decreases steps.len(),
{
    let short = steps.drop_last();
    let last = steps.last();
    lemma_run_keeps_the_root_leaves(steps, seq![], (seq![], 0), steps.len() - 1);
    assert(steps[steps.len() - 1].valid());
    lemma_step_keeps_operations(last, op);
    if let Some(done) = performed(last.action) {
        lemma_times_push(written(short), done, op);
    }
    if short.len() > 0 {
        lemma_shorter_run(steps);
        lemma_run_keeps_operations(short, op);
        let second = steps[steps.len() - 2];
        assert(steps[steps.len() - 1].before == second.after);
        assert(last.before == short.last().after);
        assert(short[0] == steps[0]);
        lemma_run_keeps_the_root_leaves(steps, seq![], (seq![], 0), steps.len() - 2);
        assert(second.valid());
        law_steps_stay_reachable(second);
        if let Answer::RootHash(hash) = last.answer {
            let path = last.before.path;
            assert(second.action == ActionView::TakeRootHash(path));
            let up = BatchOpView {
                path: path.take(path.len() - 1),
                key: path[path.len() - 1],
                op: Op::Insert { element: Element::Tree(hash, None) },
            };
            assert(propagation(path, hash).path =~= up.path);
            assert(propagation(path, hash) == up);
            lemma_times_push(raised(short), up, op);
        }
    } else {
        assert(last == steps[0]);
        assert(written(short) =~= seq![] && raised(short) =~= seq![]);
    }
}

/// When a whole batch has been applied, the insertions and deletions that storage
/// was asked for are exactly the operations of the batch in subtrees and those by
/// which the root hashes went up into subtrees, each as often as it was there. On
/// the root tree storage was asked for none.
pub proof fn law_batches_are_performed(steps: Seq<RunStep>, op: BatchOpView)
    requires
        is_whole_run(steps),
    ensures
        times(written(steps), op) == if op.path.len() > 0 {
            times(steps[0].before.ops, op) + times(raised(steps), op)
        } else {
            0
        },
{
    lemma_run_keeps_the_root_leaves(steps, seq![], (seq![], 0), steps.len() - 1);
    lemma_run_keeps_operations(steps, op);
}

/// Whether some operation in a list lies in the subtree at a path, or below it.
pub open spec fn some_within(ops: Seq<BatchOpView>, path: Seq<Seq<u8>>) -> bool {
    exists|i: int| 0 <= i < ops.len() && path.is_prefix_of((#[trigger] ops[i]).path)
}

/// Whether storage told the root hash of the subtree at a path in a step.
pub open spec fn tells_hash_of(step: RunStep, path: Seq<Seq<u8>>) -> bool {
    step.answer is RootHash && step.before.path == path
}

/// How often the root hash of the subtree at a path was told in a run.
pub open spec fn times_hashed(steps: Seq<RunStep>, path: Seq<Seq<u8>>) -> nat
    decreases steps.len(),
{
    if steps.len() == 0 {
        0
    } else {
        times_hashed(steps.drop_last(), path) + if tells_hash_of(steps.last(), path) {
            1nat
        } else {
            0
        }
    }
}

/// Whether the root hash of the subtree at a path is still to be taken.
spec fn to_be_hashed(state: ApplicationView, path: Seq<Seq<u8>>) -> bool {
    some_within(state.ops, path) || (in_subtree(state) && path.is_prefix_of(state.path))
}

/// Taking the operation at the back leaves the same root hashes to be taken.
proof fn lemma_take_keeps_hashes(state: ApplicationView, path: Seq<Seq<u8>>)
    requires
        can_take(state),
        path.len() > 0,
    ensures
        to_be_hashed(state.take().1, path) <==> some_within(state.ops, path),
    decreases state.ops.len(),
{
    if state.ops.len() > 0 {
        let op = state.ops.last();
        let rest = state.ops.drop_last();
        assert(state.ops[state.ops.len() - 1] == op);
        if some_within(rest, path) {
            let i = choose|i: int|
                0 <= i < rest.len() && path.is_prefix_of((#[trigger] rest[i]).path);
            assert(path.is_prefix_of(state.ops[i].path));
        }
        if some_within(state.ops, path) && !path.is_prefix_of(op.path) {
            let i = choose|i: int|
                0 <= i < state.ops.len() && path.is_prefix_of((#[trigger] state.ops[i]).path);
            assert(path.is_prefix_of(rest[i].path));
        }
        if op.path.len() == 0 {
            lemma_root_operation(state);
            lemma_take_keeps_hashes(with_root_operation(state), path);
        }
    }
}

/// A path that another one starts with is no longer, and equal if it is as long.
proof fn lemma_prefix(path: Seq<Seq<u8>>, whole: Seq<Seq<u8>>)
    ensures
        path.is_prefix_of(path),
        path.is_prefix_of(whole) ==> path.len() <= whole.len(),
        path.is_prefix_of(whole) && path.len() == whole.len() ==> path == whole,
        whole.len() > 0 ==> (path.is_prefix_of(whole.drop_last()) <==> path.is_prefix_of(whole)
            && path != whole),
{
    assert(path.take(path.len() as int) =~= path);
    assert(whole.take(whole.len() as int) =~= whole);
    if whole.len() > 0 {
        let parent = whole.drop_last();
        if path.len() <= parent.len() {
            assert(parent.take(path.len() as int) =~= whole.take(path.len() as int));
        }
    }
}

/// When a root hash goes up, that of no other subtree is settled or comes to be
/// taken.
proof fn lemma_propagation_keeps_hashes(
    state: ApplicationView,
    hash: NodeHash,
    path: Seq<Seq<u8>>,
)
    requires
        state.reachable(),
        state.stage == Stage::Hashing,
        deepest_first(state),
        path.len() > 0,
    ensures
        some_within(with_propagation(state, hash).ops, path) <==> to_be_hashed(state, path) && path
            != state.path,
{
    let op = propagation(state.path, hash);
    let position = op_upper_bound(state.ops, op) as int;
    lemma_op_upper_bound_range(state.ops, op);
    let now = state.ops.insert(position, op);
    law_deepest_subtrees_come_first(state, hash);
    lemma_prefix(path, state.path);
    assert(now[position] == op);
    if some_within(state.ops, path) {
        let i = choose|i: int|
            0 <= i < state.ops.len() && path.is_prefix_of((#[trigger] state.ops[i]).path);
        assert(path_less(state.ops[i].path, state.path));
        lemma_prefix(path, state.ops[i].path);
        if path == state.path {
            lemma_path_irreflexive(path);
        }
        if i < position {
            assert(now[i] == state.ops[i]);
        } else {
            assert(now[i + 1] == state.ops[i]);
        }
    }
    if some_within(now, path) {
        let i = choose|i: int| 0 <= i < now.len() && path.is_prefix_of((#[trigger] now[i]).path);
        if i != position {
            let j = if i < position {
                i
            } else {
                i - 1
            };
            assert(now[i] == state.ops[j]);
            assert(path_less(state.ops[j].path, state.path));
            lemma_prefix(path, state.ops[j].path);
            if path == state.path {
                lemma_path_irreflexive(path);
            }
        }
    }
}

/// In every step the same root hashes are still to be taken, but for the one that
/// is told.
proof fn lemma_step_keeps_hashes(step: RunStep, path: Seq<Seq<u8>>)
    requires
        step.before.reachable(),
        deepest_first(step.before),
        step.valid(),
        path.len() > 0,
    ensures
        deepest_first(step.after),
        to_be_hashed(step.after, path) <==> to_be_hashed(step.before, path) && !tells_hash_of(
            step,
            path,
        ),
        tells_hash_of(step, path) ==> to_be_hashed(step.before, path),
{
    let before = step.before;
    let ready = ApplicationView { stage: Stage::Ready, ..before };
    let moved = ready.path.len() > 0 && (ready.ops.len() == 0 || ready.ops.last().path
        != ready.path);
    lemma_prefix(path, before.path);
    if before.stage == Stage::Ready || before.stage == Stage::Writing {
        assert(before.stage == Stage::Ready ==> ready == before);
        if !moved {
            lemma_take_keeps_hashes(ready, path);
            if in_subtree(ready) && path.is_prefix_of(ready.path) {
                assert(path.is_prefix_of(ready.ops[ready.ops.len() - 1].path));
            }
        }
    }
    if let Answer::RootHash(hash) = step.answer {
        law_deepest_subtrees_come_first(before, hash);
        lemma_propagation_root(before, hash, seq![]);
        lemma_propagation_keeps_hashes(before, hash, path);
        lemma_take_keeps_hashes(with_propagation(before, hash), path);
    } else {
        law_deepest_subtrees_come_first(before, arbitrary());
    }
}

/// Along a run, the root hashes that were told and those that are still to be taken
/// are those that were to be taken first, each once.
proof fn lemma_run_keeps_hashes(steps: Seq<RunStep>, path: Seq<Seq<u8>>)
    requires
        is_run(steps),
        steps[0].before.reachable(),
        deepest_first(steps[0].before),
        path.len() > 0,
    ensures
        deepest_first(steps.last().after),
        times_hashed(steps, path) + (if to_be_hashed(steps.last().after, path) {
            1nat
        } else {
            0
        }) == if to_be_hashed(steps[0].before, path) {
            1nat
        } else {
            0
        },
    decreases steps.len(),
{
    let short = steps.drop_last();
    let last = steps.last();
    lemma_run_keeps_the_root_leaves(steps, seq![], (seq![], 0), steps.len() - 1);
    assert(steps[steps.len() - 1].valid());
    if short.len() > 0 {
        lemma_shorter_run(steps);
        lemma_run_keeps_hashes(short, path);
        assert(steps[steps.len() - 1].before == steps[steps.len() - 2].after);
        assert(last.before == short.last().after);
        assert(short[0] == steps[0]);
    } else {
        assert(last == steps[0]);
        assert(times_hashed(short, path) == 0);
    }
    lemma_step_keeps_hashes(last, path);
    assert(times_hashed(steps, path) == times_hashed(short, path) + if tells_hash_of(last, path) {
        1nat
    } else {
        0
    });
}

/// When a whole batch has been applied, storage has told the root hash of every
/// subtree that an operation of the batch lies in or below, once, and of no other
/// subtree. So of these the hash went up, once each.
pub proof fn law_touched_subtrees_are_hashed_once(steps: Seq<RunStep>, path: Seq<Seq<u8>>)
    requires
        is_whole_run(steps),
        path.len() > 0,
    ensures
        times_hashed(steps, path) == if some_within(steps[0].before.ops, path) {
            1nat
        } else {
            0
        },
{
    lemma_run_keeps_the_root_leaves(steps, seq![], (seq![], 0), steps.len() - 1);
    law_application_starts_at_the_back(steps[0].before, seq![]);
    lemma_run_keeps_hashes(steps, path);
}

/// Whether an action opens or clears no root tree.
pub open spec fn spares_the_root_tree(action: ActionView) -> bool {
    match action {
        ActionView::OpenSubtree(path) => path.len() > 0,
        ActionView::ClearSubtree(path) => path.len() > 0,
        _ => true,
    }
}

/// The subtree that taking the operation at the back opens has a path.
proof fn lemma_take_spares_the_root_tree(state: ApplicationView)
    ensures
        spares_the_root_tree(state.take().0),
    decreases state.ops.len(),
{
    if state.ops.len() > 0 && state.ops.last().path.len() == 0 {
        assert(state.take() == with_root_operation(state).take());
        lemma_take_spares_the_root_tree(with_root_operation(state));
    }
}

/// The root tree is never opened or cleared as a subtree: storage is asked to open
/// and to clear only subtrees whose path has parts.
pub proof fn law_the_root_tree_is_not_opened(state: ApplicationView, hash: NodeHash)
    requires
        state.reachable(),
    ensures
        spares_the_root_tree(state.proceed().0),
        spares_the_root_tree(state.hashed(hash).0),
        spares_the_root_tree(state.opened().0),
        spares_the_root_tree(state.clearing().0),
        spares_the_root_tree(state.writing().0),
        spares_the_root_tree(state.written().0),
{
    lemma_take_spares_the_root_tree(state);
    lemma_take_spares_the_root_tree(with_propagation(state, hash));
    lemma_take_spares_the_root_tree(ApplicationView { stage: Stage::Ready, ..state });
}

} // verus!
