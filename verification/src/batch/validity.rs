//! Which batches are valid, told by their operations and what storage holds alone.
use crate::batch::ops::BatchOpView;
use crate::batch::rules::{
    creates, deletes, law_advancing_decides_nothing_else, passed, validated,
};
use crate::batch::validate::{ValidatorView, Verdict};
use crate::element::Element;
use crate::error::Error;
use vstd::prelude::*;

verus! {

/// Whether the subtree at a path is created by one of the first `n` operations of a
/// batch, and none of them deletes it after that.
pub open spec fn created_before(ops: Seq<BatchOpView>, n: int, path: Seq<Seq<u8>>) -> bool {
    exists|i: int| 0 <= i < n && #[trigger] created_last(ops, i, n, path)
}

/// Whether the operation at position `i` creates the subtree at a path, and none
/// behind it, up to position `n`, deletes it.
pub open spec fn created_last(ops: Seq<BatchOpView>, i: int, n: int, path: Seq<Seq<u8>>) -> bool {
    &&& creates(ops[i], path)
    &&& forall|k: int| i < k < n ==> !deletes(#[trigger] ops[k], path)
}

/// Whether the operation at position `i` deletes what is at a path, and none behind
/// it, up to position `n`, creates a subtree there.
pub open spec fn deleted_last(ops: Seq<BatchOpView>, i: int, n: int, path: Seq<Seq<u8>>) -> bool {
    &&& deletes(ops[i], path)
    &&& forall|k: int| i < k < n ==> !creates(#[trigger] ops[k], path)
}

/// Whether the subtree at a path is deleted or overwritten, by one of the first `n`
/// operations of a batch or among those that were `removed` before, and none of
/// the operations creates it after that.
pub open spec fn gone_before(
    ops: Seq<BatchOpView>,
    removed: Set<Seq<Seq<u8>>>,
    n: int,
    path: Seq<Seq<u8>>,
) -> bool {
    ||| removed.contains(path) && forall|k: int| 0 <= k < n ==> !creates(#[trigger] ops[k], path)
    ||| exists|i: int| 0 <= i < n && #[trigger] deleted_last(ops, i, n, path)
}

/// Whether the operation at position `n` of a batch inserts into a subtree that is
/// gone.
pub open spec fn inserts_into_gone(
    ops: Seq<BatchOpView>,
    removed: Set<Seq<Seq<u8>>>,
    n: int,
) -> bool {
    ops[n].op is Insert && gone_before(ops, removed, n, ops[n].path)
}

/// Whether the subtree of the operation at position `n` of a batch exists: it is the
/// root tree, or is created within the batch, or storage holds a tree there.
pub open spec fn subtree_exists(
    ops: Seq<BatchOpView>,
    n: int,
    storage: spec_fn(Seq<Seq<u8>>) -> Result<Element, Error>,
) -> bool {
    ||| ops[n].path.len() == 0
    ||| created_before(ops, n, ops[n].path)
    ||| storage(ops[n].path) matches Ok(Element::Tree(_, _))
}

/// Whether a state of the second pass is the first one.
pub open spec fn is_first(state: ValidatorView) -> bool {
    state.next == 0 && state.valid == Set::<Seq<Seq<u8>>>::empty().insert(seq![])
}

/// What the second pass ends with, where storage answers as given: it goes on as far
/// as it can, storage is asked for the subtree of the operation where it stops,
/// and it resumes with the answer, until it fails or is done.
pub open spec fn outcome(
    state: ValidatorView,
    leaves: Seq<(Seq<u8>, usize)>,
    storage: spec_fn(Seq<Seq<u8>>) -> Result<Element, Error>,
    rounds: nat,
) -> Result<(), Error>
    decreases rounds,
{
    let (verdict, next) = state.advanced(leaves);
    match verdict {
        Verdict::Fail(e) => Err(e),
        Verdict::Pass => Ok(()),
        Verdict::Lookup => {
            let op = next.ops[next.next as int];
            match storage(op.path) {
                Err(e) => Err(e),
                Ok(Element::Tree(_, _)) => if rounds > 0 {
                    outcome(next.after(op), leaves, storage, (rounds - 1) as nat)
                } else {
                    arbitrary()
                },
                Ok(_) => Err(Error::InvalidPath("must be a tree")),
            }
        },
    }
}

/// Where the second pass stops, there is an operation that storage has to decide.
proof fn lemma_advanced_lookup(state: ValidatorView, leaves: Seq<(Seq<u8>, usize)>)
    requires
        state.next <= state.ops.len(),
    ensures
        state.advanced(leaves).1.ops == state.ops,
        state.next <= state.advanced(leaves).1.next <= state.ops.len(),
        state.advanced(leaves).0 is Lookup ==> {
            let next = state.advanced(leaves).1;
            &&& next.next < next.ops.len()
            &&& next.verdict(next.ops[next.next as int], leaves) is Lookup
        },
    decreases state.ops.len() - state.next,
{
    if state.next < state.ops.len() {
        let op = state.ops[state.next as int];
        if state.verdict(op, leaves) is Pass {
            lemma_advanced_lookup(state.after(op), leaves);
        }
    }
}

/// With rounds enough, the second pass ends as its operations say one by one.
proof fn lemma_outcome(
    state: ValidatorView,
    leaves: Seq<(Seq<u8>, usize)>,
    storage: spec_fn(Seq<Seq<u8>>) -> Result<Element, Error>,
    rounds: nat,
)
    requires
        state.next <= state.ops.len(),
        rounds >= state.ops.len() - state.next,
    ensures
        outcome(state, leaves, storage, rounds) == validated(state, leaves, storage),
    decreases rounds,
{
    law_advancing_decides_nothing_else(state, leaves, storage);
    lemma_advanced_lookup(state, leaves);
    let (verdict, next) = state.advanced(leaves);
    if verdict is Lookup {
        let op = next.ops[next.next as int];
        if storage(op.path) matches Ok(Element::Tree(_, _)) {
            lemma_outcome(next.after(op), leaves, storage, (rounds - 1) as nat);
        }
    }
}

/// Passing operations keeps the list of them and counts them.
proof fn lemma_passed_counts(state: ValidatorView, n: nat)
    requires
        state.next <= n <= state.ops.len(),
    ensures
        passed(state, n).ops == state.ops,
        passed(state, n).next == n,
    decreases n,
{
    if n > state.next {
        lemma_passed_counts(state, (n - 1) as nat);
    }
}

/// What the second pass holds for valid and for removed is what was created and what
/// is gone.
proof fn lemma_passed_sets(state: ValidatorView, n: nat, path: Seq<Seq<u8>>)
    requires
        is_first(state),
        n <= state.ops.len(),
    ensures
        passed(state, n).valid.contains(path) <==> path.len() == 0 || created_before(
            state.ops,
            n as int,
            path,
        ),
        passed(state, n).removed.contains(path) <==> gone_before(
            state.ops,
            state.removed,
            n as int,
            path,
        ),
    decreases n,
{
    let ops = state.ops;
    if n == 0 {
        assert(path.len() == 0 ==> path =~= seq![]);
    } else {
        let m = n - 1;
        let op = ops[m];
        let before = passed(state, m as nat);
        lemma_passed_sets(state, m as nat, path);
        lemma_passed_counts(state, m as nat);
        assert(passed(state, n) == before.after(op));
        assert(op.path.push(op.key).len() > 0);
        if created_before(ops, m, path) {
            let i = choose|i: int| 0 <= i < m && #[trigger] created_last(ops, i, m, path);
            if !deletes(op, path) {
                assert(created_last(ops, i, n as int, path));
            }
        }
        if creates(op, path) {
            assert(created_last(ops, m, n as int, path));
        }
        if created_before(ops, n as int, path) {
            let i = choose|i: int|
                0 <= i < n && #[trigger] created_last(ops, i, n as int, path);
            if i < m {
                assert(!deletes(ops[m], path));
                assert(created_last(ops, i, m, path));
            }
        }
        if exists|i: int| 0 <= i < m && #[trigger] deleted_last(ops, i, m, path) {
            let i = choose|i: int| 0 <= i < m && #[trigger] deleted_last(ops, i, m, path);
            if !creates(op, path) {
                assert(deleted_last(ops, i, n as int, path));
            }
        }
        if deletes(op, path) {
            assert(deleted_last(ops, m, n as int, path));
        }
        if exists|i: int| 0 <= i < n && #[trigger] deleted_last(ops, i, n as int, path) {
            let i = choose|i: int|
                0 <= i < n && #[trigger] deleted_last(ops, i, n as int, path);
            if i < m {
                assert(!creates(ops[m], path));
                assert(deleted_last(ops, i, m, path));
            }
        }
        if gone_before(ops, state.removed, n as int, path) && state.removed.contains(path) && (
        forall|k: int| 0 <= k < n ==> !creates(#[trigger] ops[k], path)) {
            assert(!creates(ops[m], path));
        }
    }
}

/// Where the first operations are valid, the second pass comes to the next one.
proof fn lemma_validated_from(
    state: ValidatorView,
    leaves: Seq<(Seq<u8>, usize)>,
    storage: spec_fn(Seq<Seq<u8>>) -> Result<Element, Error>,
    n: nat,
)
    requires
        is_first(state),
        n <= state.ops.len(),
        forall|k: int|
            0 <= k < n ==> !#[trigger] inserts_into_gone(state.ops, state.removed, k)
                && subtree_exists(state.ops, k, storage),
    ensures
        validated(state, leaves, storage) == validated(passed(state, n), leaves, storage),
    decreases n,
{
    if n > 0 {
        let m = (n - 1) as nat;
        lemma_validated_from(state, leaves, storage, m);
        lemma_passed_counts(state, m);
        let op = state.ops[m as int];
        lemma_passed_sets(state, m, op.path);
        assert(!inserts_into_gone(state.ops, state.removed, m as int));
    }
}

/// A batch is valid exactly if every operation of it is on a subtree that exists,
/// be it an insertion or a deletion, and none inserts into a subtree that is gone.
/// A subtree exists if it is the root tree, if an operation before creates it and
/// none in between deletes it, or if storage holds a tree at its path. It is gone
/// if it was removed, or an operation before deletes it, and none creates it after
/// that.
pub proof fn law_valid_batches(
    state: ValidatorView,
    leaves: Seq<(Seq<u8>, usize)>,
    storage: spec_fn(Seq<Seq<u8>>) -> Result<Element, Error>,
)
    requires
        is_first(state),
    ensures
        outcome(state, leaves, storage, state.ops.len()) is Ok <==> forall|n: int|
            0 <= n < state.ops.len() ==> !#[trigger] inserts_into_gone(state.ops, state.removed, n)
                && subtree_exists(state.ops, n, storage),
{
    lemma_outcome(state, leaves, storage, state.ops.len());
    if forall|n: int|
        0 <= n < state.ops.len() ==> !#[trigger] inserts_into_gone(state.ops, state.removed, n)
            && subtree_exists(state.ops, n, storage) {
        lemma_validated_from(state, leaves, storage, state.ops.len());
        lemma_passed_counts(state, state.ops.len());
    } else {
        let n = lemma_first_invalid(state, storage, state.ops.len() as int);
        law_invalid_batches(state, leaves, storage, n);
    }
}

/// The first operation of a batch that is not valid.
proof fn lemma_first_invalid(
    state: ValidatorView,
    storage: spec_fn(Seq<Seq<u8>>) -> Result<Element, Error>,
    m: int,
) -> (n: int)
    requires
        exists|n: int|
            0 <= n < m && (#[trigger] inserts_into_gone(state.ops, state.removed, n)
                || !subtree_exists(state.ops, n, storage)),
    ensures
        0 <= n < m,
        inserts_into_gone(state.ops, state.removed, n) || !subtree_exists(state.ops, n, storage),
        forall|k: int|
            0 <= k < n ==> !#[trigger] inserts_into_gone(state.ops, state.removed, k)
                && subtree_exists(state.ops, k, storage),
    decreases m,
{
    let some = choose|n: int|
        0 <= n < m && (#[trigger] inserts_into_gone(state.ops, state.removed, n)
            || !subtree_exists(state.ops, n, storage));
    if some < m - 1 {
        assert(0 <= some < m - 1 && (inserts_into_gone(state.ops, state.removed, some)
            || !subtree_exists(state.ops, some, storage)));
    }
    if exists|n: int|
        0 <= n < m - 1 && (#[trigger] inserts_into_gone(state.ops, state.removed, n)
            || !subtree_exists(state.ops, n, storage)) {
        lemma_first_invalid(state, storage, m - 1)
    } else {
        m - 1
    }
}

/// An invalid batch is refused for the first operation that is not valid: with the
/// error that it inserts into a deleted subtree, if it does, or else with the
/// error that storage gives for its subtree, or else with the error that what
/// storage holds there is not a tree.
pub proof fn law_invalid_batches(
    state: ValidatorView,
    leaves: Seq<(Seq<u8>, usize)>,
    storage: spec_fn(Seq<Seq<u8>>) -> Result<Element, Error>,
    n: int,
)
    requires
        is_first(state),
        0 <= n < state.ops.len(),
        forall|k: int|
            0 <= k < n ==> !#[trigger] inserts_into_gone(state.ops, state.removed, k)
                && subtree_exists(state.ops, k, storage),
        inserts_into_gone(state.ops, state.removed, n) || !subtree_exists(state.ops, n, storage),
    ensures
        outcome(state, leaves, storage, state.ops.len()) == Err::<(), Error>(
            if inserts_into_gone(state.ops, state.removed, n) {
                Error::InvalidPath("attempt to insert into deleted subtree")
            } else {
                match storage(state.ops[n].path) {
                    Err(e) => e,
                    Ok(_) => Error::InvalidPath("must be a tree"),
                }
            },
        ),
{
    lemma_outcome(state, leaves, storage, state.ops.len());
    lemma_validated_from(state, leaves, storage, n as nat);
    lemma_passed_counts(state, n as nat);
    lemma_passed_sets(state, n as nat, state.ops[n].path);
}

/// Should the root tree not count as existing, an operation on it is valid only if it
/// inserts under the key of a root leaf that is there.
pub proof fn law_root_leaves_without_a_root_tree(
    state: ValidatorView,
    op: BatchOpView,
    leaves: Seq<(Seq<u8>, usize)>,
)
    requires
        op.path.len() == 0,
        !state.valid.contains(op.path),
        !state.removed.contains(op.path),
    ensures
        state.verdict(op, leaves) is Pass <==> op.op is Insert && exists|i: int|
            0 <= i < leaves.len() && (#[trigger] leaves[i]).0 == op.key,
        state.verdict(op, leaves) matches Verdict::Fail(e) ==> e == if exists|i: int|
            0 <= i < leaves.len() && (#[trigger] leaves[i]).0 == op.key {
            Error::InvalidPath("deletion for root leafs is not supported")
        } else {
            Error::PathNotFound("missing root leaf")
        },
        !(state.verdict(op, leaves) is Lookup),
{
}

} // verus!
