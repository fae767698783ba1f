//! The rules of batch validation, as laws.
use crate::batch::Op;
use crate::batch::ops::{
    lemma_op_total, lemma_op_transitive, op_less, op_lower_bound, unique, with_all_unique,
    with_unique, BatchOpView,
};
use crate::batch::validate::{deletion, deletions, ValidatorView, Verdict};
use crate::element::Element;
use crate::error::Error;
use vstd::prelude::*;

verus! {

/// In a sorted list, all before the lower bound of an operation are below it,
/// and none from the lower bound on is.
proof fn lemma_lower_bound_splits(ops: Seq<BatchOpView>, op: BatchOpView)
    requires
        unique(ops),
    ensures
        op_lower_bound(ops, op) <= ops.len(),
        forall|i: int| 0 <= i < op_lower_bound(ops, op) ==> op_less(#[trigger] ops[i], op),
        forall|i: int| op_lower_bound(ops, op) <= i < ops.len() ==> !op_less(#[trigger] ops[i], op),
    decreases ops.len(),
{
    if ops.len() > 0 {
        let short = ops.drop_last();
        let last = ops.last();
        assert forall|i: int, j: int| 0 <= i < j < short.len() implies op_less(
            #[trigger] short[i],
            #[trigger] short[j],
        ) by {
            assert(op_less(ops[i], ops[j]));
        }
        lemma_lower_bound_splits(short, op);
        if op_less(last, op) {
            assert forall|i: int| 0 <= i < ops.len() implies op_less(#[trigger] ops[i], op) by {
                if i < short.len() {
                    assert(op_less(ops[i], ops[ops.len() - 1]));
                    lemma_op_transitive(ops[i], last, op);
                }
            }
        } else {
            let bound = op_lower_bound(ops, op);
            assert forall|i: int| 0 <= i < bound implies op_less(#[trigger] ops[i], op) by {
                assert(op_less(short[i], op));
            }
            assert forall|i: int| bound <= i < ops.len() implies !op_less(#[trigger] ops[i], op) by {
                if i < short.len() {
                    assert(!op_less(short[i], op));
                }
            }
        }
    }
}

/// Adding an operation to a list in which none occurs twice leaves a list in
/// which none occurs twice, which holds all that was there and one that
/// substitutes the new operation, and nothing else.
proof fn lemma_with_unique(ops: Seq<BatchOpView>, op: BatchOpView)
    requires
        unique(ops),
    ensures
        unique(with_unique(ops, op)),
        exists|i: int|
            0 <= i < with_unique(ops, op).len() && (#[trigger] with_unique(ops, op)[i]).substitutes(
                op,
            ),
        forall|other: BatchOpView| ops.contains(other) ==> with_unique(ops, op).contains(other),
        forall|other: BatchOpView|
            with_unique(ops, op).contains(other) ==> ops.contains(other) || other == op,
{
    let now = with_unique(ops, op);
    lemma_lower_bound_splits(ops, op);
    let bound = op_lower_bound(ops, op) as int;
    if exists|i: int| 0 <= i < ops.len() && (#[trigger] ops[i]).substitutes(op) {
    } else {
        assert(now == ops.insert(bound, op));
        assert(now[bound] == op);
        assert(now[bound].substitutes(op));
        assert forall|i: int, j: int| 0 <= i < j < now.len() implies op_less(
            #[trigger] now[i],
            #[trigger] now[j],
        ) by {
            let a = if i < bound {
                i
            } else {
                i - 1
            };
            let b = if j < bound {
                j
            } else {
                j - 1
            };
            if i != bound && j != bound {
                assert(op_less(ops[a], ops[b]));
            } else if i == bound {
                assert(!op_less(ops[b], op));
                assert(!ops[b].substitutes(op));
                lemma_op_total(op, ops[b]);
            } else {
                assert(op_less(ops[a], op));
            }
        }
        assert forall|other: BatchOpView| ops.contains(other) implies now.contains(other) by {
            let i = choose|i: int| 0 <= i < ops.len() && ops[i] == other;
            if i < bound {
                assert(now[i] == other);
            } else {
                assert(now[i + 1] == other);
            }
        }
        assert forall|other: BatchOpView| now.contains(other) implies ops.contains(other) || other
            == op by {
            let i = choose|i: int| 0 <= i < now.len() && now[i] == other;
            if i < bound {
                assert(ops[i] == other);
            } else if i > bound {
                assert(ops[i - 1] == other);
            }
        }
    }
}

/// Operations are unique, and nothing is lost or made up: however many
/// operations are added to a list in which none occurs twice, none occurs twice
/// afterwards, all that was there is still there, every added operation is there
/// or is substituted by one that is there, and nothing else is there.
pub proof fn law_operations_are_unique(ops: Seq<BatchOpView>, more: Seq<BatchOpView>)
    requires
        unique(ops),
    ensures
        unique(with_all_unique(ops, more)),
        forall|op: BatchOpView| ops.contains(op) ==> with_all_unique(ops, more).contains(op),
        forall|op: BatchOpView|
            more.contains(op) ==> exists|substitute: BatchOpView| #[trigger]
                with_all_unique(ops, more).contains(substitute) && substitute.substitutes(op),
        forall|op: BatchOpView|
            with_all_unique(ops, more).contains(op) ==> ops.contains(op) || more.contains(op),
    decreases more.len(),
{
    if more.len() > 0 {
        let before = with_all_unique(ops, more.drop_last());
        let now = with_all_unique(ops, more);
        let last = more.last();
        law_operations_are_unique(ops, more.drop_last());
        lemma_with_unique(before, last);
        assert forall|op: BatchOpView| more.contains(op) implies exists|substitute: BatchOpView|
            #[trigger] now.contains(substitute) && substitute.substitutes(op) by {
            if more.drop_last().contains(op) {
                let substitute = choose|substitute: BatchOpView| #[trigger]
                    before.contains(substitute) && substitute.substitutes(op);
                assert(now.contains(substitute));
            } else {
                let i = choose|i: int| 0 <= i < more.len() && more[i] == op;
                assert(i == more.len() - 1) by {
                    if i < more.len() - 1 {
                        assert(more.drop_last()[i] == op);
                    }
                }
                let k = choose|k: int| 0 <= k < now.len() && (#[trigger] now[k]).substitutes(last);
                assert(now.contains(now[k]));
            }
        }
        assert forall|op: BatchOpView| now.contains(op) implies ops.contains(op) || more.contains(
            op,
        ) by {
            if op == last {
                assert(more[more.len() - 1] == op);
            } else if before.contains(op) {
                if more.drop_last().contains(op) {
                    let i = choose|i: int|
                        0 <= i < more.drop_last().len() && more.drop_last()[i] == op;
                    assert(more[i] == op);
                }
            }
        }
    }
}

/// Subtree overwrite and deletion produce explicit delete operations: of each
/// subtree that storage found below what the batch touches, the expanded batch
/// says that it is deleted or overwritten.
pub proof fn law_descendants_are_deleted(
    ops: Seq<BatchOpView>,
    found: Seq<Seq<Seq<u8>>>,
    path: Seq<Seq<u8>>,
)
    requires
        unique(ops),
        found.contains(path),
        path.len() > 0,
    ensures
        exists|op: BatchOpView| #[trigger]
            with_all_unique(ops, deletions(found)).contains(op) && op.target() == path,
{
    law_operations_are_unique(ops, deletions(found));
    let i = choose|i: int| 0 <= i < found.len() && found[i] == path;
    assert(deletions(found)[i] == deletion(path));
    assert(deletions(found).contains(deletion(path)));
    let op = choose|op: BatchOpView| #[trigger]
        with_all_unique(ops, deletions(found)).contains(op) && op.substitutes(deletion(path));
    assert(op.target() =~= path);
}

/// The state of the second pass once the operations before position `n` have
/// passed.
pub open spec fn passed(state: ValidatorView, n: nat) -> ValidatorView
    decreases n,
{
    if n <= state.next {
        state
    } else {
        let before = passed(state, (n - 1) as nat);
        before.after(state.ops[n - 1])
    }
}

/// Whether an operation is valid in a state of the second pass, where storage
/// answers as given.
pub open spec fn admissible(
    state: ValidatorView,
    op: BatchOpView,
    leaves: Seq<(Seq<u8>, usize)>,
    storage: spec_fn(Seq<Seq<u8>>) -> Result<Element, Error>,
) -> bool {
    match state.verdict(op, leaves) {
        Verdict::Pass => true,
        Verdict::Lookup => storage(op.path) matches Ok(Element::Tree(_, _)),
        Verdict::Fail(_) => false,
    }
}

/// What the second pass ends with, where storage answers as given: it goes as
/// far as it can by itself, asks storage for the subtree of the operation that
/// it cannot decide, and goes on with the answer.
pub open spec fn validated(
    state: ValidatorView,
    leaves: Seq<(Seq<u8>, usize)>,
    storage: spec_fn(Seq<Seq<u8>>) -> Result<Element, Error>,
) -> Result<(), Error>
    decreases state.ops.len() - state.next,
{
    if state.next >= state.ops.len() {
        Ok(())
    } else {
        let op = state.ops[state.next as int];
        match state.verdict(op, leaves) {
            Verdict::Fail(e) => Err(e),
            Verdict::Pass => validated(state.after(op), leaves, storage),
            Verdict::Lookup => match storage(op.path) {
                Err(e) => Err(e),
                Ok(Element::Tree(_, _)) => validated(state.after(op), leaves, storage),
                Ok(_) => Err(Error::InvalidPath("must be a tree")),
            },
        }
    }
}

/// Going on as far as storage need not be asked changes nothing about how the
/// second pass ends.
pub proof fn law_advancing_decides_nothing_else(
    state: ValidatorView,
    leaves: Seq<(Seq<u8>, usize)>,
    storage: spec_fn(Seq<Seq<u8>>) -> Result<Element, Error>,
)
    ensures
        match state.advanced(leaves).0 {
            Verdict::Fail(e) => validated(state, leaves, storage) == Err::<(), Error>(e),
            Verdict::Pass => validated(state, leaves, storage) == Ok::<(), Error>(()),
            Verdict::Lookup => validated(state, leaves, storage) == validated(
                state.advanced(leaves).1,
                leaves,
                storage,
            ),
        },
    decreases state.ops.len() - state.next,
{
    if state.next < state.ops.len() {
        let op = state.ops[state.next as int];
        if state.verdict(op, leaves) is Pass {
            law_advancing_decides_nothing_else(state.after(op), leaves, storage);
        }
    }
}

/// Passing one operation and then more is passing all of them.
proof fn lemma_passed_shift(state: ValidatorView, n: nat)
    requires
        state.next < n <= state.ops.len(),
    ensures
        passed(state, n) == passed(state.after(state.ops[state.next as int]), n),
        passed(state, n).ops == state.ops,
        passed(state, n).next == n,
    decreases n,
{
    reveal_with_fuel(passed, 2);
    if n > state.next + 1 {
        lemma_passed_shift(state, (n - 1) as nat);
    }
}

/// A batch is valid exactly if each of its operations is, in the state that the
/// operations before it leave.
pub proof fn law_valid_if_all_operations_are(
    state: ValidatorView,
    leaves: Seq<(Seq<u8>, usize)>,
    storage: spec_fn(Seq<Seq<u8>>) -> Result<Element, Error>,
)
    ensures
        validated(state, leaves, storage) is Ok <==> forall|n: nat|
            state.next <= n < state.ops.len() ==> admissible(
                #[trigger] passed(state, n),
                state.ops[n as int],
                leaves,
                storage,
            ),
    decreases state.ops.len() - state.next,
{
    if state.next < state.ops.len() {
        let op = state.ops[state.next as int];
        let rest = state.after(op);
        law_valid_if_all_operations_are(rest, leaves, storage);
        assert(passed(state, state.next) == state);
        if validated(state, leaves, storage) is Ok {
            assert forall|n: nat| state.next <= n < state.ops.len() implies admissible(
                #[trigger] passed(state, n),
                state.ops[n as int],
                leaves,
                storage,
            ) by {
                if n > state.next {
                    lemma_passed_shift(state, n);
                    assert(admissible(passed(rest, n), rest.ops[n as int], leaves, storage));
                }
            }
        }
        if forall|n: nat|
            state.next <= n < state.ops.len() ==> admissible(
                #[trigger] passed(state, n),
                state.ops[n as int],
                leaves,
                storage,
            ) {
            assert(admissible(passed(state, state.next), op, leaves, storage));
            assert forall|n: nat| rest.next <= n < rest.ops.len() implies admissible(
                #[trigger] passed(rest, n),
                rest.ops[n as int],
                leaves,
                storage,
            ) by {
                lemma_passed_shift(state, n);
                assert(admissible(passed(state, n), state.ops[n as int], leaves, storage));
            }
        }
    }
}

/// The root tree always exists: no operation of a batch makes it unavailable.
pub proof fn law_root_tree_always_exists(state: ValidatorView, n: nat)
    requires
        state.valid.contains(seq![]),
        state.next <= n <= state.ops.len(),
    ensures
        passed(state, n).valid.contains(seq![]),
    decreases n,
{
    if n > state.next {
        law_root_tree_always_exists(state, (n - 1) as nat);
        let op = state.ops[n - 1];
        assert(op.target().len() > 0);
        assert(op.target() != Seq::<Seq<u8>>::empty());
    }
}

/// Whether an operation creates the subtree at a path.
pub open spec fn creates(op: BatchOpView, path: Seq<Seq<u8>>) -> bool {
    op.path.push(op.key) == path && (op.op matches Op::Insert { element: Element::Tree(_, _) })
}

/// Whether an operation deletes what is at a path.
pub open spec fn deletes(op: BatchOpView, path: Seq<Seq<u8>>) -> bool {
    op.path.push(op.key) == path && op.op is Delete
}

/// A subtree is treated as existing if it is created within the same batch: after
/// an operation that creates it, and as long as none deletes it, every operation
/// on it passes without asking storage.
pub proof fn law_created_subtree_exists(
    state: ValidatorView,
    leaves: Seq<(Seq<u8>, usize)>,
    path: Seq<Seq<u8>>,
    i: nat,
    j: nat,
)
    requires
        state.next <= i < j <= state.ops.len(),
        creates(state.ops[i as int], path),
        forall|k: int| i < k < j ==> !deletes(#[trigger] state.ops[k], path),
    ensures
        passed(state, j).valid.contains(path),
        !passed(state, j).removed.contains(path),
        j < state.ops.len() && state.ops[j as int].path == path ==> passed(state, j).verdict(
            state.ops[j as int],
            leaves,
        ) is Pass,
    decreases j,
{
    if j > i + 1 {
        law_created_subtree_exists(state, leaves, path, i, (j - 1) as nat);
        assert(!deletes(state.ops[j - 1], path));
    }
}

/// A subtree is treated as not existing if there is a delete operation with no
/// subtree insertion counterpart: once it is marked as deleted, and as long as
/// no operation creates it, every insertion into it is invalid.
pub proof fn law_deleted_subtree_takes_no_insertion(
    state: ValidatorView,
    leaves: Seq<(Seq<u8>, usize)>,
    path: Seq<Seq<u8>>,
    i: nat,
    j: nat,
)
    requires
        state.next <= i <= j < state.ops.len(),
        passed(state, i).removed.contains(path) || (i < j && deletes(state.ops[i as int], path)),
        forall|k: int| i <= k < j ==> !creates(#[trigger] state.ops[k], path),
    ensures
        passed(state, j).removed.contains(path),
        state.ops[j as int].path == path && state.ops[j as int].op is Insert ==> passed(
            state,
            j,
        ).verdict(state.ops[j as int], leaves) == Verdict::Fail(
            Error::InvalidPath("attempt to insert into deleted subtree"),
        ),
    decreases j,
{
    if j > i {
        assert(!creates(state.ops[j - 1], path));
        if j - 1 > i || passed(state, i).removed.contains(path) {
            law_deleted_subtree_takes_no_insertion(state, leaves, path, i, (j - 1) as nat);
        }
    }
}

} // verus!
