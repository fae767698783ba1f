//! What a batch holds once its operations are collected and expanded, told by the
//! operations alone.
use crate::batch::ops::{
    lemma_op_lower_bound_range, op_less, op_lower_bound, unique, with_all_unique, with_unique,
    BatchOpView,
};
use crate::batch::path::{law_shallow_paths_come_first, lemma_path_irreflexive, path_less};
use crate::batch::rules::law_operations_are_unique;
use crate::batch::validate::{deletion, deletions};
use crate::bytes::{lemma_lex_irreflexive, lex_less};
use vstd::prelude::*;

verus! {

/// Whether some operation in a list inserts something at the place of another one.
pub open spec fn inserts_at(ops: Seq<BatchOpView>, at: BatchOpView) -> bool {
    exists|i: int|
        0 <= i < ops.len() && (#[trigger] ops[i]).path == at.path && ops[i].key == at.key
            && ops[i].op is Insert
}

/// Whether the operation at position `i` of a list comes before all insertions at its
/// place, in the list and in another one before it.
pub open spec fn first_at(ops: Seq<BatchOpView>, more: Seq<BatchOpView>, i: int) -> bool {
    !inserts_at(ops, more[i]) && !inserts_at(more.take(i), more[i])
}

/// An operation joins a list unless one that is there substitutes it.
proof fn lemma_joins(ops: Seq<BatchOpView>, last: BatchOpView, op: BatchOpView)
    ensures
        with_unique(ops, last).contains(op) <==> ops.contains(op) || (op == last && !exists|i: int|
            0 <= i < ops.len() && (#[trigger] ops[i]).substitutes(last)),
{
    let now = with_unique(ops, last);
    if !(exists|i: int| 0 <= i < ops.len() && (#[trigger] ops[i]).substitutes(last)) {
        let bound = op_lower_bound(ops, last) as int;
        lemma_op_lower_bound_range(ops, last);
        assert(now == ops.insert(bound, last));
        assert(now[bound] == last);
        if ops.contains(op) {
            let i = choose|i: int| 0 <= i < ops.len() && ops[i] == op;
            if i < bound {
                assert(now[i] == op);
            } else {
                assert(now[i + 1] == op);
            }
        }
        if now.contains(op) {
            let i = choose|i: int| 0 <= i < now.len() && now[i] == op;
            if i < bound {
                assert(ops[i] == op);
            } else if i > bound {
                assert(ops[i - 1] == op);
            }
        }
    }
}

/// Of the operations that are added to a list, exactly those join it that come before
/// all insertions at their place. So of two insertions at one place the first one
/// is kept, and a deletion is dropped where something was inserted before.
pub proof fn law_first_insertions_are_kept(
    ops: Seq<BatchOpView>,
    more: Seq<BatchOpView>,
    op: BatchOpView,
)
    requires
        unique(ops),
    ensures
        with_all_unique(ops, more).contains(op) <==> ops.contains(op) || exists|i: int|
            0 <= i < more.len() && more[i] == op && #[trigger] first_at(ops, more, i),
    decreases more.len(),
{
    if more.len() > 0 {
        let short = more.drop_last();
        let last = more.last();
        let n = more.len() - 1;
        let before = with_all_unique(ops, short);
        law_first_insertions_are_kept(ops, short, op);
        law_operations_are_unique(ops, short);
        lemma_joins(before, last, op);
        assert(more.take(n) =~= short);
        assert forall|i: int| 0 <= i < n implies first_at(ops, short, i) == #[trigger] first_at(
            ops,
            more,
            i,
        ) by {
            assert(short.take(i) =~= more.take(i));
        }
        if exists|i: int| 0 <= i < short.len() && short[i] == op && #[trigger] first_at(
            ops,
            short,
            i,
        ) {
            let i = choose|i: int|
                0 <= i < short.len() && short[i] == op && #[trigger] first_at(ops, short, i);
            assert(first_at(ops, more, i));
        }
        if exists|i: int| 0 <= i < more.len() && more[i] == op && #[trigger] first_at(
            ops,
            more,
            i,
        ) {
            let i = choose|i: int|
                0 <= i < more.len() && more[i] == op && #[trigger] first_at(ops, more, i);
            if i < n {
                assert(first_at(ops, short, i));
            }
        }
        if op == last {
            lemma_last_joins(ops, short, before, last);
            assert(first_at(ops, more, n) == (!inserts_at(ops, last) && !inserts_at(short, last)));
        }
    } else {
        assert(with_all_unique(ops, more) == ops);
    }
}

/// Nothing substitutes an operation, or it is there already, where it comes before all
/// insertions at its place.
proof fn lemma_last_joins(
    ops: Seq<BatchOpView>,
    short: Seq<BatchOpView>,
    before: Seq<BatchOpView>,
    last: BatchOpView,
)
    requires
        forall|op: BatchOpView| ops.contains(op) ==> before.contains(op),
        forall|op: BatchOpView|
            short.contains(op) ==> exists|substitute: BatchOpView| #[trigger]
                before.contains(substitute) && substitute.substitutes(op),
        forall|op: BatchOpView| before.contains(op) ==> ops.contains(op) || short.contains(op),
    ensures
        before.contains(last) || !(exists|i: int|
            0 <= i < before.len() && (#[trigger] before[i]).substitutes(last)) <==> before.contains(
            last,
        ) || (!inserts_at(ops, last) && !inserts_at(short, last)),
{
    if inserts_at(ops, last) {
        let i = choose|i: int|
            0 <= i < ops.len() && (#[trigger] ops[i]).path == last.path && ops[i].key == last.key
                && ops[i].op is Insert;
        assert(ops.contains(ops[i]));
        let k = choose|k: int| 0 <= k < before.len() && before[k] == ops[i];
        assert(before[k].substitutes(last));
    }
    if inserts_at(short, last) {
        let i = choose|i: int|
            0 <= i < short.len() && (#[trigger] short[i]).path == last.path && short[i].key
                == last.key && short[i].op is Insert;
        assert(short.contains(short[i]));
        let substitute = choose|substitute: BatchOpView| #[trigger]
            before.contains(substitute) && substitute.substitutes(short[i]);
        let k = choose|k: int| 0 <= k < before.len() && before[k] == substitute;
        assert(before[k].substitutes(last));
    }
    if exists|i: int| 0 <= i < before.len() && (#[trigger] before[i]).substitutes(last) {
        let i = choose|i: int| 0 <= i < before.len() && (#[trigger] before[i]).substitutes(last);
        let found = before[i];
        assert(before.contains(found));
        if found.op is Insert {
            if ops.contains(found) {
                let k = choose|k: int| 0 <= k < ops.len() && ops[k] == found;
                assert(ops[k].path == last.path && ops[k].key == last.key && ops[k].op is Insert);
            } else {
                let k = choose|k: int| 0 <= k < short.len() && short[k] == found;
                assert(short[k].path == last.path && short[k].key == last.key
                    && short[k].op is Insert);
            }
        } else {
            assert(found == last);
        }
    }
}

/// What a batch holds once deletions were added for the subtrees that storage found:
/// its own operations, and for each of these subtrees the deletion of what lies at
/// its path, unless the batch inserts something there.
pub proof fn law_expanded_batches(
    ops: Seq<BatchOpView>,
    found: Seq<Seq<Seq<u8>>>,
    op: BatchOpView,
)
    requires
        unique(ops),
        forall|i: int| 0 <= i < found.len() ==> (#[trigger] found[i]).len() > 0,
    ensures
        with_all_unique(ops, deletions(found)).contains(op) <==> ops.contains(op) || (op.op is Delete
            && found.contains(op.path.push(op.key)) && !inserts_at(ops, op)),
{
    let more = deletions(found);
    let path = op.path.push(op.key);
    law_first_insertions_are_kept(ops, more, op);
    if exists|i: int| 0 <= i < more.len() && more[i] == op && #[trigger] first_at(ops, more, i) {
        let i = choose|i: int|
            0 <= i < more.len() && more[i] == op && #[trigger] first_at(ops, more, i);
        assert(found[i] =~= path) by {
            assert(found[i].drop_last().push(found[i].last()) =~= found[i]);
        }
        assert(found.contains(path));
    }
    if op.op is Delete && found.contains(path) && !inserts_at(ops, op) {
        let i = choose|i: int| 0 <= i < found.len() && found[i] == path;
        assert(more[i] == deletion(path));
        assert(path.drop_last() =~= op.path);
        assert(more[i] == op);
        assert(!inserts_at(more.take(i), more[i]));
        assert(first_at(ops, more, i));
    }
}

/// The order in which operations stand: those in shallower subtrees first, in one
/// subtree by their keys, and under one key the deletion before the insertion.
pub proof fn law_order_of_operations(a: BatchOpView, b: BatchOpView)
    ensures
        a.path.len() < b.path.len() ==> op_less(a, b) && !op_less(b, a),
        a.path == b.path && lex_less(a.key, b.key) ==> op_less(a, b),
        a.path == b.path && a.key == b.key ==> (op_less(a, b) <==> a.op is Delete
            && b.op is Insert),
        a.path != b.path ==> (op_less(a, b) <==> path_less(a.path, b.path)),
{
    law_shallow_paths_come_first(a.path, b.path);
    lemma_path_irreflexive(a.path);
    lemma_lex_irreflexive(a.key);
}

} // verus!
