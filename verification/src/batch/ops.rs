//! Sorted lists of batch operations.
use crate::batch::path::{
    lemma_path_irreflexive, lemma_path_total, lemma_path_transitive, path_before, path_less,
    path_view, paths_equal,
};
use crate::batch::{GroveDbOp, Op};
use crate::bytes::{
    bytes_equal, bytes_less, lemma_lex_irreflexive, lemma_lex_total, lemma_lex_transitive,
    lex_less,
};
use vstd::prelude::*;

verus! {

/// What a batch operation is about.
pub struct BatchOpView {
    /// Path of the subtree.
    pub path: Seq<Seq<u8>>,
    /// Key in the subtree.
    pub key: Seq<u8>,
    /// What is done.
    pub op: Op,
}

impl View for GroveDbOp {
    type V = BatchOpView;

    open spec fn view(&self) -> BatchOpView {
        BatchOpView { path: path_view(self.path@), key: self.key@, op: self.op }
    }
}

impl BatchOpView {
    /// Whether two operations are about the same key of the same subtree.
    pub open spec fn same_place(self, other: BatchOpView) -> bool {
        self.path == other.path && self.key == other.key
    }

    /// The path of what lies under the operation's key.
    pub open spec fn target(self) -> Seq<Seq<u8>> {
        self.path.push(self.key)
    }

    /// Whether an operation that is already there makes `other` superfluous: it
    /// is about the same place, and inserts something or does nothing else than
    /// `other`. An insertion substitutes a deletion.
    pub open spec fn substitutes(self, other: BatchOpView) -> bool {
        self.same_place(other) && (self.op is Insert || other.op is Delete)
    }
}

/// The order of batch operations: by path, then by key, with deletions before
/// insertions.
pub open spec fn op_less(a: BatchOpView, b: BatchOpView) -> bool {
    path_less(a.path, b.path) || (a.path == b.path && (lex_less(a.key, b.key) || (a.key == b.key
        && a.op is Delete && b.op is Insert)))
}

/// No operation is below itself.
pub proof fn lemma_op_irreflexive(a: BatchOpView)
    ensures
        !op_less(a, a),
{
    lemma_path_irreflexive(a.path);
    lemma_lex_irreflexive(a.key);
}

/// The order of operations is transitive.
pub proof fn lemma_op_transitive(a: BatchOpView, b: BatchOpView, c: BatchOpView)
    requires
        op_less(a, b),
        op_less(b, c),
    ensures
        op_less(a, c),
{
    if path_less(a.path, b.path) && path_less(b.path, c.path) {
        lemma_path_transitive(a.path, b.path, c.path);
    }
    if lex_less(a.key, b.key) && lex_less(b.key, c.key) {
        lemma_lex_transitive(a.key, b.key, c.key);
    }
}

/// Two operations, neither of which is below the other, are about the same
/// place and do the same kind of thing.
pub proof fn lemma_op_total(a: BatchOpView, b: BatchOpView)
    ensures
        op_less(a, b) || op_less(b, a) || (a.same_place(b) && a.op is Insert == b.op is Insert),
{
    lemma_path_total(a.path, b.path);
    lemma_lex_total(a.key, b.key);
}

/// An operation that is not above a second one, which is below a third one, is
/// below the third one.
pub proof fn lemma_op_weak_transitive(a: BatchOpView, b: BatchOpView, c: BatchOpView)
    requires
        !op_less(b, a),
        op_less(b, c),
    ensures
        op_less(a, c),
{
    lemma_op_total(a, b);
    if op_less(a, b) {
        lemma_op_transitive(a, b, c);
    }
}

/// Whether no operation stands before one that is below it.
pub open spec fn sorted(ops: Seq<BatchOpView>) -> bool {
    forall|i: int, j: int|
        0 <= i < j < ops.len() ==> !op_less(#[trigger] ops[j], #[trigger] ops[i])
}

/// Whether each operation is below the ones behind it, so that none occurs
/// twice.
pub open spec fn unique(ops: Seq<BatchOpView>) -> bool {
    forall|i: int, j: int|
        0 <= i < j < ops.len() ==> op_less(#[trigger] ops[i], #[trigger] ops[j])
}

/// The position of the first operation that is not below `op`.
pub open spec fn op_lower_bound(ops: Seq<BatchOpView>, op: BatchOpView) -> nat
    decreases ops.len(),
{
    if ops.len() == 0 {
        0
    } else if op_less(ops.last(), op) {
        ops.len()
    } else {
        op_lower_bound(ops.drop_last(), op)
    }
}

/// The position behind the last operation that `op` is not below.
pub open spec fn op_upper_bound(ops: Seq<BatchOpView>, op: BatchOpView) -> nat
    decreases ops.len(),
{
    if ops.len() == 0 {
        0
    } else if !op_less(op, ops.last()) {
        ops.len()
    } else {
        op_upper_bound(ops.drop_last(), op)
    }
}

/// A list of operations with one more, unless one that is there substitutes it.
pub open spec fn with_unique(ops: Seq<BatchOpView>, op: BatchOpView) -> Seq<BatchOpView> {
    if exists|i: int| 0 <= i < ops.len() && (#[trigger] ops[i]).substitutes(op) {
        ops
    } else {
        ops.insert(op_lower_bound(ops, op) as int, op)
    }
}

/// A list of operations with more, one after the other, each unless one that is
/// there substitutes it.
pub open spec fn with_all_unique(ops: Seq<BatchOpView>, more: Seq<BatchOpView>) -> Seq<BatchOpView>
    decreases more.len(),
{
    if more.len() == 0 {
        ops
    } else {
        with_unique(with_all_unique(ops, more.drop_last()), more.last())
    }
}

/// A lower bound is a position in the list or its end.
pub proof fn lemma_op_lower_bound_range(ops: Seq<BatchOpView>, op: BatchOpView)
    ensures
        op_lower_bound(ops, op) <= ops.len(),
    decreases ops.len(),
{
    if ops.len() > 0 {
        lemma_op_lower_bound_range(ops.drop_last(), op);
    }
}

/// A position is the lower bound where everything before it is below the
/// operation and nothing from it on is.
proof fn lemma_op_lower_bound(ops: Seq<BatchOpView>, op: BatchOpView, i: nat)
    requires
        i <= ops.len(),
        forall|j: int| 0 <= j < i ==> op_less(#[trigger] ops[j], op),
        forall|j: int| i <= j < ops.len() ==> !op_less(#[trigger] ops[j], op),
    ensures
        op_lower_bound(ops, op) == i,
    decreases ops.len(),
{
    if i < ops.len() {
        assert(!op_less(ops[ops.len() - 1], op));
        lemma_op_lower_bound(ops.drop_last(), op, i);
    } else if i > 0 {
        assert(op_less(ops[ops.len() - 1], op));
    }
}

/// A position is the upper bound where the operation is below nothing before it
/// and below everything from it on.
proof fn lemma_op_upper_bound(ops: Seq<BatchOpView>, op: BatchOpView, i: nat)
    requires
        i <= ops.len(),
        forall|j: int| 0 <= j < i ==> !op_less(op, #[trigger] ops[j]),
        forall|j: int| i <= j < ops.len() ==> op_less(op, #[trigger] ops[j]),
    ensures
        op_upper_bound(ops, op) == i,
    decreases ops.len(),
{
    if i < ops.len() {
        assert(op_less(op, ops[ops.len() - 1]));
        lemma_op_upper_bound(ops.drop_last(), op, i);
    } else if i > 0 {
        assert(!op_less(op, ops[ops.len() - 1]));
    }
}

/// Whether `a` comes before `b`.
fn op_before(a: &GroveDbOp, b: &GroveDbOp) -> (before: bool)
    ensures
        before == op_less(a@, b@),
{
    proof {
        lemma_path_total(a@.path, b@.path);
        lemma_lex_total(a@.key, b@.key);
    }
    if path_before(a.path.as_slice(), b.path.as_slice()) {
        true
    } else if !paths_equal(a.path.as_slice(), b.path.as_slice()) {
        false
    } else if bytes_less(a.key.as_slice(), b.key.as_slice()) {
        true
    } else if !bytes_equal(a.key.as_slice(), b.key.as_slice()) {
        false
    } else {
        match (&a.op, &b.op) {
            (Op::Delete, Op::Insert { .. }) => true,
            _ => false,
        }
    }
}

/// What a list of batch operations is about.
pub open spec fn batch_view(ops: Seq<GroveDbOp>) -> Seq<BatchOpView> {
    Seq::new(ops.len(), |i: int| ops[i]@)
}

/// A sorted list of batch operations.
#[derive(Debug)]
pub struct SortedOps {
    ops: Vec<GroveDbOp>,
}

impl View for SortedOps {
    type V = Seq<BatchOpView>;

    closed spec fn view(&self) -> Seq<BatchOpView> {
        batch_view(self.ops@)
    }
}

impl SortedOps {
    /// An empty list.
    pub fn new() -> (ops: SortedOps)
        ensures
            ops@ == Seq::<BatchOpView>::empty(),
            sorted(ops@),
            unique(ops@),
    {
        let ops = SortedOps { ops: Vec::new() };
        assert(ops@ =~= Seq::<BatchOpView>::empty());
        ops
    }

    /// The operations can be counted.
    pub proof fn lemma_len(self)
        ensures
            self@.len() <= usize::MAX,
    {
        assert(self.ops.len() == self@.len());
    }

    /// The number of operations.
    pub fn len(&self) -> (len: usize)
        ensures
            len == self@.len(),
    {
        self.ops.len()
    }

    /// Whether there are no operations.
    pub fn is_empty(&self) -> (empty: bool)
        ensures
            empty == (self@.len() == 0),
    {
        self.ops.len() == 0
    }

    /// The operation at the given position.
    pub fn get(&self, i: usize) -> (op: &GroveDbOp)
        requires
            i < self@.len(),
        ensures
            op@ == self@[i as int],
    {
        &self.ops[i]
    }

    /// The last operation, if there is one.
    pub fn last(&self) -> (op: Option<&GroveDbOp>)
        ensures
            match op {
                Some(op) => self@.len() > 0 && op@ == self@.last(),
                None => self@.len() == 0,
            },
    {
        if self.ops.len() == 0 {
            None
        } else {
            Some(&self.ops[self.ops.len() - 1])
        }
    }

    /// Takes the last operation out, if there is one.
    pub fn pop(&mut self) -> (op: Option<GroveDbOp>)
        requires
            sorted(old(self)@),
        ensures
            sorted(final(self)@),
            match op {
                Some(op) => {
                    &&& old(self)@.len() > 0
                    &&& op@ == old(self)@.last()
                    &&& final(self)@ == old(self)@.drop_last()
                },
                None => old(self)@.len() == 0 && final(self)@ == old(self)@,
            },
    {
        let ghost before = self.ops@;
        let op = self.ops.pop();
        if op.is_some() {
            assert(self@ =~= batch_view(before).drop_last());
        }
        op
    }

    /// The position of the first operation that is not below `op`, or that `op`
    /// is below, where `behind` is set.
    fn position(&self, op: &GroveDbOp, behind: bool) -> (position: usize)
        requires
            sorted(self@),
        ensures
            position <= self@.len(),
            forall|j: int|
                0 <= j < position ==> if behind {
                    !op_less(op@, #[trigger] self@[j])
                } else {
                    op_less(self@[j], op@)
                },
            forall|j: int|
                position <= j < self@.len() ==> if behind {
                    op_less(op@, #[trigger] self@[j])
                } else {
                    !op_less(self@[j], op@)
                },
    {
        let mut low: usize = 0;
        let mut high: usize = self.ops.len();
        while low < high
            invariant
                low <= high <= self@.len(),
                sorted(self@),
                forall|j: int|
                    0 <= j < low ==> if behind {
                        !op_less(op@, #[trigger] self@[j])
                    } else {
                        op_less(self@[j], op@)
                    },
                forall|j: int|
                    high <= j < self@.len() ==> if behind {
                        op_less(op@, #[trigger] self@[j])
                    } else {
                        !op_less(self@[j], op@)
                    },
            decreases high - low,
        {
            let middle: usize = low + (high - low) / 2;
            let ghost at = self@[middle as int];
            let before = if behind {
                !op_before(op, &self.ops[middle])
            } else {
                op_before(&self.ops[middle], op)
            };
            if before {
                assert forall|j: int| 0 <= j < middle + 1 implies if behind {
                    !op_less(op@, #[trigger] self@[j])
                } else {
                    op_less(self@[j], op@)
                } by {
                    if low <= j < middle {
                        assert(!op_less(self@[middle as int], self@[j]));
                        if behind {
                            if op_less(op@, self@[j]) {
                                lemma_op_less_weak(op@, self@[j], at);
                            }
                        } else {
                            lemma_op_weak_transitive(self@[j], at, op@);
                        }
                    }
                }
                low = middle + 1;
            } else {
                assert forall|j: int| middle <= j < self@.len() implies if behind {
                    op_less(op@, #[trigger] self@[j])
                } else {
                    !op_less(self@[j], op@)
                } by {
                    if middle < j < high {
                        assert(!op_less(self@[j], self@[middle as int]));
                        if behind {
                            lemma_op_less_weak(op@, at, self@[j]);
                        } else if op_less(self@[j], op@) {
                            lemma_op_weak_transitive(at, self@[j], op@);
                        }
                    }
                }
                high = middle;
            }
        }
        low
    }

    /// Puts an operation in, behind all that it is not below.
    pub fn insert(&mut self, op: GroveDbOp)
        requires
            sorted(old(self)@),
        ensures
            sorted(final(self)@),
            final(self)@ == old(self)@.insert(op_upper_bound(old(self)@, op@) as int, op@),
    {
        let ghost before = self@;
        let ghost added = op@;
        let position = self.position(&op, true);
        proof {
            lemma_op_upper_bound(before, added, position as nat);
        }
        self.ops.insert(position, op);
        assert(self@ =~= before.insert(position as int, added));
        assert forall|i: int, j: int| 0 <= i < j < self@.len() implies !op_less(
            #[trigger] self@[j],
            #[trigger] self@[i],
        ) by {
            lemma_insert_sorted(before, added, position as int, i, j);
        }
    }
}

/// An operation that is below a second one, which is not above a third one, is
/// below the third one.
pub proof fn lemma_op_less_weak(a: BatchOpView, b: BatchOpView, c: BatchOpView)
    requires
        op_less(a, b),
        !op_less(c, b),
    ensures
        op_less(a, c),
{
    lemma_op_total(b, c);
    if op_less(b, c) {
        lemma_op_transitive(a, b, c);
    }
}

/// Putting an operation between those that are not above it and those that are
/// not below it keeps a list sorted.
proof fn lemma_insert_sorted(
    ops: Seq<BatchOpView>,
    op: BatchOpView,
    position: int,
    i: int,
    j: int,
)
    requires
        sorted(ops),
        0 <= position <= ops.len(),
        forall|k: int| 0 <= k < position ==> !op_less(op, #[trigger] ops[k]),
        forall|k: int| position <= k < ops.len() ==> !op_less(#[trigger] ops[k], op),
        0 <= i < j <= ops.len(),
    ensures
        !op_less(ops.insert(position, op)[j], ops.insert(position, op)[i]),
{
    let a = if i < position {
        i
    } else {
        i - 1
    };
    let b = if j < position {
        j
    } else {
        j - 1
    };
    if i != position && j != position {
        assert(!op_less(ops[b], ops[a]));
    } else if i == position {
        assert(!op_less(ops[b], op));
    } else {
        assert(!op_less(op, ops[a]));
    }
}

/// Keeps a sorted list of operations unique on insertions: an operation for
/// which there is an insertion at the same place already, or that is a deletion
/// which is there already, is dropped.
pub fn insert_unique_op(ops: &mut SortedOps, op: GroveDbOp)
    requires
        sorted(old(ops)@),
    ensures
        sorted(final(ops)@),
        unique(old(ops)@) ==> unique(final(ops)@),
        final(ops)@ == with_unique(old(ops)@, op@),
{
    let ghost before = ops@;
    let ghost added = op@;
    let position = ops.position(&op, false);
    let mut present = false;
    if position < ops.len() {
        let found = ops.get(position);
        if paths_equal(found.path.as_slice(), op.path.as_slice()) && bytes_equal(
            found.key.as_slice(),
            op.key.as_slice(),
        ) {
            present = match (&found.op, &op.op) {
                (Op::Delete, Op::Insert { .. }) => false,
                _ => true,
            };
        }
    }
    proof {
        lemma_op_lower_bound(before, added, position as nat);
        lemma_op_irreflexive(added);
        if present {
            assert(before[position as int].substitutes(added));
        } else {
            assert forall|i: int| 0 <= i < before.len() implies !(#[trigger] before[i]).substitutes(
                added,
            ) by {
                if before[i].substitutes(added) {
                    lemma_lex_irreflexive(added.key);
                    lemma_path_irreflexive(added.path);
                    assert(i >= position);
                    let at = before[position as int];
                    assert(!op_less(at, added));
                    if i > position {
                        assert(!op_less(before[i], at));
                    }
                    lemma_between(at, added, before[i]);
                }
            }
        }
    }
    if !present {
        ops.ops.insert(position, op);
        proof {
            assert(ops@ =~= before.insert(position as int, added));
            assert forall|k: int| 0 <= k < position implies !op_less(added, #[trigger] before[k]) by {
                if op_less(added, before[k]) {
                    lemma_op_transitive(added, before[k], added);
                }
            }
            assert forall|i: int, j: int| 0 <= i < j < ops@.len() implies !op_less(
                #[trigger] ops@[j],
                #[trigger] ops@[i],
            ) by {
                lemma_insert_sorted(before, added, position as int, i, j);
            }
            if unique(before) {
                lemma_insert_unique(before, added, position as int);
            }
        }
    }
}

/// An operation that stands between a new one and one that substitutes it is
/// about the same place, and does not leave the new one needed.
proof fn lemma_between(at: BatchOpView, added: BatchOpView, substitute: BatchOpView)
    requires
        !op_less(at, added),
        !op_less(substitute, at) || at == substitute,
        substitute.substitutes(added),
    ensures
        at.substitutes(added),
{
    lemma_path_total(at.path, added.path);
    lemma_lex_total(at.key, added.key);
}

/// Putting an operation that nothing substitutes at its lower bound keeps a list
/// unique.
proof fn lemma_insert_unique(ops: Seq<BatchOpView>, op: BatchOpView, position: int)
    requires
        unique(ops),
        0 <= position <= ops.len(),
        forall|k: int| 0 <= k < position ==> op_less(#[trigger] ops[k], op),
        forall|k: int| position <= k < ops.len() ==> !op_less(#[trigger] ops[k], op),
        forall|k: int| 0 <= k < ops.len() ==> !(#[trigger] ops[k]).substitutes(op),
    ensures
        unique(ops.insert(position, op)),
{
    let now = ops.insert(position, op);
    assert forall|i: int, j: int| 0 <= i < j < now.len() implies op_less(
        #[trigger] now[i],
        #[trigger] now[j],
    ) by {
        let a = if i < position {
            i
        } else {
            i - 1
        };
        let b = if j < position {
            j
        } else {
            j - 1
        };
        if i != position && j != position {
            assert(op_less(ops[a], ops[b]));
        } else if i == position {
            lemma_op_total(op, ops[b]);
            assert(!ops[b].substitutes(op));
        } else {
            assert(op_less(ops[a], op));
        }
    }
}

/// Batch operations in memory show their paths part for part, their keys, and what they
/// do, one for one.
pub proof fn law_what_operations_hold(ops: Seq<GroveDbOp>, i: int)
    requires
        0 <= i < ops.len(),
    ensures
        batch_view(ops).len() == ops.len(),
        batch_view(ops)[i].path.len() == ops[i].path@.len(),
        forall|k: int|
            0 <= k < ops[i].path@.len() ==> #[trigger] batch_view(ops)[i].path[k]
                == ops[i].path@[k]@,
        batch_view(ops)[i].key == ops[i].key@,
        batch_view(ops)[i].op == ops[i].op,
{
}

/// How an operation joins a sorted list that has to stay without substitutes: if there is
/// an insertion at its place, or the same deletion, the list stays as it is. If not,
/// it joins behind all operations that are below it, and before all others.
pub proof fn law_how_an_operation_joins(ops: Seq<BatchOpView>, op: BatchOpView, position: nat)
    requires
        position <= ops.len(),
        forall|j: int| 0 <= j < position ==> op_less(#[trigger] ops[j], op),
        forall|j: int| position <= j < ops.len() ==> !op_less(#[trigger] ops[j], op),
    ensures
        with_unique(ops, op) == if exists|i: int|
            0 <= i < ops.len() && (#[trigger] ops[i]).path == op.path && ops[i].key == op.key && (
            ops[i].op is Insert || op.op is Delete) {
            ops
        } else {
            ops.insert(position as int, op)
        },
{
    lemma_op_lower_bound(ops, op, position);
    if exists|i: int|
        0 <= i < ops.len() && (#[trigger] ops[i]).path == op.path && ops[i].key == op.key && (
        ops[i].op is Insert || op.op is Delete) {
        let i = choose|i: int|
            0 <= i < ops.len() && (#[trigger] ops[i]).path == op.path && ops[i].key == op.key && (
            ops[i].op is Insert || op.op is Delete);
        assert(ops[i].substitutes(op));
    }
    if exists|i: int| 0 <= i < ops.len() && (#[trigger] ops[i]).substitutes(op) {
        let i = choose|i: int| 0 <= i < ops.len() && (#[trigger] ops[i]).substitutes(op);
        assert(ops[i].path == op.path && ops[i].key == op.key);
    }
}

/// Where an operation is put into a sorted list that may hold substitutes: behind all
/// operations that it is not below, and before all that it is below.
pub proof fn law_where_an_operation_is_put(
    ops: Seq<BatchOpView>,
    op: BatchOpView,
    position: nat,
)
    requires
        position <= ops.len(),
        forall|j: int| 0 <= j < position ==> !op_less(op, #[trigger] ops[j]),
        forall|j: int| position <= j < ops.len() ==> op_less(op, #[trigger] ops[j]),
    ensures
        op_upper_bound(ops, op) == position,
{
    lemma_op_upper_bound(ops, op, position);
}

} // verus!
