//! Validation of batches. A batch is valid by these rules:
//! 1. Subtree must exist to perform operations on it;
//! 2. Subtree is treated as existing if it can be found in storage;
//! 3. Subtree is treated as existing if it is created within the same batch;
//! 4. Subtree is treated as not existing otherwise or if there is a delete
//!    operation with no subtree insertion counterpart;
//! 5. Subtree overwrite/deletion produces explicit delete operations for every
//!    descendant subtree;
//! 6. Operations are unique.
//!
//! Validation goes in two passes. The first, `BatchExpansion`, asks storage for
//! the descendant subtrees of what each operation touches, and adds deletions
//! for them. The second, `BatchValidator`, goes through the operations from top to
//! bottom, and asks storage for subtrees of which the batch itself does not say
//! whether they exist.
use crate::batch::apply::{ApplicationView, BatchApplication, Stage};
use crate::batch::ops::{
    batch_view, insert_unique_op, lemma_op_lower_bound_range, sorted, unique, with_all_unique,
    BatchOpView, SortedOps,
};
use crate::batch::path::{child_path, path_view, split_path, PathSet};
use crate::batch::{GroveDbOp, Op};
use crate::element::Element;
use crate::error::Error;
use crate::root_leaves::{has_leaf, keys_sorted, RootLeaves};
use vstd::prelude::*;

verus! {

/// Paths as byte strings.
pub open spec fn paths_view(paths: Seq<Vec<Vec<u8>>>) -> Seq<Seq<Seq<u8>>> {
    Seq::new(paths.len(), |i: int| path_view(paths[i]@))
}

/// The operation that deletes the subtree at a path.
pub open spec fn deletion(path: Seq<Seq<u8>>) -> BatchOpView {
    BatchOpView { path: path.drop_last(), key: path.last(), op: Op::Delete }
}

/// The operations that delete the subtrees at some paths.
pub open spec fn deletions(paths: Seq<Seq<Seq<u8>>>) -> Seq<BatchOpView> {
    Seq::new(paths.len(), |i: int| deletion(paths[i]))
}

/// Collects batch operations into a sorted list, where an operation is dropped
/// if one that is there substitutes it.
pub fn collect_ops(ops: Vec<GroveDbOp>) -> (collected: SortedOps)
    ensures
        collected@ == with_all_unique(seq![], batch_view(ops@)),
        sorted(collected@),
        unique(collected@),
{
    let mut collected = SortedOps::new();
    add_all_unique(&mut collected, ops);
    collected
}

/// Adds operations to a sorted list, each unless one that is there substitutes
/// it.
fn add_all_unique(sorted_ops: &mut SortedOps, ops: Vec<GroveDbOp>)
    requires
        sorted(old(sorted_ops)@),
    ensures
        final(sorted_ops)@ == with_all_unique(old(sorted_ops)@, batch_view(ops@)),
        sorted(final(sorted_ops)@),
        unique(old(sorted_ops)@) ==> unique(final(sorted_ops)@),
{
    let ghost first = sorted_ops@;
    let ghost all = batch_view(ops@);
    assert(all.take(0) =~= seq![]);
    for op in iter: ops
        invariant
            iter.seq() == ops@,
            all == batch_view(ops@),
            sorted_ops@ == with_all_unique(first, all.take(iter.index() as int)),
            sorted(sorted_ops@),
            unique(first) ==> unique(sorted_ops@),
    {
        proof {
            let i = iter.index() as int;
            assert(all.take(i + 1).drop_last() =~= all.take(i));
            assert(all.take(i + 1).last() == op@);
        }
        insert_unique_op(sorted_ops, op);
    }
    assert(all.take(all.len() as int) =~= all);
}

/// The first pass of validation: it expands recursive deletions and possible
/// subtree overwrites.
#[derive(Debug)]
pub struct BatchExpansion {
    ops: SortedOps,
    next: usize,
    delete_ops: Vec<GroveDbOp>,
    removed_subtrees: PathSet,
}

/// The state of the first pass.
#[verifier::ext_equal]
pub struct ExpansionView {
    /// The operations of the batch.
    pub ops: Seq<BatchOpView>,
    /// How many operations have been looked at.
    pub next: nat,
    /// The deletions so far.
    pub deletes: Seq<BatchOpView>,
    /// The subtrees that are to be deleted or overwritten.
    pub removed: Set<Seq<Seq<u8>>>,
}

impl View for BatchExpansion {
    type V = ExpansionView;

    closed spec fn view(&self) -> ExpansionView {
        ExpansionView {
            ops: self.ops@,
            next: self.next as nat,
            deletes: batch_view(self.delete_ops@),
            removed: self.removed_subtrees@,
        }
    }
}

impl BatchExpansion {
    /// Whether the operations are sorted and no more of them have been looked at
    /// than there are.
    pub closed spec fn well_formed(self) -> bool {
        &&& sorted(self.ops@)
        &&& self.next <= self.ops@.len()
        &&& self.removed_subtrees.well_formed()
    }

    /// The first pass over sorted operations, before the first of them.
    pub fn new(ops: SortedOps) -> (expansion: BatchExpansion)
        requires
            sorted(ops@),
        ensures
            expansion.well_formed(),
            expansion@ == (ExpansionView {
                ops: ops@,
                next: 0,
                deletes: seq![],
                removed: Set::empty(),
            }),
    {
        let expansion = BatchExpansion {
            ops,
            next: 0,
            delete_ops: Vec::new(),
            removed_subtrees: PathSet::new(),
        };
        assert(expansion@.deletes =~= seq![]);
        expansion
    }

    /// Starts the application of a batch, unless there is nothing to do: its
    /// operations are collected into a sorted list, where an operation is dropped
    /// if one that is there substitutes it.
    pub fn begin(ops: Vec<GroveDbOp>) -> (expansion: Option<BatchExpansion>)
        ensures
            match expansion {
                None => ops@.len() == 0,
                Some(expansion) => {
                    &&& ops@.len() > 0
                    &&& expansion.well_formed()
                    &&& expansion@ == (ExpansionView {
                        ops: with_all_unique(seq![], batch_view(ops@)),
                        next: 0,
                        deletes: seq![],
                        removed: Set::empty(),
                    })
                    &&& unique(expansion@.ops)
                    &&& expansion@.ops.len() > 0
                },
            },
    {
        if ops.len() == 0 {
            return None;
        }
        proof {
            lemma_with_all_unique_grows(seq![], batch_view(ops@));
        }
        Some(BatchExpansion::new(collect_ops(ops)))
    }

    /// The path of which storage has to tell the subtrees, itself included: what
    /// the next operation touches. There is none after the last operation.
    pub fn query(&self) -> (path: Option<Vec<Vec<u8>>>)
        requires
            self.well_formed(),
        ensures
            match path {
                Some(path) => self@.next < self@.ops.len() && path_view(path@)
                    == self@.ops[self@.next as int].target(),
                None => self@.next == self@.ops.len(),
            },
    {
        if self.next < self.ops.len() {
            let op = self.ops.get(self.next);
            Some(child_path(op.path.as_slice(), op.key.as_slice()))
        } else {
            None
        }
    }

    /// Goes on with the paths of the subtrees that storage found: each is to be
    /// removed, by a deletion of its own.
    pub fn resume(&mut self, delete_paths: Vec<Vec<Vec<u8>>>)
        requires
            old(self).well_formed(),
            old(self)@.next < old(self)@.ops.len(),
            forall|i: int| 0 <= i < delete_paths@.len() ==> (#[trigger] delete_paths@[i])@.len() > 0,
        ensures
            final(self).well_formed(),
            final(self)@ == (ExpansionView {
                next: old(self)@.next + 1,
                deletes: old(self)@.deletes + deletions(paths_view(delete_paths@)),
                removed: old(self)@.removed.union(paths_view(delete_paths@).to_set()),
                ..old(self)@
            }),
    {
        let ghost deletes = self@.deletes;
        let ghost removed = self@.removed;
        let ghost paths = paths_view(delete_paths@);
        let ghost total = self.ops@;
        let ghost next = self.next;
        assert(deletes + deletions(paths.take(0)) =~= deletes);
        assert(removed.union(paths.take(0).to_set()) =~= removed);
        for path in iter: delete_paths
            invariant
                iter.seq() == delete_paths@,
                paths == paths_view(delete_paths@),
                self.ops@ == total,
                self.next == next,
                sorted(self.ops@),
                self.removed_subtrees.well_formed(),
                forall|i: int|
                    0 <= i < delete_paths@.len() ==> (#[trigger] delete_paths@[i])@.len() > 0,
                self@.deletes == deletes + deletions(paths.take(iter.index() as int)),
                self@.removed == removed.union(paths.take(iter.index() as int).to_set()),
        {
            let ghost i = iter.index() as int;
            let ghost before = self.delete_ops@;
            let ghost at = path_view(path@);
            assert(at == paths[i]);
            let (parent, key) = split_path(path.as_slice());
            let op = GroveDbOp::delete(parent, key);
            assert(op@ == deletion(at));
            self.delete_ops.push(op);
            self.removed_subtrees.insert(path);
            proof {
                assert(batch_view(self.delete_ops@) =~= batch_view(before).push(deletion(at)));
                assert(deletions(paths.take(i + 1)) =~= deletions(paths.take(i)).push(deletion(at)));
                assert(self@.deletes =~= deletes + deletions(paths.take(i + 1)));
                lemma_take_one_more(paths, i);
                assert(self@.removed =~= removed.union(paths.take(i + 1).to_set()));
            }
        }
        proof {
            self.ops.lemma_len();
        }
        self.next = self.next + 1;
        assert(paths.take(paths.len() as int) =~= paths);
    }

    /// Ends the first pass: the deletions join the operations, each unless an
    /// operation that is there substitutes it.
    pub fn finish(self) -> (validator: BatchValidator)
        requires
            self.well_formed(),
        ensures
            validator.well_formed(),
            validator@ == (ValidatorView {
                ops: with_all_unique(self@.ops, self@.deletes),
                next: 0,
                valid: Set::empty().insert(seq![]),
                removed: self@.removed,
            }),
            unique(self@.ops) ==> unique(validator@.ops),
            validator@.ops.len() >= self@.ops.len(),
    {
        proof {
            lemma_with_all_unique_grows(self@.ops, self@.deletes);
        }
        let mut ops = self.ops;
        add_all_unique(&mut ops, self.delete_ops);
        // the root tree always exists
        let mut valid_subtrees = PathSet::new();
        let root: Vec<Vec<u8>> = Vec::new();
        assert(path_view(root@) =~= seq![]);
        valid_subtrees.insert(root);
        BatchValidator { ops, next: 0, valid_subtrees, removed_subtrees: self.removed_subtrees }
    }
}

/// Adding operations to a list, each unless one that is there substitutes it,
/// makes the list no shorter, and leaves it empty only if there are none.
proof fn lemma_with_all_unique_grows(ops: Seq<BatchOpView>, more: Seq<BatchOpView>)
    ensures
        with_all_unique(ops, more).len() >= ops.len(),
        ops.len() + more.len() > 0 ==> with_all_unique(ops, more).len() > 0,
    decreases more.len(),
{
    if more.len() > 0 {
        let before = with_all_unique(ops, more.drop_last());
        lemma_with_all_unique_grows(ops, more.drop_last());
        lemma_op_lower_bound_range(before, more.last());
    }
}

/// One more path in front adds it to the set.
proof fn lemma_take_one_more(paths: Seq<Seq<Seq<u8>>>, i: int)
    requires
        0 <= i < paths.len(),
    ensures
        paths.take(i + 1).to_set() == paths.take(i).to_set().insert(paths[i]),
{
    let short = paths.take(i);
    let long = paths.take(i + 1);
    assert forall|path: Seq<Seq<u8>>| long.to_set().contains(path) == short.to_set().insert(
        paths[i],
    ).contains(path) by {
        if long.contains(path) {
            let j = choose|j: int| 0 <= j < long.len() && long[j] == path;
            if j < i {
                assert(short[j] == path);
            }
        }
        if short.contains(path) {
            let j = choose|j: int| 0 <= j < short.len() && short[j] == path;
            assert(long[j] == path);
        }
        if path == paths[i] {
            assert(long[i] == path);
        }
    }
    assert(long.to_set() =~= short.to_set().insert(paths[i]));
}

/// The second pass of validation: it goes from top to bottom, so each operation
/// will be in context of what happened to ancestors of a subject subtree.
#[derive(Debug)]
pub struct BatchValidator {
    ops: SortedOps,
    next: usize,
    valid_subtrees: PathSet,
    removed_subtrees: PathSet,
}

/// The state of the second pass.
#[verifier::ext_equal]
pub struct ValidatorView {
    /// The operations of the batch.
    pub ops: Seq<BatchOpView>,
    /// How many operations have passed.
    pub next: nat,
    /// The subtrees that exist or will exist within the batch.
    pub valid: Set<Seq<Seq<u8>>>,
    /// The subtrees that are deleted within the batch.
    pub removed: Set<Seq<Seq<u8>>>,
}

/// What the state of the second pass says of an operation.
pub enum Verdict {
    /// It is invalid.
    Fail(Error),
    /// It is valid if its subtree can be found in storage.
    Lookup,
    /// It is valid.
    Pass,
}

impl ValidatorView {
    /// What the state says of an operation: insertion into a subtree that is
    /// deleted in the batch is invalid, a subtree that exists or will exist
    /// within the batch is fine, and of another one storage has to tell.
    pub open spec fn verdict(self, op: BatchOpView, leaves: Seq<(Seq<u8>, usize)>) -> Verdict {
        if op.op is Insert && self.removed.contains(op.path) {
            Verdict::Fail(Error::InvalidPath("attempt to insert into deleted subtree"))
        } else if self.valid.contains(op.path) {
            Verdict::Pass
        } else if op.path.len() == 0 {
            if !has_leaf(leaves, op.key) {
                Verdict::Fail(Error::PathNotFound("missing root leaf"))
            } else if op.op is Delete {
                Verdict::Fail(Error::InvalidPath("deletion for root leafs is not supported"))
            } else {
                Verdict::Pass
            }
        } else {
            Verdict::Lookup
        }
    }

    /// The state after an operation: insertion of a tree makes this subtree
    /// valid, and a deletion makes a subtree unavailable.
    pub open spec fn after(self, op: BatchOpView) -> ValidatorView {
        match op.op {
            Op::Insert { element: Element::Tree(_, _) } => ValidatorView {
                next: self.next + 1,
                valid: self.valid.insert(op.target()),
                removed: self.removed.remove(op.target()),
                ..self
            },
            Op::Delete => ValidatorView {
                next: self.next + 1,
                valid: self.valid.remove(op.target()),
                removed: self.removed.insert(op.target()),
                ..self
            },
            _ => ValidatorView { next: self.next + 1, ..self },
        }
    }

    /// Where the second pass gets without asking storage: the state after all
    /// operations that pass, and what is with the next one.
    pub open spec fn advanced(self, leaves: Seq<(Seq<u8>, usize)>) -> (Verdict, ValidatorView)
        decreases self.ops.len() - self.next,
    {
        if self.next >= self.ops.len() {
            (Verdict::Pass, self)
        } else {
            let op = self.ops[self.next as int];
            match self.verdict(op, leaves) {
                Verdict::Pass => self.after(op).advanced(leaves),
                other => (other, self),
            }
        }
    }
}

impl View for BatchValidator {
    type V = ValidatorView;

    closed spec fn view(&self) -> ValidatorView {
        ValidatorView {
            ops: self.ops@,
            next: self.next as nat,
            valid: self.valid_subtrees@,
            removed: self.removed_subtrees@,
        }
    }
}

/// What the second pass needs next.
#[derive(Debug)]
pub enum ValidationStep {
    /// The element under a key of a subtree, as it is before the batch.
    Lookup {
        /// Path of the subtree.
        path: Vec<Vec<u8>>,
        /// Key in the subtree.
        key: Vec<u8>,
    },
    /// Nothing: all operations are valid.
    Done,
}

impl BatchValidator {
    /// Whether the operations are sorted and no more of them have passed than
    /// there are.
    pub closed spec fn well_formed(self) -> bool {
        &&& sorted(self.ops@)
        &&& self.next <= self.ops@.len()
        &&& self.valid_subtrees.well_formed()
        &&& self.removed_subtrees.well_formed()
    }

    /// Goes on as far as storage need not be asked.
    pub fn advance(&mut self, root_leaves: &RootLeaves) -> (result: Result<ValidationStep, Error>)
        requires
            old(self).well_formed(),
            keys_sorted(root_leaves@),
        ensures
            final(self).well_formed(),
            final(self)@ == old(self)@.advanced(root_leaves@).1,
            final(self)@.ops == old(self)@.ops,
            final(self)@.next >= old(self)@.next,
            match old(self)@.advanced(root_leaves@).0 {
                Verdict::Fail(e) => result == Err::<ValidationStep, Error>(e),
                Verdict::Lookup => {
                    let op = final(self)@.ops[final(self)@.next as int];
                    &&& final(self)@.next < final(self)@.ops.len()
                    &&& op.path.len() > 0
                    &&& result matches Ok(ValidationStep::Lookup { path, key })
                    &&& path_view(path@) == op.path.drop_last()
                    &&& key@ == op.path.last()
                },
                Verdict::Pass => {
                    &&& final(self)@.next == final(self)@.ops.len()
                    &&& result matches Ok(ValidationStep::Done)
                },
            },
    {
        while self.next < self.ops.len()
            invariant
                self.well_formed(),
                keys_sorted(root_leaves@),
                self@.advanced(root_leaves@) == old(self)@.advanced(root_leaves@),
                self@.ops == old(self)@.ops,
                self@.next >= old(self)@.next,
            decreases self@.ops.len() - self@.next,
        {
            let op = self.ops.get(self.next);
            let is_insert = match op.op {
                Op::Insert { .. } => true,
                Op::Delete => false,
            };
            if is_insert && self.removed_subtrees.contains(op.path.as_slice()) {
                return Err(Error::InvalidPath("attempt to insert into deleted subtree"));
            }
            if !self.valid_subtrees.contains(op.path.as_slice()) {
                if op.path.len() == 0 {
                    if !root_leaves.contains_key(op.key.as_slice()) {
                        return Err(Error::PathNotFound("missing root leaf"));
                    }
                    if !is_insert {
                        return Err(Error::InvalidPath("deletion for root leafs is not supported"));
                    }
                } else {
                    let (path, key) = split_path(op.path.as_slice());
                    return Ok(ValidationStep::Lookup { path, key });
                }
            }
            self.pass();
        }
        Ok(ValidationStep::Done)
    }

    /// Goes on with the element that storage found where it was asked for it, or
    /// with its error: only a tree is a subtree to perform operations on.
    pub fn resume(&mut self, found: Result<Element, Error>) -> (result: Result<(), Error>)
        requires
            old(self).well_formed(),
            old(self)@.next < old(self)@.ops.len(),
        ensures
            final(self).well_formed(),
            match found {
                Err(e) => result == Err::<(), Error>(e) && final(self)@ == old(self)@,
                Ok(Element::Tree(_, _)) => result is Ok && final(self)@ == old(self)@.after(
                    old(self)@.ops[old(self)@.next as int],
                ),
                Ok(_) => result == Err::<(), Error>(Error::InvalidPath("must be a tree"))
                    && final(self)@ == old(self)@,
            },
    {
        match found {
            Err(e) => Err(e),
            Ok(Element::Tree(_, _)) => {
                self.pass();
                Ok(())
            },
            Ok(_) => Err(Error::InvalidPath("must be a tree")),
        }
    }

    /// Lets the next operation pass.
    fn pass(&mut self)
        requires
            old(self).well_formed(),
            old(self)@.next < old(self)@.ops.len(),
        ensures
            final(self).well_formed(),
            final(self)@ == old(self)@.after(old(self)@.ops[old(self)@.next as int]),
    {
        let op = self.ops.get(self.next);
        match &op.op {
            Op::Insert { element: Element::Tree(_, _) } => {
                let target = child_path(op.path.as_slice(), op.key.as_slice());
                self.removed_subtrees.remove(target.as_slice());
                self.valid_subtrees.insert(target);
            },
            Op::Delete => {
                let target = child_path(op.path.as_slice(), op.key.as_slice());
                self.valid_subtrees.remove(target.as_slice());
                self.removed_subtrees.insert(target);
            },
            _ => {},
        }
        proof {
            self.ops.lemma_len();
        }
        self.next = self.next + 1;
    }

    /// Starts to apply the operations, once all of them have passed, on top of the
    /// given root leaves.
    pub fn into_application(self, root_leaves: RootLeaves) -> (application: BatchApplication)
        requires
            self.well_formed(),
            self@.next == self@.ops.len(),
            self@.ops.len() > 0,
            keys_sorted(root_leaves@),
        ensures
            application@ == (ApplicationView {
                ops: self@.ops,
                leaves: root_leaves@,
                path: self@.ops.last().path,
                open: false,
                pending: None,
                stage: Stage::Ready,
            }),
            application@.reachable(),
    {
        BatchApplication::new(self.ops, root_leaves)
    }
}

/// Paths in memory show their parts, one for one.
pub proof fn law_what_paths_hold(paths: Seq<Vec<Vec<u8>>>, i: int, k: int)
    requires
        0 <= i < paths.len(),
        0 <= k < paths[i]@.len(),
    ensures
        paths_view(paths).len() == paths.len(),
        paths_view(paths)[i].len() == paths[i]@.len(),
        paths_view(paths)[i][k] == paths[i]@[k]@,
{
}

} // verus!
