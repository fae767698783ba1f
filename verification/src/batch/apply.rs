//! Application of validated batches.
//!
//! Operations are applied from the back of the sorted list, so deeper subtrees
//! come first. When nothing is left to do in a subtree, its root hash goes into
//! its parent by an operation that joins the list, up to the root tree, whose
//! leaves are kept here. What storage does, `BatchApplication` asks for by an
//! `Action`, and goes on with what came of it.
use crate::batch::ops::{op_upper_bound, sorted, BatchOpView, SortedOps};
use crate::batch::path::{child_path, copy_path, path_view, paths_equal, split_path};
use crate::batch::{GroveDbOp, Op};
use crate::bytes::copy_bytes;
use crate::element::Element;
use crate::error::Error;
use crate::hash::NodeHash;
use crate::root_leaves::{indexed, keys_sorted, list_encoding, listed, with_new_leaf, RootLeaves};
use vstd::prelude::*;

verus! {

/// What storage has to do next.
#[derive(Debug)]
pub enum Action {
    /// Close the open subtree at this path, and tell its root hash.
    TakeRootHash {
        /// Path of the subtree.
        path: Vec<Vec<u8>>,
    },
    /// Open the subtree at this path, and keep it open.
    OpenSubtree {
        /// Path of the subtree.
        path: Vec<Vec<u8>>,
    },
    /// Read the element under a key of the open subtree.
    GetElement {
        /// Path of the subtree.
        path: Vec<Vec<u8>>,
        /// Key in the subtree.
        key: Vec<u8>,
    },
    /// Open the subtree at this path, and clear it.
    ClearSubtree {
        /// Path of the subtree.
        path: Vec<Vec<u8>>,
    },
    /// Insert an element under a key of the open subtree.
    InsertElement {
        /// Path of the subtree.
        path: Vec<Vec<u8>>,
        /// Key in the subtree.
        key: Vec<u8>,
        /// The element.
        element: Element,
    },
    /// Delete what is under a key of the open subtree.
    DeleteElement {
        /// Path of the subtree.
        path: Vec<Vec<u8>>,
        /// Key in the subtree.
        key: Vec<u8>,
    },
    /// Nothing: all operations have been applied.
    Done,
}

/// What storage has to do next.
pub enum ActionView {
    /// Close the open subtree at this path, and tell its root hash.
    TakeRootHash(Seq<Seq<u8>>),
    /// Open the subtree at this path, and keep it open.
    OpenSubtree(Seq<Seq<u8>>),
    /// Read the element under a key of the open subtree.
    GetElement(Seq<Seq<u8>>, Seq<u8>),
    /// Open the subtree at this path, and clear it.
    ClearSubtree(Seq<Seq<u8>>),
    /// Insert an element under a key of the open subtree.
    InsertElement(Seq<Seq<u8>>, Seq<u8>, Element),
    /// Delete what is under a key of the open subtree.
    DeleteElement(Seq<Seq<u8>>, Seq<u8>),
    /// Nothing.
    Done,
}

impl View for Action {
    type V = ActionView;

    open spec fn view(&self) -> ActionView {
        match self {
            Action::TakeRootHash { path } => ActionView::TakeRootHash(path_view(path@)),
            Action::OpenSubtree { path } => ActionView::OpenSubtree(path_view(path@)),
            Action::GetElement { path, key } => ActionView::GetElement(path_view(path@), key@),
            Action::ClearSubtree { path } => ActionView::ClearSubtree(path_view(path@)),
            Action::InsertElement { path, key, element } => ActionView::InsertElement(
                path_view(path@),
                key@,
                *element,
            ),
            Action::DeleteElement { path, key } => ActionView::DeleteElement(path_view(path@), key@),
            Action::Done => ActionView::Done,
        }
    }
}

/// What the application of a batch waits for.
#[derive(Debug, PartialEq, Eq, Structural, Clone, Copy)]
pub enum Stage {
    /// Nothing: it is between two operations.
    Ready,
    /// The root hash of the subtree in which nothing is left to do.
    Hashing,
    /// The subtree of the pending operation to be opened.
    Opening,
    /// The element that the pending operation is about.
    Reading,
    /// The subtree that the pending operation deletes or overwrites to be
    /// cleared.
    Clearing,
    /// The pending operation to be performed.
    Writing,
    /// Nothing: all operations have been applied.
    Finished,
}

/// What the application of a batch waits for while storage does something.
pub open spec fn awaited(action: ActionView) -> Stage {
    match action {
        ActionView::TakeRootHash(_) => Stage::Hashing,
        ActionView::OpenSubtree(_) => Stage::Opening,
        ActionView::GetElement(_, _) => Stage::Reading,
        ActionView::ClearSubtree(_) => Stage::Clearing,
        ActionView::InsertElement(_, _, _) => Stage::Writing,
        ActionView::DeleteElement(_, _) => Stage::Writing,
        ActionView::Done => Stage::Finished,
    }
}

/// The state of the application of a batch.
#[verifier::ext_equal]
pub struct ApplicationView {
    /// The operations that are left, without the pending one.
    pub ops: Seq<BatchOpView>,
    /// The root leaves, with those that the batch adds.
    pub leaves: Seq<(Seq<u8>, usize)>,
    /// Path of the subtree of the latest operation.
    pub path: Seq<Seq<u8>>,
    /// Whether that subtree is open.
    pub open: bool,
    /// The operation that is being performed.
    pub pending: Option<BatchOpView>,
    /// What the application waits for.
    pub stage: Stage,
}

/// The operation that puts the root hash of the subtree at a path into its
/// parent.
pub open spec fn propagation(path: Seq<Seq<u8>>, hash: NodeHash) -> BatchOpView {
    BatchOpView {
        path: path.drop_last(),
        key: path.last(),
        op: Op::Insert { element: Element::Tree(hash, None) },
    }
}

impl ApplicationView {
    /// What happens with the operation at the back. One on the root tree adds a
    /// root leaf, and the next one follows; of another one the subtree has to be
    /// open.
    pub open spec fn take(self) -> (ActionView, ApplicationView)
        decreases self.ops.len(),
    {
        if self.ops.len() == 0 {
            (ActionView::Done, ApplicationView { stage: Stage::Finished, ..self })
        } else {
            let op = self.ops.last();
            let rest = self.ops.drop_last();
            if op.path.len() == 0 {
                ApplicationView {
                    ops: rest,
                    leaves: with_new_leaf(self.leaves, op.key),
                    path: seq![],
                    ..self
                }.take()
            } else if self.open {
                (
                    ActionView::GetElement(op.path, op.key),
                    ApplicationView {
                        ops: rest,
                        path: op.path,
                        pending: Some(op),
                        stage: Stage::Reading,
                        ..self
                    },
                )
            } else {
                (
                    ActionView::OpenSubtree(op.path),
                    ApplicationView {
                        ops: rest,
                        path: op.path,
                        pending: Some(op),
                        stage: Stage::Opening,
                        ..self
                    },
                )
            }
        }
    }

    /// What happens between two operations: if the next one is on a different
    /// path, or if there is none, the root hash of the open subtree has to go
    /// into its parent first.
    pub open spec fn proceed(self) -> (ActionView, ApplicationView) {
        if self.path.len() > 0 && (self.ops.len() == 0 || self.ops.last().path != self.path) {
            (
                ActionView::TakeRootHash(self.path),
                ApplicationView { stage: Stage::Hashing, ..self },
            )
        } else {
            self.take()
        }
    }

    /// What happens with the root hash of the subtree in which nothing is left
    /// to do.
    pub open spec fn hashed(self, hash: NodeHash) -> (ActionView, ApplicationView) {
        let op = propagation(self.path, hash);
        ApplicationView {
            ops: self.ops.insert(op_upper_bound(self.ops, op) as int, op),
            open: false,
            ..self
        }.take()
    }

    /// What happens once the subtree of the pending operation is open.
    pub open spec fn opened(self) -> (ActionView, ApplicationView) {
        let op = self.pending->0;
        (
            ActionView::GetElement(op.path, op.key),
            ApplicationView { open: true, stage: Stage::Reading, ..self },
        )
    }

    /// What happens if the pending operation deletes or overwrites a subtree.
    pub open spec fn clearing(self) -> (ActionView, ApplicationView) {
        (
            ActionView::ClearSubtree(self.pending->0.target()),
            ApplicationView { stage: Stage::Clearing, ..self },
        )
    }

    /// What happens once nothing stands in the way of the pending operation.
    pub open spec fn writing(self) -> (ActionView, ApplicationView) {
        let op = self.pending->0;
        (
            match op.op {
                Op::Insert { element } => ActionView::InsertElement(op.path, op.key, element),
                Op::Delete => ActionView::DeleteElement(op.path, op.key),
            },
            ApplicationView { pending: None, stage: Stage::Writing, ..self },
        )
    }

    /// What happens once the pending operation is performed.
    pub open spec fn written(self) -> (ActionView, ApplicationView) {
        ApplicationView { stage: Stage::Ready, ..self }.proceed()
    }

    /// Whether a state is one that the application of a batch gets to: at most
    /// the subtree of the latest operation is open, and in it something was done
    /// or is to be done.
    pub open spec fn reachable(self) -> bool {
        &&& sorted(self.ops)
        &&& keys_sorted(self.leaves)
        &&& self.open ==> self.path.len() > 0
        &&& match self.stage {
            Stage::Ready => {
                &&& self.pending is None
                &&& !self.open ==> self.path.len() == 0 || (self.ops.len() > 0
                    && self.ops.last().path == self.path)
            },
            Stage::Hashing => {
                &&& self.pending is None
                &&& self.open
                &&& self.ops.len() == 0 || self.ops.last().path != self.path
            },
            Stage::Opening => {
                &&& self.pending matches Some(op) && op.path == self.path
                &&& !self.open
                &&& self.path.len() > 0
            },
            Stage::Reading | Stage::Clearing => {
                &&& self.pending matches Some(op) && op.path == self.path
                &&& self.open
            },
            Stage::Writing => self.pending is None && self.open,
            Stage::Finished => self.pending is None && !self.open && self.ops.len() == 0,
        }
    }
}

/// Applies validated operations, one after the other.
#[derive(Debug)]
pub struct BatchApplication {
    ops: SortedOps,
    root_leaves: RootLeaves,
    path: Vec<Vec<u8>>,
    open: bool,
    pending: Option<GroveDbOp>,
    stage: Stage,
}

impl View for BatchApplication {
    type V = ApplicationView;

    closed spec fn view(&self) -> ApplicationView {
        ApplicationView {
            ops: self.ops@,
            leaves: self.root_leaves@,
            path: path_view(self.path@),
            open: self.open,
            pending: match self.pending {
                Some(op) => Some(op@),
                None => None,
            },
            stage: self.stage,
        }
    }
}

impl BatchApplication {
    /// The application of operations, of which there must be some, before the
    /// first of them, on top of the given root leaves.
    pub fn new(ops: SortedOps, root_leaves: RootLeaves) -> (application: BatchApplication)
        requires
            sorted(ops@),
            ops@.len() > 0,
            keys_sorted(root_leaves@),
        ensures
            application@ == (ApplicationView {
                ops: ops@,
                leaves: root_leaves@,
                path: ops@.last().path,
                open: false,
                pending: None,
                stage: Stage::Ready,
            }),
            application@.reachable(),
    {
        let path = match ops.last() {
            Some(op) => copy_path(op.path.as_slice()),
            None => Vec::new(),
        };
        BatchApplication { ops, root_leaves, path, open: false, pending: None, stage: Stage::Ready }
    }

    /// Takes the operation at the back, and what comes of it.
    fn take(&mut self) -> (action: Action)
        requires
            sorted(old(self)@.ops),
            keys_sorted(old(self)@.leaves),
            old(self)@.pending is None,
            old(self)@.open ==> old(self)@.ops.len() > 0 && old(self)@.ops.last().path == old(
                self,
            )@.path && old(self)@.path.len() > 0,
        ensures
            (action@, final(self)@) == old(self)@.take(),
            final(self)@.stage == awaited(action@),
            final(self)@.reachable(),
            indexed(old(self)@.leaves) ==> indexed(final(self)@.leaves),
    {
        loop
            invariant
                self@.take() == old(self)@.take(),
                sorted(self@.ops),
                keys_sorted(self@.leaves),
                self@.pending is None,
                self@.open ==> self@.ops.len() > 0 && self@.ops.last().path == self@.path
                    && self@.path.len() > 0,
                indexed(old(self)@.leaves) ==> indexed(self@.leaves),
            decreases self@.ops.len(),
        {
            let op = match self.ops.pop() {
                Some(op) => op,
                None => {
                    self.stage = Stage::Finished;
                    return Action::Done;
                },
            };
            if op.path.len() == 0 {
                self.root_leaves.add_leaf(op.key);
                self.path = Vec::new();
                assert(self@.path =~= seq![]);
            } else {
                self.path = copy_path(op.path.as_slice());
                let path = copy_path(op.path.as_slice());
                if self.open {
                    let key = copy_bytes(op.key.as_slice());
                    self.pending = Some(op);
                    self.stage = Stage::Reading;
                    return Action::GetElement { path, key };
                } else {
                    self.pending = Some(op);
                    self.stage = Stage::Opening;
                    return Action::OpenSubtree { path };
                }
            }
        }
    }

    /// What has to be done first, or next after an operation was performed.
    pub fn proceed(&mut self) -> (action: Action)
        requires
            old(self)@.reachable(),
            old(self)@.stage == Stage::Ready,
        ensures
            (action@, final(self)@) == old(self)@.proceed(),
            final(self)@.stage == awaited(action@),
            final(self)@.reachable(),
            indexed(old(self)@.leaves) ==> indexed(final(self)@.leaves),
    {
        let moved = match self.ops.last() {
            Some(op) => !paths_equal(op.path.as_slice(), self.path.as_slice()),
            None => true,
        };
        if moved && self.path.len() > 0 {
            self.stage = Stage::Hashing;
            return Action::TakeRootHash { path: copy_path(self.path.as_slice()) };
        }
        self.take()
    }

    /// Goes on with the root hash of the subtree in which nothing is left to do:
    /// an operation that puts it into the parent joins the list.
    pub fn root_hash_taken(&mut self, hash: NodeHash) -> (action: Action)
        requires
            old(self)@.reachable(),
            old(self)@.stage == Stage::Hashing,
        ensures
            (action@, final(self)@) == old(self)@.hashed(hash),
            final(self)@.stage == awaited(action@),
            final(self)@.reachable(),
            indexed(old(self)@.leaves) ==> indexed(final(self)@.leaves),
    {
        let (parent, key) = split_path(self.path.as_slice());
        let op = GroveDbOp::insert(parent, key, Element::new_tree(hash));
        assert(op@ == propagation(self@.path, hash));
        self.ops.insert(op);
        self.open = false;
        self.take()
    }

    /// Goes on once the subtree of the pending operation is open, or fails with
    /// the error that it could not be opened.
    pub fn subtree_opened(&mut self, opened: Result<(), Error>) -> (result: Result<Action, Error>)
        requires
            old(self)@.reachable(),
            old(self)@.stage == Stage::Opening,
        ensures
            match opened {
                Err(e) => result == Err::<Action, Error>(e) && final(self)@ == old(self)@,
                Ok(()) => result matches Ok(action) && (action@, final(self)@) == old(self)@.opened(),
            },
            result matches Ok(action) ==> final(self)@.stage == awaited(action@),
            final(self)@.reachable(),
            final(self)@.leaves == old(self)@.leaves,
    {
        match opened {
            Err(e) => Err(e),
            Ok(()) => {
                self.open = true;
                self.stage = Stage::Reading;
                match &self.pending {
                    Some(op) => Ok(
                        Action::GetElement {
                            path: copy_path(op.path.as_slice()),
                            key: copy_bytes(op.key.as_slice()),
                        },
                    ),
                    None => Ok(Action::Done),
                }
            },
        }
    }

    /// Goes on with the element that the pending operation is about. If it is a
    /// subtree, it has to be cleared first. That there is none is no error.
    pub fn element_read(&mut self, found: Result<Element, Error>) -> (result: Result<Action, Error>)
        requires
            old(self)@.reachable(),
            old(self)@.stage == Stage::Reading,
        ensures
            match found {
                Ok(Element::Tree(_, _)) => result matches Ok(action) && (action@, final(self)@)
                    == old(self)@.clearing(),
                Ok(_) | Err(Error::PathKeyNotFound(_)) | Err(Error::PathNotFound(_)) => {
                    result matches Ok(action) && (action@, final(self)@) == old(self)@.writing()
                },
                Err(e) => result == Err::<Action, Error>(e) && final(self)@ == old(self)@,
            },
            result matches Ok(action) ==> final(self)@.stage == awaited(action@),
            final(self)@.reachable(),
            final(self)@.leaves == old(self)@.leaves,
    {
        match found {
            Ok(Element::Tree(_, _)) => {
                self.stage = Stage::Clearing;
                match &self.pending {
                    Some(op) => Ok(
                        Action::ClearSubtree {
                            path: child_path(op.path.as_slice(), op.key.as_slice()),
                        },
                    ),
                    None => Ok(Action::Done),
                }
            },
            Ok(_) => Ok(self.write()),
            Err(Error::PathKeyNotFound(_)) => Ok(self.write()),
            Err(Error::PathNotFound(_)) => Ok(self.write()),
            Err(e) => Err(e),
        }
    }

    /// Goes on once the subtree that the pending operation deletes or overwrites
    /// was opened, or fails with the error that it could not be opened. The
    /// value says whether it was cleared, too.
    pub fn subtree_cleared(&mut self, cleared: Result<bool, Error>) -> (result: Result<Action, Error>)
        requires
            old(self)@.reachable(),
            old(self)@.stage == Stage::Clearing,
        ensures
            match cleared {
                Ok(true) => result matches Ok(action) && (action@, final(self)@) == old(
                    self,
                )@.writing(),
                Ok(false) => result == Err::<Action, Error>(
                    Error::InternalError("cannot clear a Merk"),
                ) && final(self)@ == old(self)@,
                Err(e) => result == Err::<Action, Error>(e) && final(self)@ == old(self)@,
            },
            result matches Ok(action) ==> final(self)@.stage == awaited(action@),
            final(self)@.reachable(),
            final(self)@.leaves == old(self)@.leaves,
    {
        match cleared {
            Ok(true) => Ok(self.write()),
            Ok(false) => Err(Error::InternalError("cannot clear a Merk")),
            Err(e) => Err(e),
        }
    }

    /// Has the pending operation performed.
    fn write(&mut self) -> (action: Action)
        requires
            old(self)@.reachable(),
            old(self)@.stage == Stage::Reading || old(self)@.stage == Stage::Clearing,
        ensures
            (action@, final(self)@) == old(self)@.writing(),
            final(self)@.stage == awaited(action@),
            final(self)@.reachable(),
            final(self)@.leaves == old(self)@.leaves,
    {
        self.stage = Stage::Writing;
        match self.pending.take() {
            Some(op) => {
                let GroveDbOp { path, key, op } = op;
                match op {
                    Op::Insert { element } => Action::InsertElement { path, key, element },
                    Op::Delete => Action::DeleteElement { path, key },
                }
            },
            None => Action::Done,
        }
    }

    /// Goes on once the pending operation is performed, or fails with the error
    /// that it could not be.
    pub fn element_written(&mut self, written: Result<(), Error>) -> (result: Result<Action, Error>)
        requires
            old(self)@.reachable(),
            old(self)@.stage == Stage::Writing,
        ensures
            match written {
                Err(e) => result == Err::<Action, Error>(e) && final(self)@ == old(self)@,
                Ok(()) => result matches Ok(action) && (action@, final(self)@) == old(
                    self,
                )@.written(),
            },
            result matches Ok(action) ==> final(self)@.stage == awaited(action@),
            final(self)@.reachable(),
            indexed(old(self)@.leaves) ==> indexed(final(self)@.leaves),
    {
        match written {
            Err(e) => Err(e),
            Ok(()) => {
                self.stage = Stage::Ready;
                Ok(self.proceed())
            },
        }
    }

    /// What is to be saved of the root leaves, once all operations have been
    /// applied.
    pub fn finish(self) -> (result: Result<Vec<u8>, Error>)
        requires
            self@.reachable(),
            self@.stage == Stage::Finished,
        ensures
            result matches Ok(bytes) && bytes@ == list_encoding(listed(self@.leaves)),
    {
        self.root_leaves.serialize()
    }
}

/// What storage is asked for shows in the action: the paths part for part, the keys and
/// the elements.
pub proof fn law_what_actions_hold(action: Action)
    ensures
        match action {
            Action::TakeRootHash { path } => action@ matches ActionView::TakeRootHash(shown)
                && shown == Seq::new(path@.len(), |i: int| path@[i]@),
            Action::OpenSubtree { path } => action@ matches ActionView::OpenSubtree(shown) && shown
                == Seq::new(path@.len(), |i: int| path@[i]@),
            Action::GetElement { path, key } => action@ matches ActionView::GetElement(shown, k)
                && shown == Seq::new(path@.len(), |i: int| path@[i]@) && k == key@,
            Action::ClearSubtree { path } => action@ matches ActionView::ClearSubtree(shown)
                && shown == Seq::new(path@.len(), |i: int| path@[i]@),
            Action::InsertElement { path, key, element } => action@ matches ActionView::InsertElement(
                shown,
                k,
                e,
            ) && shown == Seq::new(path@.len(), |i: int| path@[i]@) && k == key@ && e == element,
            Action::DeleteElement { path, key } => action@ matches ActionView::DeleteElement(
                shown,
                k,
            ) && shown == Seq::new(path@.len(), |i: int| path@[i]@) && k == key@,
            Action::Done => action@ is Done,
        },
{
}

} // verus!
