//! Propagation of updated subtree root hashes up to the root tree.
use crate::batch::path::{copy_path, path_view, split_path};
use crate::costs::{CostContext, CostsExt, OperationCost};
use crate::element::Element;
use crate::error::Error;
use crate::hash::{null_hash, NodeHash};
use crate::GroveDb;
use vstd::prelude::*;

verus! {

impl GroveDb {
    /// The element that a parent holds for a subtree, from what was read under
    /// its key. `deserialize` turns what was read into an element.
    pub fn get_element_from_subtree<E, D>(
        read: CostContext<Result<Option<Vec<u8>>, E>>,
        deserialize: impl FnOnce(&Vec<u8>) -> Result<Element, D>,
    ) -> (result: CostContext<Result<Element, Error>>)
        requires
            read.value matches Ok(Some(bytes)) ==> deserialize.requires((&bytes,)),
        ensures
            match read.value {
                Ok(Some(bytes)) => exists|outcome: Result<Element, D>|
                    {
                        &&& #[trigger] deserialize.ensures((&bytes,), outcome)
                        &&& match outcome {
                            Ok(element) => result.value == Ok::<Element, Error>(element),
                            Err(_) => result.value matches Err(Error::CorruptedData(message))
                                && message@ == "failed to deserialized parent during propagation"@,
                        }
                    },
                _ => result.value == Err::<Element, Error>(
                    Error::InvalidPath("can't find subtree in parent during propagation"),
                ),
            },
            result.cost == read.cost,
    {
        let cost = read.cost;
        let value = match read.value {
            Ok(Some(bytes)) => {
                let outcome = deserialize(&bytes);
                assert(deserialize.ensures((&bytes,), outcome));
                match outcome {
                    Ok(element) => Ok(element),
                    Err(_) => Err(
                        Error::CorruptedData(
                            String::from_str("failed to deserialized parent during propagation"),
                        ),
                    ),
                }
            },
            _ => Err(Error::InvalidPath("can't find subtree in parent during propagation")),
        };
        value.wrap_with_cost(cost)
    }

    /// Puts a new root hash into the element that a parent holds for a subtree,
    /// and keeps its flags. `insert` puts the new element into the parent.
    pub fn update_tree_item_preserve_flag(
        element: CostContext<Result<Element, Error>>,
        root_hash: NodeHash,
        insert: impl FnOnce(Element) -> CostContext<Result<(), Error>>,
    ) -> (result: CostContext<Result<(), Error>>)
        requires
            element.value matches Ok(Element::Tree(_, flags)) ==> {
                &&& insert.requires((Element::Tree(root_hash, flags),))
                &&& forall|inner: CostContext<Result<(), Error>>| #[trigger]
                    insert.ensures((Element::Tree(root_hash, flags),), inner) ==> element.cost.fits(
                        inner.cost,
                    )
            },
        ensures
            match element.value {
                Ok(Element::Tree(_, flags)) => exists|inner: CostContext<Result<(), Error>>|
                    {
                        &&& #[trigger] insert.ensures((Element::Tree(root_hash, flags),), inner)
                        &&& result.value == inner.value
                        &&& result.cost == element.cost.plus(inner.cost)
                    },
                Ok(_) => result.value == Err::<(), Error>(
                    Error::InvalidPath("can only propagate on tree items"),
                ) && result.cost == element.cost,
                Err(e) => result.value == Err::<(), Error>(e) && result.cost == element.cost,
            },
    {
        let cost = element.cost;
        match element.value {
            Ok(Element::Tree(_, flags)) => {
                let tree = Element::new_tree_with_flags(root_hash, flags);
                let inner = insert(tree);
                assert(insert.ensures((Element::Tree(root_hash, flags),), inner));
                let mut total = cost;
                let value = inner.unwrap_add_cost(&mut total);
                value.wrap_with_cost(total)
            },
            Ok(_) => Err(Error::InvalidPath("can only propagate on tree items")).wrap_with_cost(cost),
            Err(e) => Err(e).wrap_with_cost(cost),
        }
    }
}

/// What storage has to do next.
#[derive(Debug)]
pub enum PropagationStep {
    /// Open the subtree at this path.
    OpenSubtree {
        /// Path of the subtree.
        path: Vec<Vec<u8>>,
    },
    /// Open the parent of the open subtree, which is at this path.
    OpenParent {
        /// Path of the parent.
        path: Vec<Vec<u8>>,
    },
    /// Tell the root hash of the open subtree.
    TakeRootHash,
    /// Put the root hash into the element under this key of the open parent.
    UpdateParent {
        /// Key in the parent.
        key: Vec<u8>,
        /// Root hash of the subtree.
        root_hash: NodeHash,
    },
    /// Nothing.
    Done,
}

/// What storage has to do next.
pub enum PropagationStepView {
    /// Open the subtree at this path.
    OpenSubtree(Seq<Seq<u8>>),
    /// Open the parent of the open subtree, which is at this path.
    OpenParent(Seq<Seq<u8>>),
    /// Tell the root hash of the open subtree.
    TakeRootHash,
    /// Put the root hash into the element under this key of the open parent.
    UpdateParent(Seq<u8>, NodeHash),
    /// Nothing.
    Done,
}

impl View for PropagationStep {
    type V = PropagationStepView;

    open spec fn view(&self) -> PropagationStepView {
        match self {
            PropagationStep::OpenSubtree { path } => PropagationStepView::OpenSubtree(
                path_view(path@),
            ),
            PropagationStep::OpenParent { path } => PropagationStepView::OpenParent(
                path_view(path@),
            ),
            PropagationStep::TakeRootHash => PropagationStepView::TakeRootHash,
            PropagationStep::UpdateParent { key, root_hash } => PropagationStepView::UpdateParent(
                key@,
                *root_hash,
            ),
            PropagationStep::Done => PropagationStepView::Done,
        }
    }
}

/// What propagation waits for.
#[derive(Debug, PartialEq, Eq, Structural, Clone, Copy)]
pub enum PropagationStage {
    /// The subtree to be opened.
    Subtree,
    /// Its parent to be opened.
    Parent,
    /// The root hash of the subtree.
    RootHash,
    /// The parent to be updated.
    Update,
}

/// Why propagation failed.
#[derive(Debug)]
pub enum PropagationFailure {
    /// A subtree could not be opened.
    CannotOpen,
    /// The parent could not be updated.
    Update(Error),
}

/// The state of propagation.
#[verifier::ext_equal]
pub struct PropagationView {
    /// Path of the subtree whose root hash goes up.
    pub path: Seq<Seq<u8>>,
    /// What propagation waits for.
    pub stage: PropagationStage,
    /// The root hash of the subtree, once it is known.
    pub root_hash: NodeHash,
    /// What it cost so far.
    pub cost: OperationCost,
    /// Why it failed, if it did.
    pub failure: Option<PropagationFailure>,
}

impl PropagationView {
    /// Whether there is something left to do: it goes on until only one part is
    /// left of the path, which means a key of the root tree.
    pub open spec fn going(self) -> bool {
        self.failure is None && self.path.len() > 1
    }

    /// What storage has to do next.
    pub open spec fn asks(self) -> PropagationStepView {
        if !self.going() {
            PropagationStepView::Done
        } else {
            match self.stage {
                PropagationStage::Subtree => PropagationStepView::OpenSubtree(self.path),
                PropagationStage::Parent => PropagationStepView::OpenParent(self.path.drop_last()),
                PropagationStage::RootHash => PropagationStepView::TakeRootHash,
                PropagationStage::Update => PropagationStepView::UpdateParent(
                    self.path.last(),
                    self.root_hash,
                ),
            }
        }
    }

    /// The state after a subtree, or its parent, was opened.
    pub open spec fn opened(self, opened: CostContext<Result<(), Error>>) -> PropagationView {
        let cost = self.cost.plus(opened.cost);
        match opened.value {
            Ok(()) => PropagationView {
                stage: if self.stage == PropagationStage::Subtree {
                    PropagationStage::Parent
                } else {
                    PropagationStage::RootHash
                },
                cost,
                ..self
            },
            Err(_) => PropagationView { cost, failure: Some(PropagationFailure::CannotOpen), ..self },
        }
    }

    /// The state after the root hash of the subtree is known.
    pub open spec fn hashed(self, root_hash: CostContext<NodeHash>) -> PropagationView {
        PropagationView {
            stage: PropagationStage::Update,
            root_hash: root_hash.value,
            cost: self.cost.plus(root_hash.cost),
            ..self
        }
    }

    /// The state after the parent was updated: its own root hash goes up next.
    pub open spec fn updated(self, updated: CostContext<Result<(), Error>>) -> PropagationView {
        let cost = self.cost.plus(updated.cost);
        match updated.value {
            Ok(()) => PropagationView {
                path: self.path.drop_last(),
                stage: PropagationStage::Subtree,
                cost,
                ..self
            },
            Err(e) => PropagationView {
                cost,
                failure: Some(PropagationFailure::Update(e)),
                ..self
            },
        }
    }

    /// How many steps are left at most.
    pub open spec fn steps_left(self) -> nat {
        if self.going() {
            (4 * self.path.len() - match self.stage {
                PropagationStage::Subtree => 0int,
                PropagationStage::Parent => 1,
                PropagationStage::RootHash => 2,
                PropagationStage::Update => 3,
            }) as nat
        } else {
            0
        }
    }
}

/// Propagates updated subtree root hashes up to the root tree. It says what has
/// to be done next, and goes on with what came of it.
#[derive(Debug)]
pub struct ChangePropagation {
    path: Vec<Vec<u8>>,
    stage: PropagationStage,
    root_hash: NodeHash,
    cost: OperationCost,
    failure: Option<PropagationFailure>,
}

impl View for ChangePropagation {
    type V = PropagationView;

    closed spec fn view(&self) -> PropagationView {
        PropagationView {
            path: path_view(self.path@),
            stage: self.stage,
            root_hash: self.root_hash,
            cost: self.cost,
            failure: self.failure,
        }
    }
}

impl ChangePropagation {
    /// Starts at the subtree at the given path.
    pub fn new(path: Vec<Vec<u8>>) -> (propagation: ChangePropagation)
        ensures
            propagation@.path == path_view(path@),
            propagation@.stage == PropagationStage::Subtree,
            propagation@.cost == OperationCost::zero(),
            propagation@.failure is None,
    {
        ChangePropagation {
            path,
            stage: PropagationStage::Subtree,
            root_hash: null_hash(),
            cost: OperationCost::default(),
            failure: None,
        }
    }

    /// What has to be done next.
    pub fn step(&self) -> (step: PropagationStep)
        ensures
            step@ == self@.asks(),
    {
        if self.failure.is_some() || self.path.len() <= 1 {
            return PropagationStep::Done;
        }
        match self.stage {
            PropagationStage::Subtree => PropagationStep::OpenSubtree {
                path: copy_path(self.path.as_slice()),
            },
            PropagationStage::Parent => {
                let (parent, _) = split_path(self.path.as_slice());
                PropagationStep::OpenParent { path: parent }
            },
            PropagationStage::RootHash => PropagationStep::TakeRootHash,
            PropagationStage::Update => {
                let (_, key) = split_path(self.path.as_slice());
                PropagationStep::UpdateParent { key, root_hash: self.root_hash }
            },
        }
    }

    /// Goes on once a subtree, or its parent, was opened, or fails if it could
    /// not be.
    pub fn merk_opened(&mut self, opened: CostContext<Result<(), Error>>)
        requires
            old(self)@.going(),
            old(self)@.stage == PropagationStage::Subtree || old(self)@.stage
                == PropagationStage::Parent,
            old(self)@.cost.fits(opened.cost),
        ensures
            final(self)@ == old(self)@.opened(opened),
    {
        self.cost.add_assign(opened.cost);
        match opened.value {
            Ok(()) => {
                self.stage = match self.stage {
                    PropagationStage::Subtree => PropagationStage::Parent,
                    _ => PropagationStage::RootHash,
                };
            },
            Err(_) => {
                self.failure = Some(PropagationFailure::CannotOpen);
            },
        }
    }

    /// Goes on with the root hash of the subtree.
    pub fn root_hash_taken(&mut self, root_hash: CostContext<NodeHash>)
        requires
            old(self)@.going(),
            old(self)@.stage == PropagationStage::RootHash,
            old(self)@.cost.fits(root_hash.cost),
        ensures
            final(self)@ == old(self)@.hashed(root_hash),
    {
        self.cost.add_assign(root_hash.cost);
        self.root_hash = root_hash.value;
        self.stage = PropagationStage::Update;
    }

    /// Goes on once the parent was updated, or fails with the error that it
    /// could not be.
    pub fn parent_updated(&mut self, updated: CostContext<Result<(), Error>>)
        requires
            old(self)@.going(),
            old(self)@.stage == PropagationStage::Update,
            old(self)@.cost.fits(updated.cost),
        ensures
            final(self)@ == old(self)@.updated(updated),
    {
        self.cost.add_assign(updated.cost);
        match updated.value {
            Ok(()) => {
                let ghost before = self.path@;
                self.path.pop();
                assert(path_view(self.path@) =~= path_view(before).drop_last());
                self.stage = PropagationStage::Subtree;
            },
            Err(e) => {
                self.failure = Some(PropagationFailure::Update(e));
            },
        }
    }

    /// What propagation came to, once nothing is left to do, with what it cost.
    pub fn finish(self) -> (result: CostContext<Result<(), Error>>)
        requires
            !self@.going(),
        ensures
            match self@.failure {
                None => result.value is Ok,
                Some(PropagationFailure::CannotOpen) => result.value matches Err(
                    Error::CorruptedData(message),
                ) && message@ == "cannot open a subtree"@,
                Some(PropagationFailure::Update(e)) => result.value == Err::<(), Error>(e),
            },
            result.cost == self@.cost,
    {
        match self.failure {
            None => Ok(()).wrap_with_cost(self.cost),
            Some(PropagationFailure::CannotOpen) => Err(
                Error::CorruptedData(String::from_str("cannot open a subtree")),
            ).wrap_with_cost(self.cost),
            Some(PropagationFailure::Update(e)) => Err(e).wrap_with_cost(self.cost),
        }
    }
}

/// Propagation comes to an end, whatever storage answers: every step leaves
/// fewer steps.
pub proof fn law_propagation_ends(
    state: PropagationView,
    opened: CostContext<Result<(), Error>>,
    root_hash: CostContext<NodeHash>,
    updated: CostContext<Result<(), Error>>,
)
    requires
        state.going(),
    ensures
        state.stage == PropagationStage::Subtree || state.stage == PropagationStage::Parent
            ==> state.opened(opened).steps_left() < state.steps_left(),
        state.stage == PropagationStage::RootHash ==> state.hashed(root_hash).steps_left()
            < state.steps_left(),
        state.stage == PropagationStage::Update ==> state.updated(updated).steps_left()
            < state.steps_left(),
{
}

/// What storage answers.
pub enum PropagationAnswer {
    /// Whether a subtree, or its parent, was opened.
    Opened(CostContext<Result<(), Error>>),
    /// The root hash of the subtree.
    RootHash(CostContext<NodeHash>),
    /// Whether the parent was updated.
    Updated(CostContext<Result<(), Error>>),
}

/// The state after an answer of storage, where it is one that propagation waits
/// for.
pub open spec fn answered(state: PropagationView, answer: PropagationAnswer) -> Option<
    PropagationView,
> {
    if !state.going() {
        None
    } else {
        match (state.stage, answer) {
            (PropagationStage::Subtree, PropagationAnswer::Opened(opened)) => Some(
                state.opened(opened),
            ),
            (PropagationStage::Parent, PropagationAnswer::Opened(opened)) => Some(
                state.opened(opened),
            ),
            (PropagationStage::RootHash, PropagationAnswer::RootHash(root_hash)) => Some(
                state.hashed(root_hash),
            ),
            (PropagationStage::Update, PropagationAnswer::Updated(updated)) => Some(
                state.updated(updated),
            ),
            _ => None,
        }
    }
}

/// Whether propagation goes through a list of states, from the first to the last,
/// with these answers of storage between each two of them.
pub open spec fn is_run(states: Seq<PropagationView>, answers: Seq<PropagationAnswer>) -> bool {
    &&& states.len() == answers.len() + 1
    &&& forall|i: int, j: int|
        0 <= i < answers.len() && j == i + 1 ==> answered(#[trigger] states[i], answers[i]) == Some(
            #[trigger] states[j],
        )
}

/// Whether propagation starts in this state from the subtree at a path.
pub open spec fn is_first(state: PropagationView, path: Seq<Seq<u8>>) -> bool {
    state.path == path && state.stage == PropagationStage::Subtree && state.failure is None
}

/// A failure is the end of propagation, so before the last state there is none.
proof fn lemma_no_failure(
    states: Seq<PropagationView>,
    answers: Seq<PropagationAnswer>,
    i: int,
)
    requires
        is_run(states, answers),
        states.last().failure is None,
        0 <= i < states.len(),
    ensures
        states[i].failure is None,
        i < answers.len() ==> states[i].going(),
{
    if i < answers.len() {
        assert(answered(states[i], answers[i]) == Some(states[i + 1]));
    }
}

/// After four steps for each part of the path that is done with, the subtree above
/// them is next.
proof fn lemma_rounds(
    states: Seq<PropagationView>,
    answers: Seq<PropagationAnswer>,
    path: Seq<Seq<u8>>,
    k: int,
)
    requires
        is_run(states, answers),
        is_first(states[0], path),
        states.last().failure is None,
        0 <= k,
        4 * k < states.len(),
    ensures
        k == 0 || k < path.len(),
        states[4 * k].path == path.take(path.len() - k),
        states[4 * k].stage == PropagationStage::Subtree,
    decreases k,
{
    if k == 0 {
        assert(path.take(path.len() as int) =~= path);
    } else {
        let i = 4 * (k - 1);
        lemma_rounds(states, answers, path, k - 1);
        lemma_round(states, answers, i);
        assert(states[i].path.drop_last() =~= path.take(path.len() - k));
    }
}

/// Four steps take propagation from a subtree to its parent.
proof fn lemma_round(states: Seq<PropagationView>, answers: Seq<PropagationAnswer>, i: int)
    requires
        is_run(states, answers),
        states.last().failure is None,
        0 <= i < answers.len(),
        states[i].stage == PropagationStage::Subtree,
    ensures
        states[i].going(),
        answers.len() > i + 1 ==> {
            &&& states[i + 1].going()
            &&& states[i + 1].stage == PropagationStage::Parent
            &&& states[i + 1].path == states[i].path
        },
        answers.len() > i + 2 ==> {
            &&& states[i + 2].going()
            &&& states[i + 2].stage == PropagationStage::RootHash
            &&& states[i + 2].path == states[i].path
        },
        answers.len() > i + 3 ==> {
            &&& states[i + 3].going()
            &&& states[i + 3].stage == PropagationStage::Update
            &&& states[i + 3].path == states[i].path
            &&& answers[i + 2] matches PropagationAnswer::RootHash(taken)
            &&& states[i + 3].root_hash == taken.value
        },
        answers.len() > i + 3 ==> {
            &&& states[i + 4].stage == PropagationStage::Subtree
            &&& states[i + 4].path == states[i].path.drop_last()
        },
        !states.last().going() ==> answers.len() > i + 3,
{
    lemma_no_failure(states, answers, i);
    lemma_no_failure(states, answers, i + 1);
    assert(answered(states[i], answers[i]) == Some(states[i + 1]));
    if answers.len() > i + 1 {
        lemma_no_failure(states, answers, i + 2);
        assert(answered(states[i + 1], answers[i + 1]) == Some(states[i + 2]));
    }
    if answers.len() > i + 2 {
        lemma_no_failure(states, answers, i + 3);
        assert(answered(states[i + 2], answers[i + 2]) == Some(states[i + 3]));
    }
    if answers.len() > i + 3 {
        lemma_no_failure(states, answers, i + 4);
        assert(answered(states[i + 3], answers[i + 3]) == Some(states[i + 4]));
    }
}

/// From some number of rounds on, there are four steps for each part of the path
/// that is left but the first.
proof fn lemma_number_of_steps(
    states: Seq<PropagationView>,
    answers: Seq<PropagationAnswer>,
    path: Seq<Seq<u8>>,
    k: int,
)
    requires
        is_run(states, answers),
        is_first(states[0], path),
        states.last().failure is None,
        !states.last().going(),
        0 <= k < path.len(),
        4 * k < states.len(),
    ensures
        answers.len() == 4 * (path.len() - 1),
    decreases path.len() - k,
{
    lemma_rounds(states, answers, path, k);
    if 4 * k < answers.len() {
        lemma_round(states, answers, 4 * k);
        lemma_number_of_steps(states, answers, path, k + 1);
    }
}

/// Propagation that ends without a failure updates every subtree on its way, from
/// the deepest one up: there are four steps for each part of the path but the
/// first. In the `k`-th four of them the subtree at the path without its last `k`
/// parts is opened, then its parent, then the root hash of the subtree is taken,
/// and this hash is put into the parent under the key of the subtree.
pub proof fn law_propagation_updates_every_parent(
    states: Seq<PropagationView>,
    answers: Seq<PropagationAnswer>,
    path: Seq<Seq<u8>>,
    k: int,
)
    requires
        is_run(states, answers),
        is_first(states[0], path),
        states.last().failure is None,
        !states.last().going(),
        path.len() > 0,
        0 <= k < path.len() - 1,
    ensures
        answers.len() == 4 * (path.len() - 1),
        states[4 * k].asks() == PropagationStepView::OpenSubtree(path.take(path.len() - k)),
        states[4 * k + 1].asks() == PropagationStepView::OpenParent(path.take(path.len() - k - 1)),
        states[4 * k + 2].asks() == PropagationStepView::TakeRootHash,
        answers[4 * k + 2] matches PropagationAnswer::RootHash(taken) && states[4 * k + 3].asks()
            == PropagationStepView::UpdateParent(path[path.len() - k - 1], taken.value),
{
    lemma_number_of_steps(states, answers, path, 0);
    lemma_rounds(states, answers, path, k);
    lemma_round(states, answers, 4 * k);
    let at = path.take(path.len() - k);
    assert(at.drop_last() =~= path.take(path.len() - k - 1));
    assert(at.last() == path[path.len() - k - 1]);
}

/// Where a path has one part or none, there is nothing to propagate.
pub proof fn law_short_paths_are_not_propagated(
    states: Seq<PropagationView>,
    answers: Seq<PropagationAnswer>,
    path: Seq<Seq<u8>>,
)
    requires
        is_run(states, answers),
        is_first(states[0], path),
        path.len() <= 1,
    ensures
        answers.len() == 0,
        states[0].asks() == PropagationStepView::Done,
{
    if answers.len() > 0 {
        assert(answered(states[0], answers[0]) == Some(states[1]));
    }
}

/// Whether storage did what it was asked for.
pub open spec fn is_success(answer: PropagationAnswer) -> bool {
    match answer {
        PropagationAnswer::Opened(opened) => opened.value is Ok,
        PropagationAnswer::RootHash(_) => true,
        PropagationAnswer::Updated(updated) => updated.value is Ok,
    }
}

/// What an answer of storage cost.
pub open spec fn cost_of(answer: PropagationAnswer) -> OperationCost {
    match answer {
        PropagationAnswer::Opened(opened) => opened.cost,
        PropagationAnswer::RootHash(root_hash) => root_hash.cost,
        PropagationAnswer::Updated(updated) => updated.cost,
    }
}

/// Propagation fails only where storage did, and then at once: because a subtree could
/// not be opened, or with the error of the update. Whatever an answer is, what it
/// cost is added.
pub proof fn law_propagation_fails_as_storage_does(
    state: PropagationView,
    answer: PropagationAnswer,
    after: PropagationView,
)
    requires
        answered(state, answer) == Some(after),
    ensures
        after.failure is Some <==> !is_success(answer),
        after.failure is Some ==> !after.going() && match answer {
            PropagationAnswer::Opened(_) => after.failure->0 is CannotOpen,
            PropagationAnswer::RootHash(_) => false,
            PropagationAnswer::Updated(updated) => after.failure->0 == PropagationFailure::Update(
                updated.value->Err_0,
            ),
        },
        after.cost == state.cost.plus(cost_of(answer)),
{
}

/// Where storage does all that it is asked for, propagation goes on for exactly four
/// steps for each part of the path but the first, and then ends without a failure.
pub proof fn law_propagation_goes_on_to_the_root(
    states: Seq<PropagationView>,
    answers: Seq<PropagationAnswer>,
    path: Seq<Seq<u8>>,
    n: int,
)
    requires
        is_run(states, answers),
        is_first(states[0], path),
        path.len() > 0,
        0 <= n < states.len(),
        forall|i: int| 0 <= i < n ==> is_success(#[trigger] answers[i]),
    ensures
        states[n].failure is None,
        states[n].going() <==> n < 4 * (path.len() - 1),
        n <= 4 * (path.len() - 1),
{
    lemma_steps_taken(states, answers, path, n);
}

/// How many steps were taken shows in the state.
proof fn lemma_steps_taken(
    states: Seq<PropagationView>,
    answers: Seq<PropagationAnswer>,
    path: Seq<Seq<u8>>,
    n: int,
)
    requires
        is_run(states, answers),
        is_first(states[0], path),
        path.len() > 0,
        0 <= n < states.len(),
        forall|i: int| 0 <= i < n ==> is_success(#[trigger] answers[i]),
    ensures
        states[n].failure is None,
        0 < states[n].path.len() <= path.len(),
        states[n].path.len() == 1 ==> states[n].stage == PropagationStage::Subtree,
        n == 4 * (path.len() - states[n].path.len()) + match states[n].stage {
            PropagationStage::Subtree => 0int,
            PropagationStage::Parent => 1,
            PropagationStage::RootHash => 2,
            PropagationStage::Update => 3,
        },
    decreases n,
{
    if n > 0 {
        lemma_steps_taken(states, answers, path, n - 1);
        assert(answered(states[n - 1], answers[n - 1]) == Some(states[n]));
        assert(is_success(answers[n - 1]));
    }
}

/// What storage is asked for shows in the step: the paths part for part, the key and the
/// hash.
pub proof fn law_what_steps_hold(step: PropagationStep)
    ensures
        match step {
            PropagationStep::OpenSubtree { path } => step@ matches PropagationStepView::OpenSubtree(
                shown,
            ) && shown == Seq::new(path@.len(), |i: int| path@[i]@),
            PropagationStep::OpenParent { path } => step@ matches PropagationStepView::OpenParent(
                shown,
            ) && shown == Seq::new(path@.len(), |i: int| path@[i]@),
            PropagationStep::TakeRootHash => step@ is TakeRootHash,
            PropagationStep::UpdateParent { key, root_hash } => step@
                == PropagationStepView::UpdateParent(key@, root_hash),
            PropagationStep::Done => step@ is Done,
        },
{
}

} // verus!
