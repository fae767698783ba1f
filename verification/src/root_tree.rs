//! The root tree: a Merkle tree over the root hashes of the root leaves.
use crate::bytes::copy_bytes;
use crate::costs::{CostContext, CostsExt, OperationCost};
use crate::error::Error;
use crate::hash::{null_hash, null_hash_view, NodeHash};
use crate::root_leaves::{indexed, RootLeaves};
use crate::GroveDb;
use rs_merkle::algorithms::Sha256;
use rs_merkle::MerkleTree;
use vstd::prelude::*;

verus! {

/// A Merkle tree over a list of hashes, with SHA-256.
#[verifier::external_body]
pub struct RootTree {
    tree: MerkleTree<Sha256>,
}

/// The leaves of a Merkle tree.
pub uninterp spec fn merkle_leaves(tree: RootTree) -> Seq<Seq<u8>>;

/// The hash at the top of a Merkle tree over the given leaves, of which there is
/// at least one.
pub uninterp spec fn merkle_root(leaves: Seq<Seq<u8>>) -> Seq<u8>;

/// Hashes as byte strings.
pub open spec fn hashes_view(hashes: Seq<NodeHash>) -> Seq<Seq<u8>> {
    Seq::new(hashes.len(), |i: int| hashes[i]@)
}

/// Calls `MerkleTree::<Sha256>::from_leaves`, which makes a tree whose leaves
/// are the given hashes in the given order.
#[verifier::external_body]
fn tree_from_leaves(hashes: &[NodeHash]) -> (tree: RootTree)
    ensures
        merkle_leaves(tree) == hashes_view(hashes@),
{
    RootTree { tree: MerkleTree::<Sha256>::from_leaves(hashes) }
}

/// Whether a hash is at the top of a Merkle tree over the given leaves. There is
/// none where there are no leaves, and a single leaf is at the top itself.
pub open spec fn is_root(root: Option<NodeHash>, leaves: Seq<Seq<u8>>) -> bool {
    match root {
        Some(hash) => {
            &&& leaves.len() > 0
            &&& hash@ == merkle_root(leaves)
            &&& leaves.len() == 1 ==> hash@ == leaves[0]
        },
        None => leaves.len() == 0,
    }
}

/// Calls `MerkleTree::<Sha256>::root`. A tree without leaves has no root. The
/// root of a tree with leaves is a function of the leaves, and a single leaf is
/// the root itself.
#[verifier::external_body]
fn root_of_tree(tree: &RootTree) -> (root: Option<NodeHash>)
    ensures
        root is None <==> merkle_leaves(*tree).len() == 0,
        root matches Some(hash) ==> hash@ == merkle_root(merkle_leaves(*tree)),
        merkle_leaves(*tree).len() == 1 ==> root->0@ == merkle_leaves(*tree)[0],
{
    tree.tree.root()
}

impl RootTree {
    /// The root hash, unless there are no leaves.
    pub fn root(&self) -> (root: Option<NodeHash>)
        ensures
            is_root(root, merkle_leaves(*self)),
    {
        root_of_tree(self)
    }
}

/// Puts the root tree together. It asks for the root hash of each root leaf, in
/// the order of their keys, and goes on with what came of it.
pub struct RootTreeBuilder {
    leaves: RootLeaves,
    next: usize,
    leaf_hashes: Vec<NodeHash>,
    cost: OperationCost,
    failure: Option<Error>,
}

/// The state of putting the root tree together.
#[verifier::ext_equal]
pub struct BuilderView {
    /// The root leaves.
    pub leaves: Seq<(Seq<u8>, usize)>,
    /// Of how many of them the root hash is known.
    pub next: nat,
    /// The hashes by index, with zeros where they are not known yet.
    pub hashes: Seq<Seq<u8>>,
    /// What it cost so far.
    pub cost: OperationCost,
    /// Why it failed, if it did.
    pub failure: Option<Error>,
}

/// Whether all leaves have an index that is below their number.
pub open spec fn indexes_in_range(leaves: Seq<(Seq<u8>, usize)>) -> bool {
    forall|i: int| 0 <= i < leaves.len() ==> (#[trigger] leaves[i]).1 < leaves.len()
}

impl View for RootTreeBuilder {
    type V = BuilderView;

    closed spec fn view(&self) -> BuilderView {
        BuilderView {
            leaves: self.leaves@,
            next: self.next as nat,
            hashes: hashes_view(self.leaf_hashes@),
            cost: self.cost,
            failure: self.failure,
        }
    }
}

impl BuilderView {
    /// Whether the root hash of another leaf is needed.
    pub open spec fn waiting(self) -> bool {
        self.failure is None && self.next < self.leaves.len()
    }

    /// Whether there is a hash for each leaf, and its index is that of a hash.
    pub open spec fn consistent(self) -> bool {
        &&& indexes_in_range(self.leaves)
        &&& self.hashes.len() == self.leaves.len()
        &&& self.next <= self.leaves.len()
    }

    /// The state after the root hash of the next leaf, or the error that it
    /// could not be had.
    pub open spec fn resumed(self, root_hash: CostContext<Result<NodeHash, Error>>) -> BuilderView {
        let cost = self.cost.plus(root_hash.cost);
        match root_hash.value {
            Ok(hash) => BuilderView {
                next: self.next + 1,
                hashes: self.hashes.update(self.leaves[self.next as int].1 as int, hash@),
                cost,
                ..self
            },
            Err(e) => BuilderView { cost, failure: Some(e), ..self },
        }
    }
}

/// A list of hashes that are all zeros.
fn zero_hashes(n: usize) -> (hashes: Vec<NodeHash>)
    ensures
        hashes_view(hashes@) == Seq::new(n as nat, |i: int| null_hash_view()),
{
    let mut hashes: Vec<NodeHash> = Vec::new();
    let mut i: usize = 0;
    while i < n
        invariant
            i <= n,
            hashes@.len() == i,
            forall|j: int| 0 <= j < i ==> (#[trigger] hashes@[j])@ == null_hash_view(),
        decreases n - i,
    {
        hashes.push(null_hash());
        i = i + 1;
    }
    assert(hashes_view(hashes@) =~= Seq::new(n as nat, |i: int| null_hash_view()));
    hashes
}

impl RootTreeBuilder {
    /// Starts with the root leaves, or fails with the error that they could not
    /// be had.
    pub fn new(root_leaf_keys: CostContext<Result<RootLeaves, Error>>) -> (builder: RootTreeBuilder)
        requires
            root_leaf_keys.value matches Ok(leaves) ==> indexes_in_range(leaves@),
        ensures
            builder@ == (match root_leaf_keys.value {
                Ok(leaves) => BuilderView {
                    leaves: leaves@,
                    next: 0,
                    hashes: Seq::new(leaves@.len(), |i: int| null_hash_view()),
                    cost: root_leaf_keys.cost,
                    failure: None,
                },
                Err(e) => BuilderView {
                    leaves: seq![],
                    next: 0,
                    hashes: seq![],
                    cost: root_leaf_keys.cost,
                    failure: Some(e),
                },
            }),
            builder@.consistent(),
    {
        let cost = root_leaf_keys.cost;
        match root_leaf_keys.value {
            Ok(leaves) => {
                let leaf_hashes = zero_hashes(leaves.len());
                RootTreeBuilder { leaves, next: 0, leaf_hashes, cost, failure: None }
            },
            Err(e) => {
                let builder = RootTreeBuilder {
                    leaves: RootLeaves::new(),
                    next: 0,
                    leaf_hashes: Vec::new(),
                    cost,
                    failure: Some(e),
                };
                assert(builder@.hashes =~= seq![]);
                builder
            },
        }
    }

    /// The key of the root leaf whose root hash is needed next, if any.
    pub fn query(&self) -> (key: Option<Vec<u8>>)
        requires
            self@.consistent(),
        ensures
            match key {
                Some(key) => self@.waiting() && key@ == self@.leaves[self@.next as int].0,
                None => !self@.waiting(),
            },
    {
        if self.failure.is_none() && self.next < self.leaves.len() {
            let (key, _) = self.leaves.get(self.next);
            Some(copy_bytes(key))
        } else {
            None
        }
    }

    /// Goes on with the root hash of the next leaf, or fails with the error that
    /// it could not be had. Either way what it cost is added.
    pub fn resume(&mut self, root_hash: CostContext<Result<NodeHash, Error>>)
        requires
            old(self)@.consistent(),
            old(self)@.waiting(),
            old(self)@.cost.fits(root_hash.cost),
        ensures
            final(self)@ == old(self)@.resumed(root_hash),
            final(self)@.consistent(),
    {
        let ghost before = self@;
        self.cost.add_assign(root_hash.cost);
        match root_hash.value {
            Ok(hash) => {
                let (_, index) = self.leaves.get(self.next);
                let ghost hashes = self.leaf_hashes@;
                assert(before.leaves[before.next as int].1 < before.leaves.len());
                self.leaf_hashes.set(index, hash);
                assert(hashes_view(self.leaf_hashes@) =~= hashes_view(hashes).update(
                    index as int,
                    hash@,
                ));
                let count: usize = self.leaves.len();
                assert(self.next < count);
                self.next = self.next + 1;
            },
            Err(e) => {
                self.failure = Some(e);
            },
        }
    }

    /// The root tree over all root hashes, or why it could not be put together,
    /// with what it cost.
    pub fn finish(self) -> (result: CostContext<Result<RootTree, Error>>)
        requires
            self@.consistent(),
            !self@.waiting(),
        ensures
            match self@.failure {
                Some(e) => result.value == Err::<RootTree, Error>(e),
                None => result.value matches Ok(tree) && merkle_leaves(tree) == self@.hashes,
            },
            result.cost == self@.cost,
    {
        match self.failure {
            Some(e) => Err(e).wrap_with_cost(self.cost),
            None => Ok(tree_from_leaves(self.leaf_hashes.as_slice())).wrap_with_cost(self.cost),
        }
    }
}

impl GroveDb {
    /// Returns root hash of GroveDb from its root tree.
    /// Will be `None` if GroveDb is empty.
    pub fn root_hash(root_tree: CostContext<Result<RootTree, Error>>) -> (result: CostContext<
        Result<Option<NodeHash>, Error>,
    >)
        ensures
            match root_tree.value {
                Err(e) => result.value == Err::<Option<NodeHash>, Error>(e),
                Ok(tree) => result.value matches Ok(root) && is_root(root, merkle_leaves(tree)),
            },
            result.cost == root_tree.cost,
    {
        let value = match root_tree.value {
            Ok(tree) => Ok(tree.root()),
            Err(e) => Err(e),
        };
        value.wrap_with_cost(root_tree.cost)
    }
}

/// The state once the root hashes of the first `n` leaves are known, where all
/// can be had.
pub open spec fn collected_hashes(
    leaves: Seq<(Seq<u8>, usize)>,
    root_hashes: Seq<Seq<u8>>,
    n: nat,
) -> Seq<Seq<u8>>
    decreases n,
{
    if n == 0 {
        Seq::new(leaves.len(), |i: int| null_hash_view())
    } else {
        collected_hashes(leaves, root_hashes, (n - 1) as nat).update(
            leaves[n - 1].1 as int,
            root_hashes[n - 1],
        )
    }
}

/// The builder collects the root hashes in the order in which it asks for them.
pub proof fn law_builder_collects_hashes(
    state: BuilderView,
    root_hash: CostContext<Result<NodeHash, Error>>,
    root_hashes: Seq<Seq<u8>>,
)
    requires
        state.waiting(),
        state.hashes == collected_hashes(state.leaves, root_hashes, state.next),
        root_hash.value matches Ok(hash) && hash@ == root_hashes[state.next as int],
    ensures
        state.resumed(root_hash).hashes == collected_hashes(
            state.leaves,
            root_hashes,
            state.next + 1,
        ),
        state.resumed(root_hash).next == state.next + 1,
{
}

/// Each root leaf has its place in the root tree: where the leaves have the
/// indexes from 0 on, each once, the root hash of every leaf is the leaf of the
/// root tree with its index.
pub proof fn law_leaves_keep_their_places(
    leaves: Seq<(Seq<u8>, usize)>,
    root_hashes: Seq<Seq<u8>>,
    n: nat,
    i: int,
)
    requires
        indexed(leaves),
        root_hashes.len() == leaves.len(),
        0 <= i < n <= leaves.len(),
    ensures
        collected_hashes(leaves, root_hashes, n).len() == leaves.len(),
        collected_hashes(leaves, root_hashes, n)[leaves[i].1 as int] == root_hashes[i],
    decreases n,
{
    lemma_collected_length(leaves, root_hashes, (n - 1) as nat);
    assert(leaves[i].1 < leaves.len());
    assert(leaves[n - 1].1 < leaves.len());
    if i < n - 1 {
        assert(leaves[i].1 != leaves[n - 1].1);
        law_leaves_keep_their_places(leaves, root_hashes, (n - 1) as nat, i);
    }
}

/// There is a hash for each leaf.
proof fn lemma_collected_length(
    leaves: Seq<(Seq<u8>, usize)>,
    root_hashes: Seq<Seq<u8>>,
    n: nat,
)
    requires
        indexed(leaves),
        n <= leaves.len(),
    ensures
        collected_hashes(leaves, root_hashes, n).len() == leaves.len(),
    decreases n,
{
    if n > 0 {
        assert(leaves[n - 1].1 < leaves.len());
        lemma_collected_length(leaves, root_hashes, (n - 1) as nat);
    }
}

/// Whether the builder goes through a list of states, from the first to the last, with
/// these answers between each two of them, and waits for each of them.
pub open spec fn is_run(
    states: Seq<BuilderView>,
    answers: Seq<CostContext<Result<NodeHash, Error>>>,
) -> bool {
    &&& states.len() == answers.len() + 1
    &&& forall|i: int, j: int|
        0 <= i < answers.len() && j == i + 1 ==> (#[trigger] states[i]).waiting() && #[trigger] states[j]
            == states[i].resumed(answers[i])
}

/// Whether the builder starts in this state from the given root leaves.
pub open spec fn is_first(state: BuilderView, leaves: Seq<(Seq<u8>, usize)>) -> bool {
    &&& state.leaves == leaves
    &&& state.next == 0
    &&& state.hashes.len() == leaves.len()
    &&& state.failure is None
}

/// The builder asks for the root hashes of all root leaves, one after the other, and
/// whatever they are, it does not fail: after `n` answers with a hash it waits for
/// the next one, if there is a leaf left, and is done otherwise.
pub proof fn law_the_builder_asks_for_all_leaves(
    states: Seq<BuilderView>,
    answers: Seq<CostContext<Result<NodeHash, Error>>>,
    leaves: Seq<(Seq<u8>, usize)>,
    n: int,
)
    requires
        is_run(states, answers),
        is_first(states[0], leaves),
        indexes_in_range(leaves),
        0 <= n < states.len(),
        forall|i: int| 0 <= i < n ==> (#[trigger] answers[i]).value is Ok,
    ensures
        states[n].failure is None,
        states[n].leaves == leaves,
        states[n].next == n,
        n <= leaves.len(),
        states[n].waiting() <==> n < leaves.len(),
        states[n].hashes.len() == leaves.len(),
    decreases n,
{
    if n > 0 {
        law_the_builder_asks_for_all_leaves(states, answers, leaves, n - 1);
        assert(states[n] == states[n - 1].resumed(answers[n - 1]));
        assert(states[n - 1].waiting());
        assert(answers[n - 1].value is Ok);
        assert(leaves[n - 1].1 < leaves.len());
    }
}

/// The root tree is made of the root hashes that were told: where the leaves have the
/// indexes from 0 on, each once, the leaf of the tree with the index of a root
/// leaf is the root hash that was told when it was asked for. So when all were
/// told, the tree has these leaves, and no others.
pub proof fn law_root_hashes_go_to_their_indexes(
    states: Seq<BuilderView>,
    answers: Seq<CostContext<Result<NodeHash, Error>>>,
    leaves: Seq<(Seq<u8>, usize)>,
    n: int,
    i: int,
)
    requires
        is_run(states, answers),
        is_first(states[0], leaves),
        indexed(leaves),
        0 <= i < n < states.len(),
        forall|k: int| 0 <= k < n ==> (#[trigger] answers[k]).value is Ok,
    ensures
        0 <= leaves[i].1 < states[n].hashes.len(),
        states[n].hashes[leaves[i].1 as int] == answers[i].value->Ok_0@,
    decreases n,
{
    law_the_builder_asks_for_all_leaves(states, answers, leaves, n);
    law_the_builder_asks_for_all_leaves(states, answers, leaves, n - 1);
    assert(states[n] == states[n - 1].resumed(answers[n - 1]));
    assert(states[n - 1].waiting());
    assert(answers[n - 1].value is Ok);
    assert(answers[i].value is Ok);
    assert(leaves[i].1 < leaves.len());
    assert(leaves[n - 1].1 < leaves.len());
    if i < n - 1 {
        law_root_hashes_go_to_their_indexes(states, answers, leaves, n - 1, i);
        assert(leaves[i].1 != leaves[n - 1].1);
    }
}

/// The builder fails only with an error that it was told, and it does so at once.
pub proof fn law_the_builder_fails_as_it_was_told(
    state: BuilderView,
    root_hash: CostContext<Result<NodeHash, Error>>,
)
    requires
        state.waiting(),
    ensures
        state.resumed(root_hash).failure == match root_hash.value {
            Ok(_) => None::<Error>,
            Err(e) => Some(e),
        },
        root_hash.value is Err ==> !state.resumed(root_hash).waiting(),
        state.resumed(root_hash).cost == state.cost.plus(root_hash.cost),
{
}

/// Whatever indexes the leaves have, the leaf of the root tree with some index is the
/// root hash of the last root leaf that has this index, of those that were asked
/// for. Where none has it, it stays as it was.
pub proof fn law_the_last_root_hash_counts(
    states: Seq<BuilderView>,
    answers: Seq<CostContext<Result<NodeHash, Error>>>,
    leaves: Seq<(Seq<u8>, usize)>,
    n: int,
    i: int,
    index: int,
)
    requires
        is_run(states, answers),
        is_first(states[0], leaves),
        indexes_in_range(leaves),
        -1 <= i < n < states.len(),
        0 <= index < leaves.len(),
        forall|k: int| 0 <= k < n ==> (#[trigger] answers[k]).value is Ok,
        i >= 0 ==> leaves[i].1 == index,
        forall|k: int| i < k < n ==> (#[trigger] leaves[k]).1 != index,
    ensures
        states[n].hashes[index] == if i >= 0 {
            answers[i].value->Ok_0@
        } else {
            states[0].hashes[index]
        },
    decreases n,
{
    if n > 0 {
        law_the_builder_asks_for_all_leaves(states, answers, leaves, n);
        law_the_builder_asks_for_all_leaves(states, answers, leaves, n - 1);
        assert(states[n] == states[n - 1].resumed(answers[n - 1]));
        assert(states[n - 1].waiting());
        assert(answers[n - 1].value is Ok);
        assert(leaves[n - 1].1 < leaves.len());
        if i < n - 1 {
            assert(leaves[n - 1].1 != index);
            law_the_last_root_hash_counts(states, answers, leaves, n - 1, i, index);
        }
    }
}

} // verus!
