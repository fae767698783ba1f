//! Provides `ChunkProducer`, which creates chunk proofs for full replication of
//! a Merk.
use crate::bytes::copy_bytes;
use crate::costs::{CostContext, CostsExt, OperationCost};
use crate::merk::Merk;
use crate::proofs::chunk::{
    chunk_end, chunk_ops, get_next_chunk, height_node_ops, height_ops, keys_view, layer_ops,
    left_height, trunk_fetch_fails, trunk_height, trunk_loaded, trunk_ops, trunk_reach,
    MIN_TRUNK_HEIGHT,
};
use crate::proofs::encoding::{encode_ops, encoding, encoding_view};
use crate::proofs::{ops_view, Node, NodeView, Op, OpView, ProofError};
use crate::raw_iterator::{lower_bound, EntryView, RawIterator};
use crate::tree::{loads, Fetch, Link, RefWalker, Tree};
use vstd::prelude::*;

verus! {

/// The keys of the nodes that a list of operators pushes with their keys and
/// values, in order.
pub open spec fn pushed_keys(ops: Seq<OpView>) -> Seq<Seq<u8>>
    decreases ops.len(),
{
    if ops.len() == 0 {
        seq![]
    } else {
        let before = pushed_keys(ops.drop_last());
        match ops.last() {
            OpView::Push(NodeView::KV(key, value)) => before.push(key),
            _ => before,
        }
    }
}

/// The number of chunks that a trunk with the given boundaries announces: the
/// trunk alone, or the trunk and one chunk before each boundary and one behind
/// the last.
pub open spec fn chunk_count(boundaries: Seq<Seq<u8>>) -> nat {
    if boundaries.len() == 0 {
        1
    } else {
        boundaries.len() + 2
    }
}

/// Where the chunk with the given index starts: at the first entry, or behind
/// the boundary before it.
pub open spec fn chunk_start(
    entries: Seq<EntryView>,
    boundaries: Seq<Seq<u8>>,
    index: nat,
) -> nat {
    if index < 2 {
        0
    } else {
        let boundary = lower_bound(entries, boundaries[index - 2]);
        if boundary < entries.len() {
            boundary + 1
        } else {
            boundary
        }
    }
}

/// The boundary that ends the chunk with the given index, if any.
pub open spec fn boundary_after(boundaries: Seq<Seq<u8>>, index: nat) -> Option<Seq<u8>> {
    if 0 < index <= boundaries.len() {
        Some(boundaries[index - 1])
    } else {
        None
    }
}

/// Pushed keys of a concatenation.
pub proof fn lemma_pushed_keys_concat(a: Seq<OpView>, b: Seq<OpView>)
    ensures
        pushed_keys(a + b) == pushed_keys(a) + pushed_keys(b),
    decreases b.len(),
{
    if b.len() == 0 {
        assert(a + b =~= a);
        assert(pushed_keys(a) + pushed_keys(b) =~= pushed_keys(a));
    } else {
        lemma_pushed_keys_concat(a, b.drop_last());
        assert((a + b).drop_last() =~= a + b.drop_last());
        assert(pushed_keys(a + b) =~= pushed_keys(a) + pushed_keys(b));
    }
}

/// No more keys are pushed than there are operators.
proof fn lemma_pushed_keys_bound(ops: Seq<OpView>)
    ensures
        pushed_keys(ops).len() <= ops.len(),
    decreases ops.len(),
{
    if ops.len() > 0 {
        lemma_pushed_keys_bound(ops.drop_last());
    }
}

/// A height proof pushes no keys, and has an operator for each node on the left
/// edge that lies below the trunk.
pub proof fn lemma_height_ops_pushes_no_keys(tree: Tree, depth: nat, trunk_height: nat)
    ensures
        pushed_keys(height_ops(tree, depth, trunk_height)) == Seq::<Seq<u8>>::empty(),
        height_ops(tree, depth, trunk_height).len() >= if depth > trunk_height {
            left_height(tree) as int
        } else {
            depth + left_height(tree) - 1 - trunk_height
        },
    decreases tree,
{
    let node = height_node_ops(tree);
    let below = match tree.left {
        Some(Link::Loaded { hash, tree: child }) => {
            lemma_height_ops_pushes_no_keys(*child, depth + 1, trunk_height);
            height_ops(*child, depth + 1, trunk_height)
        },
        _ => seq![],
    };
    lemma_pushed_keys_concat(below, node);
    lemma_pushes_no_keys(node);
}

/// Operators that push no node with a key push no keys.
proof fn lemma_pushes_no_keys(ops: Seq<OpView>)
    requires
        forall|i: int|
            0 <= i < ops.len() ==> !(#[trigger] ops[i] matches OpView::Push(NodeView::KV(_, _))),
    ensures
        pushed_keys(ops) == Seq::<Seq<u8>>::empty(),
    decreases ops.len(),
{
    if ops.len() > 0 {
        assert(ops.last() == ops[ops.len() - 1]);
        lemma_pushes_no_keys(ops.drop_last());
    }
}

/// A `ChunkProducer` allows the creation of chunk proofs, used for trustlessly
/// replicating entire Merk trees. Chunks can be generated on the fly in a
/// random order, or iterated in order for slightly better performance.
#[derive(Debug)]
pub struct ChunkProducer {
    trunk: Vec<Op>,
    chunk_boundaries: Vec<Vec<u8>>,
    raw_iter: RawIterator,
    index: usize,
}

/// What a chunk producer holds.
#[verifier::ext_equal]
pub struct ProducerView {
    /// The operators of the trunk.
    pub trunk: Seq<OpView>,
    /// The keys at which chunks end.
    pub boundaries: Seq<Seq<u8>>,
    /// The stored nodes.
    pub entries: Seq<EntryView>,
    /// Where the cursor over the stored nodes stands.
    pub position: nat,
    /// The index of the next chunk.
    pub index: nat,
}

impl ProducerView {
    /// What the next chunk is, and the state after it. A chunk other than the
    /// trunk is made of the entries from the cursor on up to the boundary that
    /// ends it.
    pub open spec fn next(self) -> (Result<Seq<u8>, ProofError>, ProducerView) {
        if self.index == 0 {
            if self.trunk.len() == 0 {
                (Err(ProofError::EmptyTree), self)
            } else {
                (encoding(self.trunk), ProducerView { index: 1, ..self })
            }
        } else {
            let end = chunk_end(
                self.entries,
                self.position,
                boundary_after(self.boundaries, self.index),
            );
            let chunk = chunk_ops(self.entries.subrange(self.position as int, end as int));
            let position = if end < self.entries.len() {
                end + 1
            } else {
                end
            };
            (encoding(chunk), ProducerView { index: self.index + 1, position, ..self })
        }
    }

    /// The state from which the chunk with the given index comes next.
    pub open spec fn at(self, index: nat) -> ProducerView {
        ProducerView { index, position: chunk_start(self.entries, self.boundaries, index), ..self }
    }
}

impl View for ChunkProducer {
    type V = ProducerView;

    closed spec fn view(&self) -> ProducerView {
        ProducerView {
            trunk: ops_view(self.trunk@),
            boundaries: keys_view(self.chunk_boundaries@),
            entries: self.raw_iter.entries(),
            position: self.raw_iter.position(),
            index: self.index as nat,
        }
    }
}

/// What creating a producer comes to. For an empty tree there is a producer with
/// an empty trunk. For another one there is a producer with its trunk, unless the
/// source answers the fetch of a node that the trunk needs with an error, or the
/// left edge is too long to be counted, and always if all nodes that the trunk
/// needs are in memory. A producer costs one seek.
pub open spec fn created<S: Fetch>(
    before: Merk<S>,
    after: Merk<S>,
    entries: Seq<EntryView>,
    result: CostContext<Result<ChunkProducer, ProofError>>,
) -> bool {
    &&& match before.tree {
        None => {
            &&& after.tree is None
            &&& result.value matches Ok(producer)
            &&& producer.well_formed()
            &&& producer@ == ChunkProducer::initial(seq![], false, entries)
        },
        Some(tree) => {
            &&& after.tree matches Some(loaded)
            &&& loads(&before.source, tree, loaded, usize::MAX as nat, true)
            &&& match result.value {
                Ok(producer) => {
                    &&& producer.well_formed()
                    &&& loads(&before.source, tree, loaded, trunk_reach(loaded), true)
                    &&& trunk_loaded(loaded)
                    &&& producer@ == ChunkProducer::initial(
                        trunk_ops(loaded),
                        trunk_height(loaded) >= MIN_TRUNK_HEIGHT,
                        entries,
                    )
                },
                Err(ProofError::Fetch(e)) => trunk_fetch_fails(&before.source, tree, loaded, e),
                Err(e) => {
                    &&& e == ProofError::HeightOverflow
                    &&& left_height(loaded) >= usize::MAX
                    &&& loads(&before.source, tree, loaded, 0, true)
                },
            }
            &&& trunk_loaded(tree) && left_height(tree) < usize::MAX ==> result.value is Ok
                && loaded == tree
        },
    }
    &&& result.cost == (OperationCost {
        seek_count: if result.value is Ok {
            1
        } else {
            0
        },
        ..OperationCost::zero()
    })
}

/// The keys of the nodes that a list of operators pushes with their keys and
/// values, in order.
fn collect_boundaries(ops: &[Op]) -> (keys: Vec<Vec<u8>>)
    ensures
        keys_view(keys@) == pushed_keys(ops_view(ops@)),
{
    let mut keys: Vec<Vec<u8>> = Vec::new();
    let mut i: usize = 0;
    assert(keys_view(keys@) =~= pushed_keys(ops_view(ops@.take(0))));
    while i < ops.len()
        invariant
            i <= ops@.len(),
            keys_view(keys@) == pushed_keys(ops_view(ops@.take(i as int))),
        decreases ops@.len() - i,
    {
        let ghost before = keys@;
        proof {
            let all = ops_view(ops@.take(i as int + 1));
            assert(all.drop_last() =~= ops_view(ops@.take(i as int)));
            assert(all.last() == ops@[i as int]@);
        }
        if let Op::Push(Node::KV(key, _)) = &ops[i] {
            keys.push(copy_bytes(key.as_slice()));
            assert(keys_view(keys@) =~= keys_view(before).push(key@));
        }
        i = i + 1;
    }
    assert(ops@.take(ops@.len() as int) =~= ops@);
    keys
}

impl ChunkProducer {
    /// Whether the producer's counters are in range: its chunks can be counted,
    /// and no chunk after the last is next.
    pub closed spec fn well_formed(self) -> bool {
        &&& self.chunk_boundaries@.len() + 2 <= usize::MAX
        &&& self.index <= chunk_count(self@.boundaries)
    }

    /// The state of a producer whose trunk is the given one, before its first
    /// chunk.
    pub open spec fn initial(
        trunk: Seq<OpView>,
        has_more: bool,
        entries: Seq<EntryView>,
    ) -> ProducerView {
        ProducerView {
            trunk,
            boundaries: if has_more {
                pushed_keys(trunk)
            } else {
                seq![]
            },
            entries,
            position: 0,
            index: 0,
        }
    }

    /// Creates a new `ChunkProducer` for the given `Merk` instance and a cursor
    /// over its stored nodes. In the constructor, the first chunk (the "trunk")
    /// will be created.
    ///
    /// Nodes that the trunk needs and that are not in memory are fetched and
    /// stay in memory.
    pub fn new<S: Fetch>(merk: &mut Merk<S>, raw_iter: RawIterator) -> (result: CostContext<
        Result<ChunkProducer, ProofError>,
    >)
        ensures
            final(merk).source == old(merk).source,
            created(*old(merk), *final(merk), raw_iter.entries(), result),
    {
        let mut cost = OperationCost::default();
        let walked = match &mut merk.tree {
            Some(tree) => RefWalker::trunk_proof(tree, &merk.source),
            None => Ok((Vec::new(), false)),
        };
        let (trunk, has_more) = match walked {
            Ok(proof) => proof,
            Err(e) => {
                return Err(e).wrap_with_cost(cost);
            },
        };
        let chunk_boundaries = if has_more {
            collect_boundaries(trunk.as_slice())
        } else {
            Vec::new()
        };
        proof {
            assert(ops_view(Seq::<Op>::empty()) =~= seq![]);
            assert(keys_view(Seq::<Vec<u8>>::empty()) =~= seq![]);
            if has_more {
                let tree = merk.tree->0;
                let height = trunk_height(tree);
                lemma_height_ops_pushes_no_keys(tree, 1, height);
                let height_part = height_ops(tree, 1, height);
                let layer_part = layer_ops(tree, height, true);
                lemma_pushed_keys_concat(height_part, layer_part);
                lemma_pushed_keys_bound(layer_part);
                assert(chunk_boundaries@.len() == keys_view(chunk_boundaries@).len());
                assert(trunk@.len() == height_part.len() + layer_part.len());
                assert(trunk@.len() == trunk.len());
            }
        }
        let mut raw_iter = raw_iter;
        raw_iter.seek_to_first();
        cost.seek_count = cost.seek_count + 1;
        Ok(ChunkProducer { trunk, chunk_boundaries, raw_iter, index: 0 }).wrap_with_cost(cost)
    }

    /// Gets the chunk with the given index. Errors if the index is out of
    /// bounds or the tree is empty - the number of chunks can be checked by
    /// calling `producer.len()`.
    pub fn chunk(&mut self, index: usize) -> (result: CostContext<Result<Vec<u8>, ProofError>>)
        requires
            old(self).well_formed(),
        ensures
            final(self).well_formed(),
            index >= chunk_count(old(self)@.boundaries) ==> {
                &&& encoding_view(result.value) == Err::<Seq<u8>, ProofError>(
                    ProofError::ChunkIndexOutOfBounds,
                )
                &&& result.cost == OperationCost::zero()
                &&& final(self)@ == old(self)@
            },
            index < chunk_count(old(self)@.boundaries) ==> {
                &&& (encoding_view(result.value), final(self)@) == old(self)@.at(index as nat).next()
                &&& result.cost == (OperationCost { seek_count: 1, ..OperationCost::zero() })
            },
    {
        let mut cost = OperationCost::default();
        if index >= self.len() {
            return Err(ProofError::ChunkIndexOutOfBounds).wrap_with_cost(cost);
        }
        self.index = index;
        if index == 0 || index == 1 {
            self.raw_iter.seek_to_first();
            cost.seek_count = cost.seek_count + 1;
        } else {
            self.raw_iter.seek(self.chunk_boundaries[index - 2].as_slice());
            self.raw_iter.next();
            cost.seek_count = cost.seek_count + 1;
        }
        assert(self@ == old(self)@.at(index as nat));
        self.next_chunk().add_cost(cost)
    }

    /// Returns the total number of chunks for the underlying Merk tree.
    pub fn len(&self) -> (len: usize)
        requires
            self.well_formed(),
        ensures
            len == chunk_count(self@.boundaries),
    {
        let boundaries_len: usize = self.chunk_boundaries.len();
        if boundaries_len == 0 {
            1
        } else {
            boundaries_len + 2
        }
    }

    /// Gets the next chunk based on the `ChunkProducer`'s internal index state.
    /// This is mostly useful for letting `ChunkIter` yield the chunks in order,
    /// optimizing throughput compared to random access.
    pub fn next_chunk(&mut self) -> (result: CostContext<Result<Vec<u8>, ProofError>>)
        requires
            old(self).well_formed(),
            old(self)@.index < chunk_count(old(self)@.boundaries),
        ensures
            final(self).well_formed(),
            (encoding_view(result.value), final(self)@) == old(self)@.next(),
            result.cost == OperationCost::zero(),
    {
        if self.index == 0 {
            if self.trunk.is_empty() {
                return Err(ProofError::EmptyTree).wrap_with_cost(OperationCost::default());
            }
            self.index = self.index + 1;
            return encode_ops(self.trunk.as_slice()).wrap_with_cost(OperationCost::default());
        }
        let end_key = if self.index - 1 < self.chunk_boundaries.len() {
            Some(self.chunk_boundaries[self.index - 1].as_slice())
        } else {
            None
        };
        let chunk = get_next_chunk(&mut self.raw_iter, end_key);
        self.index = self.index + 1;
        encode_ops(chunk.as_slice()).wrap_with_cost(OperationCost::default())
    }

    /// An iterator over all chunks from the next one on.
    pub fn into_iter(self) -> (iter: ChunkIter)
        requires
            self.well_formed(),
        ensures
            iter.well_formed(),
            iter@ == self@,
    {
        ChunkIter(self)
    }
}

/// A `ChunkIter` iterates through all the chunks for the underlying `Merk`
/// instance in order (the first chunk is the "trunk" chunk). Yields `None`
/// after all chunks have been yielded.
#[derive(Debug)]
pub struct ChunkIter(ChunkProducer);

impl View for ChunkIter {
    type V = ProducerView;

    closed spec fn view(&self) -> ProducerView {
        self.0@
    }
}

impl ChunkIter {
    /// Whether the producer's counters are in range.
    pub closed spec fn well_formed(self) -> bool {
        self.0.well_formed()
    }

    /// The number of chunks, as a lower and an upper bound.
    pub fn size_hint(&self) -> (hint: (usize, Option<usize>))
        requires
            self.well_formed(),
        ensures
            hint.0 == chunk_count(self@.boundaries),
            hint.1 == Some(hint.0),
    {
        (self.0.len(), Some(self.0.len()))
    }

    /// The next chunk, unless all chunks have been yielded.
    pub fn next(&mut self) -> (item: Option<CostContext<Result<Vec<u8>, ProofError>>>)
        requires
            old(self).well_formed(),
        ensures
            final(self).well_formed(),
            match item {
                None => {
                    &&& old(self)@.index >= chunk_count(old(self)@.boundaries)
                    &&& final(self)@ == old(self)@
                },
                Some(chunk) => {
                    &&& old(self)@.index < chunk_count(old(self)@.boundaries)
                    &&& (encoding_view(chunk.value), final(self)@) == old(self)@.next()
                    &&& chunk.cost == OperationCost::zero()
                },
            },
    {
        if self.0.index >= self.0.len() {
            None
        } else {
            Some(self.0.next_chunk())
        }
    }
}

impl<S: Fetch> Merk<S> {
    /// Creates a `ChunkProducer` which can return chunk proofs for replicating
    /// the entire Merk tree, from a cursor over its stored nodes.
    pub fn chunks(&mut self, raw_iter: RawIterator) -> (result: CostContext<
        Result<ChunkProducer, ProofError>,
    >)
        ensures
            final(self).source == old(self).source,
            created(*old(self), *final(self), raw_iter.entries(), result),
    {
        ChunkProducer::new(self, raw_iter)
    }
}

} // verus!
