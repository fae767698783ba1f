//! The leaves of the root tree: their keys, their order, and how they are
//! stored.
use crate::bytes::{
    bytes_equal, bytes_less, copy_bytes, lemma_lex_irreflexive, lemma_lex_total,
    lemma_lex_transitive, lex_less,
};
use crate::costs::{CostContext, CostsExt, OperationCost};
use crate::error::Error;
use crate::GroveDb;
use vstd::prelude::*;

verus! {

/// An error of bincode.
#[verifier::external_type_specification]
#[verifier::external_body]
pub struct ExBincodeErrorKind(bincode::ErrorKind);

/// Eight bytes that hold a number, low byte first.
#[verifier::opaque]
pub open spec fn le64(n: nat) -> Seq<u8> {
    seq![
        (n % 0x100) as u8,
        ((n / 0x100) % 0x100) as u8,
        ((n / 0x1_0000) % 0x100) as u8,
        ((n / 0x100_0000) % 0x100) as u8,
        ((n / 0x1_0000_0000) % 0x100) as u8,
        ((n / 0x100_0000_0000) % 0x100) as u8,
        ((n / 0x1_0000_0000_0000) % 0x100) as u8,
        ((n / 0x100_0000_0000_0000) % 0x100) as u8,
    ]
}

/// The encoding of a key and a number: the length of the key, the key, the
/// number.
pub open spec fn entry_encoding(entry: (Seq<u8>, u64)) -> Seq<u8> {
    le64(entry.0.len()) + entry.0 + le64(entry.1 as nat)
}

/// The encodings of a list of keys and numbers, one after the other.
pub open spec fn entries_encoding(entries: Seq<(Seq<u8>, u64)>) -> Seq<u8>
    decreases entries.len(),
{
    if entries.len() == 0 {
        seq![]
    } else {
        entry_encoding(entries[0]) + entries_encoding(entries.drop_first())
    }
}

/// The encoding of a list of keys and numbers, with its length first.
pub open spec fn list_encoding(entries: Seq<(Seq<u8>, u64)>) -> Seq<u8> {
    le64(entries.len()) + entries_encoding(entries)
}

/// Keys and numbers as they are meant.
pub open spec fn pairs_view(pairs: Seq<(Vec<u8>, u64)>) -> Seq<(Seq<u8>, u64)> {
    Seq::new(pairs.len(), |i: int| (pairs[i].0@, pairs[i].1))
}

/// Calls `bincode::serialize` on a list of pairs of a byte string and a number.
/// It writes the length of the list, and for each pair the length of the byte
/// string, its bytes and the number, with every length and number as eight
/// bytes, low byte first. There is no size limit, so it does not fail.
#[verifier::external_body]
fn bincode_serialize(pairs: &Vec<(Vec<u8>, u64)>) -> (result: bincode::Result<Vec<u8>>)
    ensures
        result is Ok,
        result->Ok_0@ == list_encoding(pairs_view(pairs@)),
{
    bincode::serialize(pairs)
}

/// Calls `bincode::deserialize` for a list of pairs of a byte string and a
/// number. It returns the list whose encoding the bytes start with, whatever
/// follows it, and fails where they start with no such encoding.
#[verifier::external_body]
fn bincode_deserialize(bytes: &[u8]) -> (result: bincode::Result<Vec<(Vec<u8>, u64)>>)
    ensures
        match result {
            Ok(pairs) => list_encoding(pairs_view(pairs@)).is_prefix_of(bytes@),
            Err(_) => forall|entries: Seq<(Seq<u8>, u64)>|
                !(#[trigger] list_encoding(entries)).is_prefix_of(bytes@),
        },
{
    bincode::deserialize(bytes)
}

/// Whether all lengths in a list fit eight bytes.
pub open spec fn sized(entries: Seq<(Seq<u8>, u64)>) -> bool {
    &&& entries.len() <= u64::MAX
    &&& forall|i: int| 0 <= i < entries.len() ==> (#[trigger] entries[i]).0.len() <= u64::MAX
}

/// A number is held in eight bytes.
proof fn lemma_le64_length(n: nat)
    ensures
        le64(n).len() == 8,
{
    reveal(le64);
}

/// The number that eight digits to the base 256 make.
proof fn lemma_digits(n: nat)
    requires
        n <= u64::MAX,
    ensures
        n == n % 0x100 + 0x100 * ((n / 0x100) % 0x100) + 0x1_0000 * ((n / 0x1_0000) % 0x100)
            + 0x100_0000 * ((n / 0x100_0000) % 0x100) + 0x1_0000_0000 * ((n / 0x1_0000_0000)
            % 0x100) + 0x100_0000_0000 * ((n / 0x100_0000_0000) % 0x100) + 0x1_0000_0000_0000 * ((n
            / 0x1_0000_0000_0000) % 0x100) + 0x100_0000_0000_0000 * ((n / 0x100_0000_0000_0000)
            % 0x100),
{
    let n1 = n / 0x100;
    let n2 = n / 0x1_0000;
    let n3 = n / 0x100_0000;
    let n4 = n / 0x1_0000_0000;
    let n5 = n / 0x100_0000_0000;
    let n6 = n / 0x1_0000_0000_0000;
    let n7 = n / 0x100_0000_0000_0000;
    assert(n1 / 0x100 == n2);
    assert(n2 / 0x100 == n3);
    assert(n3 / 0x100 == n4);
    assert(n4 / 0x100 == n5);
    assert(n5 / 0x100 == n6);
    assert(n6 / 0x100 == n7);
    assert(n7 < 0x100);
    assert(n6 == n6 % 0x100 + 0x100 * n7);
    assert(n5 == n5 % 0x100 + 0x100 * n6);
    assert(n4 == n4 % 0x100 + 0x100 * n5);
    assert(n3 == n3 % 0x100 + 0x100 * n4);
    assert(n2 == n2 % 0x100 + 0x100 * n3);
    assert(n1 == n1 % 0x100 + 0x100 * n2);
    assert(n == n % 0x100 + 0x100 * n1);
}

/// Eight bytes hold one number only.
proof fn lemma_le64_injective(a: nat, b: nat)
    requires
        a <= u64::MAX,
        b <= u64::MAX,
        le64(a) == le64(b),
    ensures
        a == b,
{
    reveal(le64);
    let x = le64(a);
    let y = le64(b);
    assert(x[0] == y[0] && x[1] == y[1] && x[2] == y[2] && x[3] == y[3]);
    assert(x[4] == y[4] && x[5] == y[5] && x[6] == y[6] && x[7] == y[7]);
    lemma_digits(a);
    lemma_digits(b);
}

/// Where bytes start with a byte string, its parts are found in them.
proof fn lemma_prefix_part(whole: Seq<u8>, bytes: Seq<u8>, from: int, to: int)
    requires
        whole.is_prefix_of(bytes),
        0 <= from <= to <= whole.len(),
    ensures
        whole.subrange(from, to) == bytes.subrange(from, to),
        whole.skip(from).is_prefix_of(bytes.skip(from)),
{
    assert(whole.subrange(from, to) =~= bytes.subrange(from, to));
    let rest = whole.skip(from);
    assert(rest =~= bytes.skip(from).take(rest.len() as int));
}

/// The parts of the encoding of a list that is not empty.
proof fn lemma_entries_encoding_parts(entries: Seq<(Seq<u8>, u64)>)
    requires
        entries.len() > 0,
    ensures
        ({
            let n = entries[0].0.len() as int;
            let all = entries_encoding(entries);
            &&& all.len() >= 16 + n
            &&& all.subrange(0, 8) == le64(n as nat)
            &&& all.subrange(8, 8 + n) == entries[0].0
            &&& all.subrange(8 + n, 16 + n) == le64(entries[0].1 as nat)
            &&& all.skip(16 + n) == entries_encoding(entries.drop_first())
        }),
{
    let n = entries[0].0.len() as int;
    let all = entries_encoding(entries);
    lemma_le64_length(n as nat);
    lemma_le64_length(entries[0].1 as nat);
    assert(all.subrange(0, 8) =~= le64(n as nat));
    assert(all.subrange(8, 8 + n) =~= entries[0].0);
    assert(all.subrange(8 + n, 16 + n) =~= le64(entries[0].1 as nat));
    assert(all.skip(16 + n) =~= entries_encoding(entries.drop_first()));
}

/// Bytes start with the encodings of at most one list of a given length.
proof fn lemma_entries_encoding_injective(
    a: Seq<(Seq<u8>, u64)>,
    b: Seq<(Seq<u8>, u64)>,
    bytes: Seq<u8>,
)
    requires
        a.len() == b.len(),
        sized(a),
        sized(b),
        entries_encoding(a).is_prefix_of(bytes),
        entries_encoding(b).is_prefix_of(bytes),
    ensures
        a == b,
    decreases a.len(),
{
    if a.len() == 0 {
        assert(a =~= b);
    } else {
        let n = a[0].0.len() as int;
        let m = b[0].0.len() as int;
        let all_a = entries_encoding(a);
        let all_b = entries_encoding(b);
        lemma_entries_encoding_parts(a);
        lemma_entries_encoding_parts(b);
        lemma_prefix_part(all_a, bytes, 0, 8);
        lemma_prefix_part(all_b, bytes, 0, 8);
        lemma_le64_injective(n as nat, m as nat);
        lemma_prefix_part(all_a, bytes, 8, 8 + n);
        lemma_prefix_part(all_b, bytes, 8, 8 + n);
        lemma_prefix_part(all_a, bytes, 8 + n, 16 + n);
        lemma_prefix_part(all_b, bytes, 8 + n, 16 + n);
        lemma_le64_injective(a[0].1 as nat, b[0].1 as nat);
        lemma_prefix_part(all_a, bytes, 16 + n, all_a.len() as int);
        lemma_prefix_part(all_b, bytes, 16 + n, all_b.len() as int);
        lemma_entries_encoding_injective(a.drop_first(), b.drop_first(), bytes.skip(16 + n));
        assert(a =~= seq![a[0]] + a.drop_first());
        assert(b =~= seq![b[0]] + b.drop_first());
    }
}

/// Bytes start with the encoding of at most one list.
pub proof fn lemma_list_encoding_injective(
    a: Seq<(Seq<u8>, u64)>,
    b: Seq<(Seq<u8>, u64)>,
    bytes: Seq<u8>,
)
    requires
        sized(a),
        sized(b),
        list_encoding(a).is_prefix_of(bytes),
        list_encoding(b).is_prefix_of(bytes),
    ensures
        a == b,
{
    let all_a = list_encoding(a);
    let all_b = list_encoding(b);
    lemma_le64_length(a.len());
    lemma_le64_length(b.len());
    assert(all_a.subrange(0, 8) =~= le64(a.len()));
    assert(all_b.subrange(0, 8) =~= le64(b.len()));
    lemma_prefix_part(all_a, bytes, 0, 8);
    lemma_prefix_part(all_b, bytes, 0, 8);
    lemma_le64_injective(a.len(), b.len());
    lemma_prefix_part(all_a, bytes, 8, 8);
    lemma_prefix_part(all_b, bytes, 8, 8);
    assert(all_a.skip(8) =~= entries_encoding(a));
    assert(all_b.skip(8) =~= entries_encoding(b));
    lemma_entries_encoding_injective(a, b, bytes.skip(8));
}

/// Whether leaves stand in the order of their keys, each key once.
pub open spec fn keys_sorted(leaves: Seq<(Seq<u8>, usize)>) -> bool {
    forall|i: int, j: int|
        0 <= i < j < leaves.len() ==> lex_less((#[trigger] leaves[i]).0, (#[trigger] leaves[j]).0)
}

/// Whether there is a leaf with the given key.
pub open spec fn has_leaf(leaves: Seq<(Seq<u8>, usize)>, key: Seq<u8>) -> bool {
    exists|i: int| 0 <= i < leaves.len() && (#[trigger] leaves[i]).0 == key
}

/// The position of the first leaf whose key is not below `key`.
pub open spec fn leaf_lower_bound(leaves: Seq<(Seq<u8>, usize)>, key: Seq<u8>) -> nat
    decreases leaves.len(),
{
    if leaves.len() == 0 {
        0
    } else if lex_less(leaves.last().0, key) {
        leaves.len()
    } else {
        leaf_lower_bound(leaves.drop_last(), key)
    }
}

/// Leaves with the given key at the given index, in place of what the key had.
pub open spec fn with_leaf(leaves: Seq<(Seq<u8>, usize)>, key: Seq<u8>, index: usize) -> Seq<
    (Seq<u8>, usize),
> {
    let position = leaf_lower_bound(leaves, key) as int;
    if position < leaves.len() && leaves[position].0 == key {
        leaves.update(position, (key, index))
    } else {
        leaves.insert(position, (key, index))
    }
}

/// The leaves that a list of keys and indexes makes, where later ones override
/// earlier ones.
pub open spec fn collected(entries: Seq<(Seq<u8>, u64)>) -> Seq<(Seq<u8>, usize)>
    decreases entries.len(),
{
    if entries.len() == 0 {
        seq![]
    } else {
        with_leaf(collected(entries.drop_last()), entries.last().0, entries.last().1 as usize)
    }
}

/// Leaves as a list of keys and indexes.
pub open spec fn listed(leaves: Seq<(Seq<u8>, usize)>) -> Seq<(Seq<u8>, u64)> {
    Seq::new(leaves.len(), |i: int| (leaves[i].0, leaves[i].1 as u64))
}

/// Whether the leaves have the indexes from 0 on, each once.
pub open spec fn indexed(leaves: Seq<(Seq<u8>, usize)>) -> bool {
    &&& forall|i: int| 0 <= i < leaves.len() ==> (#[trigger] leaves[i]).1 < leaves.len()
    &&& forall|i: int, j: int|
        0 <= i < j < leaves.len() ==> (#[trigger] leaves[i]).1 != (#[trigger] leaves[j]).1
}

/// A lower bound is a position in the list or its end.
pub proof fn lemma_leaf_lower_bound_range(leaves: Seq<(Seq<u8>, usize)>, key: Seq<u8>)
    ensures
        leaf_lower_bound(leaves, key) <= leaves.len(),
    decreases leaves.len(),
{
    if leaves.len() > 0 {
        lemma_leaf_lower_bound_range(leaves.drop_last(), key);
    }
}

/// A position is the lower bound where all keys before it are below the key and
/// none from it on is.
proof fn lemma_leaf_lower_bound(leaves: Seq<(Seq<u8>, usize)>, key: Seq<u8>, i: nat)
    requires
        i <= leaves.len(),
        forall|j: int| 0 <= j < i ==> lex_less((#[trigger] leaves[j]).0, key),
        forall|j: int| i <= j < leaves.len() ==> !lex_less((#[trigger] leaves[j]).0, key),
    ensures
        leaf_lower_bound(leaves, key) == i,
    decreases leaves.len(),
{
    if i < leaves.len() {
        assert(!lex_less(leaves[leaves.len() - 1].0, key));
        lemma_leaf_lower_bound(leaves.drop_last(), key, i);
    } else if i > 0 {
        assert(lex_less(leaves[leaves.len() - 1].0, key));
    }
}

/// In the order of their keys, leaves before the lower bound of a key are below it,
/// and none from it on is.
proof fn lemma_leaf_lower_bound_splits(leaves: Seq<(Seq<u8>, usize)>, key: Seq<u8>)
    requires
        keys_sorted(leaves),
    ensures
        leaf_lower_bound(leaves, key) <= leaves.len(),
        forall|i: int|
            0 <= i < leaf_lower_bound(leaves, key) ==> lex_less((#[trigger] leaves[i]).0, key),
        forall|i: int|
            leaf_lower_bound(leaves, key) <= i < leaves.len() ==> !lex_less(
                (#[trigger] leaves[i]).0,
                key,
            ),
    decreases leaves.len(),
{
    if leaves.len() > 0 {
        let short = leaves.drop_last();
        let last = leaves.len() - 1;
        assert forall|i: int, j: int| 0 <= i < j < short.len() implies lex_less(
            (#[trigger] short[i]).0,
            (#[trigger] short[j]).0,
        ) by {
            assert(lex_less(leaves[i].0, leaves[j].0));
        }
        lemma_leaf_lower_bound_splits(short, key);
        if lex_less(leaves.last().0, key) {
            assert forall|i: int| 0 <= i < leaves.len() implies lex_less(
                (#[trigger] leaves[i]).0,
                key,
            ) by {
                if i < last {
                    assert(lex_less(leaves[i].0, leaves[last].0));
                    lemma_lex_transitive(leaves[i].0, leaves[last].0, key);
                }
            }
        } else {
            let bound = leaf_lower_bound(short, key);
            assert forall|i: int| 0 <= i < bound implies lex_less((#[trigger] leaves[i]).0, key) by {
                assert(lex_less(short[i].0, key));
            }
            assert forall|i: int| bound <= i < leaves.len() implies !lex_less(
                (#[trigger] leaves[i]).0,
                key,
            ) by {
                if i < last {
                    assert(!lex_less(short[i].0, key));
                }
            }
        }
    }
}

/// Putting a key at an index keeps leaves in the order of their keys.
pub proof fn lemma_with_leaf_sorted(leaves: Seq<(Seq<u8>, usize)>, key: Seq<u8>, index: usize)
    requires
        keys_sorted(leaves),
    ensures
        keys_sorted(with_leaf(leaves, key, index)),
{
    let position = leaf_lower_bound(leaves, key) as int;
    let now = with_leaf(leaves, key, index);
    lemma_leaf_lower_bound_splits(leaves, key);
    if position < leaves.len() && leaves[position].0 == key {
        assert forall|i: int, j: int| 0 <= i < j < now.len() implies lex_less(
            (#[trigger] now[i]).0,
            (#[trigger] now[j]).0,
        ) by {
            assert(lex_less(leaves[i].0, leaves[j].0));
        }
    } else {
        assert forall|i: int, j: int| 0 <= i < j < now.len() implies lex_less(
            (#[trigger] now[i]).0,
            (#[trigger] now[j]).0,
        ) by {
            let a = if i < position {
                i
            } else {
                i - 1
            };
            let b = if j < position {
                j
            } else {
                j - 1
            };
            if i != position && j != position {
                assert(lex_less(leaves[a].0, leaves[b].0));
            } else if i == position {
                assert(!lex_less(leaves[b].0, key));
                lemma_lex_total(leaves[b].0, key);
                if b > position {
                    assert(lex_less(leaves[position].0, leaves[b].0));
                    assert(!lex_less(leaves[position].0, key));
                }
            } else {
                assert(lex_less(leaves[a].0, key));
            }
        }
    }
}

/// The keys of root tree leaves, each with the index of its leaf, in the order
/// of the keys.
#[derive(Debug)]
pub struct RootLeaves {
    leaves: Vec<(Vec<u8>, usize)>,
}

impl View for RootLeaves {
    type V = Seq<(Seq<u8>, usize)>;

    closed spec fn view(&self) -> Seq<(Seq<u8>, usize)> {
        Seq::new(self.leaves@.len(), |i: int| (self.leaves@[i].0@, self.leaves@[i].1))
    }
}

impl RootLeaves {
    /// No leaves.
    pub fn new() -> (leaves: RootLeaves)
        ensures
            leaves@ == Seq::<(Seq<u8>, usize)>::empty(),
            keys_sorted(leaves@),
    {
        let leaves = RootLeaves { leaves: Vec::new() };
        assert(leaves@ =~= Seq::<(Seq<u8>, usize)>::empty());
        leaves
    }

    /// The number of leaves.
    pub fn len(&self) -> (len: usize)
        ensures
            len == self@.len(),
    {
        self.leaves.len()
    }

    /// The key and the index of the leaf at the given position in key order.
    pub fn get(&self, i: usize) -> (leaf: (&[u8], usize))
        requires
            i < self@.len(),
        ensures
            (leaf.0@, leaf.1) == self@[i as int],
    {
        (self.leaves[i].0.as_slice(), self.leaves[i].1)
    }

    /// The position of the first leaf whose key is not below `key`.
    fn position(&self, key: &[u8]) -> (position: usize)
        requires
            keys_sorted(self@),
        ensures
            position <= self@.len(),
            position == leaf_lower_bound(self@, key@),
            forall|j: int| 0 <= j < position ==> lex_less((#[trigger] self@[j]).0, key@),
            forall|j: int| position <= j < self@.len() ==> !lex_less((#[trigger] self@[j]).0, key@),
    {
        let mut low: usize = 0;
        let mut high: usize = self.leaves.len();
        while low < high
            invariant
                low <= high <= self@.len(),
                keys_sorted(self@),
                forall|j: int| 0 <= j < low ==> lex_less((#[trigger] self@[j]).0, key@),
                forall|j: int| high <= j < self@.len() ==> !lex_less((#[trigger] self@[j]).0, key@),
            decreases high - low,
        {
            let middle: usize = low + (high - low) / 2;
            let ghost at = self@[middle as int].0;
            if bytes_less(self.leaves[middle].0.as_slice(), key) {
                assert forall|j: int| 0 <= j < middle + 1 implies lex_less(
                    (#[trigger] self@[j]).0,
                    key@,
                ) by {
                    if low <= j < middle {
                        assert(lex_less(self@[j].0, self@[middle as int].0));
                        lemma_lex_transitive(self@[j].0, at, key@);
                    }
                }
                low = middle + 1;
            } else {
                assert forall|j: int| middle <= j < self@.len() implies !lex_less(
                    (#[trigger] self@[j]).0,
                    key@,
                ) by {
                    if middle < j < high && lex_less(self@[j].0, key@) {
                        assert(lex_less(self@[middle as int].0, self@[j].0));
                        lemma_lex_transitive(at, self@[j].0, key@);
                    }
                }
                high = middle;
            }
        }
        proof {
            lemma_leaf_lower_bound(self@, key@, low as nat);
        }
        low
    }

    /// Whether there is a leaf with the given key.
    pub fn contains_key(&self, key: &[u8]) -> (contains: bool)
        requires
            keys_sorted(self@),
        ensures
            contains == has_leaf(self@, key@),
    {
        let position = self.position(key);
        if position < self.leaves.len() {
            let found = bytes_equal(self.leaves[position].0.as_slice(), key);
            proof {
                if found {
                    assert(self@[position as int].0 == key@);
                } else if has_leaf(self@, key@) {
                    lemma_lex_irreflexive(key@);
                    let i = choose|i: int| 0 <= i < self@.len() && (#[trigger] self@[i]).0 == key@;
                    assert(i > position);
                    assert(lex_less(self@[position as int].0, self@[i].0));
                }
            }
            found
        } else {
            proof {
                lemma_lex_irreflexive(key@);
            }
            false
        }
    }

    /// Puts the given key at the given index, in place of what the key had.
    pub fn insert(&mut self, key: Vec<u8>, index: usize)
        requires
            keys_sorted(old(self)@),
        ensures
            keys_sorted(final(self)@),
            final(self)@ == with_leaf(old(self)@, key@, index),
    {
        let ghost before = self@;
        let ghost added = key@;
        let position = self.position(key.as_slice());
        if position < self.leaves.len() && bytes_equal(
            self.leaves[position].0.as_slice(),
            key.as_slice(),
        ) {
            self.leaves.set(position, (key, index));
            assert(self@ =~= before.update(position as int, (added, index)));
        } else {
            self.leaves.insert(position, (key, index));
            assert(self@ =~= before.insert(position as int, (added, index)));
        }
        proof {
            lemma_with_leaf_sorted(before, added, index);
        }
    }

    /// Adds a leaf with the given key behind the others, unless there is one.
    pub fn add_leaf(&mut self, key: Vec<u8>)
        requires
            keys_sorted(old(self)@),
        ensures
            keys_sorted(final(self)@),
            final(self)@ == with_new_leaf(old(self)@, key@),
            indexed(old(self)@) ==> indexed(final(self)@),
    {
        if !self.contains_key(key.as_slice()) {
            let index: usize = self.leaves.len();
            proof {
                let position = leaf_lower_bound(self@, key@) as int;
                if position < self@.len() {
                    assert(self@[position].0 != key@);
                }
                lemma_leaf_lower_bound_range(self@, key@);
                if indexed(self@) {
                    lemma_insert_indexed(self@, position, key@);
                }
            }
            self.insert(key, index);
        }
    }

    /// The leaves as a list of keys and indexes.
    fn to_pairs(&self) -> (pairs: Vec<(Vec<u8>, u64)>)
        ensures
            pairs_view(pairs@) == listed(self@),
    {
        let mut pairs: Vec<(Vec<u8>, u64)> = Vec::new();
        let mut i: usize = 0;
        while i < self.leaves.len()
            invariant
                i <= self.leaves@.len(),
                pairs@.len() == i,
                forall|j: int| 0 <= j < i ==> #[trigger] pairs_view(pairs@)[j] == listed(self@)[j],
            decreases self.leaves@.len() - i,
        {
            let ghost before = pairs@;
            pairs.push((copy_bytes(self.leaves[i].0.as_slice()), self.leaves[i].1 as u64));
            assert forall|j: int| 0 <= j < i + 1 implies #[trigger] pairs_view(pairs@)[j] == listed(
                self@,
            )[j] by {
                if j < i {
                    assert(pairs_view(before)[j] == listed(self@)[j]);
                }
            }
            i = i + 1;
        }
        assert(pairs_view(pairs@) =~= listed(self@));
        pairs
    }

    /// The leaves that a list of keys and indexes makes, unless an index is too
    /// large.
    fn from_pairs(pairs: Vec<(Vec<u8>, u64)>) -> (leaves: Option<RootLeaves>)
        ensures
            match leaves {
                Some(leaves) => {
                    &&& indexes_fit(pairs_view(pairs@))
                    &&& leaves@ == collected(pairs_view(pairs@))
                    &&& keys_sorted(leaves@)
                },
                None => !indexes_fit(pairs_view(pairs@)),
            },
    {
        let ghost all = pairs_view(pairs@);
        let mut leaves = RootLeaves::new();
        let mut i: usize = 0;
        assert(all.take(0) =~= seq![]);
        while i < pairs.len()
            invariant
                i <= pairs@.len(),
                all == pairs_view(pairs@),
                leaves@ == collected(all.take(i as int)),
                keys_sorted(leaves@),
                forall|j: int| 0 <= j < i ==> (#[trigger] all[j]).1 <= usize::MAX,
            decreases pairs@.len() - i,
        {
            let index: u64 = pairs[i].1;
            assert(all[i as int].1 == index);
            if index > usize::MAX as u64 {
                return None;
            }
            leaves.insert(copy_bytes(pairs[i].0.as_slice()), index as usize);
            assert(all.take(i as int + 1).drop_last() =~= all.take(i as int));
            i = i + 1;
        }
        assert(all.take(i as int) =~= all);
        Some(leaves)
    }

    /// The bytes that the leaves are stored as.
    pub fn serialize(&self) -> (result: Result<Vec<u8>, Error>)
        ensures
            result matches Ok(bytes) && bytes@ == list_encoding(listed(self@)),
    {
        let pairs = self.to_pairs();
        match bincode_serialize(&pairs) {
            Ok(bytes) => Ok(bytes),
            Err(_) => Err(
                Error::CorruptedData(String::from_str("unable to serialize root leaves data")),
            ),
        }
    }

    /// The leaves that are stored as the given bytes, which may be followed by
    /// others.
    pub fn deserialize(bytes: &[u8]) -> (result: Result<RootLeaves, Error>)
        ensures
            match result {
                Ok(leaves) => {
                    &&& stored_leaves(bytes@, leaves@)
                    &&& keys_sorted(leaves@)
                },
                Err(e) => {
                    &&& e matches Error::CorruptedData(message)
                    &&& message@ == "unable to deserialize root leaves"@
                    &&& forall|leaves: Seq<(Seq<u8>, usize)>| !stored_leaves(bytes@, leaves)
                },
            },
    {
        let pairs = match bincode_deserialize(bytes) {
            Ok(pairs) => pairs,
            Err(_) => {
                return Err(
                    Error::CorruptedData(String::from_str("unable to deserialize root leaves")),
                );
            },
        };
        let ghost all = pairs_view(pairs@);
        proof {
            lemma_pairs_sized(pairs);
        }
        match RootLeaves::from_pairs(pairs) {
            Some(leaves) => {
                assert(encodes(all, bytes@));
                Ok(leaves)
            },
            None => {
                proof {
                    assert forall|leaves: Seq<(Seq<u8>, usize)>| !stored_leaves(
                        bytes@,
                        leaves,
                    ) by {
                        if stored_leaves(bytes@, leaves) {
                            let entries = choose|entries: Seq<(Seq<u8>, u64)>| #[trigger]
                                encodes(entries, bytes@) && indexes_fit(entries) && leaves
                                    == collected(entries);
                            lemma_list_encoding_injective(all, entries, bytes@);
                        }
                    }
                }
                Err(Error::CorruptedData(String::from_str("unable to deserialize root leaves")))
            },
        }
    }
}

/// Leaves with one more that has the given key and the next index, unless there
/// is one with that key.
pub open spec fn with_new_leaf(leaves: Seq<(Seq<u8>, usize)>, key: Seq<u8>) -> Seq<
    (Seq<u8>, usize),
> {
    if has_leaf(leaves, key) {
        leaves
    } else {
        with_leaf(leaves, key, leaves.len() as usize)
    }
}

/// Whether all indexes in a list can be indexes.
pub open spec fn indexes_fit(entries: Seq<(Seq<u8>, u64)>) -> bool {
    forall|i: int| 0 <= i < entries.len() ==> (#[trigger] entries[i]).1 <= usize::MAX
}

/// Whether bytes start with the encoding of a list.
pub open spec fn encodes(entries: Seq<(Seq<u8>, u64)>, bytes: Seq<u8>) -> bool {
    sized(entries) && list_encoding(entries).is_prefix_of(bytes)
}

/// Whether bytes start with the encoding of a list that makes the given leaves.
pub open spec fn stored_leaves(bytes: Seq<u8>, leaves: Seq<(Seq<u8>, usize)>) -> bool {
    exists|entries: Seq<(Seq<u8>, u64)>| #[trigger]
        encodes(entries, bytes) && indexes_fit(entries) && leaves == collected(entries)
}

/// The lengths in a list in memory fit eight bytes.
proof fn lemma_pairs_sized(pairs: Vec<(Vec<u8>, u64)>)
    ensures
        sized(pairs_view(pairs@)),
{
    assert(pairs.len() <= usize::MAX);
    assert forall|i: int| 0 <= i < pairs@.len() implies (#[trigger] pairs_view(pairs@)[i]).0.len()
        <= u64::MAX by {
        assert(pairs@[i].0.len() <= usize::MAX);
    }
}

/// A leaf with the next index keeps the indexes apart and in range.
pub proof fn lemma_insert_indexed(leaves: Seq<(Seq<u8>, usize)>, position: int, key: Seq<u8>)
    requires
        indexed(leaves),
        0 <= position <= leaves.len() <= usize::MAX,
    ensures
        indexed(leaves.insert(position, (key, leaves.len() as usize))),
{
    let now = leaves.insert(position, (key, leaves.len() as usize));
    assert forall|i: int| 0 <= i < now.len() implies (#[trigger] now[i]).1 < now.len() by {
        if i != position {
            let a = if i < position {
                i
            } else {
                i - 1
            };
            assert(leaves[a].1 < leaves.len());
        }
    }
    assert forall|i: int, j: int| 0 <= i < j < now.len() implies (#[trigger] now[i]).1
        != (#[trigger] now[j]).1 by {
        let a = if i < position {
            i
        } else {
            i - 1
        };
        let b = if j < position {
            j
        } else {
            j - 1
        };
        if i != position && j != position {
            assert(leaves[a].1 != leaves[b].1);
        } else if i == position {
            assert(leaves[b].1 < leaves.len());
        } else {
            assert(leaves[a].1 < leaves.len());
        }
    }
}

/// Leaves that are listed in the order of their keys are collected as they were.
proof fn lemma_collected_listed(leaves: Seq<(Seq<u8>, usize)>)
    requires
        keys_sorted(leaves),
    ensures
        collected(listed(leaves)) == leaves,
        indexes_fit(listed(leaves)),
    decreases leaves.len(),
{
    let entries = listed(leaves);
    if leaves.len() > 0 {
        let short = leaves.drop_last();
        let last = leaves.last();
        assert(entries.drop_last() =~= listed(short));
        assert forall|i: int, j: int| 0 <= i < j < short.len() implies lex_less(
            (#[trigger] short[i]).0,
            (#[trigger] short[j]).0,
        ) by {
            assert(lex_less(leaves[i].0, leaves[j].0));
        }
        lemma_collected_listed(short);
        assert forall|j: int| 0 <= j < short.len() implies lex_less((#[trigger] short[j]).0, last.0) by {
            assert(lex_less(leaves[j].0, leaves[leaves.len() - 1].0));
        }
        lemma_leaf_lower_bound(short, last.0, short.len());
        assert(short.insert(short.len() as int, last) =~= leaves);
    } else {
        assert(leaves =~= seq![]);
    }
}

/// Reading stored root leaves gives back the leaves that were stored, and
/// nothing else.
pub proof fn law_root_leaves_roundtrip(
    leaves: Seq<(Seq<u8>, usize)>,
    read: Seq<(Seq<u8>, usize)>,
)
    requires
        keys_sorted(leaves),
        sized(listed(leaves)),
    ensures
        stored_leaves(list_encoding(listed(leaves)), read) <==> read == leaves,
{
    let entries = listed(leaves);
    let bytes = list_encoding(entries);
    lemma_collected_listed(leaves);
    assert(bytes.take(bytes.len() as int) =~= bytes);
    assert(encodes(entries, bytes));
    if stored_leaves(bytes, read) {
        let found = choose|found: Seq<(Seq<u8>, u64)>| #[trigger]
            encodes(found, bytes) && indexes_fit(found) && read == collected(found);
        lemma_list_encoding_injective(entries, found, bytes);
    }
}

impl GroveDb {
    /// The root leaves, from what storage holds under the key of the root
    /// leaves: none where it holds nothing. Reading it was one seek, and what
    /// was read is charged as loaded (of its length the counter keeps the low
    /// 32 bits).
    pub fn get_root_leaf_keys_internal(meta: Result<Option<Vec<u8>>, Error>) -> (result: CostContext<
        Result<RootLeaves, Error>,
    >)
        ensures
            match meta {
                Err(e) => result.value == Err::<RootLeaves, Error>(e),
                Ok(None) => result.value matches Ok(leaves) && leaves@ == Seq::<
                    (Seq<u8>, usize),
                >::empty(),
                Ok(Some(bytes)) => match result.value {
                    Ok(leaves) => stored_leaves(bytes@, leaves@),
                    Err(e) => {
                        &&& e matches Error::CorruptedData(message)
                        &&& message@ == "unable to deserialize root leaves"@
                        &&& forall|leaves: Seq<(Seq<u8>, usize)>| !stored_leaves(bytes@, leaves)
                    },
                },
            },
            result.value matches Ok(leaves) ==> keys_sorted(leaves@),
            result.cost == (OperationCost {
                seek_count: 1,
                loaded_bytes: match meta {
                    Ok(Some(bytes)) => bytes@.len() as u32,
                    _ => 0,
                },
                ..OperationCost::zero()
            }),
    {
        let mut cost = OperationCost::default();
        cost.seek_count = 1;
        match meta {
            Err(e) => Err(e).wrap_with_cost(cost),
            Ok(None) => Ok(RootLeaves::new()).wrap_with_cost(cost),
            Ok(Some(bytes)) => {
                cost.loaded_bytes = #[verifier::truncate] (bytes.len() as u32);
                RootLeaves::deserialize(bytes.as_slice()).wrap_with_cost(cost)
            },
        }
    }
}

/// Putting a key at an index leaves exactly this leaf for the key, and all leaves with
/// other keys as they were.
pub proof fn law_inserted_leaves(
    leaves: Seq<(Seq<u8>, usize)>,
    key: Seq<u8>,
    index: usize,
    leaf: (Seq<u8>, usize),
)
    requires
        keys_sorted(leaves),
    ensures
        keys_sorted(with_leaf(leaves, key, index)),
        with_leaf(leaves, key, index).contains(leaf) <==> if leaf.0 == key {
            leaf.1 == index
        } else {
            leaves.contains(leaf)
        },
{
    let position = leaf_lower_bound(leaves, key) as int;
    let now = with_leaf(leaves, key, index);
    lemma_leaf_lower_bound_splits(leaves, key);
    lemma_with_leaf_sorted(leaves, key, index);
    assert(now[position] == (key, index));
    lemma_lex_irreflexive(key);
    if leaves.contains(leaf) && leaf.0 != key {
        let i = choose|i: int| 0 <= i < leaves.len() && leaves[i] == leaf;
        if now.len() == leaves.len() {
            assert(now[i] == leaf);
        } else if i < position {
            assert(now[i] == leaf);
        } else {
            assert(now[i + 1] == leaf);
        }
    }
    if now.contains(leaf) {
        let i = choose|i: int| 0 <= i < now.len() && now[i] == leaf;
        if i != position {
            if leaf.0 == key {
                if i < position {
                    assert(lex_less(now[i].0, now[position].0));
                } else {
                    assert(lex_less(now[position].0, now[i].0));
                }
            }
            if now.len() == leaves.len() {
                assert(leaves[i] == leaf);
            } else if i < position {
                assert(leaves[i] == leaf);
            } else {
                assert(leaves[i - 1] == leaf);
            }
        }
    }
}

/// A new leaf gets the number of leaves for its index, and only where there is none with
/// its key. The other leaves stay as they were.
pub proof fn law_added_leaves(
    leaves: Seq<(Seq<u8>, usize)>,
    key: Seq<u8>,
    leaf: (Seq<u8>, usize),
)
    requires
        keys_sorted(leaves),
        leaves.len() < usize::MAX,
    ensures
        with_new_leaf(leaves, key).contains(leaf) <==> leaves.contains(leaf) || (leaf == (
            key,
            leaves.len() as usize,
        ) && forall|i: int| 0 <= i < leaves.len() ==> (#[trigger] leaves[i]).0 != key),
{
    law_inserted_leaves(leaves, key, leaves.len() as usize, leaf);
    if leaves.contains(leaf) && leaf.0 == key {
        let i = choose|i: int| 0 <= i < leaves.len() && leaves[i] == leaf;
        assert(leaves[i].0 == key);
        assert(has_leaf(leaves, key));
    }
}

/// What is read of stored entries: one leaf for each key that occurs among them, with
/// the index that the last entry with this key has.
pub proof fn law_last_stored_entries_count(
    entries: Seq<(Seq<u8>, u64)>,
    leaf: (Seq<u8>, usize),
)
    requires
        indexes_fit(entries),
    ensures
        keys_sorted(collected(entries)),
        collected(entries).contains(leaf) <==> exists|i: int|
            #[trigger] last_entry(entries, i, leaf.0) && entries[i].1 == leaf.1,
    decreases entries.len(),
{
    if entries.len() > 0 {
        let short = entries.drop_last();
        let last = entries.last();
        let n = entries.len() - 1;
        assert forall|i: int| 0 <= i < short.len() implies (#[trigger] short[i]).1 <= usize::MAX by {
            assert(entries[i].1 <= usize::MAX);
        }
        law_last_stored_entries_count(short, leaf);
        assert(entries[n].1 <= usize::MAX);
        law_inserted_leaves(collected(short), last.0, last.1 as usize, leaf);
        if leaf.0 == last.0 {
            assert(last_entry(entries, n, leaf.0));
            if exists|i: int| #[trigger] last_entry(entries, i, leaf.0) && entries[i].1 == leaf.1 {
                let i = choose|i: int|
                    #[trigger] last_entry(entries, i, leaf.0) && entries[i].1 == leaf.1;
                assert(entries[n].0 == leaf.0);
                assert(i == n);
            }
        } else {
            if exists|i: int| #[trigger] last_entry(short, i, leaf.0) && short[i].1 == leaf.1 {
                let i = choose|i: int|
                    #[trigger] last_entry(short, i, leaf.0) && short[i].1 == leaf.1;
                assert forall|j: int| i < j < entries.len() implies (#[trigger] entries[j]).0
                    != leaf.0 by {
                    if j < n {
                        assert(short[j].0 != leaf.0);
                    }
                }
                assert(last_entry(entries, i, leaf.0));
            }
            if exists|i: int| #[trigger] last_entry(entries, i, leaf.0) && entries[i].1 == leaf.1 {
                let i = choose|i: int|
                    #[trigger] last_entry(entries, i, leaf.0) && entries[i].1 == leaf.1;
                assert(i < n);
                assert forall|j: int| i < j < short.len() implies (#[trigger] short[j]).0
                    != leaf.0 by {
                    assert(entries[j].0 != leaf.0);
                }
                assert(last_entry(short, i, leaf.0));
            }
        }
    }
}

/// Whether the entry at a position is the last one with a key.
pub open spec fn last_entry(entries: Seq<(Seq<u8>, u64)>, i: int, key: Seq<u8>) -> bool {
    &&& 0 <= i < entries.len()
    &&& entries[i].0 == key
    &&& forall|j: int| i < j < entries.len() ==> (#[trigger] entries[j]).0 != key
}

/// Whatever list of keys and indexes is stored, and whatever follows it, reading it gives
/// the leaves that it makes, and nothing else.
pub proof fn law_stored_entries_are_read(
    entries: Seq<(Seq<u8>, u64)>,
    more: Seq<u8>,
    read: Seq<(Seq<u8>, usize)>,
)
    requires
        entries.len() <= u64::MAX,
        forall|i: int| 0 <= i < entries.len() ==> (#[trigger] entries[i]).0.len() <= u64::MAX,
        forall|i: int| 0 <= i < entries.len() ==> (#[trigger] entries[i]).1 <= usize::MAX,
    ensures
        stored_leaves(list_encoding(entries) + more, read) <==> read == collected(entries),
{
    let bytes = list_encoding(entries) + more;
    assert(bytes.take(list_encoding(entries).len() as int) =~= list_encoding(entries));
    assert(encodes(entries, bytes));
    if stored_leaves(bytes, read) {
        let found = choose|found: Seq<(Seq<u8>, u64)>| #[trigger]
            encodes(found, bytes) && indexes_fit(found) && read == collected(found);
        lemma_list_encoding_injective(entries, found, bytes);
    }
}

/// Leaves are listed one for one in their order, so what is saved of them is sorted by
/// key.
pub proof fn law_leaves_are_listed_in_order(leaves: Seq<(Seq<u8>, usize)>)
    ensures
        listed(leaves).len() == leaves.len(),
        forall|i: int|
            0 <= i < leaves.len() ==> (#[trigger] listed(leaves)[i]).0 == leaves[i].0 && listed(
                leaves,
            )[i].1 == leaves[i].1,
{
}

} // verus!
