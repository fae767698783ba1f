//! Hashes of tree nodes.
use crate::bytes::bytes_equal;
use vstd::prelude::*;

verus! {

/// Length of a node hash in bytes.
pub const HASH_LENGTH: usize = 32;

/// A node hash.
pub type NodeHash = [u8; 32];

/// The BLAKE3 digest of a byte string.
pub uninterp spec fn blake3_digest(bytes: Seq<u8>) -> Seq<u8>;

/// The hash that stands for an absent child.
pub open spec fn null_hash_view() -> Seq<u8> {
    Seq::new(32, |i: int| 0u8)
}

/// What is hashed for a key and a value: the low byte of the key's length, the
/// key, the two low bytes of the value's length (high byte first), the value.
pub open spec fn kv_preimage(key: Seq<u8>, value: Seq<u8>) -> Seq<u8> {
    seq![(key.len() % 256) as u8] + key + seq![
        ((value.len() / 256) % 256) as u8,
        (value.len() % 256) as u8,
    ] + value
}

/// The hash of a key and a value.
pub open spec fn kv_hash_view(key: Seq<u8>, value: Seq<u8>) -> Seq<u8> {
    blake3_digest(kv_preimage(key, value))
}

/// The hash of a node, from the hash of its key and value and the hashes of its
/// two children.
pub open spec fn node_hash_view(kv: Seq<u8>, left: Seq<u8>, right: Seq<u8>) -> Seq<u8> {
    blake3_digest(kv + left + right)
}

/// Calls `blake3::hash`, which returns the 32-byte BLAKE3 digest of its input.
/// The contract claims only that the digest is a function of the input's bytes.
#[verifier::external_body]
fn blake3_hash(bytes: &[u8]) -> (digest: NodeHash)
    ensures
        digest@ == blake3_digest(bytes@),
{
    blake3::hash(bytes).into()
}

/// The hash that stands for an absent child: all zeros.
pub fn null_hash() -> (hash: NodeHash)
    ensures
        hash@ == null_hash_view(),
{
    let hash = [0u8; 32];
    assert(hash@ =~= null_hash_view());
    hash
}

/// Hashes a key and a value.
pub fn kv_hash(key: &[u8], value: &[u8]) -> (hash: NodeHash)
    ensures
        hash@ == kv_hash_view(key@, value@),
{
    let mut preimage: Vec<u8> = Vec::new();
    preimage.push((key.len() % 256) as u8);
    preimage.extend_from_slice(key);
    preimage.push(((value.len() / 256) % 256) as u8);
    preimage.push((value.len() % 256) as u8);
    preimage.extend_from_slice(value);
    assert(preimage@ =~= kv_preimage(key@, value@));
    blake3_hash(preimage.as_slice())
}

/// Hashes a node from the hash of its key and value and the hashes of its two
/// children.
pub fn node_hash(kv: &NodeHash, left: &NodeHash, right: &NodeHash) -> (hash: NodeHash)
    ensures
        hash@ == node_hash_view(kv@, left@, right@),
{
    let mut preimage: Vec<u8> = Vec::new();
    preimage.extend_from_slice(kv.as_slice());
    preimage.extend_from_slice(left.as_slice());
    preimage.extend_from_slice(right.as_slice());
    assert(preimage@ =~= kv@ + left@ + right@);
    blake3_hash(preimage.as_slice())
}

/// Whether two hashes are equal.
pub fn hashes_equal(a: &NodeHash, b: &NodeHash) -> (equal: bool)
    ensures
        equal == (a@ == b@),
{
    bytes_equal(a.as_slice(), b.as_slice())
}

/// What is hashed for a key and a value shows both of them: its first byte and the two
/// bytes behind the key are their lengths (as far as there is room), and between
/// and behind these stand the key and the value.
pub proof fn law_keys_and_values_are_hashed(key: Seq<u8>, value: Seq<u8>, bytes: Seq<u8>)
    requires
        bytes.len() == 3 + key.len() + value.len(),
        bytes[0] == key.len() % 256,
        bytes.subrange(1, 1 + key.len() as int) == key,
        bytes[1 + key.len() as int] == (value.len() / 256) % 256,
        bytes[2 + key.len() as int] == value.len() % 256,
        bytes.skip(3 + key.len() as int) == value,
    ensures
        kv_hash_view(key, value) == blake3_digest(bytes),
{
    let n = key.len() as int;
    assert forall|i: int| 0 <= i < bytes.len() implies bytes[i] == kv_preimage(key, value)[i] by {
        if 1 <= i < 1 + n {
            assert(bytes.subrange(1, 1 + n)[i - 1] == key[i - 1]);
        } else if i >= 3 + n {
            assert(bytes.skip(3 + n)[i - 3 - n] == value[i - 3 - n]);
        }
    }
    assert(kv_preimage(key, value) =~= bytes);
}

/// A node is hashed from 96 bytes: the hash of its key and value, the hash of its left
/// child and that of its right child, where zeros stand for a child that is not
/// there.
pub proof fn law_nodes_are_hashed(
    kv: Seq<u8>,
    left: Seq<u8>,
    right: Seq<u8>,
    bytes: Seq<u8>,
)
    requires
        kv.len() == 32,
        left.len() == 32,
        right.len() == 32,
        bytes.len() == 96,
        bytes.subrange(0, 32) == kv,
        bytes.subrange(32, 64) == left,
        bytes.subrange(64, 96) == right,
    ensures
        node_hash_view(kv, left, right) == blake3_digest(bytes),
        null_hash_view().len() == 32,
        forall|i: int| 0 <= i < 32 ==> #[trigger] null_hash_view()[i] == 0,
{
    assert(bytes =~= kv + left + right) by {
        assert(bytes =~= bytes.subrange(0, 32) + bytes.subrange(32, 64) + bytes.subrange(64, 96));
    }
}

} // verus!
