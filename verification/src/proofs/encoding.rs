//! The byte encoding of proof operators.
use crate::hash::{NodeHash, HASH_LENGTH};
use crate::proofs::tree::{items_view, oks};
use crate::proofs::{ops_view, Node, NodeView, Op, OpView, ProofError};
use vstd::prelude::*;

verus! {

/// The longest key that the encoding has room for.
pub const MAX_KEY_LENGTH: usize = 255;

/// The longest value that the encoding has room for.
pub const MAX_VALUE_LENGTH: usize = 65535;

/// Whether an operator can be encoded: its key and value must not be too long.
pub open spec fn encodable(op: OpView) -> bool {
    op matches OpView::Push(NodeView::KV(key, value)) ==> key.len() <= MAX_KEY_LENGTH && value.len()
        <= MAX_VALUE_LENGTH
}

/// The encoding of an operator: a tag, then what the node holds, with the key's
/// length in one byte and the value's length in two, high byte first.
pub open spec fn encode_op(op: OpView) -> Seq<u8> {
    match op {
        OpView::Push(NodeView::Hash(hash)) => seq![0x01u8] + hash,
        OpView::Push(NodeView::KVHash(hash)) => seq![0x02u8] + hash,
        OpView::Push(NodeView::KV(key, value)) => seq![0x03u8, key.len() as u8] + key + seq![
            (value.len() / 256) as u8,
            (value.len() % 256) as u8,
        ] + value,
        OpView::Parent => seq![0x10u8],
        OpView::Child => seq![0x11u8],
    }
}

/// The encoding of a list of operators, one after the other.
pub open spec fn encoded(ops: Seq<OpView>) -> Seq<u8>
    decreases ops.len(),
{
    if ops.len() == 0 {
        seq![]
    } else {
        encoded(ops.drop_last()) + encode_op(ops.last())
    }
}

/// The operator that a byte string starts with, and the length of its encoding.
pub open spec fn decode_op(bytes: Seq<u8>) -> Option<(OpView, nat)> {
    if bytes.len() == 0 {
        None
    } else if bytes[0] == 0x01 && bytes.len() >= 33 {
        Some((OpView::Push(NodeView::Hash(bytes.subrange(1, 33))), 33))
    } else if bytes[0] == 0x02 && bytes.len() >= 33 {
        Some((OpView::Push(NodeView::KVHash(bytes.subrange(1, 33))), 33))
    } else if bytes[0] == 0x03 && bytes.len() >= 2 {
        let value_at = bytes[1] as int + 4;
        if bytes.len() < value_at {
            None
        } else {
            let end = value_at + bytes[value_at - 2] * 256 + bytes[value_at - 1];
            if bytes.len() < end {
                None
            } else {
                let key = bytes.subrange(2, value_at - 2);
                let value = bytes.subrange(value_at, end);
                Some((OpView::Push(NodeView::KV(key, value)), end as nat))
            }
        }
    } else if bytes[0] == 0x10 {
        Some((OpView::Parent, 1))
    } else if bytes[0] == 0x11 {
        Some((OpView::Child, 1))
    } else {
        None
    }
}

/// The operators that a byte string encodes. Where what is left is no encoding
/// of an operator, an error takes its place.
pub open spec fn decoded(bytes: Seq<u8>) -> Seq<Result<OpView, ProofError>>
    decreases bytes.len(),
{
    if bytes.len() == 0 {
        seq![]
    } else {
        match decode_op(bytes) {
            None => seq![Err(ProofError::CannotDecode)],
            Some((op, length)) => seq![Ok(op)] + decoded(bytes.skip(length as int)),
        }
    }
}

/// What encoding a list of operators returns: their encodings, unless one of
/// them cannot be encoded.
pub open spec fn encoding(ops: Seq<OpView>) -> Result<Seq<u8>, ProofError> {
    if forall|i: int| 0 <= i < ops.len() ==> encodable(#[trigger] ops[i]) {
        Ok(encoded(ops))
    } else {
        Err(ProofError::CannotEncode)
    }
}

/// The bytes of an encoding, or the error.
pub open spec fn encoding_view(result: Result<Vec<u8>, ProofError>) -> Result<Seq<u8>, ProofError> {
    match result {
        Ok(bytes) => Ok(bytes@),
        Err(e) => Err(e),
    }
}

/// Encodes a list of operators. Fails if a key or a value is too long.
pub fn encode_ops(ops: &[Op]) -> (result: Result<Vec<u8>, ProofError>)
    ensures
        encoding_view(result) == encoding(ops_view(ops@)),
{
    let mut bytes: Vec<u8> = Vec::new();
    let mut i: usize = 0;
    assert(bytes@ =~= encoded(ops_view(ops@.take(0))));
    while i < ops.len()
        invariant
            i <= ops@.len(),
            forall|j: int| 0 <= j < i ==> encodable(#[trigger] ops@[j]@),
            bytes@ == encoded(ops_view(ops@.take(i as int))),
        decreases ops@.len() - i,
    {
        let ghost before = bytes@;
        match &ops[i] {
            Op::Push(Node::Hash(hash)) => {
                bytes.push(0x01);
                bytes.extend_from_slice(hash.as_slice());
            },
            Op::Push(Node::KVHash(hash)) => {
                bytes.push(0x02);
                bytes.extend_from_slice(hash.as_slice());
            },
            Op::Push(Node::KV(key, value)) => {
                if key.len() > MAX_KEY_LENGTH || value.len() > MAX_VALUE_LENGTH {
                    assert(!encodable(ops_view(ops@)[i as int]));
                    return Err(ProofError::CannotEncode);
                }
                bytes.push(0x03);
                bytes.push(key.len() as u8);
                bytes.extend_from_slice(key.as_slice());
                bytes.push((value.len() / 256) as u8);
                bytes.push((value.len() % 256) as u8);
                bytes.extend_from_slice(value.as_slice());
            },
            Op::Parent => {
                bytes.push(0x10);
            },
            Op::Child => {
                bytes.push(0x11);
            },
        }
        proof {
            let op = ops@[i as int]@;
            let all = ops_view(ops@.take(i as int + 1));
            assert(all.drop_last() =~= ops_view(ops@.take(i as int)));
            assert(bytes@ =~= before + encode_op(op));
        }
        i = i + 1;
    }
    assert(ops@.take(ops@.len() as int) =~= ops@);
    Ok(bytes)
}

/// Copies the 32 bytes at the given position.
fn hash_at(bytes: &[u8], position: usize) -> (hash: NodeHash)
    requires
        position + 32 <= bytes@.len(),
    ensures
        hash@ == bytes@.subrange(position as int, position + 32),
{
    let mut hash: NodeHash = [0u8; 32];
    let mut i: usize = 0;
    let length: usize = bytes.len();
    while i < HASH_LENGTH
        invariant
            i <= 32,
            position + 32 <= length == bytes@.len(),
            forall|j: int| 0 <= j < i ==> hash@[j] == bytes@[position + j],
        decreases 32 - i,
    {
        hash[i] = bytes[position + i];
        i = i + 1;
    }
    assert(hash@ =~= bytes@.subrange(position as int, position + 32));
    hash
}

/// Copies the bytes between two positions.
fn bytes_between(bytes: &[u8], from: usize, to: usize) -> (copy: Vec<u8>)
    requires
        from <= to <= bytes@.len(),
    ensures
        copy@ == bytes@.subrange(from as int, to as int),
{
    let mut copy: Vec<u8> = Vec::new();
    let mut i: usize = from;
    while i < to
        invariant
            from <= i <= to <= bytes@.len(),
            copy@ == bytes@.subrange(from as int, i as int),
        decreases to - i,
    {
        copy.push(bytes[i]);
        i = i + 1;
        assert(copy@ =~= bytes@.subrange(from as int, i as int));
    }
    copy
}

/// Decodes the operator at the given position, and returns it with the position
/// behind it.
fn decode_at(bytes: &[u8], position: usize) -> (result: Option<(Op, usize)>)
    requires
        position <= bytes@.len(),
    ensures
        match decode_op(bytes@.skip(position as int)) {
            None => result is None,
            Some((op, length)) => result matches Some((o, end)) && o@ == op && end == position
                + length && position < end <= bytes@.len(),
        },
{
    let ghost rest = bytes@.skip(position as int);
    if position >= bytes.len() {
        return None;
    }
    let left: usize = bytes.len() - position;
    let tag: u8 = bytes[position];
    assert(tag == rest[0]);
    if tag == 0x01 && left >= 33 {
        assert(rest.subrange(1, 33) =~= bytes@.subrange(position + 1, position + 33));
        Some((Op::Push(Node::Hash(hash_at(bytes, position + 1))), position + 33))
    } else if tag == 0x02 && left >= 33 {
        assert(rest.subrange(1, 33) =~= bytes@.subrange(position + 1, position + 33));
        Some((Op::Push(Node::KVHash(hash_at(bytes, position + 1))), position + 33))
    } else if tag == 0x03 && left >= 2 {
        let key_length: usize = bytes[position + 1] as usize;
        if left < key_length + 4 {
            return None;
        }
        let value_at: usize = position + key_length + 4;
        let value_length: usize = bytes[value_at - 2] as usize * 256 + bytes[value_at - 1] as usize;
        if bytes.len() - value_at < value_length {
            return None;
        }
        let end: usize = value_at + value_length;
        assert(rest.subrange(2, key_length + 2) =~= bytes@.subrange(position + 2, value_at - 2));
        assert(rest.subrange(key_length + 4, end - position) =~= bytes@.subrange(
            value_at as int,
            end as int,
        ));
        let key = bytes_between(bytes, position + 2, value_at - 2);
        let value = bytes_between(bytes, value_at, end);
        Some((Op::Push(Node::KV(key, value)), end))
    } else if tag == 0x10 {
        Some((Op::Parent, position + 1))
    } else if tag == 0x11 {
        Some((Op::Child, position + 1))
    } else {
        None
    }
}

/// Decodes a list of operators. Where what is left is no encoding of an
/// operator, an error takes its place.
pub fn decode_ops(bytes: &[u8]) -> (ops: Vec<Result<Op, ProofError>>)
    ensures
        items_view(ops@) == decoded(bytes@),
{
    let mut ops: Vec<Result<Op, ProofError>> = Vec::new();
    let mut position: usize = 0;
    assert(bytes@.skip(0) =~= bytes@);
    assert(items_view(ops@) + decoded(bytes@) =~= decoded(bytes@));
    while position < bytes.len()
        invariant
            position <= bytes@.len(),
            items_view(ops@) + decoded(bytes@.skip(position as int)) == decoded(bytes@),
        decreases bytes@.len() - position,
    {
        let ghost before = items_view(ops@);
        let ghost rest = bytes@.skip(position as int);
        match decode_at(bytes, position) {
            None => {
                ops.push(Err(ProofError::CannotDecode));
                assert(items_view(ops@) =~= before + seq![Err(ProofError::CannotDecode)]);
                return ops;
            },
            Some((op, end)) => {
                proof {
                    assert(rest.skip(end - position) =~= bytes@.skip(end as int));
                    assert(before.push(Ok(op@)) + decoded(bytes@.skip(end as int)) =~= before + (
                    seq![Ok(op@)] + decoded(bytes@.skip(end as int))));
                }
                let ghost item = op@;
                ops.push(Ok(op));
                assert(items_view(ops@) =~= before.push(Ok(item)));
                position = end;
            },
        }
    }
    assert(items_view(ops@) + decoded(seq![]) =~= items_view(ops@));
    assert(bytes@.skip(position as int) =~= seq![]);
    ops
}

/// Whether the hash in an operator, if there is one, has the length of a hash.
pub open spec fn sized(op: OpView) -> bool {
    match op {
        OpView::Push(NodeView::Hash(hash)) => hash.len() == 32,
        OpView::Push(NodeView::KVHash(hash)) => hash.len() == 32,
        _ => true,
    }
}

/// Decoding an operator gives back what was encoded, whatever follows it.
proof fn lemma_decode_encoded(op: OpView, rest: Seq<u8>)
    requires
        encodable(op),
        sized(op),
    ensures
        decode_op(encode_op(op) + rest) == Some((op, encode_op(op).len())),
{
    let bytes = encode_op(op) + rest;
    match op {
        OpView::Push(NodeView::Hash(hash)) => {
            assert(bytes.subrange(1, 33) =~= hash);
        },
        OpView::Push(NodeView::KVHash(hash)) => {
            assert(bytes.subrange(1, 33) =~= hash);
        },
        OpView::Push(NodeView::KV(key, value)) => {
            let value_at = key.len() as int + 4;
            assert(bytes[1] == key.len());
            assert(bytes[value_at - 2] == value.len() / 256);
            assert(bytes[value_at - 1] == value.len() % 256);
            assert(bytes.subrange(2, value_at - 2) =~= key);
            assert(bytes.subrange(value_at, value_at + value.len()) =~= value);
        },
        OpView::Parent => {},
        OpView::Child => {},
    }
}

/// The first operator is encoded first.
proof fn lemma_encoded_first(ops: Seq<OpView>)
    requires
        ops.len() > 0,
    ensures
        encoded(ops) == encode_op(ops[0]) + encoded(ops.drop_first()),
    decreases ops.len(),
{
    if ops.len() == 1 {
        assert(ops.drop_last() =~= seq![]);
        assert(ops.drop_first() =~= seq![]);
        assert(encoded(ops) =~= encode_op(ops[0]) + encoded(ops.drop_first()));
    } else {
        lemma_encoded_first(ops.drop_last());
        assert(ops.drop_last().drop_first() =~= ops.drop_first().drop_last());
        assert(encoded(ops) =~= encode_op(ops[0]) + encoded(ops.drop_first()));
    }
}

/// Decoding gives back the operators that were encoded.
proof fn lemma_decoded_encoded(ops: Seq<OpView>)
    requires
        forall|i: int| 0 <= i < ops.len() ==> encodable(#[trigger] ops[i]) && sized(ops[i]),
    ensures
        decoded(encoded(ops)) == oks(ops),
    decreases ops.len(),
{
    if ops.len() == 0 {
        assert(oks(ops) =~= seq![]);
    } else {
        let first = encode_op(ops[0]);
        let rest = encoded(ops.drop_first());
        lemma_encoded_first(ops);
        lemma_decode_encoded(ops[0], rest);
        lemma_decoded_encoded(ops.drop_first());
        assert((first + rest).skip(first.len() as int) =~= rest);
        assert(oks(ops) =~= seq![Ok(ops[0])] + oks(ops.drop_first()));
    }
}

/// Whatever operators can be encoded, decoding their encoding gives them back.
pub proof fn law_encoding_roundtrip(ops: Seq<OpView>)
    requires
        forall|i: int| 0 <= i < ops.len() ==> sized(#[trigger] ops[i]),
    ensures
        encoding(ops) matches Ok(bytes) ==> decoded(bytes) == oks(ops),
{
    if encoding(ops) is Ok {
        assert forall|i: int| 0 <= i < ops.len() implies encodable(#[trigger] ops[i]) && sized(
            ops[i],
        ) by {}
        lemma_decoded_encoded(ops);
    }
}

/// The hashes in operators in memory have the length of a hash.
pub proof fn lemma_ops_sized(ops: Seq<Op>)
    ensures
        forall|i: int| 0 <= i < ops.len() ==> sized(#[trigger] ops_view(ops)[i]),
{
}

/// The encoding of operators is a concatenation: what is encoded first comes first, and
/// what follows it changes nothing about it.
pub proof fn law_encodings_are_concatenated(first: Seq<OpView>, second: Seq<OpView>)
    ensures
        encoded(first + second) == encoded(first) + encoded(second),
    decreases second.len(),
{
    if second.len() == 0 {
        assert(first + second =~= first);
        assert(encoded(first) + encoded(second) =~= encoded(first));
    } else {
        law_encodings_are_concatenated(first, second.drop_last());
        assert((first + second).drop_last() =~= first + second.drop_last());
        assert(encoded(first + second) =~= encoded(first) + encoded(second));
    }
}

/// How long the encoding of an operator is, what it starts with, and where the parts of
/// its node are found in it. So there is room for a key of 255 bytes and for a
/// value of 65535 bytes, and the lengths say where the next operator starts.
pub proof fn law_layout_of_an_operator(op: OpView)
    requires
        sized(op),
        op matches OpView::Push(NodeView::KV(key, value)) ==> key.len() < 256 && value.len()
            < 65536,
    ensures
        ({
            let bytes = encode_op(op);
            match op {
                OpView::Push(NodeView::Hash(hash)) => {
                    &&& bytes.len() == 33
                    &&& bytes[0] == 1
                    &&& bytes.skip(1) == hash
                },
                OpView::Push(NodeView::KVHash(hash)) => {
                    &&& bytes.len() == 33
                    &&& bytes[0] == 2
                    &&& bytes.skip(1) == hash
                },
                OpView::Push(NodeView::KV(key, value)) => {
                    let n = key.len() as int;
                    &&& bytes.len() == 4 + n + value.len()
                    &&& bytes[0] == 3
                    &&& bytes[1] == n
                    &&& bytes.subrange(2, 2 + n) == key
                    &&& bytes[2 + n] * 256 + bytes[3 + n] == value.len()
                    &&& bytes.skip(4 + n) == value
                },
                OpView::Parent => bytes == seq![16u8],
                OpView::Child => bytes == seq![17u8],
            }
        }),
{
    let bytes = encode_op(op);
    match op {
        OpView::Push(NodeView::Hash(hash)) => {
            assert(bytes.skip(1) =~= hash);
        },
        OpView::Push(NodeView::KVHash(hash)) => {
            assert(bytes.skip(1) =~= hash);
        },
        OpView::Push(NodeView::KV(key, value)) => {
            let n = key.len() as int;
            assert(bytes.subrange(2, 2 + n) =~= key);
            assert(bytes.skip(4 + n) =~= value);
        },
        OpView::Parent => {},
        OpView::Child => {},
    }
}

/// Bytes are decoded as operators only where they are their encoding: the encoding of
/// the operator that bytes start with is what they start with.
proof fn lemma_decoded_op(bytes: Seq<u8>)
    ensures
        decode_op(bytes) matches Some((op, length)) ==> {
            &&& encodable(op)
            &&& sized(op)
            &&& 0 < length <= bytes.len()
            &&& bytes.take(length as int) == encode_op(op)
        },
{
    if let Some((op, length)) = decode_op(bytes) {
        match op {
            OpView::Push(NodeView::KV(key, value)) => {
                let value_at = bytes[1] as int + 4;
                assert(value.len() == bytes[value_at - 2] * 256 + bytes[value_at - 1]);
                assert(value.len() / 256 == bytes[value_at - 2]);
                assert(value.len() % 256 == bytes[value_at - 1]);
                assert(bytes.take(length as int) =~= encode_op(op));
            },
            _ => {
                assert(bytes.take(length as int) =~= encode_op(op));
            },
        }
    }
}

/// Only encodings are decoded: bytes that are decoded without an error are the encoding
/// of the operators that they are decoded as.
pub proof fn law_only_encodings_are_decoded(bytes: Seq<u8>, ops: Seq<OpView>)
    requires
        decoded(bytes) == oks(ops),
    ensures
        encoding(ops) == Ok::<Seq<u8>, ProofError>(bytes),
    decreases bytes.len(),
{
    if bytes.len() == 0 {
        assert(oks(ops).len() == ops.len());
        assert(encoded(ops) =~= bytes);
    } else {
        lemma_decoded_op(bytes);
        assert(oks(ops).len() == ops.len());
        assert(decoded(bytes).len() > 0);
        assert(decoded(bytes)[0] == oks(ops)[0]);
        assert(oks(ops)[0] == Ok::<OpView, ProofError>(ops[0]));
        assert(decode_op(bytes) is Some);
        let (op, length) = decode_op(bytes)->0;
        let rest = bytes.skip(length as int);
        let more = ops.drop_first();
        assert(ops[0] == op);
        assert(decoded(rest) =~= oks(more)) by {
            assert(decoded(bytes).drop_first() =~= decoded(rest));
            assert(oks(ops).drop_first() =~= oks(more));
        }
        law_only_encodings_are_decoded(rest, more);
        lemma_encoded_first(ops);
        assert(bytes =~= bytes.take(length as int) + rest);
        assert forall|i: int| 0 <= i < ops.len() implies encodable(#[trigger] ops[i]) by {
            if i > 0 {
                assert(more[i - 1] == ops[i]);
                assert(encodable(more[i - 1]));
            }
        }
    }
}

/// How bytes are decoded: they start with the encodings of some operators, which are
/// decoded, and of what follows these, if anything, no operator's encoding is the
/// start, so there is one error for it.
pub proof fn law_how_bytes_are_decoded(bytes: Seq<u8>) -> (parts: (Seq<OpView>, Seq<u8>))
    ensures
        bytes == encoded(parts.0) + parts.1,
        decoded(bytes) == if parts.1.len() == 0 {
            oks(parts.0)
        } else {
            oks(parts.0).push(Err(ProofError::CannotDecode))
        },
        forall|op: OpView|
            sized(op) && encodable(op) && parts.1.len() > 0 ==> !(#[trigger] encode_op(
                op,
            )).is_prefix_of(parts.1),
        forall|i: int| 0 <= i < parts.0.len() ==> encodable(#[trigger] parts.0[i]) && sized(
            parts.0[i],
        ),
    decreases bytes.len(),
{
    if bytes.len() == 0 {
        let none: Seq<OpView> = seq![];
        assert(oks(none) =~= seq![]);
        assert(encoded(none) + bytes =~= bytes);
        (none, bytes)
    } else {
        lemma_decoded_op(bytes);
        match decode_op(bytes) {
            None => {
                let none: Seq<OpView> = seq![];
                assert(oks(none).push(Err(ProofError::CannotDecode)) =~= seq![
                    Err(ProofError::CannotDecode),
                ]);
                assert(encoded(none) + bytes =~= bytes);
                assert forall|op: OpView| sized(op) && encodable(op) implies !(#[trigger] encode_op(
                    op,
                )).is_prefix_of(bytes) by {
                    if encode_op(op).is_prefix_of(bytes) {
                        let rest = bytes.skip(encode_op(op).len() as int);
                        assert(encode_op(op) + rest =~= bytes);
                        lemma_decode_encoded(op, rest);
                    }
                }
                (none, bytes)
            },
            Some((op, length)) => {
                let rest = bytes.skip(length as int);
                let (more, end) = law_how_bytes_are_decoded(rest);
                let all = seq![op] + more;
                assert(all.drop_first() =~= more);
                lemma_encoded_first(all);
                assert(bytes =~= bytes.take(length as int) + rest);
                assert(encoded(all) + end =~= bytes);
                assert(oks(all) =~= seq![Ok(op)] + oks(more));
                if end.len() > 0 {
                    assert(oks(all).push(Err(ProofError::CannotDecode)) =~= seq![Ok(op)] + oks(
                        more,
                    ).push(Err(ProofError::CannotDecode)));
                }
                assert forall|i: int| 0 <= i < all.len() implies encodable(#[trigger] all[i])
                    && sized(all[i]) by {
                    if i > 0 {
                        assert(all[i] == more[i - 1]);
                    }
                }
                (all, end)
            },
        }
    }
}

/// An encoding in memory is its bytes, and an error is itself.
pub proof fn law_what_an_encoding_holds(result: Result<Vec<u8>, ProofError>)
    ensures
        result matches Ok(bytes) ==> encoding_view(result) == Ok::<Seq<u8>, ProofError>(bytes@),
        result matches Err(e) ==> encoding_view(result) == Err::<Seq<u8>, ProofError>(e),
{
}

} // verus!
