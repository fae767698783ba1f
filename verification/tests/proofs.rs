//! Proof operators: execution, encoding and verification errors.
use grovedb::hash::{kv_hash, node_hash, null_hash, NodeHash};
use grovedb::proofs::chunk::{verify_leaf, verify_trunk};
use grovedb::proofs::encoding::{decode_ops, encode_ops};
use grovedb::proofs::tree::execute;
use grovedb::proofs::{Node, Op, ProofError};

fn kv(key: u8) -> Op {
    Op::Push(Node::KV(vec![key], vec![key, key]))
}

fn hash_op(byte: u8) -> Op {
    Op::Push(Node::Hash([byte; 32]))
}

fn kvhash_op(byte: u8) -> Op {
    Op::Push(Node::KVHash([byte; 32]))
}

fn oks(ops: Vec<Op>) -> Vec<Result<Op, ProofError>> {
    ops.into_iter().map(Ok).collect()
}

fn leaf_error(ops: Vec<Op>) -> ProofError {
    verify_leaf(oks(ops), null_hash()).unwrap_err()
}

fn leaf_hash(key: u8) -> NodeHash {
    let kv = kv_hash(&[key], &[key, key]);
    node_hash(&kv, &null_hash(), &null_hash())
}

#[test]
fn hash_of_a_key_and_a_value() {
    // BLAKE3 of 01 | 61 | 0001 | 62
    assert_eq!(
        kv_hash(b"a", b"b"),
        [
            72, 17, 234, 104, 242, 149, 230, 96, 55, 10, 216, 61, 138, 19, 113, 94, 92, 215, 66,
            182, 252, 254, 251, 167, 193, 78, 197, 196, 128, 240, 96, 35,
        ]
    );
}

#[test]
fn operators_build_a_tree() {
    let ops = vec![kv(1), kv(2), Op::Parent, kv(3), Op::Child];
    let (tree, kv_only) = execute(oks(ops), true).unwrap();
    assert!(kv_only);
    assert_eq!(tree.node, Node::KV(vec![2], vec![2, 2]));
    let left = tree.child(true).unwrap();
    let right = tree.child(false).unwrap();
    assert_eq!(left.tree.node, Node::KV(vec![1], vec![1, 1]));
    assert_eq!(right.tree.node, Node::KV(vec![3], vec![3, 3]));
    assert_eq!(left.hash, leaf_hash(1));
    assert_eq!(right.hash, leaf_hash(3));
    assert_eq!(
        tree.hash(),
        node_hash(&kv_hash(&[2], &[2, 2]), &leaf_hash(1), &leaf_hash(3))
    );
}

#[test]
fn abridged_nodes_hash_as_they_say() {
    let (tree, kv_only) = execute(oks(vec![hash_op(7)]), false).unwrap();
    assert!(!kv_only);
    assert_eq!(tree.hash(), [7; 32]);

    let ops = vec![hash_op(7), kvhash_op(8), Op::Parent];
    let (tree, kv_only) = execute(oks(ops), false).unwrap();
    assert!(!kv_only);
    assert_eq!(tree.hash(), node_hash(&[8; 32], &[7; 32], &null_hash()));
}

#[test]
fn keys_must_increase() {
    assert_eq!(leaf_error(vec![kv(2), kv(1)]), ProofError::KeyOrder);
    assert_eq!(leaf_error(vec![kv(2), kv(2)]), ProofError::KeyOrder);
}

#[test]
fn operators_need_two_items() {
    assert_eq!(leaf_error(vec![Op::Parent]), ProofError::StackUnderflow);
    assert_eq!(leaf_error(vec![kv(1), Op::Child]), ProofError::StackUnderflow);
}

#[test]
fn a_child_is_attached_once() {
    let ops = vec![kv(1), kv(2), Op::Child, kv(3), Op::Child];
    assert_eq!(leaf_error(ops), ProofError::ChildExists);
    let ops = vec![kv(1), kv(2), kv(3), Op::Parent, Op::Parent];
    assert_eq!(leaf_error(ops), ProofError::ChildExists);
}

#[test]
fn one_item_must_be_left() {
    assert_eq!(leaf_error(vec![]), ProofError::StackRemainder);
    assert_eq!(leaf_error(vec![kv(1), kv(2)]), ProofError::StackRemainder);
}

#[test]
fn leaf_chunks_are_not_abridged() {
    assert_eq!(leaf_error(vec![hash_op(1)]), ProofError::IncompleteLeaf);
    assert_eq!(leaf_error(vec![kvhash_op(1)]), ProofError::IncompleteLeaf);
}

#[test]
fn leaf_chunks_have_the_expected_hash() {
    assert_eq!(
        verify_leaf(oks(vec![kv(1)]), [9; 32]).unwrap_err(),
        ProofError::LeafHashMismatch {
            expected: [9; 32],
            actual: leaf_hash(1),
        }
    );
    assert!(verify_leaf(oks(vec![kv(1)]), leaf_hash(1)).is_ok());
}

#[test]
fn errors_among_the_operators_are_passed_on() {
    let ops = vec![Ok(kv(1)), Err(ProofError::CannotDecode), Ok(Op::Parent)];
    assert_eq!(
        verify_leaf(ops, leaf_hash(1)).unwrap_err(),
        ProofError::CannotDecode
    );
}

#[test]
fn low_trunks_are_not_abridged() {
    assert_eq!(
        verify_trunk(oks(vec![hash_op(1)])).unwrap_err(),
        ProofError::IncompleteLeaf
    );
}

#[test]
fn height_proofs_have_no_hash_nodes() {
    let ops = vec![hash_op(1), kv(2), Op::Parent];
    assert_eq!(
        verify_trunk(oks(ops)).unwrap_err(),
        ProofError::AbridgedHeightProof
    );
}

/// The operators for a left edge of the given nodes, bottom up.
fn edge(nodes: Vec<Op>) -> Vec<Op> {
    let mut ops = Vec::new();
    for (i, node) in nodes.into_iter().enumerate() {
        ops.push(node);
        if i > 0 {
            ops.push(Op::Parent);
        }
    }
    ops
}

/// A left edge of ten nodes, of which the upper five have keys and values.
fn high_edge() -> Vec<Op> {
    let mut nodes: Vec<Op> = (0..5).map(kvhash_op).collect();
    nodes.extend((1..6).map(kv));
    nodes
}

#[test]
fn high_trunks_are_complete() {
    let (tree, height) = verify_trunk(oks(edge(high_edge()))).unwrap();
    assert_eq!(height, 10);
    assert_eq!(tree.node, Node::KV(vec![5], vec![5, 5]));
}

#[test]
fn inner_nodes_of_a_trunk_are_not_abridged() {
    let mut nodes = high_edge();
    nodes[7] = kvhash_op(9);
    assert_eq!(
        verify_trunk(oks(edge(nodes))).unwrap_err(),
        ProofError::AbridgedTrunkNode
    );
}

#[test]
fn leftmost_leaf_of_a_trunk_has_the_hash_of_its_key_and_value() {
    let mut nodes = high_edge();
    nodes[4] = Op::Push(Node::KV(vec![0], vec![]));
    assert_eq!(
        verify_trunk(oks(edge(nodes))).unwrap_err(),
        ProofError::WrongLeftmostTrunkLeaf
    );
}

#[test]
fn other_leaves_of_a_trunk_are_hashes() {
    // the lowest node with a key and a value gets a right child
    let mut ops = edge(high_edge());
    let at = ops.iter().position(|op| *op == kv(1)).unwrap() + 2;
    let mut good = ops.clone();
    good.splice(at..at, vec![hash_op(3), Op::Child]);
    assert!(verify_trunk(oks(good)).is_ok());
    ops.splice(at..at, vec![kvhash_op(3), Op::Child]);
    assert_eq!(
        verify_trunk(oks(ops)).unwrap_err(),
        ProofError::UnabridgedTrunkLeaf
    );
}

#[test]
fn encoding_of_operators() {
    let ops = vec![
        hash_op(1),
        kvhash_op(2),
        Op::Push(Node::KV(vec![5, 6], vec![7])),
        Op::Parent,
        Op::Child,
    ];
    let mut expected = vec![0x01];
    expected.extend([1; 32]);
    expected.push(0x02);
    expected.extend([2; 32]);
    expected.extend([0x03, 2, 5, 6, 0, 1, 7, 0x10, 0x11]);
    assert_eq!(encode_ops(&ops).unwrap(), expected);
    assert_eq!(decode_ops(&expected), oks(ops));
}

#[test]
fn encoding_roundtrip_at_the_limits() {
    let ops = vec![Op::Push(Node::KV(vec![1; 255], vec![2; 65535]))];
    let bytes = encode_ops(&ops).unwrap();
    assert_eq!(bytes.len(), 4 + 255 + 65535);
    assert_eq!(decode_ops(&bytes), oks(ops));
}

#[test]
fn too_long_values_cannot_be_encoded() {
    let ops = vec![Op::Push(Node::KV(vec![1], vec![2; 65536]))];
    assert_eq!(encode_ops(&ops), Err(ProofError::CannotEncode));
    let ops = vec![Op::Push(Node::KV(vec![1; 256], vec![]))];
    assert_eq!(encode_ops(&ops), Err(ProofError::CannotEncode));
}

#[test]
fn broken_encodings_give_an_error() {
    assert_eq!(decode_ops(&[]), vec![]);
    assert_eq!(decode_ops(&[0x55]), vec![Err(ProofError::CannotDecode)]);
    assert_eq!(
        decode_ops(&[0x10, 0x01, 1, 2]),
        vec![Ok(Op::Parent), Err(ProofError::CannotDecode)]
    );
    assert_eq!(
        decode_ops(&[0x03, 1, 9, 0, 2, 1]),
        vec![Err(ProofError::CannotDecode)]
    );
    assert_eq!(decode_ops(&[0x03]), vec![Err(ProofError::CannotDecode)]);
    assert_eq!(
        decode_ops(&[0x03, 4, 1]),
        vec![Err(ProofError::CannotDecode)]
    );
}
