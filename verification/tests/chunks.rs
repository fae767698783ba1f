//! Chunk proofs: creation, iteration and verification.
use grovedb::costs::OperationCost;
use grovedb::merk::chunks::{ChunkIter, ChunkProducer};
use grovedb::merk::Merk;
use grovedb::proofs::chunk::{get_next_chunk, verify_leaf, verify_trunk, MIN_TRUNK_HEIGHT};
use grovedb::proofs::encoding::decode_ops;
use grovedb::proofs::tree::ProofTree;
use grovedb::proofs::{Node, Op, ProofError};
use grovedb::raw_iterator::RawIterator;
use grovedb::tree::{Fetch, FetchError, Link, RefWalker, Tree};
use grovedb::GroveDb;

/// A source that is never asked: the whole tree is in memory.
struct PanicSource;

impl Fetch for PanicSource {
    fn fetch(&self, _link: &Link) -> Result<Tree, FetchError> {
        unreachable!("'fetch' should not have been called")
    }
}

/// A source that has nothing.
struct EmptySource;

impl Fetch for EmptySource {
    fn fetch(&self, _link: &Link) -> Result<Tree, FetchError> {
        Err(FetchError {
            message: "not there".to_string(),
        })
    }
}

/// A source that holds stored nodes.
struct StoredNodes(Vec<Tree>);

impl Fetch for StoredNodes {
    fn fetch(&self, link: &Link) -> Result<Tree, FetchError> {
        for node in &self.0 {
            if &node.key == link.key() {
                return Ok(copy_stored(node));
            }
        }
        Err(FetchError {
            message: "not there".to_string(),
        })
    }
}

fn copy_reference(link: &Option<Link>) -> Option<Link> {
    link.as_ref().map(|link| Link::Reference {
        key: link.key().clone(),
        hash: *link.hash(),
    })
}

/// What storage has of a node: links are references.
fn copy_stored(node: &Tree) -> Tree {
    Tree {
        key: node.key.clone(),
        value: node.value.clone(),
        left: copy_reference(&node.left),
        right: copy_reference(&node.right),
    }
}

fn collect_stored(tree: &Tree, nodes: &mut Vec<Tree>) {
    if let Some(Link::Loaded { tree, .. }) = &tree.left {
        collect_stored(tree, nodes);
    }
    nodes.push(copy_stored(tree));
    if let Some(Link::Loaded { tree, .. }) = &tree.right {
        collect_stored(tree, nodes);
    }
}

/// The stored nodes of a tree, by key.
fn stored(tree: &Tree) -> Vec<Tree> {
    let mut nodes = Vec::new();
    collect_stored(tree, &mut nodes);
    nodes
}

/// An AVL tree of keys, to build trees of the shape that batch application
/// gives.
struct Avl {
    key: Vec<u8>,
    left: Option<Box<Avl>>,
    right: Option<Box<Avl>>,
    height: i32,
}

fn avl_height(tree: &Option<Box<Avl>>) -> i32 {
    tree.as_ref().map_or(0, |tree| tree.height)
}

fn avl_node(key: Vec<u8>, left: Option<Box<Avl>>, right: Option<Box<Avl>>) -> Box<Avl> {
    let height = 1 + avl_height(&left).max(avl_height(&right));
    Box::new(Avl {
        key,
        left,
        right,
        height,
    })
}

fn avl_factor(tree: &Avl) -> i32 {
    avl_height(&tree.right) - avl_height(&tree.left)
}

fn avl_rotate(tree: Box<Avl>, left: bool) -> Box<Avl> {
    let Avl {
        key,
        left: l,
        right: r,
        ..
    } = *tree;
    if left {
        let child = *l.unwrap();
        let lower = avl_balance(avl_node(key, child.right, r));
        avl_balance(avl_node(child.key, child.left, Some(lower)))
    } else {
        let child = *r.unwrap();
        let lower = avl_balance(avl_node(key, l, child.left));
        avl_balance(avl_node(child.key, Some(lower), child.right))
    }
}

fn avl_balance(tree: Box<Avl>) -> Box<Avl> {
    let factor = avl_factor(&tree);
    if factor.abs() <= 1 {
        return tree;
    }
    let left = factor < 0;
    let Avl {
        key,
        left: mut l,
        right: mut r,
        ..
    } = *tree;
    let child = if left { &mut l } else { &mut r };
    if left == (avl_factor(child.as_ref().unwrap()) > 0) {
        *child = Some(avl_rotate(child.take().unwrap(), !left));
    }
    avl_rotate(avl_node(key, l, r), left)
}

fn avl_build(keys: &[Vec<u8>]) -> Option<Box<Avl>> {
    if keys.is_empty() {
        return None;
    }
    let middle = keys.len() / 2;
    Some(avl_balance(avl_node(
        keys[middle].clone(),
        avl_build(&keys[..middle]),
        avl_build(&keys[middle + 1..]),
    )))
}

fn avl_to_tree(tree: &Avl) -> Tree {
    Tree::new(tree.key.clone(), vec![123; 60])
        .attach(true, tree.left.as_ref().map(|left| avl_to_tree(left)))
        .attach(false, tree.right.as_ref().map(|right| avl_to_tree(right)))
}

fn seq_keys(range: std::ops::Range<u64>) -> Vec<Vec<u8>> {
    range.map(|n| n.to_be_bytes().to_vec()).collect()
}

/// The tree that a batch of consecutive keys makes of an empty tree.
fn batch_tree(range: std::ops::Range<u64>) -> Tree {
    avl_to_tree(&avl_build(&seq_keys(range)).unwrap())
}

/// The tree that a batch of consecutive keys makes of a tree with one node.
fn make_tree_seq(node_count: u64) -> Tree {
    let keys = seq_keys(0..node_count);
    let root = vec![0; 20];
    let split = keys.iter().filter(|key| **key < root).count();
    avl_to_tree(&avl_balance(avl_node(
        root,
        avl_build(&keys[..split]),
        avl_build(&keys[split..]),
    )))
}

fn batch_merk(range: std::ops::Range<u64>) -> Merk<PanicSource> {
    Merk {
        tree: Some(batch_tree(range)),
        source: PanicSource,
    }
}

fn producer(merk: &mut Merk<PanicSource>) -> ChunkProducer {
    let iter = RawIterator::new(merk.tree.as_ref().map_or(Vec::new(), stored));
    merk.chunks(iter).unwrap().unwrap()
}

fn all_chunks(mut iter: ChunkIter) -> Vec<Vec<u8>> {
    let mut chunks = Vec::new();
    while let Some(chunk) = iter.next() {
        chunks.push(chunk.unwrap().unwrap());
    }
    chunks
}

fn oks(ops: Vec<Op>) -> Vec<Result<Op, ProofError>> {
    ops.into_iter().map(Ok).collect()
}

#[derive(Default)]
struct NodeCounts {
    hash: usize,
    kvhash: usize,
    kv: usize,
}

fn visit(tree: &ProofTree, counts: &mut NodeCounts) {
    match &tree.node {
        Node::Hash(_) => counts.hash += 1,
        Node::KVHash(_) => counts.kvhash += 1,
        Node::KV(..) => counts.kv += 1,
    }
    if let Some(child) = tree.child(true) {
        visit(&child.tree, counts);
    }
    if let Some(child) = tree.child(false) {
        visit(&child.tree, counts);
    }
}

fn count_node_types(tree: ProofTree) -> NodeCounts {
    let mut counts = NodeCounts::default();
    visit(&tree, &mut counts);
    counts
}

fn layer<'a>(tree: &'a ProofTree, depth: usize, nodes: &mut Vec<&'a ProofTree>) {
    if depth == 0 {
        nodes.push(tree);
        return;
    }
    if let Some(child) = tree.child(true) {
        layer(&child.tree, depth - 1, nodes);
    }
    if let Some(child) = tree.child(false) {
        layer(&child.tree, depth - 1, nodes);
    }
}

#[test]
fn small_trunk_roundtrip() {
    let mut tree = make_tree_seq(31);
    let mut walker = RefWalker::new(&mut tree, PanicSource {});

    let (proof, has_more) = walker.create_trunk_proof().unwrap();
    assert!(!has_more);

    println!("{:?}", &proof);
    let (trunk, _) = verify_trunk(oks(proof)).unwrap();

    let counts = count_node_types(trunk);
    assert_eq!(counts.hash, 0);
    assert_eq!(counts.kv, 32);
    assert_eq!(counts.kvhash, 0);
}

#[test]
fn big_trunk_roundtrip() {
    let mut tree = make_tree_seq(2u64.pow(MIN_TRUNK_HEIGHT as u32 * 2 + 1) - 1);
    let mut walker = RefWalker::new(&mut tree, PanicSource {});

    let (proof, has_more) = walker.create_trunk_proof().unwrap();
    assert!(has_more);
    let (trunk, _) = verify_trunk(oks(proof)).unwrap();

    let counts = count_node_types(trunk);
    assert_eq!(
        counts.hash,
        2usize.pow(MIN_TRUNK_HEIGHT as u32) + MIN_TRUNK_HEIGHT - 1
    );
    assert_eq!(counts.kv, 2usize.pow(MIN_TRUNK_HEIGHT as u32) - 1);
    assert_eq!(counts.kvhash, MIN_TRUNK_HEIGHT + 1);
}

#[test]
fn one_node_tree_trunk_roundtrip() {
    let mut tree = Tree::new(vec![0], vec![]);

    let mut walker = RefWalker::new(&mut tree, PanicSource {});
    let (proof, has_more) = walker.create_trunk_proof().unwrap();
    assert!(!has_more);

    let (trunk, _) = verify_trunk(oks(proof)).unwrap();
    let counts = count_node_types(trunk);
    assert_eq!(counts.hash, 0);
    assert_eq!(counts.kv, 1);
    assert_eq!(counts.kvhash, 0);
}

#[test]
fn two_node_right_heavy_tree_trunk_roundtrip() {
    // 0
    //  \
    //   1
    let mut tree = Tree::new(vec![0], vec![]).attach(false, Some(Tree::new(vec![1], vec![])));
    let mut walker = RefWalker::new(&mut tree, PanicSource {});
    let (proof, has_more) = walker.create_trunk_proof().unwrap();
    assert!(!has_more);

    let (trunk, _) = verify_trunk(oks(proof)).unwrap();
    let counts = count_node_types(trunk);
    assert_eq!(counts.hash, 0);
    assert_eq!(counts.kv, 2);
    assert_eq!(counts.kvhash, 0);
}

#[test]
fn two_node_left_heavy_tree_trunk_roundtrip() {
    //   1
    //  /
    // 0
    let mut tree = Tree::new(vec![1], vec![]).attach(true, Some(Tree::new(vec![0], vec![])));
    let mut walker = RefWalker::new(&mut tree, PanicSource {});
    let (proof, has_more) = walker.create_trunk_proof().unwrap();
    assert!(!has_more);

    let (trunk, _) = verify_trunk(oks(proof)).unwrap();
    let counts = count_node_types(trunk);
    assert_eq!(counts.hash, 0);
    assert_eq!(counts.kv, 2);
    assert_eq!(counts.kvhash, 0);
}

#[test]
fn three_node_tree_trunk_roundtrip() {
    //   1
    //  / \
    // 0   2
    let mut tree = Tree::new(vec![1], vec![])
        .attach(true, Some(Tree::new(vec![0], vec![])))
        .attach(false, Some(Tree::new(vec![2], vec![])));

    let mut walker = RefWalker::new(&mut tree, PanicSource {});
    let (proof, has_more) = walker.create_trunk_proof().unwrap();
    assert!(!has_more);

    let (trunk, _) = verify_trunk(oks(proof)).unwrap();
    let counts = count_node_types(trunk);
    assert_eq!(counts.hash, 0);
    assert_eq!(counts.kv, 3);
    assert_eq!(counts.kvhash, 0);
}

#[test]
fn leaf_chunk_roundtrip() {
    let tree = batch_tree(0..31);
    let root_key = tree.key.clone();
    let root_hash = tree.hash();

    // whole tree as 1 leaf
    let mut iter = RawIterator::new(stored(&tree));
    iter.seek_to_first();
    let chunk = get_next_chunk(&mut iter, None);
    let chunk = verify_leaf(oks(chunk), root_hash).unwrap();
    let counts = count_node_types(chunk);
    assert_eq!(counts.kv, 31);
    assert_eq!(counts.hash, 0);
    assert_eq!(counts.kvhash, 0);

    let mut iter = RawIterator::new(stored(&tree));
    iter.seek_to_first();

    // left leaf
    let chunk = get_next_chunk(&mut iter, Some(root_key.as_slice()));
    let chunk = verify_leaf(
        oks(chunk),
        [
            34, 133, 104, 181, 253, 249, 189, 168, 15, 209, 70, 164, 224, 192, 18, 36, 1, 74, 79, 9,
            158, 188, 98, 47, 53, 32, 109, 14, 151, 13, 49, 74,
        ],
    )
    .unwrap();
    let counts = count_node_types(chunk);
    assert_eq!(counts.kv, 15);
    assert_eq!(counts.hash, 0);
    assert_eq!(counts.kvhash, 0);

    // right leaf
    let chunk = get_next_chunk(&mut iter, None);
    let chunk = verify_leaf(
        oks(chunk),
        [
            164, 29, 123, 213, 6, 25, 247, 238, 127, 53, 5, 70, 255, 87, 87, 204, 188, 169, 181, 4,
            185, 180, 74, 52, 244, 134, 75, 47, 105, 129, 209, 112,
        ],
    )
    .unwrap();
    let counts = count_node_types(chunk);
    assert_eq!(counts.kv, 15);
    assert_eq!(counts.hash, 0);
    assert_eq!(counts.kvhash, 0);
}

#[test]
fn len_small() {
    let mut merk = batch_merk(1..256);

    let chunks = producer(&mut merk);
    assert_eq!(chunks.len(), 1);
    assert_eq!(chunks.into_iter().size_hint().0, 1);
}

#[test]
fn len_big() {
    let mut merk = batch_merk(1..10_000);

    let chunks = producer(&mut merk);
    assert_eq!(chunks.len(), 129);
    assert_eq!(chunks.into_iter().size_hint().0, 129);
}

#[test]
fn generate_and_verify_chunks() {
    let mut merk = batch_merk(1..10_000);
    let root_hash = merk.tree.as_ref().unwrap().hash();

    let mut chunks = all_chunks(producer(&mut merk).into_iter()).into_iter();

    let chunk = chunks.next().unwrap();
    let ops = decode_ops(chunk.as_slice());
    let (trunk, height) = verify_trunk(ops).unwrap();
    assert_eq!(height, 14);
    assert_eq!(trunk.hash(), root_hash);

    let mut nodes = Vec::new();
    layer(&trunk, 7, &mut nodes);
    assert_eq!(nodes.len(), 128);

    let mut nodes = Vec::new();
    layer(&trunk, height / 2, &mut nodes);
    for (chunk, node) in chunks.zip(nodes) {
        let ops = decode_ops(chunk.as_slice());
        verify_leaf(ops, node.hash()).unwrap();
    }
}

#[test]
fn chunks_from_reopen() {
    let mut merk = batch_merk(1..10);
    let nodes = stored(merk.tree.as_ref().unwrap());
    let first_chunks = all_chunks(producer(&mut merk).into_iter());

    let mut merk = Merk {
        tree: Some(copy_stored(merk.tree.as_ref().unwrap())),
        source: StoredNodes(nodes.iter().map(copy_stored).collect()),
    };
    let producer = merk.chunks(RawIterator::new(nodes)).unwrap().unwrap();
    let reopen_chunks = all_chunks(producer.into_iter());

    for (first, reopened) in first_chunks.iter().zip(reopen_chunks.iter()) {
        assert_eq!(first.len(), reopened.len());
    }
    assert_eq!(first_chunks, reopen_chunks);
}

#[test]
fn random_access_chunks() {
    let mut merk = batch_merk(1..111);

    let chunks = all_chunks(producer(&mut merk).into_iter());

    let mut producer = producer(&mut merk);
    for i in 0..chunks.len() * 2 {
        let index = i % chunks.len();
        assert_eq!(producer.chunk(index).unwrap().unwrap(), chunks[index]);
    }
}

#[test]
fn test_chunk_empty() {
    let mut merk = Merk {
        tree: None,
        source: PanicSource,
    };

    let mut chunks = producer(&mut merk).into_iter();
    let chunk = chunks.next().unwrap();
    assert_eq!(chunk.value, Err(ProofError::EmptyTree));
}

#[test]
fn test_chunk_index_oob() {
    let mut merk = batch_merk(1..42);

    let mut producer = producer(&mut merk);
    let chunk = producer.chunk(50000);
    assert_eq!(chunk.value, Err(ProofError::ChunkIndexOutOfBounds));
    assert_eq!(chunk.cost, OperationCost::default());
}

#[test]
fn test_chunk_index_gt_1_access() {
    let mut merk = batch_merk(1..513);

    let mut producer = producer(&mut merk);
    println!("length: {}", producer.len());
    let chunk = producer.chunk(2).unwrap().unwrap();
    let expected: Vec<u8> = vec![
        3, 8, 0, 0, 0, 0, 0, 0, 0, 18, 0, 60, 123, 123, 123, 123, 123, 123, 123, 123, 123, 123,
        123, 123, 123, 123, 123, 123, 123, 123, 123, 123, 123, 123, 123, 123, 123, 123, 123,
        123, 123, 123, 123, 123, 123, 123, 123, 123, 123, 123, 123, 123, 123, 123, 123, 123,
        123, 123, 123, 123, 123, 123, 123, 123, 123, 123, 123, 123, 123, 123, 123, 123, 3, 8, 0,
        0, 0, 0, 0, 0, 0, 19, 0, 60, 123, 123, 123, 123, 123, 123, 123, 123, 123, 123, 123, 123,
        123, 123, 123, 123, 123, 123, 123, 123, 123, 123, 123, 123, 123, 123, 123, 123, 123,
        123, 123, 123, 123, 123, 123, 123, 123, 123, 123, 123, 123, 123, 123, 123, 123, 123,
        123, 123, 123, 123, 123, 123, 123, 123, 123, 123, 123, 123, 123, 123, 16, 3, 8, 0, 0, 0,
        0, 0, 0, 0, 20, 0, 60, 123, 123, 123, 123, 123, 123, 123, 123, 123, 123, 123, 123, 123,
        123, 123, 123, 123, 123, 123, 123, 123, 123, 123, 123, 123, 123, 123, 123, 123, 123,
        123, 123, 123, 123, 123, 123, 123, 123, 123, 123, 123, 123, 123, 123, 123, 123, 123,
        123, 123, 123, 123, 123, 123, 123, 123, 123, 123, 123, 123, 123, 17, 3, 8, 0, 0, 0, 0,
        0, 0, 0, 21, 0, 60, 123, 123, 123, 123, 123, 123, 123, 123, 123, 123, 123, 123, 123,
        123, 123, 123, 123, 123, 123, 123, 123, 123, 123, 123, 123, 123, 123, 123, 123, 123,
        123, 123, 123, 123, 123, 123, 123, 123, 123, 123, 123, 123, 123, 123, 123, 123, 123,
        123, 123, 123, 123, 123, 123, 123, 123, 123, 123, 123, 123, 123, 16, 3, 8, 0, 0, 0, 0,
        0, 0, 0, 22, 0, 60, 123, 123, 123, 123, 123, 123, 123, 123, 123, 123, 123, 123, 123,
        123, 123, 123, 123, 123, 123, 123, 123, 123, 123, 123, 123, 123, 123, 123, 123, 123,
        123, 123, 123, 123, 123, 123, 123, 123, 123, 123, 123, 123, 123, 123, 123, 123, 123,
        123, 123, 123, 123, 123, 123, 123, 123, 123, 123, 123, 123, 123, 3, 8, 0, 0, 0, 0, 0, 0,
        0, 23, 0, 60, 123, 123, 123, 123, 123, 123, 123, 123, 123, 123, 123, 123, 123, 123, 123,
        123, 123, 123, 123, 123, 123, 123, 123, 123, 123, 123, 123, 123, 123, 123, 123, 123,
        123, 123, 123, 123, 123, 123, 123, 123, 123, 123, 123, 123, 123, 123, 123, 123, 123,
        123, 123, 123, 123, 123, 123, 123, 123, 123, 123, 123, 16, 3, 8, 0, 0, 0, 0, 0, 0, 0,
        24, 0, 60, 123, 123, 123, 123, 123, 123, 123, 123, 123, 123, 123, 123, 123, 123, 123,
        123, 123, 123, 123, 123, 123, 123, 123, 123, 123, 123, 123, 123, 123, 123, 123, 123,
        123, 123, 123, 123, 123, 123, 123, 123, 123, 123, 123, 123, 123, 123, 123, 123, 123,
        123, 123, 123, 123, 123, 123, 123, 123, 123, 123, 123, 17, 17, 3, 8, 0, 0, 0, 0, 0, 0,
        0, 25, 0, 60, 123, 123, 123, 123, 123, 123, 123, 123, 123, 123, 123, 123, 123, 123, 123,
        123, 123, 123, 123, 123, 123, 123, 123, 123, 123, 123, 123, 123, 123, 123, 123, 123,
        123, 123, 123, 123, 123, 123, 123, 123, 123, 123, 123, 123, 123, 123, 123, 123, 123,
        123, 123, 123, 123, 123, 123, 123, 123, 123, 123, 123, 16, 3, 8, 0, 0, 0, 0, 0, 0, 0,
        26, 0, 60, 123, 123, 123, 123, 123, 123, 123, 123, 123, 123, 123, 123, 123, 123, 123,
        123, 123, 123, 123, 123, 123, 123, 123, 123, 123, 123, 123, 123, 123, 123, 123, 123,
        123, 123, 123, 123, 123, 123, 123, 123, 123, 123, 123, 123, 123, 123, 123, 123, 123,
        123, 123, 123, 123, 123, 123, 123, 123, 123, 123, 123, 3, 8, 0, 0, 0, 0, 0, 0, 0, 27, 0,
        60, 123, 123, 123, 123, 123, 123, 123, 123, 123, 123, 123, 123, 123, 123, 123, 123, 123,
        123, 123, 123, 123, 123, 123, 123, 123, 123, 123, 123, 123, 123, 123, 123, 123, 123,
        123, 123, 123, 123, 123, 123, 123, 123, 123, 123, 123, 123, 123, 123, 123, 123, 123,
        123, 123, 123, 123, 123, 123, 123, 123, 123, 16, 3, 8, 0, 0, 0, 0, 0, 0, 0, 28, 0, 60,
        123, 123, 123, 123, 123, 123, 123, 123, 123, 123, 123, 123, 123, 123, 123, 123, 123,
        123, 123, 123, 123, 123, 123, 123, 123, 123, 123, 123, 123, 123, 123, 123, 123, 123,
        123, 123, 123, 123, 123, 123, 123, 123, 123, 123, 123, 123, 123, 123, 123, 123, 123,
        123, 123, 123, 123, 123, 123, 123, 123, 123, 17, 3, 8, 0, 0, 0, 0, 0, 0, 0, 29, 0, 60,
        123, 123, 123, 123, 123, 123, 123, 123, 123, 123, 123, 123, 123, 123, 123, 123, 123,
        123, 123, 123, 123, 123, 123, 123, 123, 123, 123, 123, 123, 123, 123, 123, 123, 123,
        123, 123, 123, 123, 123, 123, 123, 123, 123, 123, 123, 123, 123, 123, 123, 123, 123,
        123, 123, 123, 123, 123, 123, 123, 123, 123, 16, 3, 8, 0, 0, 0, 0, 0, 0, 0, 30, 0, 60,
        123, 123, 123, 123, 123, 123, 123, 123, 123, 123, 123, 123, 123, 123, 123, 123, 123,
        123, 123, 123, 123, 123, 123, 123, 123, 123, 123, 123, 123, 123, 123, 123, 123, 123,
        123, 123, 123, 123, 123, 123, 123, 123, 123, 123, 123, 123, 123, 123, 123, 123, 123,
        123, 123, 123, 123, 123, 123, 123, 123, 123, 3, 8, 0, 0, 0, 0, 0, 0, 0, 31, 0, 60, 123,
        123, 123, 123, 123, 123, 123, 123, 123, 123, 123, 123, 123, 123, 123, 123, 123, 123,
        123, 123, 123, 123, 123, 123, 123, 123, 123, 123, 123, 123, 123, 123, 123, 123, 123,
        123, 123, 123, 123, 123, 123, 123, 123, 123, 123, 123, 123, 123, 123, 123, 123, 123,
        123, 123, 123, 123, 123, 123, 123, 123, 16, 3, 8, 0, 0, 0, 0, 0, 0, 0, 32, 0, 60, 123,
        123, 123, 123, 123, 123, 123, 123, 123, 123, 123, 123, 123, 123, 123, 123, 123, 123,
        123, 123, 123, 123, 123, 123, 123, 123, 123, 123, 123, 123, 123, 123, 123, 123, 123,
        123, 123, 123, 123, 123, 123, 123, 123, 123, 123, 123, 123, 123, 123, 123, 123, 123,
        123, 123, 123, 123, 123, 123, 123, 123, 17, 17, 17,
    ];
    assert_eq!(chunk, expected);
}

#[test]
fn test_next_chunk_index_oob() {
    let mut merk = batch_merk(1..42);

    let mut chunks = producer(&mut merk).into_iter();
    let _chunk1 = chunks.next().unwrap();
    assert!(chunks.next().is_none());
    assert!(chunks.next().is_none());
}

#[test]
fn chunks_in_any_order_are_the_chunks_in_order() {
    let mut merk = batch_merk(1..2050);
    let chunks = all_chunks(producer(&mut merk).into_iter());
    assert_eq!(chunks.len(), 65);

    let mut producer = producer(&mut merk);
    for index in (0..chunks.len()).rev() {
        let chunk = producer.chunk(index);
        assert_eq!(chunk.value.unwrap(), chunks[index]);
        assert_eq!(chunk.cost.seek_count, 1);
    }
}

#[test]
fn producer_costs_one_seek() {
    let mut merk = batch_merk(1..10);
    let nodes = stored(merk.tree.as_ref().unwrap());
    let result = merk.chunks(RawIterator::new(nodes));
    assert_eq!(
        result.cost,
        OperationCost {
            seek_count: 1,
            ..Default::default()
        }
    );
}

#[test]
fn missing_node_is_reported() {
    let mut merk = Merk {
        tree: Some(copy_stored(&batch_tree(1..10))),
        source: EmptySource,
    };
    let result = merk.chunks(RawIterator::new(Vec::new()));
    assert_eq!(result.cost, OperationCost::default());
    match result.value {
        Err(ProofError::Fetch(e)) => assert_eq!(e.message, "not there"),
        _ => panic!("expected a fetch error"),
    }
}

#[test]
fn walking_loads_the_nodes_that_are_needed() {
    let tree = batch_tree(1..10);
    let mut reopened = copy_stored(&tree);
    let source = StoredNodes(stored(&tree));
    let hash = tree.hash();
    {
        let mut walker = RefWalker::new(&mut reopened, source);
        let (proof, has_more) = walker.create_trunk_proof().unwrap();
        assert!(!has_more);
        let (trunk, height) = verify_trunk(oks(proof)).unwrap();
        assert_eq!(height, 4);
        assert_eq!(trunk.hash(), hash);
    }
    assert_eq!(stored(&reopened).len(), 9);
    assert_eq!(reopened.hash(), hash);
}

#[test]
fn only_the_nodes_of_the_trunk_are_needed() {
    let mut tree = batch_tree(1..1100);
    let root = copy_stored(&tree);
    let all = StoredNodes(stored(&tree));
    let (whole, _) = RefWalker::new(&mut tree, PanicSource)
        .create_trunk_proof()
        .unwrap();

    let mut reopened = copy_stored(&root);
    let (proof, has_more) = RefWalker::new(&mut reopened, all)
        .create_trunk_proof()
        .unwrap();
    assert!(has_more);
    assert_eq!(proof, whole);
    let needed = stored(&reopened);
    assert!(needed.len() < 1099);

    let source = StoredNodes(needed.iter().map(copy_stored).collect());
    let (proof, _) = RefWalker::new(&mut copy_stored(&root), source)
        .create_trunk_proof()
        .unwrap();
    assert_eq!(proof, whole);

    for missing in 0..needed.len() {
        if needed[missing].key == root.key {
            continue;
        }
        let mut nodes: Vec<Tree> = needed.iter().map(copy_stored).collect();
        nodes.remove(missing);
        let result = RefWalker::new(&mut copy_stored(&root), StoredNodes(nodes))
            .create_trunk_proof();
        assert!(matches!(result, Err(ProofError::Fetch(_))));
    }
}

#[test]
fn test_get_merk_node_worst_case() {
    // the node with key 8 has both links, and a value of 60 bytes
    let nodes = stored(&batch_tree(1..10));
    let key = &8_u64.to_be_bytes();
    let node = nodes.iter().find(|node| node.key == key).unwrap();
    let left = node.left.as_ref().unwrap();
    let right = node.right.as_ref().unwrap();
    assert_eq!(node.value.len(), 60);

    // what storage loads of it: for each link an option byte, the length of the
    // key, the key, the hash and two heights, then two hashes and the value
    let link_size = |link: &Link| 1 + 1 + link.key().len() + link.hash().len() + 1 + 1;
    let loaded = link_size(left) + link_size(right) + 32 + 32 + node.value.len();
    let node_cost = OperationCost {
        seek_count: 1,
        storage_loaded_bytes: loaded as u32,
        ..Default::default()
    };

    let mut cost = OperationCost::default();
    GroveDb::add_worst_case_get_merk_node(&mut cost, key.len() as u32, 60);
    assert_eq!(cost, node_cost);
}

#[test]
fn trunk_of_a_big_tree_hashes_to_its_root() {
    let mut tree = batch_tree(1..1100);
    let hash = tree.hash();
    let mut walker = RefWalker::new(&mut tree, PanicSource {});
    let (proof, has_more) = walker.create_trunk_proof().unwrap();
    assert!(has_more);
    let (trunk, height) = verify_trunk(oks(proof)).unwrap();
    assert_eq!(height, 11);
    assert_eq!(trunk.hash(), hash);
}

#[test]
fn too_long_keys_cannot_be_encoded() {
    let mut merk = Merk {
        tree: Some(Tree::new(vec![1; 256], vec![])),
        source: PanicSource,
    };
    let mut chunks = producer(&mut merk).into_iter();
    assert_eq!(
        chunks.next().unwrap().value,
        Err(ProofError::CannotEncode)
    );
    assert!(chunks.next().is_none());
}

#[test]
fn chunks_cover_the_whole_tree() {
    let mut merk = batch_merk(1..2050);
    let mut keys = Vec::new();
    for chunk in all_chunks(producer(&mut merk).into_iter()) {
        for op in decode_ops(&chunk) {
            if let Ok(Op::Push(Node::KV(key, _))) = op {
                keys.push(key);
            }
        }
    }
    keys.sort();
    assert_eq!(keys, seq_keys(1..2050));
}

#[test]
fn raw_iterator_moves_by_key() {
    let mut iter = RawIterator::new(stored(&batch_tree(1..4)));
    assert_eq!(iter.key(), Some(&1u64.to_be_bytes()[..]));
    iter.seek(&2u64.to_be_bytes());
    assert_eq!(iter.key(), Some(&2u64.to_be_bytes()[..]));
    assert!(iter.value().unwrap().link(true).is_some());
    iter.next();
    iter.next();
    assert!(!iter.valid());
    assert_eq!(iter.key(), None);
    iter.next();
    assert!(!iter.valid());
    iter.seek(&[0]);
    assert_eq!(iter.key(), Some(&1u64.to_be_bytes()[..]));
    iter.seek(&[9]);
    assert!(iter.value().is_none());
    iter.seek_to_first();
    assert!(iter.valid());
}
