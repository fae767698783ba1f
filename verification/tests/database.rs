//! Root leaves, the root tree, propagation and worst case costs.
use grovedb::costs::{CostContext, CostsExt, OperationCost};
use grovedb::element::Element;
use grovedb::error::Error;
use grovedb::propagation::{ChangePropagation, PropagationStep};
use grovedb::root_leaves::RootLeaves;
use grovedb::root_tree::RootTreeBuilder;
use grovedb::GroveDb;

fn seeks(n: u16) -> OperationCost {
    OperationCost {
        seek_count: n,
        ..Default::default()
    }
}

fn leaves(keys: &[&str]) -> RootLeaves {
    let mut leaves = RootLeaves::new();
    for key in keys {
        leaves.add_leaf(key.as_bytes().to_vec());
    }
    leaves
}

fn entries(leaves: &RootLeaves) -> Vec<(Vec<u8>, usize)> {
    (0..leaves.len())
        .map(|i| {
            let (key, index) = leaves.get(i);
            (key.to_vec(), index)
        })
        .collect()
}

fn path(parts: &[&str]) -> Vec<Vec<u8>> {
    parts.iter().map(|part| part.as_bytes().to_vec()).collect()
}

#[test]
fn root_leaves_keep_the_order_of_keys_and_their_indexes() {
    let leaves = leaves(&["m", "z", "a", "m"]);
    assert_eq!(
        entries(&leaves),
        vec![
            (b"a".to_vec(), 2),
            (b"m".to_vec(), 0),
            (b"z".to_vec(), 1)
        ]
    );
    assert!(leaves.contains_key(b"m"));
    assert!(!leaves.contains_key(b"b"));
    assert!(!leaves.contains_key(b"zz"));
}

#[test]
fn inserted_leaves_override() {
    let mut leaves = leaves(&["a", "b"]);
    leaves.insert(b"a".to_vec(), 7);
    assert_eq!(entries(&leaves), vec![(b"a".to_vec(), 7), (b"b".to_vec(), 1)]);
}

#[test]
fn stored_root_leaves_are_read_back() {
    let leaves = leaves(&["m", "z", "a"]);
    let bytes = leaves.serialize().unwrap();
    assert_eq!(bytes.len(), 8 + 3 * 17);
    let read = RootLeaves::deserialize(&bytes).unwrap();
    assert_eq!(entries(&read), entries(&leaves));
    // what follows does not matter
    let mut longer = bytes.clone();
    longer.push(9);
    let read = RootLeaves::deserialize(&longer).unwrap();
    assert_eq!(entries(&read), entries(&leaves));
}

#[test]
fn stored_root_leaves_are_those_of_a_sorted_map() {
    let mut map = std::collections::BTreeMap::new();
    map.insert(b"m".to_vec(), 0usize);
    map.insert(b"z".to_vec(), 1usize);
    map.insert(b"aaa".to_vec(), 2usize);
    let leaves = leaves(&["m", "z", "aaa"]);
    assert_eq!(leaves.serialize().unwrap(), bincode::serialize(&map).unwrap());
}

#[test]
fn stored_duplicates_override() {
    // two entries with key `k`
    let mut bytes = vec![2, 0, 0, 0, 0, 0, 0, 0];
    for index in [5, 6] {
        bytes.extend([1, 0, 0, 0, 0, 0, 0, 0, b'k', index, 0, 0, 0, 0, 0, 0, 0]);
    }
    let read = RootLeaves::deserialize(&bytes).unwrap();
    assert_eq!(entries(&read), vec![(b"k".to_vec(), 6)]);
}

#[test]
fn broken_root_leaves_are_reported() {
    let bytes = leaves(&["m"]).serialize().unwrap();
    match RootLeaves::deserialize(&bytes[..bytes.len() - 1]) {
        Err(Error::CorruptedData(message)) => {
            assert_eq!(message, "unable to deserialize root leaves")
        }
        _ => panic!("expected an error"),
    }
}

#[test]
fn reading_root_leaves_costs_a_seek_and_the_bytes() {
    let bytes = leaves(&["m"]).serialize().unwrap();
    let length = bytes.len() as u32;
    let read = GroveDb::get_root_leaf_keys_internal(Ok(Some(bytes)));
    assert_eq!(
        read.cost,
        OperationCost {
            seek_count: 1,
            loaded_bytes: length,
            ..Default::default()
        }
    );
    assert_eq!(entries(&read.value.unwrap()), vec![(b"m".to_vec(), 0)]);

    let read = GroveDb::get_root_leaf_keys_internal(Ok(None));
    assert_eq!(read.cost, seeks(1));
    assert_eq!(read.value.unwrap().len(), 0);

    let read = GroveDb::get_root_leaf_keys_internal(Err(Error::StorageError("gone".to_string())));
    assert_eq!(read.cost, seeks(1));
    assert!(matches!(read.value, Err(Error::StorageError(message)) if message == "gone"));

    let read = GroveDb::get_root_leaf_keys_internal(Ok(Some(vec![1])));
    assert_eq!(read.cost.loaded_bytes, 1);
    assert!(matches!(read.value, Err(Error::CorruptedData(_))));
}

fn root_hash(keys: &[&str], hash_of: impl Fn(&[u8]) -> [u8; 32]) -> CostContext<Option<[u8; 32]>> {
    let mut builder = RootTreeBuilder::new(Ok(leaves(keys)).wrap_with_cost(seeks(1)));
    while let Some(key) = builder.query() {
        builder.resume(Ok(hash_of(&key)).wrap_with_cost(seeks(2)));
    }
    GroveDb::root_hash(builder.finish()).map(|root| root.unwrap())
}

#[test]
fn empty_databases_have_no_root_hash() {
    let root = root_hash(&[], |_| [1; 32]);
    assert_eq!(root.value, None);
    assert_eq!(root.cost, seeks(1));
}

#[test]
fn a_single_leaf_is_the_root_hash() {
    let root = root_hash(&["a"], |_| [7; 32]);
    assert_eq!(root.value, Some([7; 32]));
    assert_eq!(root.cost, seeks(3));
}

#[test]
fn root_hash_of_two_leaves_by_index() {
    // leaf `z` has index 0 and leaf `a` has index 1
    let root = root_hash(&["z", "a"], |key| [key[0]; 32]);
    let expected =
        rs_merkle::MerkleTree::<rs_merkle::algorithms::Sha256>::from_leaves(&[[b'z'; 32], [b'a'; 32]]);
    assert_eq!(root.value, expected.root());
    assert_ne!(root.value, Some([b'z'; 32]));
    assert_eq!(root.cost, seeks(5));
}

#[test]
fn root_hash_of_many_leaves() {
    let keys = ["e", "a", "d", "b", "c"];
    let root = root_hash(&keys, |key| [key[0]; 32]);
    let hashes: Vec<[u8; 32]> = keys.iter().map(|key| [key.as_bytes()[0]; 32]).collect();
    let expected = rs_merkle::MerkleTree::<rs_merkle::algorithms::Sha256>::from_leaves(&hashes);
    assert_eq!(root.value, expected.root());
}

#[test]
fn root_tree_stops_at_the_first_error() {
    let mut builder = RootTreeBuilder::new(Ok(leaves(&["a", "b"])).wrap_with_cost(seeks(1)));
    assert_eq!(builder.query(), Some(b"a".to_vec()));
    builder.resume(Err(Error::CorruptedData("cannot open a subtree".to_string())).wrap_with_cost(seeks(1)));
    assert_eq!(builder.query(), None);
    let result = GroveDb::root_hash(builder.finish());
    assert_eq!(result.cost, seeks(2));
    assert!(matches!(result.value, Err(Error::CorruptedData(_))));

    let builder = RootTreeBuilder::new(Err(Error::CyclicReference).wrap_with_cost(seeks(4)));
    assert_eq!(builder.query(), None);
    let result = builder.finish();
    assert_eq!(result.cost, seeks(4));
    assert!(matches!(result.value, Err(Error::CyclicReference)));
}

#[test]
fn root_tree_asks_in_the_order_of_keys() {
    let mut builder = RootTreeBuilder::new(Ok(leaves(&["z", "a"])).wrap_with_cost(seeks(0)));
    assert_eq!(builder.query(), Some(b"a".to_vec()));
    builder.resume(Ok([1; 32]).wrap_with_cost(seeks(0)));
    assert_eq!(builder.query(), Some(b"z".to_vec()));
}

#[test]
fn changes_propagate_up_to_the_root_leaf() {
    let mut propagation = ChangePropagation::new(path(&["a", "b", "c"]));
    let mut trace = Vec::new();
    loop {
        match propagation.step() {
            PropagationStep::OpenSubtree { path } => {
                trace.push(("subtree", path.concat()));
                propagation.merk_opened(Ok(()).wrap_with_cost(seeks(1)));
            }
            PropagationStep::OpenParent { path } => {
                trace.push(("parent", path.concat()));
                propagation.merk_opened(Ok(()).wrap_with_cost(seeks(1)));
            }
            PropagationStep::TakeRootHash => {
                propagation.root_hash_taken([8; 32].wrap_with_cost(seeks(1)));
            }
            PropagationStep::UpdateParent { key, root_hash } => {
                assert_eq!(root_hash, [8; 32]);
                trace.push(("update", key));
                propagation.parent_updated(Ok(()).wrap_with_cost(seeks(1)));
            }
            PropagationStep::Done => break,
        }
    }
    assert_eq!(
        trace,
        vec![
            ("subtree", b"abc".to_vec()),
            ("parent", b"ab".to_vec()),
            ("update", b"c".to_vec()),
            ("subtree", b"ab".to_vec()),
            ("parent", b"a".to_vec()),
            ("update", b"b".to_vec()),
        ]
    );
    let result = propagation.finish();
    assert_eq!(result.value, Ok(()));
    assert_eq!(result.cost, seeks(8));
}

#[test]
fn short_paths_need_no_propagation() {
    for parts in [&[][..], &["a"][..]] {
        let propagation = ChangePropagation::new(path(parts));
        assert!(matches!(propagation.step(), PropagationStep::Done));
        let result = propagation.finish();
        assert_eq!(result.value, Ok(()));
        assert_eq!(result.cost, OperationCost::default());
    }
}

#[test]
fn propagation_fails_where_a_subtree_cannot_be_opened() {
    let mut propagation = ChangePropagation::new(path(&["a", "b"]));
    propagation.merk_opened(Ok(()).wrap_with_cost(seeks(1)));
    propagation.merk_opened(Err(Error::CyclicReference).wrap_with_cost(seeks(2)));
    assert!(matches!(propagation.step(), PropagationStep::Done));
    let result = propagation.finish();
    assert_eq!(result.cost, seeks(3));
    assert_eq!(
        result.value,
        Err(Error::CorruptedData("cannot open a subtree".to_string()))
    );
}

#[test]
fn propagation_fails_where_a_parent_cannot_be_updated() {
    let mut propagation = ChangePropagation::new(path(&["a", "b"]));
    propagation.merk_opened(Ok(()).wrap_with_cost(seeks(1)));
    propagation.merk_opened(Ok(()).wrap_with_cost(seeks(1)));
    propagation.root_hash_taken([8; 32].wrap_with_cost(seeks(1)));
    propagation.parent_updated(Err(Error::InvalidPath("no")).wrap_with_cost(seeks(1)));
    assert!(matches!(propagation.step(), PropagationStep::Done));
    let result = propagation.finish();
    assert_eq!(result.cost, seeks(4));
    assert_eq!(result.value, Err(Error::InvalidPath("no")));
}

fn read(value: Result<Option<Vec<u8>>, ()>) -> CostContext<Result<Element, Error>> {
    GroveDb::get_element_from_subtree(value.wrap_with_cost(seeks(1)), |bytes: &Vec<u8>| {
        if bytes.is_empty() {
            Err(())
        } else {
            Ok(Element::Item(bytes.clone(), None))
        }
    })
}

#[test]
fn elements_of_a_parent() {
    let missing = Err(Error::InvalidPath(
        "can't find subtree in parent during propagation",
    ));
    assert_eq!(read(Err(())).value, missing);
    assert_eq!(read(Ok(None)).value, missing);
    assert_eq!(
        read(Ok(Some(vec![]))).value,
        Err(Error::CorruptedData(
            "failed to deserialized parent during propagation".to_string()
        ))
    );
    let found = read(Ok(Some(vec![4])));
    assert_eq!(found.value, Ok(Element::Item(vec![4], None)));
    assert_eq!(found.cost, seeks(1));
}

#[test]
fn updates_keep_the_flags() {
    let element = Element::new_tree_with_flags([1; 32], Some(vec![5]));
    let result = GroveDb::update_tree_item_preserve_flag(
        Ok(element).wrap_with_cost(seeks(1)),
        [2; 32],
        |element| {
            assert_eq!(element, Element::Tree([2; 32], Some(vec![5])));
            Ok(()).wrap_with_cost(seeks(2))
        },
    );
    assert_eq!(result.value, Ok(()));
    assert_eq!(result.cost, seeks(3));
}

#[test]
fn only_trees_are_updated() {
    let insert = |_: Element| -> CostContext<Result<(), Error>> { unreachable!() };
    let result = GroveDb::update_tree_item_preserve_flag(
        Ok(Element::Item(vec![], None)).wrap_with_cost(seeks(1)),
        [2; 32],
        insert,
    );
    assert_eq!(
        result.value,
        Err(Error::InvalidPath("can only propagate on tree items"))
    );
    assert_eq!(result.cost, seeks(1));
    let result = GroveDb::update_tree_item_preserve_flag(
        Err(Error::CyclicReference).wrap_with_cost(seeks(1)),
        [2; 32],
        insert,
    );
    assert_eq!(result.value, Err(Error::CyclicReference));
}

#[test]
fn empty_trees_are_told_if_they_exist() {
    let result = GroveDb::is_empty_tree(Ok(()).wrap_with_cost(seeks(1)), |_| {
        Ok(true).wrap_with_cost(seeks(2))
    });
    assert_eq!(result.value, Ok(true));
    assert_eq!(result.cost, seeks(3));

    let result = GroveDb::is_empty_tree(
        Err(Error::PathNotFound("subtree doesn't exist")).wrap_with_cost(seeks(1)),
        |_| unreachable!(),
    );
    assert_eq!(
        result.value,
        Err(Error::PathNotFound("subtree doesn't exist"))
    );
    assert_eq!(result.cost, seeks(1));
}

#[test]
fn worst_case_of_getting_a_node() {
    let mut cost = OperationCost::default();
    let key = &8_u64.to_be_bytes();
    GroveDb::add_worst_case_get_merk_node(&mut cost, key.len() as u32, 60);
    assert_eq!(
        cost,
        OperationCost {
            seek_count: 1,
            storage_loaded_bytes: 212,
            ..Default::default()
        }
    );
}

#[test]
fn test_insert_merk_node_worst_case() {
    let mut cost = OperationCost::default();
    let max_tree_height = (1.44 * (10 as f32).log2()).floor() as u32;
    GroveDb::add_worst_case_insert_merk_node(&mut cost, 30, max_tree_height);
    assert_eq!(
        cost,
        OperationCost {
            seek_count: 6,
            storage_loaded_bytes: 3 * 678,
            storage_written_bytes: 3 * 966,
            hash_node_calls: 5,
            ..Default::default()
        }
    );
}

#[test]
fn worst_case_of_inserting_a_reference() {
    let mut cost = OperationCost::default();
    GroveDb::add_merk_worst_case_insert_reference(&mut cost, 30, 4);
    assert_eq!(cost.hash_node_calls, 4);
    assert_eq!(cost.seek_count, 6);
    // in a tree of one layer nothing is walked
    let mut cost = OperationCost::default();
    GroveDb::add_merk_worst_case_insert_reference(&mut cost, 30, 1);
    assert_eq!(
        cost,
        OperationCost {
            hash_node_calls: 1,
            ..Default::default()
        }
    );
}

#[test]
fn worst_case_of_getting_a_subtree() {
    let mut cost = seeks(1);
    let context = OperationCost {
        hash_byte_calls: 2,
        ..Default::default()
    };
    GroveDb::add_worst_case_get_merk(&mut cost, context, 100);
    assert_eq!(
        cost,
        OperationCost {
            seek_count: 3,
            storage_loaded_bytes: 100,
            hash_byte_calls: 2,
            ..Default::default()
        }
    );
}

#[test]
fn worst_case_of_looking_for_a_key() {
    let mut cost = OperationCost::default();
    GroveDb::add_worst_case_merk_has_element(&mut cost, b"key", 100);
    assert_eq!(
        cost,
        OperationCost {
            seek_count: 1,
            storage_loaded_bytes: 103,
            ..Default::default()
        }
    );
}

#[test]
fn worst_case_of_a_root_hash() {
    let mut cost = seeks(1);
    GroveDb::add_worst_case_merk_root_hash(&mut cost);
    assert_eq!(cost, seeks(1));
}

#[test]
fn worst_case_of_an_insertion() {
    let mut cost = OperationCost::default();
    GroveDb::add_worst_case_merk_insert(&mut cost, &[0; 30], 161, 4);
    assert_eq!(
        cost,
        OperationCost {
            storage_written_bytes: 191 + 6 * 32,
            hash_node_calls: 2,
            ..Default::default()
        }
    );
}

#[test]
fn worst_case_of_propagation() {
    let mut cost = OperationCost::default();
    GroveDb::add_worst_case_merk_propagate(&mut cost, 4);
    assert_eq!(
        cost,
        OperationCost {
            storage_written_bytes: 192,
            ..Default::default()
        }
    );
}
