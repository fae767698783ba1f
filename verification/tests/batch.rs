//! Batches: collection, validation and application.
use grovedb::batch::apply::{Action, BatchApplication};
use grovedb::batch::ops::{insert_unique_op, SortedOps};
use grovedb::batch::path::{path_before, PathSet};
use grovedb::batch::validate::{collect_ops, BatchValidator, BatchExpansion, ValidationStep};
use grovedb::batch::{GroveDbOp, Op};
use grovedb::element::Element;
use grovedb::error::Error;
use grovedb::root_leaves::RootLeaves;

fn path(parts: &[&str]) -> Vec<Vec<u8>> {
    parts.iter().map(|part| part.as_bytes().to_vec()).collect()
}

fn tree() -> Element {
    Element::new_tree([0; 32])
}

fn item(value: &str) -> Element {
    Element::Item(value.as_bytes().to_vec(), None)
}

fn insert(parts: &[&str], key: &str, element: Element) -> GroveDbOp {
    GroveDbOp::insert(path(parts), key.as_bytes().to_vec(), element)
}

fn delete(parts: &[&str], key: &str) -> GroveDbOp {
    GroveDbOp::delete(path(parts), key.as_bytes().to_vec())
}

/// The operations in order, in a form that is easy to compare.
fn listed(ops: &SortedOps) -> Vec<String> {
    (0..ops.len()).map(|i| shown(ops.get(i))).collect()
}

fn shown(op: &GroveDbOp) -> String {
    let mut text = String::from(match op.op {
        Op::Insert { .. } => "+",
        Op::Delete => "-",
    });
    for part in op.path.iter().chain(std::iter::once(&op.key)) {
        text.push('/');
        text.push_str(std::str::from_utf8(part).unwrap());
    }
    text
}

/// Runs the first pass with nothing to be found in storage.
fn unexpanded(ops: Vec<GroveDbOp>) -> BatchValidator {
    let mut expansion = BatchExpansion::begin(ops).unwrap();
    while expansion.query().is_some() {
        expansion.resume(vec![]);
    }
    expansion.finish()
}

/// Runs the second pass, where storage has trees at the given paths and items
/// elsewhere.
fn check(validator: &mut BatchValidator, trees: &[&[&str]]) -> Result<(), Error> {
    let leaves = RootLeaves::new();
    loop {
        match validator.advance(&leaves)? {
            ValidationStep::Done => return Ok(()),
            ValidationStep::Lookup { path: p, key } => {
                let mut full = p;
                full.push(key);
                let found = if trees.iter().any(|parts| path(parts) == full) {
                    tree()
                } else {
                    item("scalar")
                };
                validator.resume(Ok(found))?;
            }
        }
    }
}

#[test]
fn shallow_paths_come_first() {
    assert!(path_before(&path(&["z"]), &path(&["a", "a"])));
    assert!(path_before(&path(&["a", "b"]), &path(&["a", "c"])));
    assert!(path_before(&path(&["a", "z"]), &path(&["b", "a"])));
    assert!(!path_before(&path(&["a"]), &path(&["a"])));
    assert!(!path_before(&path(&["a", "a"]), &path(&["z"])));
    assert!(path_before(&path(&["a"]), &path(&["ab"])));
}

#[test]
fn path_sets_hold_each_path_once() {
    let mut set = PathSet::new();
    set.insert(path(&["a"]));
    set.insert(path(&["a", "b"]));
    set.insert(path(&["a"]));
    assert!(set.contains(&path(&["a"])));
    assert!(!set.contains(&path(&["b"])));
    set.remove(&path(&["a"]));
    assert!(!set.contains(&path(&["a"])));
    assert!(set.contains(&path(&["a", "b"])));
    set.remove(&path(&["x"]));
    assert!(set.contains(&path(&["a", "b"])));
}

#[test]
fn operations_are_sorted() {
    let ops = collect_ops(vec![
        insert(&["a", "b"], "k", item("v")),
        insert(&["b"], "a", item("v")),
        delete(&["a"], "z"),
        insert(&["a"], "c", item("v")),
        insert(&[], "q", tree()),
    ]);
    assert_eq!(listed(&ops), vec!["+/q", "+/a/c", "-/a/z", "+/b/a", "+/a/b/k"]);
}

#[test]
fn operations_are_unique() {
    let mut ops = SortedOps::new();
    insert_unique_op(&mut ops, delete(&["a"], "k"));
    insert_unique_op(&mut ops, delete(&["a"], "k"));
    assert_eq!(listed(&ops), vec!["-/a/k"]);
    // an insertion comes behind the deletion at the same place
    insert_unique_op(&mut ops, insert(&["a"], "k", item("first")));
    assert_eq!(listed(&ops), vec!["-/a/k", "+/a/k"]);
    // the first insertion stays
    insert_unique_op(&mut ops, insert(&["a"], "k", item("second")));
    assert_eq!(ops.len(), 2);
    match &ops.get(1).op {
        Op::Insert { element } => assert_eq!(*element, item("first")),
        Op::Delete => panic!("expected the insertion"),
    }
}

#[test]
fn insertion_substitutes_deletion() {
    let mut ops = SortedOps::new();
    insert_unique_op(&mut ops, insert(&["a"], "k", tree()));
    insert_unique_op(&mut ops, delete(&["a"], "k"));
    assert_eq!(listed(&ops), vec!["+/a/k"]);
}

#[test]
fn operations_behind_equal_ones() {
    let mut ops = SortedOps::new();
    ops.insert(insert(&["a"], "k", item("first")));
    ops.insert(insert(&["a"], "k", item("second")));
    ops.insert(delete(&["a"], "k"));
    assert_eq!(listed(&ops), vec!["-/a/k", "+/a/k", "+/a/k"]);
    match ops.pop().unwrap().op {
        Op::Insert { element } => assert_eq!(element, item("second")),
        Op::Delete => panic!("expected an insertion"),
    }
}

#[test]
fn empty_batches_do_nothing() {
    assert!(BatchExpansion::begin(vec![]).is_none());
}

#[test]
fn overwritten_subtrees_are_deleted_with_their_descendants() {
    let mut expansion =
        BatchExpansion::begin(vec![insert(&["a"], "b", item("v")), delete(&["c"], "d")]).unwrap();
    assert_eq!(expansion.query(), Some(path(&["a", "b"])));
    expansion.resume(vec![path(&["a", "b"]), path(&["a", "b", "x"])]);
    assert_eq!(expansion.query(), Some(path(&["c", "d"])));
    expansion.resume(vec![path(&["c", "d"])]);
    assert_eq!(expansion.query(), None);

    let mut validator = expansion.finish();
    check(&mut validator, &[&["a"], &["c"], &["a", "b"]]).unwrap();
    let mut application = validator.into_application(RootLeaves::new());
    // the deepest subtree comes first: its deletion is the first operation
    match application.proceed() {
        Action::OpenSubtree { path: p } => assert_eq!(p, path(&["a", "b"])),
        other => panic!("unexpected action {:?}", other),
    }
}

#[test]
fn existing_subtrees_are_looked_up() {
    let mut validator = unexpanded(vec![insert(&["a", "b"], "k", item("v"))]);
    match validator.advance(&RootLeaves::new()).unwrap() {
        ValidationStep::Lookup { path: p, key } => {
            assert_eq!(p, path(&["a"]));
            assert_eq!(key, b"b".to_vec());
        }
        ValidationStep::Done => panic!("expected a lookup"),
    }
    validator.resume(Ok(tree())).unwrap();
    assert!(matches!(
        validator.advance(&RootLeaves::new()),
        Ok(ValidationStep::Done)
    ));
}

#[test]
fn subtrees_of_the_batch_are_not_looked_up() {
    let mut validator = unexpanded(vec![
        insert(&[], "a", tree()),
        insert(&["a"], "b", tree()),
        insert(&["a", "b"], "k", item("v")),
    ]);
    assert!(matches!(
        validator.advance(&RootLeaves::new()),
        Ok(ValidationStep::Done)
    ));
}

#[test]
fn only_the_head_of_a_chain_is_looked_up() {
    let mut validator = unexpanded(vec![
        insert(&["a"], "b", tree()),
        insert(&["a", "b"], "c", tree()),
        insert(&["a", "b", "c"], "k", item("v")),
    ]);
    check(&mut validator, &[&["a"]]).unwrap();
}

#[test]
fn scalars_take_no_operations() {
    let mut validator = unexpanded(vec![insert(&["a"], "k", item("v"))]);
    assert_eq!(
        check(&mut validator, &[]),
        Err(Error::InvalidPath("must be a tree"))
    );
}

#[test]
fn lookup_errors_are_passed_on() {
    let mut validator = unexpanded(vec![insert(&["a"], "k", item("v"))]);
    validator.advance(&RootLeaves::new()).unwrap();
    assert_eq!(
        validator.resume(Err(Error::PathNotFound("gone"))),
        Err(Error::PathNotFound("gone"))
    );
}

#[test]
fn deleted_subtrees_take_no_insertions() {
    let mut validator = unexpanded(vec![
        delete(&["a"], "b"),
        insert(&["a", "b"], "k", item("v")),
    ]);
    assert_eq!(
        check(&mut validator, &[&["a"], &["a", "b"]]),
        Err(Error::InvalidPath("attempt to insert into deleted subtree"))
    );
}

#[test]
fn found_subtrees_take_no_insertions_unless_created_again() {
    let ops = || {
        vec![
            insert(&["a"], "b", item("v")),
            insert(&["a", "b"], "k", item("v")),
        ]
    };
    let mut expansion = BatchExpansion::begin(ops()).unwrap();
    expansion.resume(vec![path(&["a", "b"])]);
    expansion.resume(vec![]);
    let mut validator = expansion.finish();
    assert_eq!(
        check(&mut validator, &[&["a"]]),
        Err(Error::InvalidPath("attempt to insert into deleted subtree"))
    );

    let mut expansion = BatchExpansion::begin(vec![
        insert(&["a"], "b", tree()),
        insert(&["a", "b"], "k", item("v")),
    ])
    .unwrap();
    expansion.resume(vec![path(&["a", "b"])]);
    expansion.resume(vec![]);
    let mut validator = expansion.finish();
    check(&mut validator, &[&["a"]]).unwrap();
}

#[test]
fn deleted_and_created_again_is_valid() {
    let mut validator = unexpanded(vec![
        delete(&["a"], "b"),
        insert(&["a"], "b", tree()),
        insert(&["a", "b"], "k", item("v")),
    ]);
    check(&mut validator, &[&["a"]]).unwrap();
}

fn application(ops: Vec<GroveDbOp>) -> BatchApplication {
    BatchApplication::new(collect_ops(ops), RootLeaves::new())
}

/// Runs an application to its end, where storage has trees at the given paths,
/// and tells what it asked for.
fn run(mut application: BatchApplication, trees: &[&[&str]]) -> (Vec<String>, Vec<u8>) {
    let mut trace = Vec::new();
    let mut action = application.proceed();
    let mut hash = 0;
    let text = |parts: &[Vec<u8>]| {
        parts
            .iter()
            .map(|part| std::str::from_utf8(part).unwrap().to_string())
            .collect::<Vec<_>>()
            .join("/")
    };
    loop {
        action = match action {
            Action::TakeRootHash { path } => {
                hash += 1;
                trace.push(format!("hash {}", text(&path)));
                application.root_hash_taken([hash; 32])
            }
            Action::OpenSubtree { path } => {
                trace.push(format!("open {}", text(&path)));
                application.subtree_opened(Ok(())).unwrap()
            }
            Action::GetElement { path: p, key } => {
                let mut full = p;
                full.push(key);
                trace.push(format!("get {}", text(&full)));
                let found = if trees.iter().any(|parts| path(parts) == full) {
                    Ok(tree())
                } else {
                    Err(Error::PathKeyNotFound("not there".to_string()))
                };
                application.element_read(found).unwrap()
            }
            Action::ClearSubtree { path } => {
                trace.push(format!("clear {}", text(&path)));
                application.subtree_cleared(Ok(true)).unwrap()
            }
            Action::InsertElement { path, key, element } => {
                let what = match element {
                    Element::Tree(hash, _) => format!("tree {}", hash[0]),
                    _ => "item".to_string(),
                };
                trace.push(format!(
                    "insert {}/{} {}",
                    text(&path),
                    std::str::from_utf8(&key).unwrap(),
                    what
                ));
                application.element_written(Ok(())).unwrap()
            }
            Action::DeleteElement { path, key } => {
                trace.push(format!(
                    "delete {}/{}",
                    text(&path),
                    std::str::from_utf8(&key).unwrap()
                ));
                application.element_written(Ok(())).unwrap()
            }
            Action::Done => break,
        };
    }
    (trace, application.finish().unwrap())
}

#[test]
fn root_hashes_go_up_to_the_root_leaves() {
    let (trace, leaves) = run(
        application(vec![
            insert(&["a", "b"], "k", item("v")),
            insert(&["a"], "x", item("v")),
        ]),
        &[],
    );
    assert_eq!(
        trace,
        vec![
            "open a/b",
            "get a/b/k",
            "insert a/b/k item",
            "hash a/b",
            "open a",
            "get a/x",
            "insert a/x item",
            "get a/b",
            "insert a/b tree 1",
            "hash a",
        ]
    );
    // one leaf with key `a` and index 0
    let expected = vec![
        1, 0, 0, 0, 0, 0, 0, 0, 1, 0, 0, 0, 0, 0, 0, 0, b'a', 0, 0, 0, 0, 0, 0, 0, 0,
    ];
    assert_eq!(leaves, expected);
}

#[test]
fn root_leaves_get_the_next_index_once() {
    let mut leaves = RootLeaves::new();
    leaves.add_leaf(b"m".to_vec());
    let ops = collect_ops(vec![
        insert(&[], "z", tree()),
        insert(&[], "a", tree()),
        insert(&[], "m", tree()),
    ]);
    let mut application = BatchApplication::new(ops, leaves);
    assert!(matches!(application.proceed(), Action::Done));
    let leaves = RootLeaves::deserialize(&application.finish().unwrap()).unwrap();
    let all: Vec<(&[u8], usize)> = (0..leaves.len()).map(|i| leaves.get(i)).collect();
    // operations are taken from the back
    assert_eq!(
        all,
        vec![(&b"a"[..], 2), (&b"m"[..], 0), (&b"z"[..], 1)]
    );
}

#[test]
fn overwritten_subtrees_are_cleared() {
    let (trace, _) = run(application(vec![delete(&["a"], "b")]), &[&["a", "b"]]);
    assert_eq!(
        trace,
        vec!["open a", "get a/b", "clear a/b", "delete a/b", "hash a"]
    );
}

#[test]
fn subtrees_are_opened_one_after_the_other() {
    let (trace, _) = run(
        application(vec![
            insert(&["a"], "k", item("v")),
            insert(&["b"], "k", item("v")),
        ]),
        &[],
    );
    assert_eq!(
        trace,
        vec![
            "open b",
            "get b/k",
            "insert b/k item",
            "hash b",
            "open a",
            "get a/k",
            "insert a/k item",
            "hash a",
        ]
    );
}

#[test]
fn operations_never_go_back() {
    let (trace, _) = run(
        application(vec![
            insert(&["a", "b", "c"], "k", item("v")),
            insert(&["a", "x"], "k", item("v")),
            insert(&["b", "b"], "k", item("v")),
            delete(&["a", "b"], "z"),
            insert(&["a"], "b", tree()),
        ]),
        &[],
    );
    for (i, step) in trace.iter().enumerate() {
        if let Some(path) = step.strip_prefix("hash ") {
            let opened = format!("open {}", path);
            assert_eq!(trace.iter().filter(|step| **step == opened).count(), 1);
            assert!(!trace[i..].contains(&opened));
        }
    }
    assert_eq!(trace.last().unwrap(), "hash a");
    assert_eq!(trace.iter().filter(|step| step.starts_with("hash")).count(), 6);
}

#[test]
fn clearing_goes_back_to_an_overwritten_subtree() {
    let (trace, _) = run(
        application(vec![insert(&["a", "b"], "k", item("v"))]),
        &[&["a", "b"]],
    );
    assert_eq!(
        trace,
        vec![
            "open a/b",
            "get a/b/k",
            "insert a/b/k item",
            "hash a/b",
            "open a",
            "get a/b",
            "clear a/b",
            "insert a/b tree 1",
            "hash a",
        ]
    );
}

#[test]
fn every_operation_is_performed_once() {
    let (trace, _) = run(
        application(vec![
            insert(&["a", "b"], "k", item("v")),
            delete(&["a", "b"], "l"),
            insert(&["a"], "x", item("v")),
            insert(&[], "r", tree()),
        ]),
        &[&["a", "b", "l"]],
    );
    let mut written: Vec<&String> = trace
        .iter()
        .filter(|step| step.starts_with("insert") || step.starts_with("delete"))
        .collect();
    written.sort();
    // the operations in subtrees, and the root hash of `a/b` on its way up
    assert_eq!(
        written,
        vec![
            "delete a/b/l",
            "insert a/b tree 1",
            "insert a/b/k item",
            "insert a/x item",
        ]
    );
    let hashed: Vec<&String> = trace
        .iter()
        .filter(|step| step.starts_with("hash"))
        .collect();
    assert_eq!(hashed, vec!["hash a/b", "hash a"]);
}

#[test]
fn batches_settle_the_root_leaves() {
    let mut leaves = RootLeaves::new();
    leaves.add_leaf(b"old".to_vec());
    leaves.add_leaf(b"kept".to_vec());
    let ops = collect_ops(vec![
        insert(&["under", "b"], "k", item("v")),
        insert(&["old"], "k", item("v")),
        insert(&[], "at", tree()),
    ]);
    let (trace, bytes) = run(BatchApplication::new(ops, leaves), &[]);
    assert!(trace.iter().all(|step| step != "open " && step != "clear "));
    let leaves = RootLeaves::deserialize(&bytes).unwrap();
    let all: Vec<(&[u8], usize)> = (0..leaves.len()).map(|i| leaves.get(i)).collect();
    assert_eq!(
        all,
        vec![
            (&b"at"[..], 3),
            (&b"kept"[..], 1),
            (&b"old"[..], 0),
            (&b"under"[..], 2),
        ]
    );
}

#[test]
fn application_errors_are_passed_on() {
    let ops = || vec![insert(&["a"], "k", item("v"))];

    let mut failing = application(ops());
    failing.proceed();
    assert!(matches!(
        failing.subtree_opened(Err(Error::CorruptedData("cannot open a subtree".to_string()))),
        Err(Error::CorruptedData(message)) if message == "cannot open a subtree"
    ));

    let mut failing = application(ops());
    failing.proceed();
    failing.subtree_opened(Ok(())).unwrap();
    assert!(matches!(
        failing.element_read(Err(Error::CyclicReference)),
        Err(Error::CyclicReference)
    ));

    let mut failing = application(ops());
    failing.proceed();
    failing.subtree_opened(Ok(())).unwrap();
    failing.element_read(Ok(tree())).unwrap();
    assert!(matches!(
        failing.subtree_cleared(Ok(false)),
        Err(Error::InternalError("cannot clear a Merk"))
    ));
    assert!(matches!(
        failing.subtree_cleared(Err(Error::ReferenceLimit)),
        Err(Error::ReferenceLimit)
    ));

    let mut failing = application(ops());
    failing.proceed();
    failing.subtree_opened(Ok(())).unwrap();
    failing.element_read(Ok(item("old"))).unwrap();
    assert!(matches!(
        failing.element_written(Err(Error::NotSupported("no"))),
        Err(Error::NotSupported("no"))
    ));
}

#[test]
fn missing_paths_are_no_error_when_writing() {
    let mut writing = application(vec![delete(&["a"], "k")]);
    writing.proceed();
    writing.subtree_opened(Ok(())).unwrap();
    match writing.element_read(Err(Error::PathNotFound("gone"))).unwrap() {
        Action::DeleteElement { path: p, key } => {
            assert_eq!(p, path(&["a"]));
            assert_eq!(key, b"k".to_vec());
        }
        other => panic!("unexpected action {:?}", other),
    }
}
