use minigit::checkout::{checkout_files, checkout_tree, CheckoutStep};
use minigit::commit::commit_tree_at;
use minigit::error::Error;
use minigit::object::{create_file_hash, ObjectKind, ObjectStore};
use minigit::tree::{write_tree, TreeEntry};

fn tree_entry(mode: &str, name: &str, hash: &[u8]) -> TreeEntry {
    TreeEntry { mode: mode.as_bytes().to_vec(), name: name.as_bytes().to_vec(), hash: hash.to_vec() }
}

fn commit(store: &mut ObjectStore, tree: &[u8]) -> Vec<u8> {
    let args = vec![tree.to_vec(), b"-m".to_vec(), b"msg".to_vec()];
    commit_tree_at(store, &args, b"n", b"e", 1, 0).unwrap()
}

fn describe(steps: &[CheckoutStep]) -> Vec<String> {
    steps
        .iter()
        .map(|s| match s {
            CheckoutStep::MakeDir { path } => format!("dir {}", String::from_utf8_lossy(path)),
            CheckoutStep::WriteFile { path, content, executable } => format!(
                "file {} {:?} {}",
                String::from_utf8_lossy(path),
                String::from_utf8_lossy(content),
                executable
            ),
        })
        .collect()
}

#[test]
fn single_file_at_the_top() {
    let mut store = ObjectStore::new();
    let blob = create_file_hash(&mut store, b"X\n", true).unwrap();
    let tree = write_tree(&mut store, vec![tree_entry("100644", "README.md", &blob)]).unwrap();
    let head = commit(&mut store, &tree);
    let steps = checkout_files(&store, &head).unwrap();
    assert_eq!(describe(&steps), vec!["file README.md \"X\\n\" false"]);
    match &steps[0] {
        CheckoutStep::WriteFile { content, .. } => assert_eq!(content.len(), 2),
        _ => panic!("a file was expected"),
    }
}

#[test]
fn directories_come_before_what_they_hold() {
    let mut store = ObjectStore::new();
    let a = create_file_hash(&mut store, b"a", true).unwrap();
    let run = create_file_hash(&mut store, b"#!/bin/sh\n", true).unwrap();
    let inner = write_tree(&mut store, vec![tree_entry("100755", "run.sh", &run)]).unwrap();
    let middle = write_tree(
        &mut store,
        vec![tree_entry("40000", "bin", &inner), tree_entry("100644", "a.txt", &a)],
    )
    .unwrap();
    let top = write_tree(
        &mut store,
        vec![tree_entry("100644", "z", &a), tree_entry("40000", "src", &middle), tree_entry("120000", "link", &a)],
    )
    .unwrap();
    let head = commit(&mut store, &top);
    let steps = checkout_files(&store, &head).unwrap();
    assert_eq!(
        describe(&steps),
        vec![
            "file link \"a\" false",
            "dir src",
            "file src/a.txt \"a\" false",
            "dir src/bin",
            "file src/bin/run.sh \"#!/bin/sh\\n\" true",
            "file z \"a\" false",
        ]
    );
}

#[test]
fn empty_tree_gives_an_empty_plan() {
    let mut store = ObjectStore::new();
    let tree = write_tree(&mut store, Vec::new()).unwrap();
    let head = commit(&mut store, &tree);
    assert_eq!(checkout_files(&store, &head).map(|s| s.len()), Ok(0));
}

#[test]
fn missing_objects_fail_the_plan() {
    let mut store = ObjectStore::new();
    let absent = b"e69de29bb2d1d6434b8b29ae775ad8c2e48c5391";
    assert_eq!(checkout_files(&store, absent).map(|s| s.len()), Err(Error::ObjectMissing));
    let tree = write_tree(&mut store, vec![tree_entry("100644", "gone", absent)]).unwrap();
    let head = commit(&mut store, &tree);
    assert_eq!(checkout_files(&store, &head).map(|s| s.len()), Err(Error::ObjectMissing));
    let headless = commit(&mut store, absent);
    assert_eq!(checkout_files(&store, &headless).map(|s| s.len()), Err(Error::ObjectMissing));
}

#[test]
fn tree_must_be_a_tree() {
    let mut store = ObjectStore::new();
    let blob = create_file_hash(&mut store, b"not a tree", true).unwrap();
    let head = commit(&mut store, &blob);
    assert_eq!(checkout_files(&store, &head).map(|s| s.len()), Err(Error::MalformedObject));
    let broken = store.put_raw(ObjectKind::Tree, b"100644 cut short").unwrap();
    let head = commit(&mut store, &broken);
    assert_eq!(checkout_files(&store, &head).map(|s| s.len()), Err(Error::MalformedObject));
    let no_tree = store.put_raw(ObjectKind::Commit, b"author x\n\nmsg\n").unwrap();
    assert_eq!(checkout_files(&store, &no_tree).map(|s| s.len()), Err(Error::MalformedObject));
}

#[test]
fn nesting_is_bounded() {
    let mut store = ObjectStore::new();
    let blob = create_file_hash(&mut store, b"deep", true).unwrap();
    let inner = write_tree(&mut store, vec![tree_entry("100644", "f", &blob)]).unwrap();
    let outer = write_tree(&mut store, vec![tree_entry("40000", "d", &inner)]).unwrap();
    let mut steps = Vec::new();
    assert_eq!(checkout_tree(&store, &outer, b"", 0, &mut steps), Err(Error::TreeTooDeep));
    assert_eq!(checkout_tree(&store, &outer, b"", 1, &mut steps), Err(Error::TreeTooDeep));
    let mut steps = Vec::new();
    assert_eq!(checkout_tree(&store, &outer, b"root", 2, &mut steps), Ok(()));
    assert_eq!(describe(&steps), vec!["dir root/d", "file root/d/f \"deep\" false"]);
}
