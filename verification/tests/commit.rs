use minigit::commit::{
    build_commit, commit_tree, commit_tree_at, format_timestamp, parse_args, parse_commit_tree,
    trim, CommitArgs,
};
use minigit::error::Error;
use minigit::object::{ObjectKind, ObjectStore};

const TREE: &str = "4b825dc642cb6eb9a060e54bf8d69288fbee4904";
const PARENT: &str = "20d0f3ed7f014a71c4fa2f9303c90f109def9e06";

fn args(list: &[&str]) -> Vec<Vec<u8>> {
    list.iter().map(|a| a.as_bytes().to_vec()).collect()
}

#[test]
fn tree_of_a_commit() {
    let raw = format!("commit 80\0tree {TREE}\nparent {PARENT}\nauthor a <a@b> 1 +00:00\n\nmsg\n");
    assert_eq!(parse_commit_tree(raw.as_bytes()), Ok(TREE.as_bytes().to_vec()));
}

#[test]
fn tree_line_need_not_be_first_and_is_trimmed() {
    let raw = format!("commit 1\0author x\r\ntree   {TREE} \t\r\ntree other\n");
    assert_eq!(parse_commit_tree(raw.as_bytes()), Ok(TREE.as_bytes().to_vec()));
    assert_eq!(parse_commit_tree(b"c\0tree last"), Ok(b"last".to_vec()));
    assert_eq!(parse_commit_tree(b"c\0tree "), Ok(Vec::new()));
}

#[test]
fn commit_without_tree_or_header() {
    assert_eq!(parse_commit_tree(b"commit 3\0abc\ntreex\n"), Err(Error::MalformedObject));
    assert_eq!(parse_commit_tree(b"tree abc\n"), Err(Error::MalformedObject));
    assert_eq!(parse_commit_tree(b"commit 0\0"), Err(Error::MalformedObject));
    assert_eq!(parse_commit_tree(b""), Err(Error::MalformedObject));
}

#[test]
fn white_space_is_trimmed() {
    assert_eq!(trim(b"  a b \n"), b"a b".to_vec());
    assert_eq!(trim(b" \t\r\n"), Vec::<u8>::new());
    assert_eq!(trim(b""), Vec::<u8>::new());
    assert_eq!(trim(b"x"), b"x".to_vec());
}

#[test]
fn arguments_with_and_without_parent() {
    let found = parse_args(&args(&[TREE, "-m", "first"])).unwrap();
    assert_eq!(found.tree, TREE.as_bytes().to_vec());
    assert_eq!(found.parent, None);
    assert_eq!(found.message, b"first".to_vec());
    let found = parse_args(&args(&[TREE, "-p", PARENT, "-m", "second"])).unwrap();
    assert_eq!(found.parent, Some(PARENT.as_bytes().to_vec()));
    assert_eq!(found.message, b"second".to_vec());
    // what follows the message is not looked at
    let found = parse_args(&args(&[TREE, "-m", "msg", "-p", PARENT])).unwrap();
    assert_eq!((found.parent, found.message), (None, b"msg".to_vec()));
}

#[test]
fn arguments_that_do_not_follow_the_usage() {
    for bad in [
        &[][..],
        &[TREE],
        &[TREE, "-m"],
        &[TREE, "-p", PARENT],
        &[TREE, "-p", PARENT, "-m"],
        &[TREE, "-x", "msg"],
        &[TREE, "msg", "-m"],
        &[TREE, "-p", PARENT, "-m", "msg", "more"],
        &[TREE, "-p", PARENT, "x", "msg"],
    ] {
        assert_eq!(parse_args(&args(bad)).map(|a| a.message), Err(Error::InvalidArguments));
    }
}

#[test]
fn timestamps() {
    assert_eq!(format_timestamp(1756208876, 19800), b"1756208876 +05:30".to_vec());
    assert_eq!(format_timestamp(0, 0), b"0 +00:00".to_vec());
    assert_eq!(format_timestamp(1755991527, -28800), b"1755991527 -08:00".to_vec());
    assert_eq!(format_timestamp(-1, -1), b"-1 -00:00:01".to_vec());
    assert_eq!(format_timestamp(5, 3661), b"5 +01:01:01".to_vec());
    assert_eq!(format_timestamp(i64::MIN, i32::MIN), b"-9223372036854775808 -596523:14:08".to_vec());
    assert_eq!(format_timestamp(i64::MAX, i32::MAX), b"9223372036854775807 +596523:14:07".to_vec());
}

#[test]
fn content_of_a_commit() {
    let root = CommitArgs { tree: TREE.as_bytes().to_vec(), parent: None, message: b"init".to_vec() };
    let expected = format!(
        "tree {TREE}\nauthor A U Thor <a@example.com> 1 +00:00\ncommitter A U Thor <a@example.com> 1 +00:00\n\ninit\n"
    );
    assert_eq!(build_commit(&root, b"A U Thor", b"a@example.com", b"1 +00:00"), expected.into_bytes());
    let child = CommitArgs {
        tree: TREE.as_bytes().to_vec(),
        parent: Some(PARENT.as_bytes().to_vec()),
        message: b"next".to_vec(),
    };
    let expected = format!(
        "tree {TREE}\nparent {PARENT}\nauthor n <e> t\ncommitter n <e> t\n\nnext\n"
    );
    assert_eq!(build_commit(&child, b"n", b"e", b"t"), expected.into_bytes());
}

#[test]
fn commit_written_at_a_given_time() {
    let mut store = ObjectStore::new();
    let id = commit_tree_at(&mut store, &args(&[TREE, "-m", "init"]), b"n", b"e", 1700000000, 3600).unwrap();
    let content = format!("tree {TREE}\nauthor n <e> 1700000000 +01:00\ncommitter n <e> 1700000000 +01:00\n\ninit\n");
    assert_eq!(store.get_content(&id), Ok((ObjectKind::Commit, content.clone().into_bytes())));
    let raw = format!("commit {}\0{}", content.len(), content);
    assert_eq!(id, sha1_smol::Sha1::from(raw.as_bytes()).digest().to_string().into_bytes());
    assert_eq!(parse_commit_tree(&store.get(&id).unwrap()), Ok(TREE.as_bytes().to_vec()));
    assert_eq!(
        commit_tree_at(&mut store, &args(&[TREE]), b"n", b"e", 0, 0),
        Err(Error::InvalidArguments)
    );
    assert_eq!(store.len(), 1);
}

#[test]
fn commit_written_now() {
    let mut store = ObjectStore::new();
    let id = commit_tree(&mut store, &args(&[TREE, "-p", PARENT, "-m", "now"]), b"n", b"e").unwrap();
    let (kind, content) = store.get_content(&id).unwrap();
    assert_eq!(kind, ObjectKind::Commit);
    let text = String::from_utf8(content).unwrap();
    assert!(text.starts_with(&format!("tree {TREE}\nparent {PARENT}\nauthor n <e> ")));
    assert!(text.ends_with("\n\nnow\n"));
    assert_eq!(commit_tree(&mut store, &args(&["-m"]), b"n", b"e"), Err(Error::InvalidArguments));
}
