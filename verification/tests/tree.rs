use minigit::error::Error;
use minigit::object::{ObjectKind, ObjectStore};
use minigit::tree::{
    get_mode_for_file, name_precedes, parse_tree_content, sort_entries, tree_content, write_tree,
    FileKind, TreeEntry,
};

const EMPTY_BLOB: &[u8] = b"e69de29bb2d1d6434b8b29ae775ad8c2e48c5391";
const EMPTY_TREE: &[u8] = b"4b825dc642cb6eb9a060e54bf8d69288fbee4904";

fn entry(mode: &str, name: &str, hash: &[u8]) -> TreeEntry {
    TreeEntry { mode: mode.as_bytes().to_vec(), name: name.as_bytes().to_vec(), hash: hash.to_vec() }
}

fn names(entries: &[TreeEntry]) -> Vec<String> {
    entries.iter().map(|e| String::from_utf8(e.name.clone()).unwrap()).collect()
}

#[test]
fn entries_of_a_tree_are_read() {
    let mut content = b"100644 a.txt\0".to_vec();
    content.extend_from_slice(&[0x11; 20]);
    content.extend_from_slice(b"40000 dir\0");
    content.extend_from_slice(&[0x22; 20]);
    let entries = parse_tree_content(&content).unwrap();
    assert_eq!(
        entries,
        vec![
            (b"100644".to_vec(), b"a.txt".to_vec(), vec![0x11; 20]),
            (b"40000".to_vec(), b"dir".to_vec(), vec![0x22; 20]),
        ]
    );
    assert_eq!(parse_tree_content(b""), Ok(Vec::new()));
}

#[test]
fn name_may_hold_spaces_and_identity_may_hold_anything() {
    let mut content = b"100644 a b c\0".to_vec();
    content.extend_from_slice(&[0x00, 0x20, 0x00, 0x20, 0, 0, 0, 0, 0, 0, 0, 0, 0, 0, 0, 0, 0, 0, 0, 1]);
    let entries = parse_tree_content(&content).unwrap();
    assert_eq!(entries.len(), 1);
    assert_eq!(entries[0].1, b"a b c".to_vec());
    assert_eq!(entries[0].2[19], 1);
}

#[test]
fn broken_trees_are_refused() {
    assert_eq!(parse_tree_content(b"100644"), Err(Error::MalformedObject));
    assert_eq!(parse_tree_content(b"100644 name"), Err(Error::MalformedObject));
    assert_eq!(parse_tree_content(b"100644 name\0short"), Err(Error::MalformedObject));
    let mut content = b"100644 a\0".to_vec();
    content.extend_from_slice(&[0x11; 20]);
    content.push(b'x');
    assert_eq!(parse_tree_content(&content), Err(Error::MalformedObject));
}

#[test]
fn order_of_names() {
    assert!(name_precedes(b"", b""));
    assert!(name_precedes(b"", b"a"));
    assert!(!name_precedes(b"a", b""));
    assert!(name_precedes(b"a", b"a"));
    assert!(name_precedes(b"a", b"ab"));
    assert!(!name_precedes(b"ab", b"a"));
    assert!(name_precedes(b"Z", b"a"));
    assert!(name_precedes(b"a.txt", b"a/"));
    assert!(!name_precedes(&[0xff], &[0x7f]));
}

#[test]
fn entries_are_sorted_by_name() {
    let sorted = sort_entries(vec![
        entry("100644", "b", EMPTY_BLOB),
        entry("100644", "a", EMPTY_BLOB),
        entry("40000", "c", EMPTY_TREE),
        entry("100644", "B", EMPTY_BLOB),
        entry("100644", "ab", EMPTY_BLOB),
    ]);
    assert_eq!(names(&sorted), vec!["B", "a", "ab", "b", "c"]);
    assert_eq!(sort_entries(Vec::new()).len(), 0);
}

#[test]
fn entries_of_one_name_keep_their_order() {
    let sorted = sort_entries(vec![
        entry("100644", "x", EMPTY_BLOB),
        entry("40000", "x", EMPTY_TREE),
        entry("120000", "a", EMPTY_BLOB),
    ]);
    assert_eq!(names(&sorted), vec!["a", "x", "x"]);
    assert_eq!(sorted[1].mode, b"100644".to_vec());
    assert_eq!(sorted[2].mode, b"40000".to_vec());
}

#[test]
fn content_of_a_tree() {
    let content = tree_content(&vec![entry("100644", "f", EMPTY_BLOB)]).unwrap();
    let mut expected = b"100644 f\0".to_vec();
    expected.extend_from_slice(&hex::decode(EMPTY_BLOB).unwrap());
    assert_eq!(content, expected);
    assert_eq!(expected[9..12], [0xe6, 0x9d, 0xe2]);
}

#[test]
fn written_tree_reads_back() {
    let mut store = ObjectStore::new();
    let id = write_tree(
        &mut store,
        vec![entry("40000", "sub", EMPTY_TREE), entry("100644", "README.md", EMPTY_BLOB)],
    )
    .unwrap();
    let (kind, content) = store.get_content(&id).unwrap();
    assert_eq!(kind, ObjectKind::Tree);
    let entries = parse_tree_content(&content).unwrap();
    assert_eq!(entries.len(), 2);
    assert_eq!(entries[0].1, b"README.md".to_vec());
    assert_eq!(entries[1].0, b"40000".to_vec());
    assert_eq!(hex::encode(&entries[1].2).into_bytes(), EMPTY_TREE.to_vec());
}

#[test]
fn tree_without_entries_is_the_empty_tree() {
    let mut store = ObjectStore::new();
    assert_eq!(write_tree(&mut store, Vec::new()), Ok(EMPTY_TREE.to_vec()));
}

#[test]
fn tree_with_one_empty_file_has_its_known_identity() {
    // `git mktree` of "100644 blob e69de29... \ta"
    let mut store = ObjectStore::new();
    let id = write_tree(&mut store, vec![entry("100644", "a", EMPTY_BLOB)]).unwrap();
    let mut raw = b"tree 29\0100644 a\0".to_vec();
    raw.extend_from_slice(&hex::decode(EMPTY_BLOB).unwrap());
    assert_eq!(id, sha1_smol::Sha1::from(&raw).digest().to_string().into_bytes());
}

#[test]
fn identity_of_an_entry_must_be_forty_hex_digits() {
    let mut store = ObjectStore::new();
    for bad in [&b"e69de2"[..], b"", b"e69de29bb2d1d6434b8b29ae775ad8c2e48c539", b"z69de29bb2d1d6434b8b29ae775ad8c2e48c5391"] {
        assert_eq!(write_tree(&mut store, vec![entry("100644", "a", bad)]), Err(Error::InvalidIdentity));
    }
    assert_eq!(store.len(), 0);
    // digits of either case spell the same bytes
    let upper = b"E69DE29BB2D1D6434B8B29AE775AD8C2E48C5391";
    assert_eq!(
        tree_content(&vec![entry("100644", "a", upper)]),
        tree_content(&vec![entry("100644", "a", EMPTY_BLOB)])
    );
}

#[test]
fn modes_of_directory_entries() {
    assert_eq!(get_mode_for_file(FileKind::Directory), b"40000".to_vec());
    assert_eq!(get_mode_for_file(FileKind::Symlink), b"120000".to_vec());
    assert_eq!(get_mode_for_file(FileKind::File), b"100644".to_vec());
}
