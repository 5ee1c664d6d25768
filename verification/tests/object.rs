use minigit::codec::{deflate, inflate, is_valid_identity};
use minigit::error::{Error, ErrorClass};
use minigit::object::{
    canonical_form, create_file_hash, loose_path, parse_object, read_blob, read_tree_object,
    write_blob, ObjectKind, ObjectStore,
};

const HELLO: &[u8] = b"hello world\n";
const HELLO_ID: &[u8] = b"3b18e512dba79e4c8300dd08aeb37f8e728b8dad";

#[test]
fn canonical_form_of_a_blob() {
    assert_eq!(canonical_form(ObjectKind::Blob, HELLO), b"blob 12\0hello world\n".to_vec());
    assert_eq!(canonical_form(ObjectKind::Tree, b""), b"tree 0\0".to_vec());
    assert_eq!(canonical_form(ObjectKind::Commit, b"x"), b"commit 1\0x".to_vec());
}

#[test]
fn identity_is_the_digest_of_the_canonical_form() {
    let mut store = ObjectStore::new();
    let id = store.put_raw(ObjectKind::Blob, HELLO).unwrap();
    assert_eq!(id, HELLO_ID.to_vec());
    let digest = sha1_smol::Sha1::from(b"blob 12\0hello world\n").digest().to_string();
    assert_eq!(id, digest.into_bytes());
    assert!(is_valid_identity(&id));
}

#[test]
fn empty_blob_and_empty_tree_have_their_known_identities() {
    let mut store = ObjectStore::new();
    assert_eq!(
        store.put_raw(ObjectKind::Blob, b"").unwrap(),
        b"e69de29bb2d1d6434b8b29ae775ad8c2e48c5391".to_vec()
    );
    assert_eq!(
        store.put_raw(ObjectKind::Tree, b"").unwrap(),
        b"4b825dc642cb6eb9a060e54bf8d69288fbee4904".to_vec()
    );
}

#[test]
fn get_content_after_put_raw_gives_kind_and_content() {
    let contents: [&[u8]; 4] = [b"", b"a", b"with\0nul and space \n", &[0xff; 300]];
    for kind in [ObjectKind::Commit, ObjectKind::Tree, ObjectKind::Blob] {
        for content in contents {
            let mut store = ObjectStore::new();
            let id = store.put_raw(kind, content).unwrap();
            assert_eq!(store.get_content(&id), Ok((kind, content.to_vec())));
            assert_eq!(store.get(&id), Ok(canonical_form(kind, content)));
        }
    }
}

#[test]
fn put_twice_leaves_the_file_as_it_was() {
    let mut store = ObjectStore::new();
    let raw = canonical_form(ObjectKind::Blob, HELLO);
    let first = store.put(&raw).unwrap();
    let file = store.file(&first).unwrap().clone();
    assert_eq!(store.len(), 1);
    let second = store.put(&raw).unwrap();
    assert_eq!(first, second);
    assert_eq!(store.len(), 1);
    assert_eq!(store.file(&second), Some(&file));
}

#[test]
fn stored_file_is_the_deflated_canonical_form() {
    let mut store = ObjectStore::new();
    let id = store.put_raw(ObjectKind::Blob, HELLO).unwrap();
    let file = store.file(&id).unwrap();
    assert_ne!(file.as_slice(), &b"blob 12\0hello world\n"[..]);
    // a zlib stream starts with 0x78
    assert_eq!(file[0], 0x78);
    let (raw, used) = inflate(file).unwrap();
    assert_eq!(raw, b"blob 12\0hello world\n".to_vec());
    assert_eq!(used, file.len());
    assert_eq!(store.entry(0).id, id);
    assert_eq!(&store.entry(0).file, file);
}

#[test]
fn hash_object_round_trip() {
    let mut store = ObjectStore::new();
    assert_eq!(create_file_hash(&mut store, HELLO, false), Ok(HELLO_ID.to_vec()));
    assert_eq!(store.len(), 0);
    assert_eq!(create_file_hash(&mut store, HELLO, true), Ok(HELLO_ID.to_vec()));
    assert_eq!(store.len(), 1);
    let (dir, file) = loose_path(HELLO_ID).unwrap();
    assert_eq!(dir, b"3b".to_vec());
    assert_eq!(file, b"18e512dba79e4c8300dd08aeb37f8e728b8dad".to_vec());
    assert_eq!(store.get(HELLO_ID), Ok(b"blob 12\0hello world\n".to_vec()));
}

#[test]
fn cat_file_reads_type_size_and_content() {
    let mut store = ObjectStore::new();
    create_file_hash(&mut store, HELLO, true).unwrap();
    let (kind, size, content) = read_blob(&store, HELLO_ID).unwrap();
    assert_eq!(kind, ObjectKind::Blob);
    assert_eq!(kind.as_str(), "blob");
    assert_eq!(kind.name_bytes(), b"blob".to_vec());
    assert_eq!(size, 12);
    assert_eq!(content, HELLO.to_vec());
}

#[test]
fn kind_names() {
    assert_eq!(ObjectKind::Commit.as_str(), "commit");
    assert_eq!(ObjectKind::Tree.as_str(), "tree");
    assert_eq!(ObjectKind::Commit.name_bytes(), b"commit".to_vec());
    assert_eq!(ObjectKind::Tree.name_bytes(), b"tree".to_vec());
}

#[test]
fn missing_object() {
    let store = ObjectStore::new();
    assert_eq!(store.get(HELLO_ID), Err(Error::ObjectMissing));
    assert_eq!(store.get_content(HELLO_ID), Err(Error::ObjectMissing));
    assert_eq!(read_blob(&store, HELLO_ID), Err(Error::ObjectMissing));
    assert!(!store.contains(HELLO_ID));
    assert_eq!(store.file(HELLO_ID), None);
}

#[test]
fn identity_of_wrong_length() {
    let store = ObjectStore::new();
    assert_eq!(read_blob(&store, b"abc"), Err(Error::InvalidIdentity));
    assert_eq!(read_tree_object(&store, b""), Err(Error::InvalidIdentity));
    assert_eq!(loose_path(b"3b18"), Err(Error::InvalidIdentity));
    assert_eq!(
        loose_path(b"3B18E512DBA79E4C8300DD08AEB37F8E728B8DAD"),
        Err(Error::InvalidIdentity)
    );
    assert!(!is_valid_identity(b"3b18e512dba79e4c8300dd08aeb37f8e728b8daz"));
}

#[test]
fn corrupt_file_is_a_codec_failure() {
    let mut store = ObjectStore::new();
    assert_eq!(store.insert_file(HELLO_ID, b"not a zlib stream".to_vec()), Ok(true));
    assert_eq!(store.get(HELLO_ID), Err(Error::CodecCorrupt));
    assert_eq!(read_blob(&store, HELLO_ID), Err(Error::CodecCorrupt));
    assert_eq!(Error::CodecCorrupt.class(), ErrorClass::CodecCorrupt);
    assert_eq!(inflate(b""), Err(Error::CodecCorrupt));
}

#[test]
fn insert_file_is_write_once() {
    let mut store = ObjectStore::new();
    let good = deflate(b"blob 1\0a").unwrap();
    assert_eq!(store.insert_file(HELLO_ID, good.clone()), Ok(true));
    assert_eq!(store.insert_file(HELLO_ID, b"other".to_vec()), Ok(false));
    assert_eq!(store.file(HELLO_ID), Some(&good));
    assert_eq!(store.insert_file(b"xyz", good), Err(Error::InvalidIdentity));
    assert_eq!(store.len(), 1);
}

#[test]
fn header_must_be_kind_space_digits() {
    assert_eq!(parse_object(b"blob 3\0abc"), Ok((ObjectKind::Blob, 3, b"abc".to_vec())));
    // the declared length is reported as it stands
    assert_eq!(parse_object(b"tree 007\0"), Ok((ObjectKind::Tree, 7, Vec::new())));
    for raw in [
        &b"blob 3abc"[..],
        b"blob\0abc",
        b"blob \0abc",
        b"blob  3\0abc",
        b"blob 3 \0abc",
        b"blob +3\0abc",
        b"blob 3x\0abc",
        b"tag 3\0abc",
        b"Blob 3\0abc",
        b" blob 3\0abc",
        b"blob 99999999999999999999999\0abc",
        b"",
    ] {
        assert_eq!(parse_object(raw), Err(Error::MalformedObject));
    }
}

#[test]
fn malformed_object_in_the_store() {
    let mut store = ObjectStore::new();
    let id = store.put(b"no header here").unwrap();
    assert_eq!(store.get(&id), Ok(b"no header here".to_vec()));
    assert_eq!(store.get_content(&id), Err(Error::MalformedObject));
    assert_eq!(read_blob(&store, &id), Err(Error::MalformedObject));
}

#[test]
fn read_tree_object_wants_a_tree() {
    let mut store = ObjectStore::new();
    let blob = store.put_raw(ObjectKind::Blob, b"x").unwrap();
    let tree = store.put_raw(ObjectKind::Tree, b"").unwrap();
    assert_eq!(read_tree_object(&store, &blob), Err(Error::MalformedObject));
    assert_eq!(read_tree_object(&store, &tree), Ok((ObjectKind::Tree, 0, Vec::new())));
}

#[test]
fn write_blob_keeps_data_under_the_given_identity() {
    let mut store = ObjectStore::new();
    assert_eq!(write_blob(&mut store, b"blob 12\0hello world\n", HELLO_ID), Ok(()));
    assert_eq!(read_blob(&store, HELLO_ID), Ok((ObjectKind::Blob, 12, HELLO.to_vec())));
    assert_eq!(write_blob(&mut store, b"blob 1\0a", HELLO_ID), Ok(()));
    assert_eq!(read_blob(&store, HELLO_ID), Ok((ObjectKind::Blob, 12, HELLO.to_vec())));
    assert_eq!(write_blob(&mut store, b"blob 1\0a", b"short"), Err(Error::InvalidIdentity));
    assert_eq!(store.len(), 1);
}

#[test]
fn deflate_then_inflate() {
    let data = b"aaaaaaaaaaaaaaaaaaaaaaaaaaaaaaaaaaaaaaaaaaaabbbbbbbbbbbbbbbbbbbbbbbb".to_vec();
    let stream = deflate(&data).unwrap();
    assert!(stream.len() < data.len());
    let mut followed = stream.clone();
    followed.extend_from_slice(b"trailing bytes");
    assert_eq!(inflate(&followed), Ok((data, stream.len())));
    assert_eq!(inflate(&stream[..stream.len() - 1]), Err(Error::CodecCorrupt));
}

#[test]
fn error_classes() {
    assert_eq!(Error::ObjectMissing.class(), ErrorClass::Io);
    assert_eq!(Error::NoHead.class(), ErrorClass::Protocol);
    assert_eq!(Error::RemoteFailure.class(), ErrorClass::Protocol);
    assert_eq!(Error::UnsupportedTag.class(), ErrorClass::PackMalformed);
    assert_eq!(Error::TruncatedInput.class(), ErrorClass::PackMalformed);
    assert_eq!(Error::UnresolvedBase.class(), ErrorClass::UnresolvedBase);
    assert_eq!(Error::DeltaOutOfRange.class(), ErrorClass::DeltaCorrupt);
    assert_eq!(Error::MalformedObject.class(), ErrorClass::MalformedObject);
    assert_eq!(Error::InvalidArguments.class(), ErrorClass::Usage);
}
