use minigit::codec::deflate;
use minigit::delta::{encode_delta, DeltaOp};
use minigit::error::Error;
use minigit::object::{ObjectKind, ObjectStore};
use minigit::pack::{
    attempt_error_recovery, check_inflated, parse_pack_object, parse_record_prefix,
    process_pack_objects, read_pack_header, unpack_packfile, PackObjectType,
};
use minigit::pktline::encode_pkt_line;
use minigit::vli::{encode_ofs_vli, encode_record_header};

fn record(code: u8, between: &[u8], data: &[u8]) -> Vec<u8> {
    let mut out = encode_record_header(code, data.len() as u64);
    out.extend_from_slice(between);
    out.extend(deflate(data).unwrap());
    out
}

fn pack_of(count: u32, records: &[Vec<u8>]) -> Vec<u8> {
    let mut out = b"PACK\x00\x00\x00\x02".to_vec();
    out.extend_from_slice(&count.to_be_bytes());
    for r in records {
        out.extend_from_slice(r);
    }
    // the digest at the end is not looked at
    out.extend_from_slice(&[0xee; 20]);
    out
}

fn id_of(kind: ObjectKind, content: &[u8]) -> Vec<u8> {
    ObjectStore::new().put_raw(kind, content).unwrap()
}

fn raw_id(hex_id: &[u8]) -> Vec<u8> {
    hex::decode(hex_id).unwrap()
}

#[test]
fn pack_with_three_objects() {
    let pack = pack_of(
        3,
        &[
            record(3, b"", b"first blob\n"),
            record(2, b"", b""),
            record(1, b"", b"tree 4b825dc642cb6eb9a060e54bf8d69288fbee4904\n\nmsg\n"),
        ],
    );
    assert_eq!(read_pack_header(&pack), Ok(3));
    let mut store = ObjectStore::new();
    let report = unpack_packfile(&mut store, &pack).unwrap();
    assert_eq!(report.object_count, 3);
    assert_eq!(report.parsed, 3);
    assert_eq!(report.stored, 3);
    assert_eq!(report.skipped, 0);
    // the twenty bytes of the digest are left
    assert_eq!(report.scanned, pack.len() - 20);
    assert_eq!(store.len(), 3);
    let blob = id_of(ObjectKind::Blob, b"first blob\n");
    assert_eq!(store.get_content(&blob), Ok((ObjectKind::Blob, b"first blob\n".to_vec())));
    assert_eq!(
        store.get_content(b"4b825dc642cb6eb9a060e54bf8d69288fbee4904"),
        Ok((ObjectKind::Tree, Vec::new()))
    );
    let commit = id_of(ObjectKind::Commit, b"tree 4b825dc642cb6eb9a060e54bf8d69288fbee4904\n\nmsg\n");
    assert!(store.contains(&commit));
}

#[test]
fn pack_inside_a_side_band() {
    let pack = pack_of(1, &[record(3, b"", b"banded")]);
    let mut response = b"0008NAK\n".to_vec();
    let (head, tail) = pack.split_at(10);
    for part in [head, tail] {
        let mut frame = vec![1u8];
        frame.extend_from_slice(part);
        response.extend(encode_pkt_line(&frame));
    }
    response.extend(encode_pkt_line(b"\x02Total 1\n"));
    response.extend_from_slice(b"0000");
    let mut store = ObjectStore::new();
    let report = unpack_packfile(&mut store, &response).unwrap();
    assert_eq!((report.parsed, report.stored), (1, 1));
    assert!(store.contains(&id_of(ObjectKind::Blob, b"banded")));
}

#[test]
fn record_is_read_with_its_length() {
    let mut data = record(3, b"", b"hello");
    let length = data.len();
    data.extend_from_slice(b"what follows");
    let found = parse_pack_object(&data).unwrap();
    assert!(matches!(found.kind, PackObjectType::Blob));
    assert_eq!(found.kind.as_str(), "blob");
    assert_eq!(found.kind.object_kind(), Some(ObjectKind::Blob));
    assert_eq!(found.declared, 5);
    assert_eq!(found.data, b"hello".to_vec());
    assert_eq!(found.consumed, length);
}

#[test]
fn delta_records_carry_their_base() {
    let base = id_of(ObjectKind::Blob, b"base");
    let by_id = record(7, &raw_id(&base), b"\x04\x00");
    let found = parse_pack_object(&by_id).unwrap();
    match &found.kind {
        PackObjectType::RefDelta(id) => assert_eq!(id, &base),
        other => panic!("unexpected kind {:?}", other),
    }
    assert_eq!(found.kind.as_str(), "unknown");
    assert_eq!(found.kind.object_kind(), None);
    let by_offset = record(6, &encode_ofs_vli(300), b"\x04\x00");
    let (kind, declared, body_at) = parse_record_prefix(&by_offset).unwrap();
    assert!(matches!(kind, PackObjectType::OfsDelta(300)));
    assert_eq!(declared, 2);
    assert_eq!(body_at, 3);
}

#[test]
fn tag_and_unknown_kinds_are_refused() {
    assert_eq!(parse_pack_object(&record(4, b"", b"tag")).map(|r| r.consumed), Err(Error::UnsupportedTag));
    assert_eq!(parse_pack_object(&record(0, b"", b"x")).map(|r| r.consumed), Err(Error::UnknownKind));
    assert_eq!(parse_pack_object(&record(5, b"", b"x")).map(|r| r.consumed), Err(Error::UnknownKind));
    assert_eq!(parse_pack_object(b"").map(|r| r.consumed), Err(Error::TruncatedInput));
    // a delta by identity with fewer than twenty bytes behind its header
    assert_eq!(parse_pack_object(&[0x72, 1, 2, 3]).map(|r| r.consumed), Err(Error::TruncatedInput));
    assert_eq!(parse_pack_object(&[0x35, 0, 1, 2]).map(|r| r.consumed), Err(Error::CodecCorrupt));
}

#[test]
fn inflated_length_may_be_off_by_a_thousand() {
    let stream = deflate(&vec![b'z'; 1500]).unwrap();
    for (declared, ok) in [(1500u64, true), (500, true), (2500, true), (499, false), (2501, false)] {
        let mut data = encode_record_header(3, declared);
        data.extend_from_slice(&stream);
        let found = parse_pack_object(&data).map(|r| r.data.len());
        if ok {
            assert_eq!(found, Ok(1500));
        } else {
            assert_eq!(found, Err(Error::SizeMismatch));
        }
    }
    let found = check_inflated(PackObjectType::Tree, 10, 2, Ok((vec![1; 1010], 7))).unwrap();
    assert_eq!((found.declared, found.data.len(), found.consumed), (10, 1010, 9));
    assert_eq!(
        check_inflated(PackObjectType::Tree, 10, 2, Ok((vec![1; 1011], 7))).map(|r| r.consumed),
        Err(Error::SizeMismatch)
    );
    assert_eq!(
        check_inflated(PackObjectType::Tree, 10, 2, Err(Error::CodecCorrupt)).map(|r| r.consumed),
        Err(Error::CodecCorrupt)
    );
}

#[test]
fn delta_by_identity_takes_the_kind_of_its_base() {
    let base_content = b"tree 4b825dc642cb6eb9a060e54bf8d69288fbee4904\n\nfirst\n";
    let base = id_of(ObjectKind::Commit, base_content);
    let ops = vec![
        DeltaOp::Copy { offset: 0, size: 47 },
        DeltaOp::Insert { data: b"second\n".to_vec() },
    ];
    let delta = encode_delta(base_content.len() as u64, &ops).unwrap();
    // the delta stands before its base
    let pack = pack_of(2, &[record(7, &raw_id(&base), &delta), record(1, b"", base_content)]);
    let mut store = ObjectStore::new();
    let report = unpack_packfile(&mut store, &pack).unwrap();
    assert_eq!((report.parsed, report.stored, report.skipped), (2, 2, 0));
    let target = b"tree 4b825dc642cb6eb9a060e54bf8d69288fbee4904\n\nsecond\n";
    let id = id_of(ObjectKind::Commit, target);
    assert_eq!(store.get_content(&id), Ok((ObjectKind::Commit, target.to_vec())));
}

#[test]
fn delta_by_identity_without_its_base_fails() {
    let absent = id_of(ObjectKind::Blob, b"not in the pack");
    let delta = encode_delta(15, &vec![DeltaOp::Insert { data: b"x".to_vec() }]).unwrap();
    let pack = pack_of(2, &[record(3, b"", b"present"), record(7, &raw_id(&absent), &delta)]);
    let mut store = ObjectStore::new();
    // the base in the store does not help: bases are looked up in the pack
    store.put_raw(ObjectKind::Blob, b"not in the pack").unwrap();
    assert_eq!(unpack_packfile(&mut store, &pack), Err(Error::UnresolvedBase));
    // what the first pass stored stays
    assert!(store.contains(&id_of(ObjectKind::Blob, b"present")));
}

#[test]
fn delta_by_offset_and_chains() {
    let first = record(2, b"", b"0123456789");
    let one = encode_delta(10, &vec![DeltaOp::Copy { offset: 5, size: 5 }]).unwrap();
    let second = record(6, &encode_ofs_vli(first.len() as u64), &one);
    let two = encode_delta(
        5,
        &vec![DeltaOp::Copy { offset: 0, size: 5 }, DeltaOp::Insert { data: b"!".to_vec() }],
    )
    .unwrap();
    let third = record(6, &encode_ofs_vli(second.len() as u64), &two);
    let pack = pack_of(3, &[first, second, third]);
    let mut store = ObjectStore::new();
    let report = unpack_packfile(&mut store, &pack).unwrap();
    assert_eq!((report.parsed, report.stored, report.skipped), (3, 3, 0));
    assert!(store.contains(&id_of(ObjectKind::Tree, b"0123456789")));
    assert!(store.contains(&id_of(ObjectKind::Tree, b"56789")));
    assert_eq!(
        store.get_content(&id_of(ObjectKind::Tree, b"56789!")),
        Ok((ObjectKind::Tree, b"56789!".to_vec()))
    );
}

#[test]
fn delta_by_offset_without_its_base_is_passed_over() {
    let first = record(3, b"", b"0123456789");
    let one = encode_delta(10, &vec![DeltaOp::Copy { offset: 0, size: 1 }]).unwrap();
    // one byte too far back, and once before the start of the pack
    let astray = record(6, &encode_ofs_vli(first.len() as u64 + 1), &one);
    let beyond = record(6, &encode_ofs_vli(1 << 40), &one);
    let pack = pack_of(3, &[first, astray, beyond]);
    let mut store = ObjectStore::new();
    let report = unpack_packfile(&mut store, &pack).unwrap();
    assert_eq!((report.parsed, report.stored, report.skipped), (3, 1, 2));
    assert_eq!(store.len(), 1);
}

#[test]
fn delta_that_cannot_be_applied_fails() {
    let first = record(3, b"", b"0123456789");
    let bad = record(6, &encode_ofs_vli(first.len() as u64), &[10, 1, 0x91, 20, 1]);
    let pack = pack_of(2, &[first, bad]);
    let mut store = ObjectStore::new();
    assert_eq!(unpack_packfile(&mut store, &pack), Err(Error::DeltaOutOfRange));
}

#[test]
fn header_of_a_pack() {
    assert_eq!(read_pack_header(b"PACK\x00\x00\x00\x02\x00\x00\x01\x02"), Ok(258));
    assert_eq!(read_pack_header(b"PACK\x00\x00\x00\x03\x00\x00\x00\x00"), Err(Error::UnsupportedVersion));
    assert_eq!(read_pack_header(b"PACK\x00\x00\x00\x02\x00\x00"), Err(Error::BadPackHeader));
    assert_eq!(read_pack_header(b"KCAP\x00\x00\x00\x02\x00\x00\x00\x00"), Err(Error::BadPackHeader));
    let mut store = ObjectStore::new();
    assert_eq!(unpack_packfile(&mut store, b"xxPACK\x00\x00"), Err(Error::BadPackHeader));
    assert_eq!(
        unpack_packfile(&mut store, b"PACK\x00\x00\x00\x01\x00\x00\x00\x00"),
        Err(Error::UnsupportedVersion)
    );
    assert_eq!(unpack_packfile(&mut store, b"nothing"), Err(Error::BadPackHeader));
}

#[test]
fn fewer_records_than_declared() {
    let pack = pack_of(5, &[record(3, b"", b"only one")]);
    let mut store = ObjectStore::new();
    let report = unpack_packfile(&mut store, &pack).unwrap();
    assert_eq!(report.object_count, 5);
    assert_eq!((report.parsed, report.stored, report.skipped), (1, 1, 0));
}

#[test]
fn more_records_than_declared_are_left_alone() {
    let pack = pack_of(1, &[record(3, b"", b"counted"), record(3, b"", b"not counted")]);
    let mut store = ObjectStore::new();
    let report = process_pack_objects(&mut store, &pack, 1).unwrap();
    assert_eq!((report.parsed, report.stored), (1, 1));
    assert!(!store.contains(&id_of(ObjectKind::Blob, b"not counted")));
}

#[test]
fn recovery_finds_the_next_record() {
    let good = record(3, b"", b"after the damage");
    // a header of kind 5 cannot be read; the record behind it can
    let mut records = vec![0x50u8, 0x51];
    records.extend_from_slice(&good);
    let pack = pack_of(1, &[records]);
    let (at, found) = attempt_error_recovery(&pack, 12).unwrap();
    assert_eq!(at, 14);
    assert_eq!(found.data, b"after the damage".to_vec());
    let mut store = ObjectStore::new();
    let report = unpack_packfile(&mut store, &pack).unwrap();
    assert_eq!((report.parsed, report.stored), (1, 1));
    assert!(store.contains(&id_of(ObjectKind::Blob, b"after the damage")));
}

#[test]
fn recovery_gives_up_and_a_tag_is_final() {
    let mut garbage = vec![0x50u8; 40];
    garbage.extend_from_slice(&[0xee; 20]);
    assert!(attempt_error_recovery(&garbage, 0).is_none());
    assert!(attempt_error_recovery(b"short", 0).is_none());
    let pack = pack_of(1, &[vec![0x50u8; 40]]);
    let mut store = ObjectStore::new();
    assert_eq!(unpack_packfile(&mut store, &pack), Err(Error::UnknownKind));
    let tagged = pack_of(2, &[record(4, b"", b"a tag that is long enough"), record(3, b"", b"blob")]);
    assert_eq!(unpack_packfile(&mut store, &tagged), Err(Error::UnsupportedTag));
    assert_eq!(store.len(), 0);
}
