use minigit::delta::{apply_delta, encode_delta, DeltaOp};
use minigit::error::Error;

const BASE: &[u8] = b"The quick brown fox";

#[test]
fn copy_whole_base_then_insert() {
    // base size 19, result size 24, copy(offset 0, size 19), insert "umps\n"
    let delta = [19, 24, 0x90, 19, 5, b'u', b'm', b'p', b's', b'\n'];
    let out = apply_delta(BASE, &delta).unwrap();
    assert_eq!(out, b"The quick brown foxumps\n".to_vec());
    assert_eq!(out.len(), 24);
}

#[test]
fn declared_result_size_must_match() {
    let delta = [19, 23, 0x90, 19, 5, b'u', b'm', b'p', b's', b'\n'];
    assert_eq!(apply_delta(BASE, &delta), Err(Error::ResultSizeMismatch));
}

#[test]
fn copy_with_offset_and_size_bytes() {
    // copy(offset 4, size 5) = "quick": opcode 0x80 | 0x01 | 0x10
    let delta = [19, 5, 0x91, 4, 5];
    assert_eq!(apply_delta(BASE, &delta), Ok(b"quick".to_vec()));
}

#[test]
fn copy_size_zero_means_65536() {
    let base = vec![7u8; 65536 + 3];
    // 65536 + 3 = 0x10003 -> 0x83 0x80 0x04 ; 65536 -> 0x80 0x80 0x04
    let delta = [0x83, 0x80, 0x04, 0x80, 0x80, 0x04, 0x81, 3];
    let out = apply_delta(&base, &delta).unwrap();
    assert_eq!(out.len(), 65536);
    assert!(out.iter().all(|b| *b == 7));
}

#[test]
fn copy_offset_uses_all_four_bytes() {
    let mut base = vec![0u8; 0x0102_0304 + 2];
    base[0x0102_0304] = 0xaa;
    base[0x0102_0305] = 0xbb;
    let mut delta = minigit::vli::encode_size_vli(base.len() as u64);
    delta.extend_from_slice(&[2, 0x9f, 0x04, 0x03, 0x02, 0x01, 2]);
    assert_eq!(apply_delta(&base, &delta), Ok(vec![0xaa, 0xbb]));
}

#[test]
fn empty_script_gives_empty_target() {
    assert_eq!(apply_delta(BASE, &[19, 0]), Ok(Vec::new()));
}

#[test]
fn reserved_opcode_is_refused() {
    assert_eq!(apply_delta(BASE, &[19, 0, 0x00]), Err(Error::InvalidDeltaOpcode));
}

#[test]
fn copy_outside_base_is_refused() {
    assert_eq!(apply_delta(BASE, &[19, 5, 0x91, 15, 5]), Err(Error::DeltaOutOfRange));
    assert_eq!(apply_delta(BASE, &[19, 4, 0x91, 15, 4]), Ok(b" fox".to_vec()));
}

#[test]
fn truncated_delta_is_refused() {
    assert_eq!(apply_delta(BASE, &[]), Err(Error::TruncatedInput));
    assert_eq!(apply_delta(BASE, &[19]), Err(Error::TruncatedInput));
    assert_eq!(apply_delta(BASE, &[19, 0x80]), Err(Error::TruncatedInput));
    // a copy that announces an operand which is not there
    assert_eq!(apply_delta(BASE, &[19, 5, 0x91, 4]), Err(Error::TruncatedInput));
    // an insertion of three bytes with two present
    assert_eq!(apply_delta(BASE, &[19, 3, 3, b'a', b'b']), Err(Error::TruncatedInput));
}

#[test]
fn oversized_size_is_refused() {
    let mut delta = vec![0x80u8; 10];
    delta.push(0x80);
    delta.push(0x00);
    assert_eq!(apply_delta(BASE, &delta), Err(Error::IntegerOverflow));
}

#[test]
fn encoded_script_applies_to_its_target() {
    let ops = vec![
        DeltaOp::Copy { offset: 10, size: 9 },
        DeltaOp::Insert { data: b" jumps over ".to_vec() },
        DeltaOp::Copy { offset: 0, size: 9 },
        DeltaOp::Insert { data: b"!".to_vec() },
    ];
    let delta = encode_delta(BASE.len() as u64, &ops).unwrap();
    // sizes 19 and 31, then the four instructions
    assert_eq!(&delta[..2], &[19, 31]);
    assert_eq!(&delta[2..5], &[0x91, 10, 9]);
    let out = apply_delta(BASE, &delta).unwrap();
    assert_eq!(out, b"brown fox jumps over The quick!".to_vec());
    assert_eq!(out.len(), 31);
}

#[test]
fn encoded_copy_leaves_zero_bytes_out() {
    let ops = vec![DeltaOp::Copy { offset: 0x0001_0000, size: 0x0001_0000 }];
    let delta = encode_delta(0x0002_0000, &ops).unwrap();
    // 0x20000 -> 0x80 0x80 0x08 ; 0x10000 -> 0x80 0x80 0x04 ; opcode 0x80|0x04|0x40
    assert_eq!(delta, vec![0x80, 0x80, 0x08, 0x80, 0x80, 0x04, 0xc4, 0x01, 0x01]);
    let base = vec![1u8; 0x0002_0000];
    assert_eq!(apply_delta(&base, &delta).unwrap().len(), 0x0001_0000);
}

#[test]
fn script_that_cannot_be_encoded() {
    assert_eq!(encode_delta(5, &vec![DeltaOp::Copy { offset: 0, size: 0 }]), None);
    assert_eq!(encode_delta(5, &vec![DeltaOp::Copy { offset: 0, size: 0x0100_0000 }]), None);
    assert_eq!(encode_delta(5, &vec![DeltaOp::Insert { data: Vec::new() }]), None);
    assert_eq!(encode_delta(5, &vec![DeltaOp::Insert { data: vec![0; 128] }]), None);
    assert_eq!(encode_delta(5, &Vec::new()), Some(vec![5, 0]));
}
