use minigit::error::Error;
use minigit::vli::{
    decode_record_header, decode_size_vli, encode_ofs_vli, encode_record_header, encode_size_vli,
    read_ofs_delta_offset,
};

#[test]
fn size_vli_single_byte() {
    assert_eq!(decode_size_vli(&[0x13], 0), Ok((19, 1)));
    assert_eq!(encode_size_vli(19), vec![0x13]);
}

#[test]
fn size_vli_two_bytes() {
    // 300 = 0b10_0101100: low group 0x2c with the continuation bit, then 2.
    assert_eq!(encode_size_vli(300), vec![0xac, 0x02]);
    assert_eq!(decode_size_vli(&[0xac, 0x02, 0xff], 0), Ok((300, 2)));
}

#[test]
fn size_vli_round_trip_on_chosen_values() {
    for n in [0u64, 1, 127, 128, 16383, 16384, 65536, u32::MAX as u64, u64::MAX - 1, u64::MAX] {
        let bytes = encode_size_vli(n);
        assert!(bytes.len() <= 10);
        assert_eq!(decode_size_vli(&bytes, 0), Ok((n, bytes.len())));
    }
}

#[test]
fn size_vli_truncated() {
    assert_eq!(decode_size_vli(&[], 0), Err(Error::TruncatedInput));
    assert_eq!(decode_size_vli(&[0x80], 0), Err(Error::TruncatedInput));
    assert_eq!(decode_size_vli(&[0x01], 1), Err(Error::TruncatedInput));
}

#[test]
fn size_vli_overflow_on_eleventh_byte() {
    let bytes = [0x80u8; 11];
    assert_eq!(decode_size_vli(&bytes, 0), Err(Error::IntegerOverflow));
    let mut ten = vec![0x80u8; 9];
    ten.push(0x01);
    assert_eq!(decode_size_vli(&ten, 0), Ok((1u64 << 63, 10)));
}

#[test]
fn record_header_blob_of_five_bytes() {
    // kind 3 in bits 6..4, size 5 in bits 3..0
    assert_eq!(decode_record_header(&[0x35], 0), Ok((3, 5, 1)));
    assert_eq!(encode_record_header(3, 5), vec![0x35]);
}

#[test]
fn record_header_with_continuation() {
    // size 0x123 = 291: low four bits 3, then 0x12 at shift 4
    assert_eq!(encode_record_header(1, 291), vec![0x93, 0x12]);
    assert_eq!(decode_record_header(&[0x93, 0x12], 0), Ok((1, 291, 2)));
}

#[test]
fn record_header_round_trip_on_chosen_values() {
    for code in 0u8..8 {
        for size in [0u64, 15, 16, 4095, 1 << 20, u64::MAX] {
            let bytes = encode_record_header(code, size);
            assert_eq!(decode_record_header(&bytes, 0), Ok((code, size, bytes.len())));
        }
    }
}

#[test]
fn ofs_vli_known_values() {
    assert_eq!(read_ofs_delta_offset(&[0x05], 0), Ok((5, 1)));
    // ((0 + 1) << 7) | 0 = 128
    assert_eq!(read_ofs_delta_offset(&[0x80, 0x00], 0), Ok((128, 2)));
    // ((1 + 1) << 7) | 0x7f = 383
    assert_eq!(read_ofs_delta_offset(&[0x81, 0x7f], 0), Ok((383, 2)));
    assert_eq!(encode_ofs_vli(128), vec![0x80, 0x00]);
    assert_eq!(encode_ofs_vli(383), vec![0x81, 0x7f]);
}

#[test]
fn ofs_vli_round_trip_on_chosen_values() {
    for n in [0u64, 1, 127, 128, 255, 16511, 16512, 1 << 32, u64::MAX / 2, u64::MAX] {
        let bytes = encode_ofs_vli(n);
        assert_eq!(read_ofs_delta_offset(&bytes, 0), Ok((n, bytes.len())));
    }
}

#[test]
fn ofs_vli_truncated_and_overflow() {
    assert_eq!(read_ofs_delta_offset(&[], 0), Err(Error::TruncatedInput));
    assert_eq!(read_ofs_delta_offset(&[0xff], 0), Err(Error::TruncatedInput));
    let bytes = [0xffu8; 12];
    assert_eq!(read_ofs_delta_offset(&bytes, 0), Err(Error::IntegerOverflow));
}
