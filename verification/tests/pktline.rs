use minigit::error::Error;
use minigit::pktline::{
    decode_sideband_data, encode_pkt_line, find_pack_start, read_frame_length, read_pkt_length,
};

fn frame(channel: u8, payload: &[u8]) -> Vec<u8> {
    let mut body = vec![channel];
    body.extend_from_slice(payload);
    encode_pkt_line(&body)
}

#[test]
fn pkt_line_of_done() {
    assert_eq!(encode_pkt_line(b"done\n"), b"0009done\n".to_vec());
    assert_eq!(encode_pkt_line(b""), b"0004".to_vec());
    assert_eq!(encode_pkt_line(&[b'a'; 251]), {
        let mut v = b"00ff".to_vec();
        v.extend_from_slice(&[b'a'; 251]);
        v
    });
}

#[test]
fn pkt_line_longer_than_four_digits_hold() {
    let line = vec![b'x'; 0x10000];
    let out = encode_pkt_line(&line);
    assert_eq!(&out[..5], b"10004");
    assert_eq!(out.len(), 5 + 0x10000);
}

#[test]
fn pkt_length_digits() {
    assert_eq!(read_pkt_length(b"0009done\n", 0), Some(9));
    assert_eq!(read_pkt_length(b"fFf0", 0), Some(0xfff0));
    assert_eq!(read_pkt_length(b"xx0000", 2), Some(0));
    assert_eq!(read_pkt_length(b"000", 0), None);
    assert_eq!(read_pkt_length(b"+001", 0), None);
    assert_eq!(read_pkt_length(b"00g1", 0), None);
    assert_eq!(read_pkt_length(b"0001", 1), None);
}

#[test]
fn pack_signature_is_found_first_to_last_place() {
    assert_eq!(find_pack_start(b"PACK"), Ok(0));
    assert_eq!(find_pack_start(b"0008NAK\nPACKxxPACK"), Ok(8));
    assert_eq!(find_pack_start(b"PACPACK"), Ok(3));
    assert_eq!(find_pack_start(b"PAC"), Err(Error::BadPackHeader));
    assert_eq!(find_pack_start(b""), Err(Error::BadPackHeader));
    assert_eq!(find_pack_start(b"pack PAC K"), Err(Error::BadPackHeader));
}

#[test]
fn bare_pack_is_taken_as_it_is() {
    let data = b"PACK\x00\x00\x00\x02\x00\x00\x00\x000008NAK\n".to_vec();
    let out = decode_sideband_data(&data).unwrap();
    assert_eq!(out.pack, data);
    assert_eq!(out.progress, Vec::<u8>::new());
    assert_eq!(out.failure, None);
}

#[test]
fn side_band_is_taken_apart() {
    let mut data = b"0008NAK\n".to_vec();
    data.extend(frame(2, b"Counting objects: 3\n"));
    data.extend(frame(1, b"PACK\x00\x00"));
    data.extend(frame(2, b"done.\n"));
    data.extend(frame(1, b"\x00\x02rest"));
    data.extend_from_slice(b"0000");
    let out = decode_sideband_data(&data).unwrap();
    // the acknowledgment is no side-band frame and stays in front of the pack
    assert_eq!(out.pack, b"NAK\nPACK\x00\x00\x00\x02rest".to_vec());
    assert_eq!(out.progress, b"Counting objects: 3\ndone.\n".to_vec());
    assert_eq!(out.failure, None);
    assert_eq!(find_pack_start(&out.pack), Ok(4));
}

#[test]
fn channel_three_ends_everything() {
    let mut data = b"0008NAK\n".to_vec();
    data.extend(frame(1, b"PACK"));
    data.extend(frame(2, b"working\n"));
    data.extend(frame(3, b"fatal: out of memory\n"));
    data.extend(frame(1, b"never looked at"));
    data.extend(frame(3, b"nor this"));
    let out = decode_sideband_data(&data).unwrap();
    assert_eq!(out.failure, Some(b"fatal: out of memory\n".to_vec()));
    assert_eq!(out.pack, b"NAK\nPACK".to_vec());
    assert_eq!(out.progress, b"working\n".to_vec());
    let mut store = minigit::object::ObjectStore::new();
    assert_eq!(minigit::pack::unpack_packfile(&mut store, &data), Err(Error::RemoteFailure));
}

#[test]
fn response_without_pack_is_refused() {
    assert_eq!(decode_sideband_data(b"0008NAK\n0000").map(|d| d.pack), Err(Error::BadPackHeader));
    assert_eq!(decode_sideband_data(b"").map(|d| d.pack), Err(Error::BadPackHeader));
}

#[test]
fn unframed_bytes_are_kept() {
    // "zz" is no length; a length that reaches over the end is none either
    let mut data = b"zz".to_vec();
    data.extend(frame(1, b"PACK"));
    data.extend_from_slice(b"0100ab");
    let out = decode_sideband_data(&data).unwrap();
    assert_eq!(out.pack, b"zzPACK0100ab".to_vec());
}

#[test]
fn empty_frames_and_flushes_are_passed_over() {
    let mut data = b"00000004".to_vec();
    data.extend(frame(1, b"PACK"));
    data.extend_from_slice(b"0005\x01");
    let out = decode_sideband_data(&data).unwrap();
    assert_eq!(out.pack, b"PACK".to_vec());
}

#[test]
fn frame_lengths() {
    assert_eq!(read_frame_length(b"0000rest", 0), Some(4));
    assert_eq!(read_frame_length(b"0004rest", 0), Some(4));
    assert_eq!(read_frame_length(b"0008NAK\n", 0), Some(8));
    // lengths below four, over the end, and over the limit are no frames
    assert_eq!(read_frame_length(b"0003abc", 0), None);
    assert_eq!(read_frame_length(b"0009NAK\n", 0), None);
    let mut long = b"fff1".to_vec();
    long.resize(0xfff1, 0);
    assert_eq!(read_frame_length(&long, 0), None);
    long[3] = b'0';
    assert_eq!(read_frame_length(&long, 0), Some(0xfff0));
    assert_eq!(read_frame_length(b"", 0), None);
}
