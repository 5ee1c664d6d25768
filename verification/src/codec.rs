//! Hashing, compression and hexadecimal text, as the crates `sha1_smol`,
//! `flate2` and `hex` provide them, and the local clock of `chrono`.
//!
//! The functions marked `external_body` are believed, not proved: each says
//! in its comment what it takes from the crate behind it.

use crate::error::Error;
use std::io::Read;
use std::io::Write;
use vstd::prelude::*;

verus! {

/// The SHA-1 digest of `data` as forty lowercase hexadecimal digits.
pub uninterp spec fn sha1_hex(data: Seq<u8>) -> Seq<u8>;

/// What inflating the zlib stream at the start of `data` gives: the content,
/// and how many bytes of `data` the stream takes up. `None` where `data` does
/// not start with a whole and sound stream.
pub uninterp spec fn zlib_inflated(data: Seq<u8>) -> Option<(Seq<u8>, int)>;

/// The zlib stream that deflating `data` at the default level gives, where
/// the compressor succeeds.
pub uninterp spec fn zlib_deflated(data: Seq<u8>) -> Option<Seq<u8>>;

/// Whether a byte is one of `0`..`9` and `a`..`f`.
pub open spec fn is_lower_hex(b: u8) -> bool {
    (0x30 <= b <= 0x39) || (0x61 <= b <= 0x66)
}

/// Whether a byte string is an identity: forty lowercase hexadecimal digits.
pub open spec fn is_identity(id: Seq<u8>) -> bool {
    id.len() == 40 && forall|i: int| 0 <= i < 40 ==> is_lower_hex(#[trigger] id[i])
}

/// The lowercase hexadecimal digit for a value below sixteen.
pub open spec fn hex_digit(v: int) -> u8 {
    if v < 10 {
        (0x30 + v) as u8
    } else {
        (0x61 + v - 10) as u8
    }
}

/// The lowercase hexadecimal text of a byte string, two digits a byte.
pub open spec fn hex_text(bytes: Seq<u8>) -> Seq<u8> {
    Seq::new(
        2 * bytes.len(),
        |i: int|
            if i % 2 == 0 {
                hex_digit(bytes[i / 2] as int / 16)
            } else {
                hex_digit(bytes[i / 2] as int % 16)
            },
    )
}

/// Whether a byte is a hexadecimal digit of either case.
pub open spec fn is_hex(b: u8) -> bool {
    (0x30 <= b <= 0x39) || (0x61 <= b <= 0x66) || (0x41 <= b <= 0x46)
}

/// The value of a hexadecimal digit of either case.
pub open spec fn hex_digit_value(b: u8) -> int {
    if 0x30 <= b <= 0x39 {
        b - 0x30
    } else if 0x61 <= b <= 0x66 {
        b - 0x61 + 10
    } else {
        b - 0x41 + 10
    }
}

/// The bytes that hexadecimal text spells; `None` where the text has an odd
/// length or holds anything but hexadecimal digits.
pub open spec fn hex_bytes(text: Seq<u8>) -> Option<Seq<u8>> {
    if text.len() % 2 == 0 && forall|i: int| 0 <= i < text.len() ==> is_hex(#[trigger] text[i]) {
        Some(
            Seq::new(
                text.len() / 2,
                |i: int|
                    (hex_digit_value(text[2 * i]) * 16 + hex_digit_value(text[2 * i + 1])) as u8,
            ),
        )
    } else {
        None
    }
}

/// `sha1_smol::Sha1`: one `update` with `data`, then `digest`, written as
/// text. The text is the digest's five words in eight lowercase hexadecimal
/// digits each.
#[verifier::external_body]
pub(crate) fn sha1_text(data: &[u8]) -> (id: Vec<u8>)
    ensures
        id@ == sha1_hex(data@),
        is_identity(id@),
{
    let mut hasher = sha1_smol::Sha1::new();
    hasher.update(data);
    hasher.digest().to_string().into_bytes()
}

/// `flate2::read::ZlibDecoder` over `data`, read to its end, with the count
/// of `total_in`: the decoder stops at the end of the first zlib stream and
/// counts only bytes that it took from `data`. A stream that is cut short or
/// unsound gives `None`.
#[verifier::external_body]
pub(crate) fn zlib_read(data: &[u8]) -> (r: Option<(Vec<u8>, usize)>)
    ensures
        match r {
            Some((content, used)) => zlib_inflated(data@) == Some((content@, used as int)) && used
                <= data.len(),
            None => zlib_inflated(data@) is None,
        },
{
    let mut decoder = flate2::read::ZlibDecoder::new(data);
    let mut content = Vec::new();
    match decoder.read_to_end(&mut content) {
        Ok(_) => Some((content, decoder.total_in() as usize)),
        Err(_) => None,
    }
}

/// `flate2::write::ZlibEncoder` at `Compression::default()`: `write_all` of
/// `data`, then `finish`. What it gives is a zlib stream that inflates to
/// `data` again.
#[verifier::external_body]
pub(crate) fn zlib_write(data: &[u8]) -> (r: Option<Vec<u8>>)
    ensures
        match r {
            Some(stream) => zlib_deflated(data@) == Some(stream@) && (zlib_inflated(stream@)
                matches Some(back) && back.0 == data@),
            None => zlib_deflated(data@) is None,
        },
{
    let mut encoder = flate2::write::ZlibEncoder::new(Vec::new(), flate2::Compression::default());
    match encoder.write_all(data) {
        Ok(_) => match encoder.finish() {
            Ok(stream) => Some(stream),
            Err(_) => None,
        },
        Err(_) => None,
    }
}

/// `hex::encode`: two lowercase digits for each byte, the high half first.
#[verifier::external_body]
pub(crate) fn hex_encode(bytes: &[u8]) -> (text: Vec<u8>)
    ensures
        text@ == hex_text(bytes@),
{
    hex::encode(bytes).into_bytes()
}

/// `hex::decode`: the bytes that pairs of digits of either case spell; an
/// error on an odd length or on any other character.
#[verifier::external_body]
pub(crate) fn hex_decode(text: &[u8]) -> (r: Option<Vec<u8>>)
    ensures
        match r {
            Some(bytes) => hex_bytes(text@) == Some(bytes@),
            None => hex_bytes(text@) is None,
        },
{
    match hex::decode(text) {
        Ok(bytes) => Some(bytes),
        Err(_) => None,
    }
}

/// `chrono::Local::now`: the seconds since the epoch and the local offset
/// from UTC in seconds, as the clock and the time zone of the machine have
/// them at the call.
#[verifier::external_body]
pub(crate) fn local_now() -> (r: (i64, i32)) {
    let now = chrono::Local::now();
    (now.timestamp(), now.offset().local_minus_utc())
}

/// What inflating gives, as a result of the library.
pub open spec fn inflate_spec(data: Seq<u8>) -> Result<(Seq<u8>, int), Error> {
    match zlib_inflated(data) {
        Some(found) => Ok(found),
        None => Err(Error::CodecCorrupt),
    }
}

/// Inflates the zlib stream at the start of `data` and says how many bytes
/// of `data` it took up. Fails with `CodecCorrupt` where there is no sound
/// stream.
pub fn inflate(data: &[u8]) -> (r: Result<(Vec<u8>, usize), Error>)
    ensures
        match r {
            Ok((content, used)) => inflate_spec(data@) == Ok::<(Seq<u8>, int), Error>(
                (content@, used as int),
            ) && used <= data.len(),
            Err(e) => inflate_spec(data@) == Err::<(Seq<u8>, int), Error>(e),
        },
{
    match zlib_read(data) {
        Some(found) => Ok(found),
        None => Err(Error::CodecCorrupt),
    }
}

/// What deflating gives, as a result of the library.
pub open spec fn deflate_spec(data: Seq<u8>) -> Result<Seq<u8>, Error> {
    match zlib_deflated(data) {
        Some(stream) => Ok(stream),
        None => Err(Error::CodecFailure),
    }
}

/// Deflates `data` into a zlib stream. Fails with `CodecFailure` where the
/// compressor does. A stream that comes back inflates to `data`.
pub fn deflate(data: &[u8]) -> (r: Result<Vec<u8>, Error>)
    ensures
        match r {
            Ok(stream) => deflate_spec(data@) == Ok::<Seq<u8>, Error>(stream@) && (inflate_spec(
                stream@,
            ) matches Ok(back) && back.0 == data@),
            Err(e) => deflate_spec(data@) == Err::<Seq<u8>, Error>(e),
        },
{
    match zlib_write(data) {
        Some(stream) => Ok(stream),
        None => Err(Error::CodecFailure),
    }
}

/// Whether a byte string is an identity.
pub fn is_valid_identity(id: &[u8]) -> (ok: bool)
    ensures
        ok == is_identity(id@),
{
    if id.len() != 40 {
        return false;
    }
    let mut i: usize = 0;
    while i < 40
        invariant
            id.len() == 40,
            i <= 40,
            forall|j: int| 0 <= j < i ==> is_lower_hex(#[trigger] id@[j]),
        decreases 40 - i,
    {
        let b: u8 = id[i];
        if !((0x30 <= b && b <= 0x39) || (0x61 <= b && b <= 0x66)) {
            return false;
        }
        i = i + 1;
    }
    true
}

} // verus!
