//! Pkt-line framing and the side-band that carries a packfile.
//!
//! A pkt-line starts with four hexadecimal digits that give its whole length,
//! those four bytes included; `0000` is a flush packet. Within the response
//! to a fetch, the first payload byte of each line names a channel: 1 carries
//! the packfile, 2 carries progress text, 3 carries the text of a fatal
//! error, after which nothing counts.

use crate::bytes::{has_at, matches_at, push_all};
use crate::codec::{hex_digit, hex_digit_value, is_hex};
use crate::error::Error;
use vstd::prelude::*;

verus! {

/// The hexadecimal numeral of `n` in lowercase, without leading zeros.
pub open spec fn hex_numeral(n: nat) -> Seq<u8>
    decreases n,
{
    if n < 16 {
        seq![hex_digit(n as int)]
    } else {
        hex_numeral(n / 16).push(hex_digit((n % 16) as int))
    }
}

/// A numeral brought to four digits by zeros in front; longer ones stay.
pub open spec fn four_wide(numeral: Seq<u8>) -> Seq<u8> {
    if numeral.len() >= 4 {
        numeral
    } else {
        Seq::new((4 - numeral.len()) as nat, |i: int| 0x30u8) + numeral
    }
}

/// A payload framed as one pkt-line.
pub open spec fn pkt_line(payload: Seq<u8>) -> Seq<u8> {
    four_wide(hex_numeral(payload.len() + 4)) + payload
}

/// Appends the hexadecimal numeral of `n`.
fn push_hex(out: &mut Vec<u8>, n: u128)
    ensures
        final(out)@ == old(out)@ + hex_numeral(n as nat),
    decreases n,
{
    if n >= 16 {
        push_hex(out, n / 16);
    }
    let v: u8 = (n % 16) as u8;
    let digit: u8 = if v < 10 {
        0x30 + v
    } else {
        0x61 + (v - 10)
    };
    out.push(digit);
    assert(out@ =~= old(out)@ + hex_numeral(n as nat));
}

/// Frames a payload as one pkt-line: its length plus four in at least four
/// hexadecimal digits, then the payload.
pub fn encode_pkt_line(line: &[u8]) -> (out: Vec<u8>)
    ensures
        out@ == pkt_line(line@),
{
    let mut numeral: Vec<u8> = Vec::new();
    push_hex(&mut numeral, line.len() as u128 + 4);
    assert(numeral@ =~= hex_numeral(line@.len() + 4));
    let mut out: Vec<u8> = Vec::new();
    let mut width: usize = numeral.len();
    while width < 4
        invariant
            numeral@.len() <= width <= 4 || (width == numeral@.len()),
            out@ =~= Seq::new((width - numeral@.len()) as nat, |i: int| 0x30u8),
        decreases 4 - width,
    {
        out.push(0x30);
        width = width + 1;
    }
    push_all(&mut out, numeral.as_slice());
    push_all(&mut out, line);
    assert(out@ =~= pkt_line(line@));
    out
}

/// The signature at the start of a packfile: `PACK`.
pub open spec fn pack_signature() -> Seq<u8> {
    seq![0x50u8, 0x41, 0x43, 0x4b]
}

/// Where the data first holds the signature `PACK`.
pub open spec fn pack_start(data: Seq<u8>) -> Result<int, Error> {
    if exists|i: int| has_at(data, i, pack_signature()) {
        Ok(
            choose|i: int|
                has_at(data, i, pack_signature()) && forall|j: int|
                    0 <= j < i ==> !has_at(data, j, pack_signature()),
        )
    } else {
        Err(Error::BadPackHeader)
    }
}

/// Finds the first place of the signature `PACK`. Fails with
/// `BadPackHeader` where the data does not hold it.
pub fn find_pack_start(data: &[u8]) -> (r: Result<usize, Error>)
    ensures
        match r {
            Ok(at) => pack_start(data@) == Ok::<int, Error>(at as int) && has_at(
                data@,
                at as int,
                pack_signature(),
            ) && at + 4 <= data.len(),
            Err(e) => pack_start(data@) == Err::<int, Error>(e),
        },
        r matches Ok(at) ==> forall|j: int| 0 <= j < at ==> !has_at(data@, j, pack_signature()),
{
    let signature: [u8; 4] = [0x50, 0x41, 0x43, 0x4b];
    assert(signature@ =~= pack_signature());
    let mut i: usize = 0;
    while i < data.len()
        invariant
            i <= data.len(),
            signature@ == pack_signature(),
            forall|j: int| 0 <= j < i ==> !has_at(data@, j, pack_signature()),
        decreases data.len() - i,
    {
        if matches_at(data, i, signature.as_slice()) {
            proof {
                let found = pack_start(data@)->Ok_0;
                assert(has_at(data@, i as int, pack_signature()));
                if found < i {
                    assert(!has_at(data@, found, pack_signature()));
                } else if found > i {
                    assert(!has_at(data@, i as int, pack_signature()));
                }
            }
            return Ok(i);
        }
        i = i + 1;
    }
    assert forall|j: int| !has_at(data@, j, pack_signature()) by {
        if 0 <= j < data.len() {
        }
    }
    Err(Error::BadPackHeader)
}

/// The length that four hexadecimal digits at `pos` give; `None` where the
/// data ends before them or one of them is no hexadecimal digit.
pub open spec fn pkt_length(data: Seq<u8>, pos: int) -> Option<int> {
    if 0 <= pos && pos + 4 <= data.len() && is_hex(data[pos]) && is_hex(data[pos + 1]) && is_hex(
        data[pos + 2],
    ) && is_hex(data[pos + 3]) {
        Some(
            hex_digit_value(data[pos]) * 4096 + hex_digit_value(data[pos + 1]) * 256
                + hex_digit_value(data[pos + 2]) * 16 + hex_digit_value(data[pos + 3]),
        )
    } else {
        None
    }
}

/// The largest length that a pkt-line may declare.
pub const MAX_PKT_LEN: usize = 65520;

/// What a response was taken apart into.
#[derive(Debug, PartialEq, Eq)]
pub struct Demuxed {
    /// The bytes of channel 1, and whatever was not framed.
    pub pack: Vec<u8>,
    /// The text of channel 2.
    pub progress: Vec<u8>,
    /// The text of the first frame on channel 3, where the remote sent one:
    /// the remote has failed, and nothing behind that frame was looked at.
    pub failure: Option<Vec<u8>>,
}

/// The mathematical form of [`Demuxed`].
pub struct DemuxedView {
    pub pack: Seq<u8>,
    pub progress: Seq<u8>,
    pub failure: Option<Seq<u8>>,
}

impl View for Demuxed {
    type V = DemuxedView;

    open spec fn view(&self) -> DemuxedView {
        DemuxedView {
            pack: self.pack@,
            progress: self.progress@,
            failure: match self.failure {
                Some(text) => Some(text@),
                None => None,
            },
        }
    }
}

/// The length of the line that starts at `pos`, where one does: four for a
/// flush packet or a line without payload, else the declared length, which
/// must be at most 65520 and lie within the data.
pub open spec fn frame_length(data: Seq<u8>, pos: int) -> Option<int> {
    match pkt_length(data, pos) {
        Some(n) => if n == 0 || n == 4 {
            Some(4)
        } else if 4 < n <= MAX_PKT_LEN && pos + n <= data.len() {
            Some(n)
        } else {
            None
        },
        None => None,
    }
}

/// The response from `pos` on taken apart, with `pack` and `progress`
/// gathered so far.
///
/// A line without payload is passed over. Of a line with payload, channel 1
/// adds the payload to the pack, channel 2 to the progress text, channel 3
/// ends everything with its payload as the text of the failure, and any
/// other first byte makes the whole payload part of the pack. Where no line
/// starts, one byte goes to the pack as it is.
pub open spec fn sideband_from(
    data: Seq<u8>,
    pos: int,
    pack: Seq<u8>,
    progress: Seq<u8>,
) -> DemuxedView
    decreases data.len() - pos,
{
    if pos < 0 || pos >= data.len() {
        DemuxedView { pack, progress, failure: None }
    } else {
        match frame_length(data, pos) {
            None => sideband_from(data, pos + 1, pack.push(data[pos]), progress),
            Some(n) => if n == 4 {
                sideband_from(data, pos + 4, pack, progress)
            } else if data[pos + 4] == 1 {
                sideband_from(data, pos + n, pack + data.subrange(pos + 5, pos + n), progress)
            } else if data[pos + 4] == 2 {
                sideband_from(data, pos + n, pack, progress + data.subrange(pos + 5, pos + n))
            } else if data[pos + 4] == 3 {
                DemuxedView { pack, progress, failure: Some(data.subrange(pos + 5, pos + n)) }
            } else {
                sideband_from(data, pos + n, pack + data.subrange(pos + 4, pos + n), progress)
            },
        }
    }
}

/// A whole response taken apart. One that starts with `PACK` is a bare
/// packfile and is taken as it is; one without `PACK` anywhere is refused.
pub open spec fn sideband_spec(data: Seq<u8>) -> Result<DemuxedView, Error> {
    match pack_start(data) {
        Err(e) => Err(e),
        Ok(at) => if at == 0 {
            Ok(DemuxedView { pack: data, progress: Seq::empty(), failure: None })
        } else {
            Ok(sideband_from(data, 0, Seq::empty(), Seq::empty()))
        },
    }
}

/// The value of a hexadecimal digit, or `None`.
fn digit_value(b: u8) -> (r: Option<usize>)
    ensures
        match r {
            Some(v) => is_hex(b) && v == hex_digit_value(b) && v < 16,
            None => !is_hex(b),
        },
{
    if 0x30 <= b && b <= 0x39 {
        Some((b - 0x30) as usize)
    } else if 0x61 <= b && b <= 0x66 {
        Some((b - 0x61 + 10) as usize)
    } else if 0x41 <= b && b <= 0x46 {
        Some((b - 0x41 + 10) as usize)
    } else {
        None
    }
}

/// Reads the four length digits of a pkt-line at `pos`.
pub fn read_pkt_length(data: &[u8], pos: usize) -> (r: Option<usize>)
    ensures
        match r {
            Some(n) => pkt_length(data@, pos as int) == Some(n as int) && n <= 0xffff,
            None => pkt_length(data@, pos as int) is None,
        },
{
    if pos > data.len() || data.len() - pos < 4 {
        return None;
    }
    let d0 = digit_value(data[pos])?;
    let d1 = digit_value(data[pos + 1])?;
    let d2 = digit_value(data[pos + 2])?;
    let d3 = digit_value(data[pos + 3])?;
    Some(d0 * 4096 + d1 * 256 + d2 * 16 + d3)
}

/// Tells the length of the line that starts at `pos`, where one does.
pub fn read_frame_length(data: &[u8], pos: usize) -> (r: Option<usize>)
    requires
        pos <= data.len(),
    ensures
        match r {
            Some(n) => frame_length(data@, pos as int) == Some(n as int) && 4 <= n <= data.len()
                - pos,
            None => frame_length(data@, pos as int) is None,
        },
{
    match read_pkt_length(data, pos) {
        Some(n) => if n == 0 || n == 4 {
            Some(4)
        } else if n > 4 && n <= MAX_PKT_LEN && n <= data.len() - pos {
            Some(n)
        } else {
            None
        },
        None => None,
    }
}

/// Takes the response to a fetch apart: the packfile bytes of channel 1,
/// the progress text of channel 2, and the text of a failure on channel 3.
///
/// Fails with `BadPackHeader` where the response holds no `PACK`.
pub fn decode_sideband_data(data: &[u8]) -> (r: Result<Demuxed, Error>)
    ensures
        match r {
            Ok(found) => sideband_spec(data@) == Ok::<DemuxedView, Error>(found@),
            Err(e) => sideband_spec(data@) == Err::<DemuxedView, Error>(e),
        },
{
    let start = match find_pack_start(data) {
        Ok(at) => at,
        Err(e) => { return Err(e); },
    };
    let mut pack: Vec<u8> = Vec::new();
    let mut progress: Vec<u8> = Vec::new();
    if start == 0 {
        push_all(&mut pack, data);
        assert(pack@ =~= data@);
        return Ok(Demuxed { pack, progress, failure: None });
    }
    let mut pos: usize = 0;
    while pos < data.len()
        invariant
            pos <= data.len(),
            sideband_spec(data@) == Ok::<DemuxedView, Error>(
                sideband_from(data@, pos as int, pack@, progress@),
            ),
        decreases data.len() - pos,
    {
        match read_frame_length(data, pos) {
            None => {
                pack.push(data[pos]);
                pos = pos + 1;
            },
            Some(n) => {
                if n > 4 {
                    let channel: u8 = data[pos + 4];
                    if channel == 1 {
                        push_all(&mut pack, &data[pos + 5..pos + n]);
                    } else if channel == 2 {
                        push_all(&mut progress, &data[pos + 5..pos + n]);
                    } else if channel == 3 {
                        let text = crate::bytes::copy_range(data, pos + 5, pos + n);
                        return Ok(Demuxed { pack, progress, failure: Some(text) });
                    } else {
                        push_all(&mut pack, &data[pos + 4..pos + n]);
                    }
                }
                pos = pos + n;
            },
        }
    }
    Ok(Demuxed { pack, progress, failure: None })
}

proof fn lemma_four_digits(n: nat)
    requires
        n < 65536,
    ensures
        four_wide(hex_numeral(n)) =~= seq![
            hex_digit((n / 4096) as int),
            hex_digit((n / 256 % 16) as int),
            hex_digit((n / 16 % 16) as int),
            hex_digit((n % 16) as int),
        ],
{
    reveal_with_fuel(hex_numeral, 5);
    if n < 16 {
        assert(hex_numeral(n).len() == 1);
    } else if n < 256 {
        assert(hex_numeral(n).len() == 2);
    } else if n < 4096 {
        assert(hex_numeral(n).len() == 3);
    } else {
        assert(hex_numeral(n).len() == 4);
    }
}

proof fn lemma_hex_digit(v: int)
    requires
        0 <= v < 16,
    ensures
        is_hex(hex_digit(v)),
        hex_digit_value(hex_digit(v)) == v,
{
}

proof fn lemma_four_places(n: nat)
    requires
        n < 65536,
    ensures
        n == (n / 4096) * 4096 + (n / 256 % 16) * 256 + (n / 16 % 16) * 16 + n % 16,
        n / 4096 < 16,
{
    let m = n as u32;
    assert(m == (m / 4096) * 4096 + (m / 256 % 16) * 256 + (m / 16 % 16) * 16 + m % 16 && m / 4096
        < 16) by (bit_vector)
        requires
            m < 65536,
    ;
}

/// Law: the length digits of a pkt-line of fewer than 65536 bytes read back
/// as the length of the line, whatever follows it.
pub proof fn lemma_pkt_length_of_line(payload: Seq<u8>, rest: Seq<u8>)
    requires
        payload.len() + 4 < 65536,
    ensures
        pkt_length(pkt_line(payload) + rest, 0) == Some(payload.len() as int + 4),
        pkt_line(payload).len() == payload.len() + 4,
{
    let n = payload.len() + 4;
    lemma_four_digits(n);
    lemma_four_places(n);
    let digits = four_wide(hex_numeral(n));
    let data = pkt_line(payload) + rest;
    assert(digits.len() == 4);
    assert(data[0] == digits[0]);
    assert(data[1] == digits[1]);
    assert(data[2] == digits[2]);
    assert(data[3] == digits[3]);
    lemma_hex_digit((n / 4096) as int);
    lemma_hex_digit((n / 256 % 16) as int);
    lemma_hex_digit((n / 16 % 16) as int);
    lemma_hex_digit((n % 16) as int);
    assert(data[0] == hex_digit((n / 4096) as int));
    assert(data[1] == hex_digit((n / 256 % 16) as int));
    assert(data[2] == hex_digit((n / 16 % 16) as int));
    assert(data[3] == hex_digit((n % 16) as int));
}

/// Law: a line that frames a payload on channel 1, of 65520 bytes at most,
/// is taken apart into that payload as pack data, and what follows the line
/// is looked at next.
pub proof fn lemma_pack_frame(payload: Seq<u8>, rest: Seq<u8>, pack: Seq<u8>, progress: Seq<u8>)
    requires
        payload.len() + 5 <= MAX_PKT_LEN,
    ensures
        sideband_from(pkt_line(seq![1u8] + payload) + rest, 0, pack, progress) == sideband_from(
            pkt_line(seq![1u8] + payload) + rest,
            payload.len() as int + 5,
            pack + payload,
            progress,
        ),
{
    let framed = seq![1u8] + payload;
    let data = pkt_line(framed) + rest;
    lemma_pkt_length_of_line(framed, rest);
    assert(data[4] == framed[0]);
    assert(data.subrange(5, payload.len() as int + 5) =~= payload);
}

} // verus!
