//! The two variable-length integer encodings found inside packfiles.
//!
//! The *size* encoding is little-endian in groups of seven bits, each byte's
//! top bit announcing another byte. A pack record header uses the same scheme
//! but spends three bits of its first byte on the kind of the record. The
//! *offset* encoding of an offset delta is big-endian with a bias of one per
//! continuation, so that every value has exactly one encoding.

use crate::error::Error;
use vstd::prelude::*;

verus! {

/// The seven payload bits of a byte.
pub open spec fn payload(b: u8) -> u64 {
    (b % 128) as u64
}

/// Whether a byte announces a further byte.
pub open spec fn continues(b: u8) -> bool {
    b >= 128
}

/// The size encoding read from `pos` on, when `acc` holds the bits gathered
/// so far and the next group belongs at bit `shift`. Gives the value and the
/// position behind its last byte.
pub open spec fn size_vli_from(bytes: Seq<u8>, pos: int, shift: u64, acc: u64) -> Result<
    (u64, int),
    Error,
>
    decreases bytes.len() - pos,
{
    if pos < 0 || pos >= bytes.len() {
        Err(Error::TruncatedInput)
    } else if shift >= 64 {
        Err(Error::IntegerOverflow)
    } else {
        let b = bytes[pos];
        let next = acc | (payload(b) << shift);
        if continues(b) {
            size_vli_from(bytes, pos + 1, (shift + 7) as u64, next)
        } else {
            Ok((next, pos + 1))
        }
    }
}

/// A size as it is read at `pos`: groups of seven bits, lowest first.
pub open spec fn size_vli_at(bytes: Seq<u8>, pos: int) -> Result<(u64, int), Error> {
    size_vli_from(bytes, pos, 0, 0)
}

/// The shortest size encoding of `n`.
pub open spec fn size_vli_bytes(n: u64) -> Seq<u8>
    decreases n,
{
    if n < 128 {
        seq![n as u8]
    } else {
        seq![(n % 128 + 128) as u8] + size_vli_bytes(n / 128)
    }
}

/// The kind code in the first byte of a record header.
pub open spec fn header_code(b: u8) -> u8 {
    (b / 16 % 8) as u8
}

/// A record header as it is read at `pos`: kind code, size, end position.
pub open spec fn record_header_at(bytes: Seq<u8>, pos: int) -> Result<(u8, u64, int), Error> {
    if pos < 0 || pos >= bytes.len() {
        Err(Error::TruncatedInput)
    } else {
        let b = bytes[pos];
        let low = (b % 16) as u64;
        if continues(b) {
            match size_vli_from(bytes, pos + 1, 4, low) {
                Ok((size, end)) => Ok((header_code(b), size, end)),
                Err(e) => Err(e),
            }
        } else {
            Ok((header_code(b), low, pos + 1))
        }
    }
}

/// The shortest record header for a kind code below eight and a size.
pub open spec fn record_header_bytes(code: u8, size: u64) -> Seq<u8> {
    if size < 16 {
        seq![(code * 16 + size) as u8]
    } else {
        seq![(128 + code * 16 + size % 16) as u8] + size_vli_bytes(size / 16)
    }
}

/// The largest accumulator that one more offset group can follow.
pub const OFS_LIMIT: u64 = 0x01ff_ffff_ffff_fffe;

/// The offset encoding continued at `pos`, when the bytes before announced
/// another one and `acc` is the value so far.
pub open spec fn ofs_vli_from(bytes: Seq<u8>, pos: int, acc: u64) -> Result<(u64, int), Error>
    decreases bytes.len() - pos,
{
    if pos < 0 || pos >= bytes.len() {
        Err(Error::TruncatedInput)
    } else if acc > OFS_LIMIT {
        Err(Error::IntegerOverflow)
    } else {
        let b = bytes[pos];
        let next = ((acc + 1) * 128 + payload(b)) as u64;
        if continues(b) {
            ofs_vli_from(bytes, pos + 1, next)
        } else {
            Ok((next, pos + 1))
        }
    }
}

/// An offset as it is read at `pos`: groups of seven bits, highest first,
/// each continuation adding one to what came before.
pub open spec fn ofs_vli_at(bytes: Seq<u8>, pos: int) -> Result<(u64, int), Error> {
    if pos < 0 || pos >= bytes.len() {
        Err(Error::TruncatedInput)
    } else {
        let b = bytes[pos];
        if continues(b) {
            ofs_vli_from(bytes, pos + 1, payload(b))
        } else {
            Ok((payload(b), pos + 1))
        }
    }
}

/// The bytes that carry `m` as the part of an offset before its last byte.
pub open spec fn ofs_vli_head(m: u64) -> Seq<u8>
    decreases m,
{
    if m < 128 {
        seq![(m + 128) as u8]
    } else {
        ofs_vli_head((m / 128 - 1) as u64) + seq![(m % 128 + 128) as u8]
    }
}

/// The offset encoding of `n`.
pub open spec fn ofs_vli_bytes(n: u64) -> Seq<u8> {
    if n < 128 {
        seq![n as u8]
    } else {
        ofs_vli_head((n / 128 - 1) as u64) + seq![(n % 128) as u8]
    }
}

/// Reads a size at `pos`.
///
/// Fails with `TruncatedInput` where the bytes end before the size does, and
/// with `IntegerOverflow` where a group would have to be shifted by 64 bits
/// or more. Bits shifted out of the top of the tenth byte are dropped.
pub fn decode_size_vli(data: &[u8], pos: usize) -> (r: Result<(u64, usize), Error>)
    ensures
        match r {
            Ok((value, end)) => size_vli_at(data@, pos as int) == Ok::<(u64, int), Error>(
                (value, end as int),
            ) && pos < end <= data.len(),
            Err(e) => size_vli_at(data@, pos as int) == Err::<(u64, int), Error>(e),
        },
{
    read_size_groups(data, pos, 0, 0)
}

/// Reads the groups of a size from `pos` on, starting at bit `shift` above
/// the bits already in `acc`.
fn read_size_groups(data: &[u8], pos: usize, shift: u64, acc: u64) -> (r: Result<
    (u64, usize),
    Error,
>)
    requires
        shift <= 70,
    ensures
        match r {
            Ok((value, end)) => size_vli_from(data@, pos as int, shift, acc) == Ok::<
                (u64, int),
                Error,
            >((value, end as int)) && pos < end <= data.len(),
            Err(e) => size_vli_from(data@, pos as int, shift, acc) == Err::<(u64, int), Error>(e),
        },
{
    let mut at: usize = pos;
    let mut sh: u64 = shift;
    let mut bits: u64 = acc;
    loop
        invariant
            pos <= at,
            sh <= 70,
            size_vli_from(data@, at as int, sh, bits) == size_vli_from(
                data@,
                pos as int,
                shift,
                acc,
            ),
        decreases data.len() - at,
    {
        if at >= data.len() {
            return Err(Error::TruncatedInput);
        }
        if sh >= 64 {
            return Err(Error::IntegerOverflow);
        }
        let b: u8 = data[at];
        bits = bits | (((b % 128) as u64) << sh);
        at = at + 1;
        if b < 128 {
            return Ok((bits, at));
        }
        sh = sh + 7;
    }
}

/// Reads the header of a pack record at `pos`: the three-bit kind code, the
/// declared size and the position behind the header.
///
/// Fails as [`decode_size_vli`] does.
pub fn decode_record_header(data: &[u8], pos: usize) -> (r: Result<(u8, u64, usize), Error>)
    ensures
        match r {
            Ok((code, size, end)) => record_header_at(data@, pos as int) == Ok::<
                (u8, u64, int),
                Error,
            >((code, size, end as int)) && pos < end <= data.len() && code < 8,
            Err(e) => record_header_at(data@, pos as int) == Err::<(u8, u64, int), Error>(e),
        },
{
    if pos >= data.len() {
        return Err(Error::TruncatedInput);
    }
    let b: u8 = data[pos];
    let code: u8 = b / 16 % 8;
    let low: u64 = (b % 16) as u64;
    if b < 128 {
        return Ok((code, low, pos + 1));
    }
    match read_size_groups(data, pos + 1, 4, low) {
        Ok((size, end)) => Ok((code, size, end)),
        Err(e) => Err(e),
    }
}

/// Reads the offset of an offset delta at `pos`.
///
/// Fails with `TruncatedInput` where the bytes end before the offset does,
/// and with `IntegerOverflow` where the value leaves 64 bits.
pub fn read_ofs_delta_offset(data: &[u8], pos: usize) -> (r: Result<(u64, usize), Error>)
    ensures
        match r {
            Ok((value, end)) => ofs_vli_at(data@, pos as int) == Ok::<(u64, int), Error>(
                (value, end as int),
            ) && pos < end <= data.len(),
            Err(e) => ofs_vli_at(data@, pos as int) == Err::<(u64, int), Error>(e),
        },
{
    if pos >= data.len() {
        return Err(Error::TruncatedInput);
    }
    let first: u8 = data[pos];
    let mut value: u64 = (first % 128) as u64;
    let mut at: usize = pos + 1;
    if first < 128 {
        return Ok((value, at));
    }
    loop
        invariant
            pos < at,
            ofs_vli_from(data@, at as int, value) == ofs_vli_at(data@, pos as int),
        decreases data.len() - at,
    {
        if at >= data.len() {
            return Err(Error::TruncatedInput);
        }
        if value > OFS_LIMIT {
            return Err(Error::IntegerOverflow);
        }
        let b: u8 = data[at];
        value = (value + 1) * 128 + (b % 128) as u64;
        at = at + 1;
        if b < 128 {
            return Ok((value, at));
        }
    }
}

/// Writes `n` in the size encoding, in as few bytes as it takes.
pub fn encode_size_vli(n: u64) -> (out: Vec<u8>)
    ensures
        out@ == size_vli_bytes(n),
{
    let mut out: Vec<u8> = Vec::new();
    let mut rest: u64 = n;
    while rest >= 128
        invariant
            out@ + size_vli_bytes(rest) == size_vli_bytes(n),
        decreases rest,
    {
        assert(size_vli_bytes(rest) == seq![(rest % 128 + 128) as u8] + size_vli_bytes(rest / 128));
        assert(out@.push((rest % 128 + 128) as u8) + size_vli_bytes(rest / 128) == out@ + (
        seq![(rest % 128 + 128) as u8] + size_vli_bytes(rest / 128)));
        out.push((rest % 128 + 128) as u8);
        rest = rest / 128;
    }
    assert(size_vli_bytes(rest) == seq![rest as u8]);
    assert(out@.push(rest as u8) == out@ + seq![rest as u8]);
    out.push(rest as u8);
    out
}

/// Writes the header of a pack record: kind code and declared size.
pub fn encode_record_header(code: u8, size: u64) -> (out: Vec<u8>)
    requires
        code < 8,
    ensures
        out@ == record_header_bytes(code, size),
{
    let mut out: Vec<u8> = Vec::new();
    if size < 16 {
        out.push(code * 16 + size as u8);
        assert(out@ == seq![(code * 16 + size) as u8]);
    } else {
        out.push(128 + code * 16 + (size % 16) as u8);
        let mut tail = encode_size_vli(size / 16);
        let ghost first = out@;
        out.append(&mut tail);
        assert(first == seq![(128 + code * 16 + size % 16) as u8]);
    }
    out
}

/// Writes `n` in the offset encoding.
pub fn encode_ofs_vli(n: u64) -> (out: Vec<u8>)
    ensures
        out@ == ofs_vli_bytes(n),
{
    // The bytes come out last first; they are gathered and then turned round.
    let mut rev: Vec<u8> = Vec::new();
    rev.push((n % 128) as u8);
    let mut rest: u64 = n / 128;
    let ghost mut tail: Seq<u8> = seq![(n % 128) as u8];
    while rest > 0
        invariant
            rev@.len() == tail.len(),
            forall|i: int| 0 <= i < tail.len() ==> rev@[i] == tail[tail.len() - 1 - i],
            rest > 0 ==> ofs_vli_head((rest - 1) as u64) + tail == ofs_vli_bytes(n),
            rest == 0 ==> tail == ofs_vli_bytes(n),
        decreases rest,
    {
        let m: u64 = rest - 1;
        let b: u8 = (m % 128 + 128) as u8;
        proof {
            let longer = seq![b] + tail;
            if m >= 128 {
                assert(ofs_vli_head(m) == ofs_vli_head((m / 128 - 1) as u64) + seq![b]);
                assert(ofs_vli_head((m / 128 - 1) as u64) + longer == ofs_vli_head(m) + tail);
            } else {
                assert(ofs_vli_head(m) == seq![b]);
                assert(longer == ofs_vli_head(m) + tail);
            }
            assert forall|i: int| 0 <= i < longer.len() implies rev@.push(b)[i] == longer[(
            longer.len() - 1 - i)] by {
                if i < tail.len() {
                    assert(longer[longer.len() - 1 - i] == tail[tail.len() - 1 - i]);
                }
            }
            tail = longer;
        }
        rev.push(b);
        rest = m / 128;
    }
    let mut out: Vec<u8> = Vec::new();
    let mut k: usize = rev.len();
    while k > 0
        invariant
            k <= rev@.len(),
            rev@.len() == tail.len(),
            out@.len() == rev@.len() - k,
            forall|i: int| 0 <= i < tail.len() ==> rev@[i] == tail[tail.len() - 1 - i],
            forall|j: int| 0 <= j < out@.len() ==> out@[j] == tail[j],
        decreases k,
    {
        k = k - 1;
        out.push(rev[k]);
    }
    assert(out@ =~= tail);
    out
}

/// A size that the bytes hold above bit `shift` without losing bits.
pub open spec fn fits_above(n: u64, shift: u64) -> bool {
    shift < 64 && n <= (u64::MAX >> shift)
}

proof fn lemma_size_step_bits(n: u64, shift: u64, acc: u64)
    by (bit_vector)
    requires
        n >= 128,
        shift < 64,
        n <= (0xffff_ffff_ffff_ffffu64 >> shift),
    ensures
        shift <= 56,
        n / 128 <= (0xffff_ffff_ffff_ffffu64 >> ((shift + 7) as u64)),
        (acc | ((n % 128) << shift)) | ((n / 128) << ((shift + 7) as u64)) == acc | (n << shift),
{
}

/// Reading back what [`size_vli_bytes`] wrote, wherever it stands and
/// whatever follows it, gives the value at its place above the bits
/// gathered before.
pub proof fn lemma_size_vli_read_back(
    before: Seq<u8>,
    n: u64,
    after: Seq<u8>,
    shift: u64,
    acc: u64,
)
    requires
        fits_above(n, shift),
    ensures
        size_vli_from(before + size_vli_bytes(n) + after, before.len() as int, shift, acc) == Ok::<
            (u64, int),
            Error,
        >((acc | (n << shift), (before.len() + size_vli_bytes(n).len()) as int)),
    decreases n,
{
    let bytes = before + size_vli_bytes(n) + after;
    let at = before.len() as int;
    assert(bytes[at] == size_vli_bytes(n)[0]);
    if n < 128 {
        assert(payload(n as u8) == n);
        assert(size_vli_bytes(n).len() == 1);
    } else {
        let b = (n % 128 + 128) as u8;
        assert(payload(b) == n % 128);
        lemma_size_step_bits(n, shift, acc);
        let next = acc | (payload(b) << shift);
        lemma_size_vli_read_back(before.push(b), n / 128, after, (shift + 7) as u64, next);
        assert(before.push(b) + size_vli_bytes(n / 128) + after =~= bytes);
        assert(size_vli_bytes(n).len() == 1 + size_vli_bytes(n / 128).len());
    }
}

/// Law: decoding the size encoding of any 64-bit value gives the value back
/// and stops behind its last byte.
pub proof fn lemma_size_vli_round_trip(n: u64)
    ensures
        size_vli_at(size_vli_bytes(n), 0) == Ok::<(u64, int), Error>(
            (n, size_vli_bytes(n).len() as int),
        ),
        size_vli_bytes(n).len() <= 10,
{
    assert(fits_above(n, 0)) by (bit_vector);
    lemma_size_vli_read_back(Seq::empty(), n, Seq::empty(), 0, 0);
    assert(Seq::<u8>::empty() + size_vli_bytes(n) + Seq::<u8>::empty() =~= size_vli_bytes(n));
    assert(0u64 | (n << 0u64) == n) by (bit_vector);
    reveal_with_fuel(below_groups, 11);
    assert(below_groups(n, 10));
    lemma_size_vli_length(n, 10);
}

/// The pure statement of how many groups of seven bits a value needs.
pub open spec fn below_groups(n: u64, groups: nat) -> bool
    decreases groups,
{
    if groups == 0 {
        false
    } else {
        n < 128 || below_groups(n / 128, (groups - 1) as nat)
    }
}

proof fn lemma_size_vli_length(n: u64, groups: nat)
    requires
        below_groups(n, groups),
    ensures
        size_vli_bytes(n).len() <= groups,
    decreases n,
{
    if n >= 128 {
        lemma_size_vli_length(n / 128, (groups - 1) as nat);
    }
}

/// Law: decoding the header that [`record_header_bytes`] wrote gives the
/// kind code and the size back.
pub proof fn lemma_record_header_round_trip(code: u8, size: u64)
    requires
        code < 8,
    ensures
        record_header_at(record_header_bytes(code, size), 0) == Ok::<(u8, u64, int), Error>(
            (code, size, record_header_bytes(code, size).len() as int),
        ),
{
    let bytes = record_header_bytes(code, size);
    if size < 16 {
        let b = (code * 16 + size) as u8;
        assert(bytes[0] == b);
        assert(header_code(b) == code);
    } else {
        let b = (128 + code * 16 + size % 16) as u8;
        assert(bytes[0] == b);
        assert(header_code(b) == code);
        let low = (b % 16) as u64;
        assert(low == size % 16);
        assert(fits_above(size / 16, 4) && low | ((size / 16) << 4u64) == size) by (bit_vector)
            requires
                low == size % 16,
        ;
        lemma_size_vli_read_back(seq![b], size / 16, Seq::empty(), 4, low);
        assert(seq![b] + size_vli_bytes(size / 16) + Seq::<u8>::empty() =~= bytes);
    }
}

proof fn lemma_ofs_head_read_back(m: u64, last: Seq<u8>)
    requires
        m <= OFS_LIMIT,
    ensures
        ofs_vli_at(ofs_vli_head(m) + last, 0) == ofs_vli_from(
            ofs_vli_head(m) + last,
            ofs_vli_head(m).len() as int,
            m,
        ),
    decreases m,
{
    let bytes = ofs_vli_head(m) + last;
    if m < 128 {
        assert(bytes[0] == (m + 128) as u8);
        assert(payload((m + 128) as u8) == m);
    } else {
        let inner = (m / 128 - 1) as u64;
        let b = (m % 128 + 128) as u8;
        lemma_ofs_head_read_back(inner, seq![b] + last);
        assert(ofs_vli_head(inner) + (seq![b] + last) =~= bytes);
        let at = ofs_vli_head(inner).len() as int;
        assert(bytes[at] == b);
        assert(payload(b) == m % 128);
        assert(((inner + 1) * 128 + payload(b)) as u64 == m);
        assert(ofs_vli_head(m).len() == at + 1);
    }
}

/// Law: decoding the offset encoding of any 64-bit value gives the value
/// back and stops behind its last byte.
pub proof fn lemma_ofs_vli_round_trip(n: u64)
    ensures
        ofs_vli_at(ofs_vli_bytes(n), 0) == Ok::<(u64, int), Error>(
            (n, ofs_vli_bytes(n).len() as int),
        ),
{
    let bytes = ofs_vli_bytes(n);
    if n < 128 {
        assert(bytes[0] == n as u8);
        assert(payload(n as u8) == n);
    } else {
        let inner = (n / 128 - 1) as u64;
        let b = (n % 128) as u8;
        lemma_ofs_head_read_back(inner, seq![b]);
        let at = ofs_vli_head(inner).len() as int;
        assert(bytes[at] == b);
        assert(payload(b) == n % 128);
        assert(((inner + 1) * 128 + payload(b)) as u64 == n);
    }
}

} // verus!
