//! The delta interpreter: rebuilding a target from a base and a script of
//! copy and insert instructions.
//!
//! A delta starts with two sizes in the size encoding, that of the base and
//! that of the result. Instructions follow until the delta ends. An opcode
//! with its top bit set copies from the base: its low seven bits say which of
//! four offset bytes and three size bytes follow, lowest first, the others
//! being zero, and a size of zero stands for 65536. Any other opcode but zero
//! inserts that many of the bytes that follow it.

use crate::bytes::push_all;
use crate::error::Error;
use crate::vli::{
    decode_size_vli, fits_above, lemma_size_vli_read_back, size_vli_at, size_vli_bytes,
};
use vstd::prelude::*;

verus! {

/// The views of a result that holds bytes.
pub open spec fn bytes_result(r: Result<Vec<u8>, Error>) -> Result<Seq<u8>, Error> {
    match r {
        Ok(v) => Ok(v@),
        Err(e) => Err(e),
    }
}

/// Whether an opcode announces the operand that `bit` stands for, `bit`
/// being the weight of one of its low seven bits.
pub open spec fn announces(cmd: u8, bit: u8) -> bool {
    cmd / bit % 2 == 1
}

/// The operand at `pos` where it is present, zero where it is not.
pub open spec fn operand(delta: Seq<u8>, pos: int, present: bool) -> int {
    if present {
        delta[pos] as int
    } else {
        0
    }
}

/// The position behind an operand that may be absent.
pub open spec fn past(pos: int, present: bool) -> int {
    if present {
        pos + 1
    } else {
        pos
    }
}

/// The offset that the operands from `pos` on spell, lowest byte first, and
/// the position behind them.
pub open spec fn copy_offset(delta: Seq<u8>, pos: int, cmd: u8) -> (int, int) {
    let at1 = past(pos, announces(cmd, 1));
    let at2 = past(at1, announces(cmd, 2));
    let at3 = past(at2, announces(cmd, 4));
    let at4 = past(at3, announces(cmd, 8));
    (
        operand(delta, pos, announces(cmd, 1)) + operand(delta, at1, announces(cmd, 2)) * 256
            + operand(delta, at2, announces(cmd, 4)) * 65536 + operand(
            delta,
            at3,
            announces(cmd, 8),
        ) * 16777216,
        at4,
    )
}

/// The size that the operands from `pos` on spell, lowest byte first and
/// zero standing for 65536, and the position behind them.
pub open spec fn copy_length(delta: Seq<u8>, pos: int, cmd: u8) -> (int, int) {
    let at1 = past(pos, announces(cmd, 16));
    let at2 = past(at1, announces(cmd, 32));
    let at3 = past(at2, announces(cmd, 64));
    let spelled = operand(delta, pos, announces(cmd, 16)) + operand(
        delta,
        at1,
        announces(cmd, 32),
    ) * 256 + operand(delta, at2, announces(cmd, 64)) * 65536;
    (
        if spelled == 0 {
            65536
        } else {
            spelled
        },
        at3,
    )
}

/// What a copy instruction asks for, and where its operands end.
pub struct CopyArgs {
    pub offset: int,
    pub size: int,
    pub end: int,
}

/// The operands of the copy instruction whose opcode `cmd` stands just
/// before `pos`.
pub open spec fn copy_args(delta: Seq<u8>, pos: int, cmd: u8) -> CopyArgs {
    let (offset, mid) = copy_offset(delta, pos, cmd);
    let (size, end) = copy_length(delta, mid, cmd);
    CopyArgs { offset, size, end }
}

/// The instructions of `delta` from `pos` on, run against `base` with `out`
/// already produced.
pub open spec fn run_delta(base: Seq<u8>, delta: Seq<u8>, pos: int, out: Seq<u8>) -> Result<
    Seq<u8>,
    Error,
>
    decreases delta.len() - pos,
{
    if pos < 0 || pos >= delta.len() {
        Ok(out)
    } else {
        let cmd = delta[pos];
        if cmd >= 128 {
            let args = copy_args(delta, pos + 1, cmd);
            if args.end > delta.len() {
                Err(Error::TruncatedInput)
            } else if args.offset + args.size > base.len() {
                Err(Error::DeltaOutOfRange)
            } else {
                run_delta(
                    base,
                    delta,
                    args.end,
                    out + base.subrange(args.offset, args.offset + args.size),
                )
            }
        } else if cmd != 0 {
            if pos + 1 + cmd > delta.len() {
                Err(Error::TruncatedInput)
            } else {
                run_delta(base, delta, pos + 1 + cmd, out + delta.subrange(pos + 1, pos + 1 + cmd))
            }
        } else {
            Err(Error::InvalidDeltaOpcode)
        }
    }
}

/// What applying `delta` to `base` gives.
pub open spec fn apply_delta_spec(base: Seq<u8>, delta: Seq<u8>) -> Result<Seq<u8>, Error> {
    match size_vli_at(delta, 0) {
        Err(e) => Err(e),
        Ok((_, first)) => match size_vli_at(delta, first) {
            Err(e) => Err(e),
            Ok((declared, start)) => match run_delta(base, delta, start, Seq::empty()) {
                Err(e) => Err(e),
                Ok(out) => if out.len() == declared {
                    Ok(out)
                } else {
                    Err(Error::ResultSizeMismatch)
                },
            },
        },
    }
}

/// Reads an operand that may be absent. `None` says that it is announced but
/// the delta has ended.
fn read_operand(delta: &[u8], pos: usize, present: bool) -> (r: Option<(u64, usize)>)
    requires
        pos <= delta.len(),
    ensures
        match r {
            Some((value, next)) => value == operand(delta@, pos as int, present) && next == past(
                pos as int,
                present,
            ) && next <= delta.len() && value < 256,
            None => past(pos as int, present) > delta.len(),
        },
{
    if !present {
        Some((0, pos))
    } else if pos < delta.len() {
        Some((delta[pos] as u64, pos + 1))
    } else {
        None
    }
}

/// Reads the offset operands of a copy instruction.
fn read_copy_offset(delta: &[u8], pos: usize, cmd: u8) -> (r: Option<(u64, usize)>)
    requires
        pos <= delta.len(),
    ensures
        match r {
            Some((offset, end)) => offset == copy_offset(delta@, pos as int, cmd).0 && end
                == copy_offset(delta@, pos as int, cmd).1 && end <= delta.len() && offset
                < 0x1_0000_0000,
            None => copy_offset(delta@, pos as int, cmd).1 > delta.len(),
        },
{
    let (off0, at1) = read_operand(delta, pos, cmd % 2 == 1)?;
    let (off1, at2) = read_operand(delta, at1, cmd / 2 % 2 == 1)?;
    let (off2, at3) = read_operand(delta, at2, cmd / 4 % 2 == 1)?;
    let (off3, at4) = read_operand(delta, at3, cmd / 8 % 2 == 1)?;
    Some((off0 + off1 * 256 + off2 * 65536 + off3 * 16777216, at4))
}

/// Reads the size operands of a copy instruction.
fn read_copy_length(delta: &[u8], pos: usize, cmd: u8) -> (r: Option<(u64, usize)>)
    requires
        pos <= delta.len(),
    ensures
        match r {
            Some((size, end)) => size == copy_length(delta@, pos as int, cmd).0 && end
                == copy_length(delta@, pos as int, cmd).1 && end <= delta.len() && 0 < size
                <= 0xff_ffff,
            None => copy_length(delta@, pos as int, cmd).1 > delta.len(),
        },
{
    let (len0, at1) = read_operand(delta, pos, cmd / 16 % 2 == 1)?;
    let (len1, at2) = read_operand(delta, at1, cmd / 32 % 2 == 1)?;
    let (len2, at3) = read_operand(delta, at2, cmd / 64 % 2 == 1)?;
    let spelled: u64 = len0 + len1 * 256 + len2 * 65536;
    if spelled == 0 {
        Some((65536, at3))
    } else {
        Some((spelled, at3))
    }
}

/// Reads the operands of a copy instruction: offset, size and end position.
fn read_copy_args(delta: &[u8], pos: usize, cmd: u8) -> (r: Option<(u64, u64, usize)>)
    requires
        pos <= delta.len(),
    ensures
        match r {
            Some((offset, size, end)) => {
                let args = copy_args(delta@, pos as int, cmd);
                offset == args.offset && size == args.size && end == args.end && end <= delta.len()
                    && offset < 0x1_0000_0000 && 0 < size <= 0xff_ffff
            },
            None => copy_args(delta@, pos as int, cmd).end > delta.len(),
        },
{
    let (offset, mid) = read_copy_offset(delta, pos, cmd)?;
    let (size, end) = read_copy_length(delta, mid, cmd)?;
    Some((offset, size, end))
}

/// Applies a delta to a base and gives the target.
///
/// Fails with `TruncatedInput` or `IntegerOverflow` where the two sizes at
/// the start cannot be read, with `TruncatedInput` where the delta ends
/// inside an instruction, with `InvalidDeltaOpcode` on the opcode zero, with
/// `DeltaOutOfRange` where a copy leaves the base, and with
/// `ResultSizeMismatch` where the target has not the declared length.
pub fn apply_delta(base: &[u8], delta: &[u8]) -> (r: Result<Vec<u8>, Error>)
    ensures
        bytes_result(r) == apply_delta_spec(base@, delta@),
{
    let (base_size, first) = match decode_size_vli(delta, 0) {
        Ok(x) => x,
        Err(e) => { return Err(e); },
    };
    let (declared, start) = match decode_size_vli(delta, first) {
        Ok(x) => x,
        Err(e) => { return Err(e); },
    };
    let mut out: Vec<u8> = Vec::new();
    let mut pos: usize = start;
    while pos < delta.len()
        invariant
            pos <= delta.len(),
            size_vli_at(delta@, 0) == Ok::<(u64, int), Error>((base_size, first as int)),
            size_vli_at(delta@, first as int) == Ok::<(u64, int), Error>((declared, start as int)),
            run_delta(base@, delta@, pos as int, out@) == run_delta(
                base@,
                delta@,
                start as int,
                Seq::empty(),
            ),
        decreases delta.len() - pos,
    {
        let cmd: u8 = delta[pos];
        if cmd >= 128 {
            let (offset, size, end) = match read_copy_args(delta, pos + 1, cmd) {
                Some(x) => x,
                None => { return Err(Error::TruncatedInput); },
            };
            if offset + size > base.len() as u64 {
                return Err(Error::DeltaOutOfRange);
            }
            let from: usize = offset as usize;
            let to: usize = (offset + size) as usize;
            push_all(&mut out, &base[from..to]);
            pos = end;
        } else if cmd != 0 {
            let count: usize = cmd as usize;
            if count > delta.len() - pos - 1 {
                return Err(Error::TruncatedInput);
            }
            push_all(&mut out, &delta[pos + 1..pos + 1 + count]);
            pos = pos + 1 + count;
        } else {
            return Err(Error::InvalidDeltaOpcode);
        }
    }
    if out.len() as u64 != declared {
        return Err(Error::ResultSizeMismatch);
    }
    Ok(out)
}

/// One instruction of a delta, as an encoder chooses it.
#[derive(Debug, PartialEq, Eq)]
pub enum DeltaOp {
    /// Take `size` bytes of the base from `offset` on.
    Copy { offset: u32, size: u32 },
    /// Take these bytes as they are.
    Insert { data: Vec<u8> },
}

/// The bytes of an operand: none where it is zero.
pub open spec fn optional(b: int) -> Seq<u8> {
    if b != 0 {
        seq![b as u8]
    } else {
        Seq::empty()
    }
}

/// One where an operand is written, zero where it is left out.
pub open spec fn written(b: int) -> int {
    if b != 0 {
        1
    } else {
        0
    }
}

/// The opcode of a copy instruction with these operand bytes.
pub open spec fn copy_opcode(
    off0: int,
    off1: int,
    off2: int,
    off3: int,
    len0: int,
    len1: int,
    len2: int,
) -> int {
    128 + written(off0) + 2 * written(off1) + 4 * written(off2) + 8 * written(off3) + 16
        * written(len0) + 32 * written(len1) + 64 * written(len2)
}

/// The operand bytes of a copy instruction, those that are zero left out.
pub open spec fn copy_operand_bytes(
    off0: int,
    off1: int,
    off2: int,
    off3: int,
    len0: int,
    len1: int,
    len2: int,
) -> Seq<u8> {
    optional(off0) + (optional(off1) + (optional(off2) + (optional(off3) + (optional(len0) + (
    optional(len1) + optional(len2))))))
}

/// The encoding of a copy instruction with these operand bytes.
pub open spec fn copy_bytes_of(
    off0: int,
    off1: int,
    off2: int,
    off3: int,
    len0: int,
    len1: int,
    len2: int,
) -> Seq<u8> {
    seq![copy_opcode(off0, off1, off2, off3, len0, len1, len2) as u8] + copy_operand_bytes(
        off0,
        off1,
        off2,
        off3,
        len0,
        len1,
        len2,
    )
}

/// Byte `k` of a 32-bit number, the lowest being byte zero.
pub open spec fn byte_of(x: u32, k: nat) -> int {
    if k == 0 {
        (x % 256) as int
    } else if k == 1 {
        (x / 256 % 256) as int
    } else if k == 2 {
        (x / 65536 % 256) as int
    } else {
        (x / 16777216) as int
    }
}

/// The encoding of a copy instruction.
pub open spec fn copy_bytes(offset: u32, size: u32) -> Seq<u8> {
    copy_bytes_of(
        byte_of(offset, 0),
        byte_of(offset, 1),
        byte_of(offset, 2),
        byte_of(offset, 3),
        byte_of(size, 0),
        byte_of(size, 1),
        byte_of(size, 2),
    )
}

impl DeltaOp {
    /// Whether the instruction can be encoded and run against a base of
    /// `base_len` bytes.
    pub open spec fn valid_for(self, base_len: int) -> bool {
        match self {
            DeltaOp::Copy { offset, size } => 0 < size <= 0xff_ffff && offset + size <= base_len,
            DeltaOp::Insert { data } => 0 < data@.len() <= 127,
        }
    }

    /// How many bytes the instruction produces.
    pub open spec fn produced(self) -> nat {
        match self {
            DeltaOp::Copy { offset, size } => size as nat,
            DeltaOp::Insert { data } => data@.len(),
        }
    }

    /// What the instruction produces from `base`.
    pub open spec fn output(self, base: Seq<u8>) -> Seq<u8> {
        match self {
            DeltaOp::Copy { offset, size } => base.subrange(offset as int, offset + size),
            DeltaOp::Insert { data } => data@,
        }
    }

    /// The encoding of the instruction.
    pub open spec fn bytes(self) -> Seq<u8> {
        match self {
            DeltaOp::Copy { offset, size } => copy_bytes(offset, size),
            DeltaOp::Insert { data } => seq![data@.len() as u8] + data@,
        }
    }
}

/// How many bytes a script produces.
pub open spec fn script_produced(ops: Seq<DeltaOp>) -> nat
    decreases ops.len(),
{
    if ops.len() == 0 {
        0
    } else {
        ops[0].produced() + script_produced(ops.drop_first())
    }
}

/// What a script produces from `base`.
pub open spec fn script_output(base: Seq<u8>, ops: Seq<DeltaOp>) -> Seq<u8>
    decreases ops.len(),
{
    if ops.len() == 0 {
        Seq::empty()
    } else {
        ops[0].output(base) + script_output(base, ops.drop_first())
    }
}

/// The encoded instructions of a script.
pub open spec fn script_bytes(ops: Seq<DeltaOp>) -> Seq<u8>
    decreases ops.len(),
{
    if ops.len() == 0 {
        Seq::empty()
    } else {
        ops[0].bytes() + script_bytes(ops.drop_first())
    }
}

/// The delta that a script makes for a base of `base_len` bytes.
pub open spec fn delta_bytes(base_len: u64, ops: Seq<DeltaOp>) -> Seq<u8> {
    size_vli_bytes(base_len) + size_vli_bytes(script_produced(ops) as u64) + script_bytes(ops)
}

/// Whether every instruction of a script is valid for a base of `base_len`
/// bytes.
pub open spec fn script_valid(ops: Seq<DeltaOp>, base_len: int) -> bool {
    forall|i: int| 0 <= i < ops.len() ==> (#[trigger] ops[i]).valid_for(base_len)
}

proof fn lemma_operand(d: Seq<u8>, pos: int, b: int, rest: Seq<u8>)
    requires
        0 <= pos <= d.len(),
        0 <= b < 256,
        d.subrange(pos, d.len() as int) =~= optional(b) + rest,
    ensures
        operand(d, pos, b != 0) == b,
        past(pos, b != 0) == d.len() - rest.len(),
        d.subrange(past(pos, b != 0), d.len() as int) =~= rest,
{
    let tail = d.subrange(pos, d.len() as int);
    if b != 0 {
        assert(tail.len() == 1 + rest.len());
        assert(tail[0] == b as u8);
        assert(d[pos] == tail[0]);
        assert(d.subrange(pos + 1, d.len() as int) =~= tail.subrange(1, tail.len() as int));
    }
}

proof fn lemma_copy_flags(
    off0: int,
    off1: int,
    off2: int,
    off3: int,
    len0: int,
    len1: int,
    len2: int,
)
    ensures
        ({
            let cmd = copy_opcode(off0, off1, off2, off3, len0, len1, len2) as u8;
            &&& cmd >= 128
            &&& announces(cmd, 1) == (off0 != 0)
            &&& announces(cmd, 2) == (off1 != 0)
            &&& announces(cmd, 4) == (off2 != 0)
            &&& announces(cmd, 8) == (off3 != 0)
            &&& announces(cmd, 16) == (len0 != 0)
            &&& announces(cmd, 32) == (len1 != 0)
            &&& announces(cmd, 64) == (len2 != 0)
        }),
{
}

proof fn lemma_copy_offset_read(
    d: Seq<u8>,
    pos: int,
    cmd: u8,
    off0: int,
    off1: int,
    off2: int,
    off3: int,
    rest: Seq<u8>,
)
    requires
        0 <= pos <= d.len(),
        0 <= off0 < 256 && 0 <= off1 < 256 && 0 <= off2 < 256 && 0 <= off3 < 256,
        announces(cmd, 1) == (off0 != 0),
        announces(cmd, 2) == (off1 != 0),
        announces(cmd, 4) == (off2 != 0),
        announces(cmd, 8) == (off3 != 0),
        d.subrange(pos, d.len() as int) =~= optional(off0) + (optional(off1) + (optional(off2) + (
        optional(off3) + rest))),
    ensures
        copy_offset(d, pos, cmd) == (
            off0 + off1 * 256 + off2 * 65536 + off3 * 16777216,
            d.len() - rest.len(),
        ),
        pos <= d.len() - rest.len(),
        d.subrange(d.len() - rest.len(), d.len() as int) =~= rest,
{
    let t3 = optional(off3) + rest;
    let t2 = optional(off2) + t3;
    let t1 = optional(off1) + t2;
    lemma_operand(d, pos, off0, t1);
    let at1 = past(pos, off0 != 0);
    lemma_operand(d, at1, off1, t2);
    let at2 = past(at1, off1 != 0);
    lemma_operand(d, at2, off2, t3);
    let at3 = past(at2, off2 != 0);
    lemma_operand(d, at3, off3, rest);
}

proof fn lemma_copy_length_read(
    d: Seq<u8>,
    pos: int,
    cmd: u8,
    len0: int,
    len1: int,
    len2: int,
    rest: Seq<u8>,
)
    requires
        0 <= pos <= d.len(),
        0 <= len0 < 256 && 0 <= len1 < 256 && 0 <= len2 < 256,
        len0 + len1 * 256 + len2 * 65536 != 0,
        announces(cmd, 16) == (len0 != 0),
        announces(cmd, 32) == (len1 != 0),
        announces(cmd, 64) == (len2 != 0),
        d.subrange(pos, d.len() as int) =~= optional(len0) + (optional(len1) + (optional(len2)
            + rest)),
    ensures
        copy_length(d, pos, cmd) == (len0 + len1 * 256 + len2 * 65536, d.len() - rest.len()),
{
    let t2 = optional(len2) + rest;
    let t1 = optional(len1) + t2;
    lemma_operand(d, pos, len0, t1);
    let at1 = past(pos, len0 != 0);
    lemma_operand(d, at1, len1, t2);
    let at2 = past(at1, len1 != 0);
    lemma_operand(d, at2, len2, rest);
}

proof fn lemma_layout(
    before: Seq<u8>,
    cmd: u8,
    a0: Seq<u8>,
    a1: Seq<u8>,
    a2: Seq<u8>,
    a3: Seq<u8>,
    a4: Seq<u8>,
    a5: Seq<u8>,
    a6: Seq<u8>,
    after: Seq<u8>,
)
    ensures
        ({
            let body = a0 + (a1 + (a2 + (a3 + (a4 + (a5 + a6)))));
            let d = before + (seq![cmd] + body) + after;
            &&& d[before.len() as int] == cmd
            &&& d.subrange(before.len() as int + 1, d.len() as int) =~= a0 + (a1 + (a2 + (a3 + (a4
                + (a5 + (a6 + after))))))
            &&& d.len() - after.len() == before.len() + 1 + body.len()
        }),
{
}

proof fn lemma_copy_args_read(
    d: Seq<u8>,
    pos: int,
    cmd: u8,
    off0: int,
    off1: int,
    off2: int,
    off3: int,
    len0: int,
    len1: int,
    len2: int,
    after: Seq<u8>,
)
    requires
        0 <= pos <= d.len(),
        0 <= off0 < 256 && 0 <= off1 < 256 && 0 <= off2 < 256 && 0 <= off3 < 256,
        0 <= len0 < 256 && 0 <= len1 < 256 && 0 <= len2 < 256,
        len0 + len1 * 256 + len2 * 65536 != 0,
        cmd == copy_opcode(off0, off1, off2, off3, len0, len1, len2),
        d.subrange(pos, d.len() as int) =~= optional(off0) + (optional(off1) + (optional(off2) + (
        optional(off3) + (optional(len0) + (optional(len1) + (optional(len2) + after)))))),
    ensures
        copy_args(d, pos, cmd) == (CopyArgs {
            offset: off0 + off1 * 256 + off2 * 65536 + off3 * 16777216,
            size: len0 + len1 * 256 + len2 * 65536,
            end: d.len() - after.len(),
        }),
{
    let sizes = optional(len0) + (optional(len1) + (optional(len2) + after));
    lemma_copy_flags(off0, off1, off2, off3, len0, len1, len2);
    lemma_copy_offset_read(d, pos, cmd, off0, off1, off2, off3, sizes);
    lemma_copy_length_read(d, d.len() - sizes.len(), cmd, len0, len1, len2, after);
}

proof fn lemma_copy_step_of(
    base: Seq<u8>,
    before: Seq<u8>,
    off0: int,
    off1: int,
    off2: int,
    off3: int,
    len0: int,
    len1: int,
    len2: int,
    after: Seq<u8>,
    out: Seq<u8>,
)
    requires
        0 <= off0 < 256 && 0 <= off1 < 256 && 0 <= off2 < 256 && 0 <= off3 < 256,
        0 <= len0 < 256 && 0 <= len1 < 256 && 0 <= len2 < 256,
        len0 + len1 * 256 + len2 * 65536 != 0,
        off0 + off1 * 256 + off2 * 65536 + off3 * 16777216 + len0 + len1 * 256 + len2 * 65536
            <= base.len(),
    ensures
        ({
            let offset = off0 + off1 * 256 + off2 * 65536 + off3 * 16777216;
            let size = len0 + len1 * 256 + len2 * 65536;
            let piece = copy_bytes_of(off0, off1, off2, off3, len0, len1, len2);
            run_delta(base, before + piece + after, before.len() as int, out) == run_delta(
                base,
                before + piece + after,
                (before.len() + piece.len()) as int,
                out + base.subrange(offset, offset + size),
            )
        }),
{
    let cmd = copy_opcode(off0, off1, off2, off3, len0, len1, len2) as u8;
    let piece = copy_bytes_of(off0, off1, off2, off3, len0, len1, len2);
    let d = before + piece + after;
    let at = before.len() as int;
    lemma_layout(
        before,
        cmd,
        optional(off0),
        optional(off1),
        optional(off2),
        optional(off3),
        optional(len0),
        optional(len1),
        optional(len2),
        after,
    );
    lemma_copy_args_read(d, at + 1, cmd, off0, off1, off2, off3, len0, len1, len2, after);
    assert(cmd >= 128);
}

proof fn lemma_bytes_of(x: u32)
    ensures
        0 <= byte_of(x, 0) < 256,
        0 <= byte_of(x, 1) < 256,
        0 <= byte_of(x, 2) < 256,
        0 <= byte_of(x, 3) < 256,
        x == byte_of(x, 0) + byte_of(x, 1) * 256 + byte_of(x, 2) * 65536 + byte_of(x, 3) * 16777216,
        x <= 0xff_ffff ==> byte_of(x, 3) == 0,
{
}

proof fn lemma_copy_step(
    base: Seq<u8>,
    before: Seq<u8>,
    offset: u32,
    size: u32,
    after: Seq<u8>,
    out: Seq<u8>,
)
    requires
        0 < size <= 0xff_ffff,
        offset + size <= base.len(),
    ensures
        run_delta(base, before + copy_bytes(offset, size) + after, before.len() as int, out)
            == run_delta(
            base,
            before + copy_bytes(offset, size) + after,
            (before.len() + copy_bytes(offset, size).len()) as int,
            out + base.subrange(offset as int, offset + size),
        ),
{
    lemma_bytes_of(offset);
    lemma_bytes_of(size);
    lemma_copy_step_of(
        base,
        before,
        byte_of(offset, 0),
        byte_of(offset, 1),
        byte_of(offset, 2),
        byte_of(offset, 3),
        byte_of(size, 0),
        byte_of(size, 1),
        byte_of(size, 2),
        after,
        out,
    );
}

proof fn lemma_insert_step(
    base: Seq<u8>,
    before: Seq<u8>,
    data: Seq<u8>,
    after: Seq<u8>,
    out: Seq<u8>,
)
    requires
        0 < data.len() <= 127,
    ensures
        run_delta(base, before + (seq![data.len() as u8] + data) + after, before.len() as int, out)
            == run_delta(
            base,
            before + (seq![data.len() as u8] + data) + after,
            (before.len() + 1 + data.len()) as int,
            out + data,
        ),
{
    let d = before + (seq![data.len() as u8] + data) + after;
    let at = before.len() as int;
    assert(d[at] == data.len() as u8);
    assert(d.subrange(at + 1, at + 1 + data.len()) =~= data);
}

proof fn lemma_run_script(base: Seq<u8>, before: Seq<u8>, ops: Seq<DeltaOp>, out: Seq<u8>)
    requires
        script_valid(ops, base.len() as int),
    ensures
        run_delta(base, before + script_bytes(ops), before.len() as int, out) == Ok::<
            Seq<u8>,
            Error,
        >(out + script_output(base, ops)),
        script_output(base, ops).len() == script_produced(ops),
    decreases ops.len(),
{
    let d = before + script_bytes(ops);
    if ops.len() == 0 {
        assert(out + script_output(base, ops) =~= out);
    } else {
        let op = ops[0];
        let rest = ops.drop_first();
        assert(op.valid_for(base.len() as int));
        assert forall|i: int| 0 <= i < rest.len() implies (#[trigger] rest[i]).valid_for(
            base.len() as int,
        ) by {
            assert(rest[i] == ops[i + 1]);
        }
        assert(d =~= before + op.bytes() + script_bytes(rest));
        match op {
            DeltaOp::Copy { offset, size } => {
                lemma_copy_step(base, before, offset, size, script_bytes(rest), out);
            },
            DeltaOp::Insert { data } => {
                lemma_insert_step(base, before, data@, script_bytes(rest), out);
            },
        }
        lemma_run_script(base, before + op.bytes(), rest, out + op.output(base));
        assert(out + op.output(base) + script_output(base, rest) =~= out + script_output(
            base,
            ops,
        ));
    }
}

/// Law: a delta made of valid instructions for a base, applied to that base,
/// gives what the instructions produce, and that has the length which the
/// delta declares.
pub proof fn lemma_apply_encoded_delta(base: Seq<u8>, ops: Seq<DeltaOp>)
    requires
        base.len() <= u64::MAX,
        script_produced(ops) <= u64::MAX,
        script_valid(ops, base.len() as int),
    ensures
        apply_delta_spec(base, delta_bytes(base.len() as u64, ops)) == Ok::<Seq<u8>, Error>(
            script_output(base, ops),
        ),
        size_vli_at(
            delta_bytes(base.len() as u64, ops),
            size_vli_bytes(base.len() as u64).len() as int,
        ) matches Ok((declared, _)) && declared == script_output(base, ops).len(),
{
    let base_len = base.len() as u64;
    let produced = script_produced(ops) as u64;
    let first = size_vli_bytes(base_len);
    let second = size_vli_bytes(produced);
    let d = delta_bytes(base_len, ops);
    assert(fits_above(base_len, 0) && fits_above(produced, 0) && 0u64 | (base_len << 0u64)
        == base_len && 0u64 | (produced << 0u64) == produced) by (bit_vector);
    lemma_size_vli_read_back(Seq::empty(), base_len, second + script_bytes(ops), 0, 0);
    assert(Seq::<u8>::empty() + first + (second + script_bytes(ops)) =~= d);
    lemma_size_vli_read_back(first, produced, script_bytes(ops), 0, 0);
    lemma_run_script(base, first + second, ops, Seq::empty());
    assert(Seq::<u8>::empty() + script_output(base, ops) =~= script_output(base, ops));
}

impl DeltaOp {
    /// Whether the instruction can be encoded: a copy of one to 16777215
    /// bytes, or an insertion of one to 127 bytes.
    pub open spec fn encodable(self) -> bool {
        match self {
            DeltaOp::Copy { offset, size } => 0 < size <= 0xff_ffff,
            DeltaOp::Insert { data } => 0 < data@.len() <= 127,
        }
    }
}

/// Whether every instruction of a script can be encoded, and what they
/// produce has a length of 64 bits.
pub open spec fn script_encodable(ops: Seq<DeltaOp>) -> bool {
    script_produced(ops) <= u64::MAX && forall|i: int|
        0 <= i < ops.len() ==> (#[trigger] ops[i]).encodable()
}

/// Appends an operand byte unless it is zero, and says whether it did.
fn push_operand(out: &mut Vec<u8>, b: u8) -> (flag: u8)
    ensures
        final(out)@ == old(out)@ + optional(b as int),
        flag == written(b as int),
{
    if b != 0 {
        out.push(b);
        assert(out@ =~= old(out)@ + optional(b as int));
        1
    } else {
        assert(out@ =~= old(out)@ + optional(b as int));
        0
    }
}

proof fn lemma_nest(
    a0: Seq<u8>,
    a1: Seq<u8>,
    a2: Seq<u8>,
    a3: Seq<u8>,
    a4: Seq<u8>,
    a5: Seq<u8>,
    a6: Seq<u8>,
)
    ensures
        Seq::<u8>::empty() + a0 + a1 + a2 + a3 + a4 + a5 + a6 =~= a0 + (a1 + (a2 + (a3 + (a4 + (a5
            + a6))))),
{
}

/// Appends the encoding of a copy instruction.
fn push_copy(out: &mut Vec<u8>, offset: u32, size: u32)
    requires
        size <= 0xff_ffff,
    ensures
        final(out)@ == old(out)@ + copy_bytes(offset, size),
{
    let mut operands: Vec<u8> = Vec::new();
    let f0 = push_operand(&mut operands, (offset % 256) as u8);
    let f1 = push_operand(&mut operands, (offset / 256 % 256) as u8);
    let f2 = push_operand(&mut operands, (offset / 65536 % 256) as u8);
    let f3 = push_operand(&mut operands, (offset / 16777216) as u8);
    let f4 = push_operand(&mut operands, (size % 256) as u8);
    let f5 = push_operand(&mut operands, (size / 256 % 256) as u8);
    let f6 = push_operand(&mut operands, (size / 65536 % 256) as u8);
    proof {
        lemma_nest(
            optional(byte_of(offset, 0)),
            optional(byte_of(offset, 1)),
            optional(byte_of(offset, 2)),
            optional(byte_of(offset, 3)),
            optional(byte_of(size, 0)),
            optional(byte_of(size, 1)),
            optional(byte_of(size, 2)),
        );
    }
    let opcode: u8 = 128 + f0 + 2 * f1 + 4 * f2 + 8 * f3 + 16 * f4 + 32 * f5 + 64 * f6;
    let ghost before = out@;
    out.push(opcode);
    push_all(out, operands.as_slice());
    assert(out@ == before.push(opcode) + operands@);
    assert(before.push(opcode) + operands@ =~= before + (seq![opcode] + operands@));
}

/// Encodes a script as a delta for a base of `base_len` bytes: the two
/// sizes, then the instructions. Gives `None` where an instruction cannot be
/// encoded or the script produces more than 64 bits can count.
pub fn encode_delta(base_len: u64, ops: &Vec<DeltaOp>) -> (r: Option<Vec<u8>>)
    ensures
        match r {
            Some(delta) => script_encodable(ops@) && delta@ == delta_bytes(base_len, ops@),
            None => !script_encodable(ops@),
        },
{
    let mut body: Vec<u8> = Vec::new();
    let mut total: u64 = 0;
    let mut i: usize = 0;
    assert(ops@.subrange(0, ops@.len() as int) =~= ops@);
    while i < ops.len()
        invariant
            i <= ops@.len(),
            forall|k: int| 0 <= k < i ==> (#[trigger] ops@[k]).encodable(),
            total + script_produced(ops@.subrange(i as int, ops@.len() as int)) == script_produced(
                ops@,
            ),
            body@ + script_bytes(ops@.subrange(i as int, ops@.len() as int)) == script_bytes(ops@),
        decreases ops@.len() - i,
    {
        let ghost rest = ops@.subrange(i as int, ops@.len() as int);
        assert(rest[0] == ops@[i as int]);
        assert(rest.drop_first() =~= ops@.subrange(i + 1, ops@.len() as int));
        let ghost before = body@;
        let produced: u64 = match &ops[i] {
            DeltaOp::Copy { offset, size } => {
                if *size == 0 || *size > 0xff_ffff {
                    return None;
                }
                push_copy(&mut body, *offset, *size);
                *size as u64
            },
            DeltaOp::Insert { data } => {
                if data.len() == 0 || data.len() > 127 {
                    return None;
                }
                body.push(data.len() as u8);
                push_all(&mut body, data.as_slice());
                data.len() as u64
            },
        };
        assert(body@ =~= before + ops@[i as int].bytes());
        assert(before + (ops@[i as int].bytes() + script_bytes(rest.drop_first())) =~= body@
            + script_bytes(rest.drop_first()));
        total = match total.checked_add(produced) {
            Some(sum) => sum,
            None => { return None; },
        };
        i = i + 1;
    }
    let mut delta = crate::vli::encode_size_vli(base_len);
    let mut second = crate::vli::encode_size_vli(total);
    delta.append(&mut second);
    push_all(&mut delta, body.as_slice());
    assert(body@ + Seq::<u8>::empty() =~= body@);
    Some(delta)
}

} // verus!
