//! Packfiles: reading one record, and ingesting a whole pack into a store.
//!
//! A pack is the signature `PACK`, a version, a count of records, the
//! records, and a digest of twenty bytes that is not looked at. A record is
//! a header with kind and inflated size, for a delta the reference to its
//! base, and a zlib stream. Ingestion walks the records once, storing what is
//! whole and setting deltas aside, then resolves the deltas that name their
//! base by identity, then those that name it by offset.

use crate::bytes::{bytes_equal, has_at};
use crate::codec::{hex_encode, hex_text, inflate, inflate_spec};
use crate::delta::{apply_delta, apply_delta_spec};
use crate::error::Error;
use crate::object::{canonical, put_result, put_spec, ObjectKind, ObjectStore};
use crate::pktline::{
    decode_sideband_data, find_pack_start, pack_signature, pack_start, sideband_spec,
};
use crate::vli::{decode_record_header, ofs_vli_at, read_ofs_delta_offset, record_header_at};
use vstd::prelude::*;

verus! {

/// What a pack record is: one of the three kinds of object, or a delta with
/// the way back to its base.
#[derive(Debug, PartialEq, Eq)]
pub enum PackObjectType {
    Commit,
    Tree,
    Blob,
    /// A delta whose base starts this many bytes before it in the pack.
    OfsDelta(u64),
    /// A delta whose base has this identity.
    RefDelta(Vec<u8>),
}

/// The mathematical form of [`PackObjectType`].
pub enum PackKind {
    Commit,
    Tree,
    Blob,
    OfsDelta(u64),
    RefDelta(Seq<u8>),
}

impl View for PackObjectType {
    type V = PackKind;

    open spec fn view(&self) -> PackKind {
        match self {
            PackObjectType::Commit => PackKind::Commit,
            PackObjectType::Tree => PackKind::Tree,
            PackObjectType::Blob => PackKind::Blob,
            PackObjectType::OfsDelta(back) => PackKind::OfsDelta(*back),
            PackObjectType::RefDelta(base) => PackKind::RefDelta(base@),
        }
    }
}

impl PackKind {
    /// The kind of object that a record holds, where it is no delta.
    pub open spec fn object_kind(self) -> Option<ObjectKind> {
        match self {
            PackKind::Commit => Some(ObjectKind::Commit),
            PackKind::Tree => Some(ObjectKind::Tree),
            PackKind::Blob => Some(ObjectKind::Blob),
            _ => None,
        }
    }

    /// The name of the kind as text; `unknown` for a delta, whose kind is
    /// that of its base.
    pub open spec fn text(self) -> Seq<char> {
        match self {
            PackKind::Commit => "commit"@,
            PackKind::Tree => "tree"@,
            PackKind::Blob => "blob"@,
            _ => "unknown"@,
        }
    }
}

impl PackObjectType {
    /// The name of the kind as text; `unknown` for a delta.
    pub fn as_str(&self) -> (out: &'static str)
        ensures
            out@ == self@.text(),
    {
        match self {
            PackObjectType::Commit => "commit",
            PackObjectType::Tree => "tree",
            PackObjectType::Blob => "blob",
            _ => "unknown",
        }
    }

    /// The kind of object that the record holds, where it is no delta.
    pub fn object_kind(&self) -> (kind: Option<ObjectKind>)
        ensures
            kind == self@.object_kind(),
    {
        match self {
            PackObjectType::Commit => Some(ObjectKind::Commit),
            PackObjectType::Tree => Some(ObjectKind::Tree),
            PackObjectType::Blob => Some(ObjectKind::Blob),
            _ => None,
        }
    }
}

/// One record read from a pack.
#[derive(Debug, PartialEq, Eq)]
pub struct PackRecord {
    pub kind: PackObjectType,
    /// The inflated size that the header declares.
    pub declared: u64,
    /// The inflated bytes: an object's content, or a delta.
    pub data: Vec<u8>,
    /// How many bytes of the pack the record takes up.
    pub consumed: usize,
}

/// The mathematical form of [`PackRecord`].
pub struct RecordView {
    pub kind: PackKind,
    pub declared: u64,
    pub data: Seq<u8>,
    pub consumed: int,
}

impl View for PackRecord {
    type V = RecordView;

    open spec fn view(&self) -> RecordView {
        RecordView {
            kind: self.kind@,
            declared: self.declared,
            data: self.data@,
            consumed: self.consumed as int,
        }
    }
}

/// How far the inflated length may be from the declared one.
pub const SIZE_TOLERANCE: u64 = 1000;

/// What stands before the zlib stream of the record at the start of `data`:
/// the kind, the declared size, and where the stream starts.
///
/// Kind codes 1, 2 and 3 are commit, tree and blob. Code 4, a tag, is
/// refused. Code 6 is a delta by offset, followed by the offset; code 7 is a
/// delta by identity, followed by the twenty bytes of the identity. Codes 0
/// and 5 mean nothing.
pub open spec fn record_prefix(data: Seq<u8>) -> Result<(PackKind, u64, int), Error> {
    match record_header_at(data, 0) {
        Err(e) => Err(e),
        Ok((code, size, end)) => if code == 1 {
            Ok((PackKind::Commit, size, end))
        } else if code == 2 {
            Ok((PackKind::Tree, size, end))
        } else if code == 3 {
            Ok((PackKind::Blob, size, end))
        } else if code == 4 {
            Err(Error::UnsupportedTag)
        } else if code == 6 {
            match ofs_vli_at(data, end) {
                Ok((back, after)) => Ok((PackKind::OfsDelta(back), size, after)),
                Err(e) => Err(e),
            }
        } else if code == 7 {
            if end + 20 > data.len() {
                Err(Error::TruncatedInput)
            } else {
                Ok((PackKind::RefDelta(hex_text(data.subrange(end, end + 20))), size, end + 20))
            }
        } else {
            Err(Error::UnknownKind)
        },
    }
}

/// The record that a prefix and the outcome of inflating make: the inflated
/// length may differ from the declared size by a thousand bytes, no more.
pub open spec fn finish_record(
    kind: PackKind,
    declared: u64,
    body_at: int,
    inflated: Result<(Seq<u8>, int), Error>,
) -> Result<RecordView, Error> {
    match inflated {
        Err(e) => Err(e),
        Ok((content, used)) => if content.len() > declared + SIZE_TOLERANCE || declared
            > content.len() + SIZE_TOLERANCE {
            Err(Error::SizeMismatch)
        } else {
            Ok(RecordView { kind, declared, data: content, consumed: body_at + used })
        },
    }
}

/// The record at the start of `data`.
pub open spec fn record_at(data: Seq<u8>) -> Result<RecordView, Error> {
    match record_prefix(data) {
        Err(e) => Err(e),
        Ok((kind, declared, body_at)) => finish_record(
            kind,
            declared,
            body_at,
            inflate_spec(data.subrange(body_at, data.len() as int)),
        ),
    }
}

/// Reads what stands before the zlib stream of a record: kind, declared
/// size, and the position of the stream.
///
/// Fails with `TruncatedInput` or `IntegerOverflow` where a number cannot be
/// read or the identity of a base is cut short, with `UnsupportedTag` on a
/// tag, and with `UnknownKind` on the kind codes 0 and 5.
pub fn parse_record_prefix(data: &[u8]) -> (r: Result<(PackObjectType, u64, usize), Error>)
    ensures
        match r {
            Ok((kind, declared, body_at)) => record_prefix(data@) == Ok::<
                (PackKind, u64, int),
                Error,
            >((kind@, declared, body_at as int)) && 0 < body_at <= data.len(),
            Err(e) => record_prefix(data@) == Err::<(PackKind, u64, int), Error>(e),
        },
{
    let (code, size, end) = match decode_record_header(data, 0) {
        Ok(x) => x,
        Err(e) => { return Err(e); },
    };
    if code == 1 {
        Ok((PackObjectType::Commit, size, end))
    } else if code == 2 {
        Ok((PackObjectType::Tree, size, end))
    } else if code == 3 {
        Ok((PackObjectType::Blob, size, end))
    } else if code == 4 {
        Err(Error::UnsupportedTag)
    } else if code == 6 {
        match read_ofs_delta_offset(data, end) {
            Ok((back, after)) => Ok((PackObjectType::OfsDelta(back), size, after)),
            Err(e) => Err(e),
        }
    } else if code == 7 {
        if data.len() - end < 20 {
            return Err(Error::TruncatedInput);
        }
        let base = hex_encode(&data[end..end + 20]);
        Ok((PackObjectType::RefDelta(base), size, end + 20))
    } else {
        Err(Error::UnknownKind)
    }
}

/// Makes a record of a prefix and the outcome of inflating what follows it.
///
/// Hands on the failure of the inflation, and fails with `SizeMismatch`
/// where the inflated length is more than a thousand bytes from the
/// declared size.
pub fn check_inflated(
    kind: PackObjectType,
    declared: u64,
    body_at: usize,
    inflated: Result<(Vec<u8>, usize), Error>,
) -> (r: Result<PackRecord, Error>)
    requires
        inflated matches Ok(found) ==> body_at + found.1 <= usize::MAX,
    ensures
        match r {
            Ok(record) => finish_record(
                kind@,
                declared,
                body_at as int,
                inflated_view(inflated),
            ) == Ok::<RecordView, Error>(record@),
            Err(e) => finish_record(kind@, declared, body_at as int, inflated_view(inflated))
                == Err::<RecordView, Error>(e),
        },
{
    match inflated {
        Err(e) => Err(e),
        Ok((content, used)) => {
            let length: u64 = content.len() as u64;
            let far: bool = if length > declared {
                length - declared > SIZE_TOLERANCE
            } else {
                declared - length > SIZE_TOLERANCE
            };
            if far {
                Err(Error::SizeMismatch)
            } else {
                Ok(PackRecord { kind, declared, data: content, consumed: body_at + used })
            }
        },
    }
}

/// The mathematical form of the outcome of inflating.
pub open spec fn inflated_view(inflated: Result<(Vec<u8>, usize), Error>) -> Result<
    (Seq<u8>, int),
    Error,
> {
    match inflated {
        Ok((content, used)) => Ok((content@, used as int)),
        Err(e) => Err(e),
    }
}

/// Reads the record at the start of `data`: its kind, its inflated bytes and
/// the number of bytes that it takes up.
///
/// Fails as [`parse_record_prefix`] and [`check_inflated`] do, and with
/// `CodecCorrupt` where the zlib stream is unsound.
pub fn parse_pack_object(data: &[u8]) -> (r: Result<PackRecord, Error>)
    ensures
        match r {
            Ok(record) => record_at(data@) == Ok::<RecordView, Error>(record@) && 0
                < record.consumed <= data.len(),
            Err(e) => record_at(data@) == Err::<RecordView, Error>(e),
        },
{
    let (kind, declared, body_at) = match parse_record_prefix(data) {
        Ok(x) => x,
        Err(e) => { return Err(e); },
    };
    let inflated = inflate(&data[body_at..data.len()]);
    check_inflated(kind, declared, body_at, inflated)
}

/// An object that ingestion has stored, kept for deltas to build on.
#[derive(Debug, PartialEq, Eq)]
pub struct Materialized {
    pub id: Vec<u8>,
    /// Where its record starts in the pack, where that is known.
    pub offset: Option<usize>,
    pub kind: ObjectKind,
    pub content: Vec<u8>,
}

/// The mathematical form of [`Materialized`].
pub struct MaterializedView {
    pub id: Seq<u8>,
    pub offset: Option<int>,
    pub kind: ObjectKind,
    pub content: Seq<u8>,
}

impl View for Materialized {
    type V = MaterializedView;

    open spec fn view(&self) -> MaterializedView {
        MaterializedView {
            id: self.id@,
            offset: match self.offset {
                Some(at) => Some(at as int),
                None => None,
            },
            kind: self.kind,
            content: self.content@,
        }
    }
}

/// The mathematical form of a list of stored objects.
pub open spec fn objects_view(objects: Seq<Materialized>) -> Seq<MaterializedView> {
    Seq::new(objects.len(), |i: int| objects[i]@)
}

/// The index by identity: the object stored last under `id`.
pub open spec fn by_hash(objects: Seq<MaterializedView>, id: Seq<u8>) -> Option<MaterializedView>
    decreases objects.len(),
{
    if objects.len() == 0 {
        None
    } else if objects.last().id == id {
        Some(objects.last())
    } else {
        by_hash(objects.drop_last(), id)
    }
}

/// The index by offset: the object stored last for the record at `at`.
pub open spec fn by_offset(objects: Seq<MaterializedView>, at: int) -> Option<MaterializedView>
    decreases objects.len(),
{
    if objects.len() == 0 {
        None
    } else if objects.last().offset == Some(at) {
        Some(objects.last())
    } else {
        by_offset(objects.drop_last(), at)
    }
}

/// Looks an object up by identity.
fn find_by_hash<'a>(objects: &'a Vec<Materialized>, id: &[u8]) -> (r: Option<&'a Materialized>)
    ensures
        match r {
            Some(found) => by_hash(objects_view(objects@), id@) == Some(found@),
            None => by_hash(objects_view(objects@), id@) is None,
        },
{
    let mut i: usize = objects.len();
    assert(objects_view(objects@).subrange(0, i as int) =~= objects_view(objects@));
    while i > 0
        invariant
            i <= objects.len(),
            by_hash(objects_view(objects@).subrange(0, i as int), id@) == by_hash(
                objects_view(objects@),
                id@,
            ),
        decreases i,
    {
        let ghost part = objects_view(objects@).subrange(0, i as int);
        i = i - 1;
        assert(part.last() == objects@[i as int]@);
        assert(part.drop_last() =~= objects_view(objects@).subrange(0, i as int));
        if bytes_equal(objects[i].id.as_slice(), id) {
            return Some(&objects[i]);
        }
    }
    None
}

/// Looks an object up by the offset of its record.
fn find_by_offset<'a>(objects: &'a Vec<Materialized>, at: usize) -> (r: Option<&'a Materialized>)
    ensures
        match r {
            Some(found) => by_offset(objects_view(objects@), at as int) == Some(found@),
            None => by_offset(objects_view(objects@), at as int) is None,
        },
{
    let mut i: usize = objects.len();
    assert(objects_view(objects@).subrange(0, i as int) =~= objects_view(objects@));
    while i > 0
        invariant
            i <= objects.len(),
            by_offset(objects_view(objects@).subrange(0, i as int), at as int) == by_offset(
                objects_view(objects@),
                at as int,
            ),
        decreases i,
    {
        let ghost part = objects_view(objects@).subrange(0, i as int);
        i = i - 1;
        assert(part.last() == objects@[i as int]@);
        assert(part.drop_last() =~= objects_view(objects@).subrange(0, i as int));
        let hit: bool = match objects[i].offset {
            Some(o) => o == at,
            None => false,
        };
        if hit {
            return Some(&objects[i]);
        }
    }
    None
}

/// The store and the list of stored objects, as ingestion carries them.
pub struct Held {
    pub files: Map<Seq<u8>, Seq<u8>>,
    pub objects: Seq<MaterializedView>,
}

/// Storing one object: it is put into the store and added to the list.
pub open spec fn hold(
    held: Held,
    kind: ObjectKind,
    content: Seq<u8>,
    offset: Option<int>,
) -> Result<Held, Error> {
    match put_result(held.files, canonical(kind, content)) {
        Err(e) => Err(e),
        Ok(id) => Ok(
            Held {
                files: put_spec(held.files, canonical(kind, content)),
                objects: held.objects.push(MaterializedView { id, offset, kind, content }),
            },
        ),
    }
}

/// Stores one object and adds it to the list. On failure nothing changes.
fn hold_object(
    store: &mut ObjectStore,
    objects: &mut Vec<Materialized>,
    kind: ObjectKind,
    content: Vec<u8>,
    offset: Option<usize>,
) -> (r: Result<(), Error>)
    requires
        old(store).wf(),
    ensures
        final(store).wf(),
        old(store)@.submap_of(final(store)@),
        match r {
            Ok(_) => hold(
                Held { files: old(store)@, objects: objects_view(old(objects)@) },
                kind,
                content@,
                match offset {
                    Some(at) => Some(at as int),
                    None => None,
                },
            ) == Ok::<Held, Error>(
                Held { files: final(store)@, objects: objects_view(final(objects)@) },
            ) && final(objects)@.len() == old(objects)@.len() + 1,
            Err(e) => hold(
                Held { files: old(store)@, objects: objects_view(old(objects)@) },
                kind,
                content@,
                match offset {
                    Some(at) => Some(at as int),
                    None => None,
                },
            ) == Err::<Held, Error>(e) && final(store)@ == old(store)@ && final(objects)@ == old(
                objects,
            )@,
        },
{
    let id = match store.put_raw(kind, content.as_slice()) {
        Ok(id) => id,
        Err(e) => { return Err(e); },
    };
    let stored = Materialized { id, offset, kind, content };
    objects.push(stored);
    assert(objects_view(objects@) =~= objects_view(old(objects)@).push(stored@));
    Ok(())
}

/// A delta set aside that names its base by identity.
#[derive(Debug, PartialEq, Eq)]
pub struct RefDelta {
    pub base: Vec<u8>,
    pub delta: Vec<u8>,
}

/// A delta set aside that names its base by the distance back from its own
/// record.
#[derive(Debug, PartialEq, Eq)]
pub struct OfsDelta {
    pub at: usize,
    pub back: u64,
    pub delta: Vec<u8>,
}

/// The mathematical form of a queue of deltas by identity: base and delta.
pub open spec fn refs_view(queue: Seq<RefDelta>) -> Seq<(Seq<u8>, Seq<u8>)> {
    Seq::new(queue.len(), |i: int| (queue[i].base@, queue[i].delta@))
}

/// The mathematical form of a queue of deltas by offset: own offset,
/// distance back, delta.
pub open spec fn ofs_view(queue: Seq<OfsDelta>) -> Seq<(int, u64, Seq<u8>)> {
    Seq::new(queue.len(), |i: int| (queue[i].at as int, queue[i].back, queue[i].delta@))
}

/// How far behind a record that could not be read another one is looked
/// for.
pub const RECOVERY_WINDOW: usize = 1000;

/// The first place from `pos + skip` on, less than a thousand bytes behind
/// `pos` and more than twenty bytes before the end, at which a record can be
/// read.
pub open spec fn recover_from(pack: Seq<u8>, pos: int, skip: int) -> Option<(int, RecordView)>
    decreases RECOVERY_WINDOW - skip,
{
    if skip < 1 || skip >= RECOVERY_WINDOW || pos + skip >= pack.len() - 20 {
        None
    } else {
        match record_at(pack.subrange(pos + skip, pack.len() as int)) {
            Ok(record) => Some((pos + skip, record)),
            Err(_) => recover_from(pack, pos, skip + 1),
        }
    }
}

/// The record at `pos`, or the one that recovery finds behind it. A tag is
/// final; any other failure stands where recovery finds nothing.
pub open spec fn locate_record(pack: Seq<u8>, pos: int) -> Result<(int, RecordView), Error> {
    match record_at(pack.subrange(pos, pack.len() as int)) {
        Ok(record) => Ok((pos, record)),
        Err(e) => if e == Error::UnsupportedTag {
            Err(e)
        } else {
            match recover_from(pack, pos, 1) {
                Some(found) => Ok(found),
                None => Err(e),
            }
        },
    }
}

/// Looks for a readable record behind one at `offset` that could not be
/// read, a byte at a time, for less than a thousand bytes and not into the
/// last twenty bytes of the pack. Gives its place and the record.
pub fn attempt_error_recovery(pack_data: &[u8], offset: usize) -> (r: Option<(usize, PackRecord)>)
    requires
        offset <= pack_data.len(),
    ensures
        match r {
            Some((at, record)) => recover_from(pack_data@, offset as int, 1) == Some(
                (at as int, record@),
            ) && offset < at && 0 < record.consumed && at + record.consumed <= pack_data.len(),
            None => recover_from(pack_data@, offset as int, 1) is None,
        },
{
    if pack_data.len() < 20 {
        return None;
    }
    let limit: usize = pack_data.len() - 20;
    let mut skip: usize = 1;
    while skip < RECOVERY_WINDOW && skip < limit - offset.min(limit)
        invariant
            1 <= skip <= RECOVERY_WINDOW,
            offset <= pack_data.len(),
            limit == pack_data.len() - 20,
            recover_from(pack_data@, offset as int, skip as int) == recover_from(
                pack_data@,
                offset as int,
                1,
            ),
        decreases RECOVERY_WINDOW - skip,
    {
        match parse_pack_object(&pack_data[offset + skip..pack_data.len()]) {
            Ok(record) => {
                return Some((offset + skip, record));
            },
            Err(_) => {},
        }
        skip = skip + 1;
    }
    None
}

/// Reads the record at `pos`, turning to recovery where it cannot be read.
fn read_or_recover(pack: &[u8], pos: usize) -> (r: Result<(usize, PackRecord), Error>)
    requires
        pos <= pack.len(),
    ensures
        match r {
            Ok((at, record)) => locate_record(pack@, pos as int) == Ok::<(int, RecordView), Error>(
                (at as int, record@),
            ) && pos <= at && 0 < record.consumed && at + record.consumed <= pack.len(),
            Err(e) => locate_record(pack@, pos as int) == Err::<(int, RecordView), Error>(e),
        },
{
    match parse_pack_object(&pack[pos..pack.len()]) {
        Ok(record) => Ok((pos, record)),
        Err(e) => {
            match e {
                Error::UnsupportedTag => Err(e),
                _ => match attempt_error_recovery(pack, pos) {
                    Some(found) => Ok(found),
                    None => Err(e),
                },
            }
        },
    }
}

/// What the first pass has gathered.
pub struct Scan {
    pub held: Held,
    pub refs: Seq<(Seq<u8>, Seq<u8>)>,
    pub ofs: Seq<(int, u64, Seq<u8>)>,
    /// How many records were read.
    pub parsed: nat,
    /// Where the pass stopped.
    pub end: int,
}

/// The first pass taking in the record found at `at`: an object is stored, a
/// delta is set aside.
pub open spec fn absorb(scan: Scan, at: int, record: RecordView) -> Result<Scan, Error> {
    match record.kind {
        PackKind::OfsDelta(back) => Ok(
            Scan {
                held: scan.held,
                refs: scan.refs,
                ofs: scan.ofs.push((at, back, record.data)),
                parsed: scan.parsed + 1,
                end: scan.end,
            },
        ),
        PackKind::RefDelta(base) => Ok(
            Scan {
                held: scan.held,
                refs: scan.refs.push((base, record.data)),
                ofs: scan.ofs,
                parsed: scan.parsed + 1,
                end: scan.end,
            },
        ),
        _ => match hold(scan.held, record.kind.object_kind().unwrap(), record.data, Some(at)) {
            Ok(held) => Ok(
                Scan {
                    held,
                    refs: scan.refs,
                    ofs: scan.ofs,
                    parsed: scan.parsed + 1,
                    end: scan.end,
                },
            ),
            Err(e) => Err(e),
        },
    }
}

/// The first pass from `pos` on with `remaining` records still declared. It
/// stops, and notes where, when none is left or when twenty bytes or fewer
/// are.
pub open spec fn scan_records(pack: Seq<u8>, pos: int, remaining: nat, scan: Scan) -> Result<
    Scan,
    Error,
>
    decreases remaining,
{
    if remaining == 0 || pack.len() - pos <= 20 {
        Ok(
            Scan {
                held: scan.held,
                refs: scan.refs,
                ofs: scan.ofs,
                parsed: scan.parsed,
                end: pos,
            },
        )
    } else {
        match locate_record(pack, pos) {
            Err(e) => Err(e),
            Ok((at, record)) => match absorb(scan, at, record) {
                Err(e) => Err(e),
                Ok(next) => scan_records(
                    pack,
                    at + record.consumed,
                    (remaining - 1) as nat,
                    next,
                ),
            },
        }
    }
}

/// The second pass over the deltas by identity, from the one at `i` on: the
/// base is looked up among the stored objects, the delta applied, and the
/// target stored with the kind of its base.
pub open spec fn resolve_refs(held: Held, refs: Seq<(Seq<u8>, Seq<u8>)>, i: int) -> Result<
    Held,
    Error,
>
    decreases refs.len() - i,
{
    if i < 0 || i >= refs.len() {
        Ok(held)
    } else {
        match by_hash(held.objects, refs[i].0) {
            None => Err(Error::UnresolvedBase),
            Some(base) => match apply_delta_spec(base.content, refs[i].1) {
                Err(e) => Err(e),
                Ok(target) => match hold(held, base.kind, target, None) {
                    Err(e) => Err(e),
                    Ok(next) => resolve_refs(next, refs, i + 1),
                },
            },
        }
    }
}

/// The second pass over the deltas by offset, from the one at `i` on, with
/// `skipped` of them passed over so far: a delta whose base is not among the
/// stored objects is passed over; else the delta is applied and the target
/// stored with the kind of its base, under the offset of the delta.
pub open spec fn resolve_ofs(
    held: Held,
    ofs: Seq<(int, u64, Seq<u8>)>,
    i: int,
    skipped: nat,
) -> Result<(Held, nat), Error>
    decreases ofs.len() - i,
{
    if i < 0 || i >= ofs.len() {
        Ok((held, skipped))
    } else {
        match by_offset(held.objects, ofs[i].0 - ofs[i].1) {
            None => resolve_ofs(held, ofs, i + 1, skipped + 1),
            Some(base) => match apply_delta_spec(base.content, ofs[i].2) {
                Err(e) => Err(e),
                Ok(target) => match hold(held, base.kind, target, Some(ofs[i].0)) {
                    Err(e) => Err(e),
                    Ok(next) => resolve_ofs(next, ofs, i + 1, skipped),
                },
            },
        }
    }
}

/// What an ingestion did.
#[derive(Clone, Copy, Debug, PartialEq, Eq, Structural)]
pub struct IngestReport {
    /// How many records the pack declares.
    pub object_count: u32,
    /// How many records were read.
    pub parsed: u32,
    /// Where in the pack the reading of records stopped.
    pub scanned: usize,
    /// How many objects were put into the store.
    pub stored: usize,
    /// How many deltas by offset were passed over for want of their base.
    pub skipped: usize,
}

/// The first pass before it has read anything: the store as it is, no
/// objects, no deltas set aside.
pub open spec fn scan_start(files: Map<Seq<u8>, Seq<u8>>) -> Scan {
    Scan {
        held: Held { files, objects: Seq::empty() },
        refs: Seq::empty(),
        ofs: Seq::empty(),
        parsed: 0,
        end: 12,
    }
}

/// What an ingestion leaves behind.
pub struct Ingested {
    /// The files of the store.
    pub files: Map<Seq<u8>, Seq<u8>>,
    /// The objects that were stored, in the order in which they were.
    pub objects: Seq<MaterializedView>,
    /// How many records were read.
    pub parsed: nat,
    /// Where the reading of records stopped.
    pub end: int,
    /// How many deltas by offset were passed over.
    pub skipped: nat,
}

/// What ingesting the records of `pack` into a store with `files` gives,
/// `count` records being declared: the first pass from byte 12 on, then the
/// deltas by identity, then the deltas by offset.
pub open spec fn ingest(files: Map<Seq<u8>, Seq<u8>>, pack: Seq<u8>, count: nat) -> Result<
    Ingested,
    Error,
> {
    let start = scan_start(files);
    match scan_records(pack, 12, count, start) {
        Err(e) => Err(e),
        Ok(scan) => match resolve_refs(scan.held, scan.refs, 0) {
            Err(e) => Err(e),
            Ok(held) => match resolve_ofs(held, scan.ofs, 0, 0) {
                Err(e) => Err(e),
                Ok((last, skipped)) => Ok(
                    Ingested {
                        files: last.files,
                        objects: last.objects,
                        parsed: scan.parsed,
                        end: scan.end,
                        skipped,
                    },
                ),
            },
        },
    }
}

/// Whether a report says what an ingestion left behind, number by number.
pub open spec fn reports(report: IngestReport, done: Ingested) -> bool {
    &&& report.parsed == done.parsed
    &&& report.scanned == done.end
    &&& report.stored == done.objects.len()
    &&& report.skipped == done.skipped
}

/// Whether the store holds a file under the identity of each object.
pub open spec fn all_stored(held: Held) -> bool {
    forall|i: int|
        0 <= i < held.objects.len() ==> held.files.dom().contains((#[trigger] held.objects[i]).id)
}

proof fn lemma_hold(held: Held, kind: ObjectKind, content: Seq<u8>, offset: Option<int>)
    requires
        hold(held, kind, content, offset) is Ok,
    ensures
        ({
            let next = hold(held, kind, content, offset)->Ok_0;
            &&& next.objects.len() == held.objects.len() + 1
            &&& held.files.submap_of(next.files)
            &&& all_stored(held) ==> all_stored(next)
        }),
{
    let next = hold(held, kind, content, offset)->Ok_0;
    assert forall|i: int|
        0 <= i < next.objects.len() && all_stored(held) implies next.files.dom().contains(
        (#[trigger] next.objects[i]).id,
    ) by {
        if i < held.objects.len() {
            assert(next.objects[i] == held.objects[i]);
        }
    }
}

proof fn lemma_scan(pack: Seq<u8>, pos: int, remaining: nat, scan: Scan)
    requires
        scan_records(pack, pos, remaining, scan) is Ok,
    ensures
        ({
            let out = scan_records(pack, pos, remaining, scan)->Ok_0;
            &&& out.held.objects.len() + out.refs.len() + out.ofs.len() - out.parsed
                == scan.held.objects.len() + scan.refs.len() + scan.ofs.len() - scan.parsed
            &&& scan.parsed <= out.parsed <= scan.parsed + remaining
            &&& out.parsed == scan.parsed + remaining || pack.len() - out.end <= 20
            &&& scan.held.files.submap_of(out.held.files)
            &&& all_stored(scan.held) ==> all_stored(out.held)
        }),
    decreases remaining,
{
    if !(remaining == 0 || pack.len() - pos <= 20) {
        let (at, record) = locate_record(pack, pos)->Ok_0;
        let next = absorb(scan, at, record)->Ok_0;
        match record.kind {
            PackKind::OfsDelta(_) => {},
            PackKind::RefDelta(_) => {},
            _ => {
                lemma_hold(scan.held, record.kind.object_kind().unwrap(), record.data, Some(at));
            },
        }
        lemma_scan(pack, at + record.consumed, (remaining - 1) as nat, next);
        let out = scan_records(pack, pos, remaining, scan)->Ok_0;
        vstd::map_lib::lemma_submap_of_trans(scan.held.files, next.held.files, out.held.files);
    }
}

proof fn lemma_resolve_refs(held: Held, refs: Seq<(Seq<u8>, Seq<u8>)>, i: int)
    requires
        0 <= i <= refs.len(),
        resolve_refs(held, refs, i) is Ok,
    ensures
        ({
            let out = resolve_refs(held, refs, i)->Ok_0;
            &&& out.objects.len() == held.objects.len() + refs.len() - i
            &&& held.files.submap_of(out.files)
            &&& all_stored(held) ==> all_stored(out)
        }),
    decreases refs.len() - i,
{
    if i < refs.len() {
        let base = by_hash(held.objects, refs[i].0)->Some_0;
        let target = apply_delta_spec(base.content, refs[i].1)->Ok_0;
        let next = hold(held, base.kind, target, None)->Ok_0;
        lemma_hold(held, base.kind, target, None);
        lemma_resolve_refs(next, refs, i + 1);
        let out = resolve_refs(held, refs, i)->Ok_0;
        vstd::map_lib::lemma_submap_of_trans(held.files, next.files, out.files);
    }
}

proof fn lemma_resolve_ofs(held: Held, ofs: Seq<(int, u64, Seq<u8>)>, i: int, skipped: nat)
    requires
        0 <= i <= ofs.len(),
        resolve_ofs(held, ofs, i, skipped) is Ok,
    ensures
        ({
            let out = resolve_ofs(held, ofs, i, skipped)->Ok_0;
            &&& out.0.objects.len() + out.1 == held.objects.len() + skipped + ofs.len() - i
            &&& held.files.submap_of(out.0.files)
            &&& all_stored(held) ==> all_stored(out.0)
        }),
    decreases ofs.len() - i,
{
    if i < ofs.len() {
        match by_offset(held.objects, ofs[i].0 - ofs[i].1) {
            None => {
                lemma_resolve_ofs(held, ofs, i + 1, skipped + 1);
            },
            Some(base) => {
                let target = apply_delta_spec(base.content, ofs[i].2)->Ok_0;
                let next = hold(held, base.kind, target, Some(ofs[i].0))->Ok_0;
                lemma_hold(held, base.kind, target, Some(ofs[i].0));
                lemma_resolve_ofs(next, ofs, i + 1, skipped);
                let out = resolve_ofs(held, ofs, i, skipped)->Ok_0;
                vstd::map_lib::lemma_submap_of_trans(held.files, next.files, out.0.files);
            },
        }
    }
}

/// Law: an ingestion that succeeds has turned every record that it read
/// into a stored object or a delta passed over; it has read all declared
/// records unless twenty bytes of the pack or fewer were left for them; the
/// store holds a file under the identity of every object stored; and no
/// file that the store held has changed.
pub proof fn lemma_ingest_materializes(files: Map<Seq<u8>, Seq<u8>>, pack: Seq<u8>, count: nat)
    requires
        ingest(files, pack, count) is Ok,
    ensures
        ({
            let done = ingest(files, pack, count)->Ok_0;
            &&& done.objects.len() + done.skipped == done.parsed
            &&& done.parsed <= count
            &&& done.parsed == count || pack.len() - done.end <= 20
            &&& files.submap_of(done.files)
            &&& forall|i: int|
                0 <= i < done.objects.len() ==> done.files.dom().contains(
                    (#[trigger] done.objects[i]).id,
                )
        }),
{
    let start = scan_start(files);
    lemma_scan(pack, 12, count, start);
    let scan = scan_records(pack, 12, count, start)->Ok_0;
    lemma_resolve_refs(scan.held, scan.refs, 0);
    let held = resolve_refs(scan.held, scan.refs, 0)->Ok_0;
    lemma_resolve_ofs(held, scan.ofs, 0, 0);
    let last = resolve_ofs(held, scan.ofs, 0, 0)->Ok_0.0;
    vstd::map_lib::lemma_submap_of_trans(files, scan.held.files, held.files);
    vstd::map_lib::lemma_submap_of_trans(files, held.files, last.files);
    assert(all_stored(start.held));
    assert(all_stored(last));
}

proof fn lemma_no_object_before_pack(objects: Seq<Materialized>, at: int)
    requires
        at < 0,
    ensures
        by_offset(objects_view(objects), at) is None,
    decreases objects.len(),
{
    let view = objects_view(objects);
    if view.len() > 0 {
        assert(view.drop_last() =~= objects_view(objects.drop_last()));
        lemma_no_object_before_pack(objects.drop_last(), at);
    }
}

/// The first pass: reads up to `object_count` records from byte 12 on,
/// stores the objects and sets the deltas aside.
fn scan_pack(
    store: &mut ObjectStore,
    pack: &[u8],
    object_count: u32,
    objects: &mut Vec<Materialized>,
    refs: &mut Vec<RefDelta>,
    ofs: &mut Vec<OfsDelta>,
) -> (r: Result<(u32, usize), Error>)
    requires
        old(store).wf(),
        old(objects)@.len() == 0,
        old(refs)@.len() == 0,
        old(ofs)@.len() == 0,
    ensures
        final(store).wf(),
        old(store)@.submap_of(final(store)@),
        match r {
            Ok((parsed, end)) => scan_records(
                pack@,
                12,
                object_count as nat,
                scan_start(old(store)@),
            ) == Ok::<Scan, Error>(
                Scan {
                    held: Held { files: final(store)@, objects: objects_view(final(objects)@) },
                    refs: refs_view(final(refs)@),
                    ofs: ofs_view(final(ofs)@),
                    parsed: parsed as nat,
                    end: end as int,
                },
            ) && parsed <= object_count
                && final(objects)@.len() + final(refs)@.len() + final(ofs)@.len() == parsed
                && (parsed == object_count || pack.len() - end <= 20),
            Err(e) => scan_records(
                pack@,
                12,
                object_count as nat,
                scan_start(old(store)@),
            ) == Err::<Scan, Error>(e),
        },
{
    let ghost start = scan_start(old(store)@);
    let mut pos: usize = 12;
    let mut remaining: u32 = object_count;
    let mut parsed: u32 = 0;
    assert(objects_view(objects@) =~= Seq::empty());
    assert(refs_view(refs@) =~= Seq::empty());
    assert(ofs_view(ofs@) =~= Seq::empty());
    while remaining > 0 && pos < pack.len() && pack.len() - pos > 20
        invariant
            store.wf(),
            old(store)@.submap_of(store@),
            parsed + remaining == object_count,
            objects@.len() + refs@.len() + ofs@.len() == parsed,
            start == (scan_start(old(store)@)),
            scan_records(
                pack@,
                pos as int,
                remaining as nat,
                Scan {
                    held: Held { files: store@, objects: objects_view(objects@) },
                    refs: refs_view(refs@),
                    ofs: ofs_view(ofs@),
                    parsed: parsed as nat,
                    end: 12,
                },
            ) == scan_records(pack@, 12, object_count as nat, start),
        decreases remaining,
    {
        let (at, record) = match read_or_recover(pack, pos) {
            Ok(found) => found,
            Err(e) => { return Err(e); },
        };
        let consumed: usize = record.consumed;
        let ghost seen = record@;
        let ghost files_before = store@;
        let PackRecord { kind, declared: _, data, consumed: _ } = record;
        match kind {
            PackObjectType::OfsDelta(back) => {
                let ghost before = ofs_view(ofs@);
                ofs.push(OfsDelta { at, back, delta: data });
                assert(ofs_view(ofs@) =~= before.push((at as int, back, seen.data)));
            },
            PackObjectType::RefDelta(base) => {
                let ghost before = refs_view(refs@);
                let ghost name = base@;
                refs.push(RefDelta { base, delta: data });
                assert(refs_view(refs@) =~= before.push((name, seen.data)));
            },
            PackObjectType::Commit => {
                match hold_object(store, objects, ObjectKind::Commit, data, Some(at)) {
                    Ok(_) => {},
                    Err(e) => { return Err(e); },
                }
            },
            PackObjectType::Tree => {
                match hold_object(store, objects, ObjectKind::Tree, data, Some(at)) {
                    Ok(_) => {},
                    Err(e) => { return Err(e); },
                }
            },
            PackObjectType::Blob => {
                match hold_object(store, objects, ObjectKind::Blob, data, Some(at)) {
                    Ok(_) => {},
                    Err(e) => { return Err(e); },
                }
            },
        }
        proof {
            vstd::map_lib::lemma_submap_of_trans(old(store)@, files_before, store@);
        }
        pos = at + consumed;
        remaining = remaining - 1;
        parsed = parsed + 1;
    }
    Ok((parsed, pos))
}

/// The second pass over the deltas by identity.
fn process_ref_deltas(
    store: &mut ObjectStore,
    objects: &mut Vec<Materialized>,
    refs: &Vec<RefDelta>,
) -> (r: Result<(), Error>)
    requires
        old(store).wf(),
    ensures
        final(store).wf(),
        old(store)@.submap_of(final(store)@),
        match r {
            Ok(_) => resolve_refs(
                Held { files: old(store)@, objects: objects_view(old(objects)@) },
                refs_view(refs@),
                0,
            ) == Ok::<Held, Error>(
                Held { files: final(store)@, objects: objects_view(final(objects)@) },
            ) && final(objects)@.len() == old(objects)@.len() + refs@.len(),
            Err(e) => resolve_refs(
                Held { files: old(store)@, objects: objects_view(old(objects)@) },
                refs_view(refs@),
                0,
            ) == Err::<Held, Error>(e),
        },
{
    let mut i: usize = 0;
    while i < refs.len()
        invariant
            i <= refs@.len(),
            store.wf(),
            old(store)@.submap_of(store@),
            objects@.len() == old(objects)@.len() + i,
            resolve_refs(
                Held { files: store@, objects: objects_view(objects@) },
                refs_view(refs@),
                i as int,
            ) == resolve_refs(
                Held { files: old(store)@, objects: objects_view(old(objects)@) },
                refs_view(refs@),
                0,
            ),
        decreases refs@.len() - i,
    {
        assert(refs_view(refs@)[i as int] == (refs@[i as int].base@, refs@[i as int].delta@));
        let (kind, target) = match find_by_hash(objects, refs[i].base.as_slice()) {
            None => { return Err(Error::UnresolvedBase); },
            Some(base) => match apply_delta(base.content.as_slice(), refs[i].delta.as_slice()) {
                Ok(target) => (base.kind, target),
                Err(e) => { return Err(e); },
            },
        };
        let ghost files_before = store@;
        match hold_object(store, objects, kind, target, None) {
            Ok(_) => {},
            Err(e) => { return Err(e); },
        }
        proof {
            vstd::map_lib::lemma_submap_of_trans(old(store)@, files_before, store@);
        }
        i = i + 1;
    }
    Ok(())
}

/// The second pass over the deltas by offset. Gives the number of deltas
/// passed over.
fn process_ofs_deltas(
    store: &mut ObjectStore,
    objects: &mut Vec<Materialized>,
    ofs: &Vec<OfsDelta>,
) -> (r: Result<usize, Error>)
    requires
        old(store).wf(),
    ensures
        final(store).wf(),
        old(store)@.submap_of(final(store)@),
        match r {
            Ok(skipped) => resolve_ofs(
                Held { files: old(store)@, objects: objects_view(old(objects)@) },
                ofs_view(ofs@),
                0,
                0,
            ) == Ok::<(Held, nat), Error>(
                (
                    Held { files: final(store)@, objects: objects_view(final(objects)@) },
                    skipped as nat,
                ),
            ) && final(objects)@.len() + skipped == old(objects)@.len() + ofs@.len(),
            Err(e) => resolve_ofs(
                Held { files: old(store)@, objects: objects_view(old(objects)@) },
                ofs_view(ofs@),
                0,
                0,
            ) == Err::<(Held, nat), Error>(e),
        },
{
    let mut i: usize = 0;
    let mut skipped: usize = 0;
    while i < ofs.len()
        invariant
            i <= ofs@.len(),
            store.wf(),
            old(store)@.submap_of(store@),
            objects@.len() + skipped == old(objects)@.len() + i,
            skipped <= i,
            resolve_ofs(
                Held { files: store@, objects: objects_view(objects@) },
                ofs_view(ofs@),
                i as int,
                skipped as nat,
            ) == resolve_ofs(
                Held { files: old(store)@, objects: objects_view(old(objects)@) },
                ofs_view(ofs@),
                0,
                0,
            ),
        decreases ofs@.len() - i,
    {
        assert(ofs_view(ofs@)[i as int] == (
            ofs@[i as int].at as int,
            ofs@[i as int].back,
            ofs@[i as int].delta@,
        ));
        let at: usize = ofs[i].at;
        let back: u64 = ofs[i].back;
        let found: Option<(ObjectKind, Vec<u8>)> = if back > at as u64 {
            proof {
                lemma_no_object_before_pack(objects@, at - back);
            }
            None
        } else {
            match find_by_offset(objects, at - back as usize) {
                None => None,
                Some(base) => match apply_delta(base.content.as_slice(), ofs[i].delta.as_slice()) {
                    Ok(target) => Some((base.kind, target)),
                    Err(e) => { return Err(e); },
                },
            }
        };
        match found {
            None => {
                skipped = skipped + 1;
            },
            Some((kind, target)) => {
                let ghost files_before = store@;
                match hold_object(store, objects, kind, target, Some(at)) {
                    Ok(_) => {},
                    Err(e) => { return Err(e); },
                }
                proof {
                    vstd::map_lib::lemma_submap_of_trans(old(store)@, files_before, store@);
                }
            },
        }
        i = i + 1;
    }
    Ok(skipped)
}

/// Ingests the records of a pack into the store: `pack_data` starts with the
/// twelve bytes of the pack header, and `object_count` is the count that the
/// header declares.
///
/// Every record that was read ends as a stored object or as a delta passed
/// over, and all declared records are read unless twenty bytes of the pack
/// or fewer were left for them. Fails, with the store holding what was stored until then, where a
/// record cannot be read and none is found behind it, where an object cannot
/// be stored, where a delta by identity has no base in the pack
/// (`UnresolvedBase`), and where a delta cannot be applied.
pub fn process_pack_objects(store: &mut ObjectStore, pack_data: &[u8], object_count: u32) -> (r:
    Result<IngestReport, Error>)
    requires
        old(store).wf(),
    ensures
        final(store).wf(),
        old(store)@.submap_of(final(store)@),
        match r {
            Ok(report) => ingest(old(store)@, pack_data@, object_count as nat) matches Ok(done)
                && done.files == final(store)@ && report.object_count == object_count && reports(
                report,
                done,
            ),
            Err(e) => ingest(old(store)@, pack_data@, object_count as nat) == Err::<
                Ingested,
                Error,
            >(e),
        },
        r matches Ok(report) ==> report.stored + report.skipped == report.parsed
            && report.parsed <= object_count && (report.parsed == object_count || pack_data.len()
            - report.scanned <= 20),
{
    let mut objects: Vec<Materialized> = Vec::new();
    let mut refs: Vec<RefDelta> = Vec::new();
    let mut ofs: Vec<OfsDelta> = Vec::new();
    let (parsed, scanned) = match scan_pack(
        store,
        pack_data,
        object_count,
        &mut objects,
        &mut refs,
        &mut ofs,
    ) {
        Ok(found) => found,
        Err(e) => { return Err(e); },
    };
    let ghost files_scanned = store@;
    match process_ref_deltas(store, &mut objects, &refs) {
        Ok(_) => {},
        Err(e) => {
            proof {
                vstd::map_lib::lemma_submap_of_trans(old(store)@, files_scanned, store@);
            }
            return Err(e);
        },
    }
    let ghost files_named = store@;
    proof {
        vstd::map_lib::lemma_submap_of_trans(old(store)@, files_scanned, files_named);
    }
    let skipped = match process_ofs_deltas(store, &mut objects, &ofs) {
        Ok(skipped) => skipped,
        Err(e) => {
            proof {
                vstd::map_lib::lemma_submap_of_trans(old(store)@, files_named, store@);
            }
            return Err(e);
        },
    };
    proof {
        vstd::map_lib::lemma_submap_of_trans(old(store)@, files_named, store@);
        assert(objects_view(objects@).len() == objects@.len());
    }
    Ok(IngestReport { object_count, parsed, scanned, stored: objects.len(), skipped })
}

/// The number that four bytes spell, the highest first.
pub open spec fn be32(b0: u8, b1: u8, b2: u8, b3: u8) -> u32 {
    (b0 * 16777216 + b1 * 65536 + b2 * 256 + b3) as u32
}

/// What the twelve bytes at the start of a pack say: the count of records.
/// The signature must be `PACK` and the version 2.
pub open spec fn pack_header(pack: Seq<u8>) -> Result<u32, Error> {
    if pack.len() < 12 || !has_at(pack, 0, pack_signature()) {
        Err(Error::BadPackHeader)
    } else if be32(pack[4], pack[5], pack[6], pack[7]) != 2 {
        Err(Error::UnsupportedVersion)
    } else {
        Ok(be32(pack[8], pack[9], pack[10], pack[11]))
    }
}

/// Reads four bytes at `at` as a number, the highest byte first.
fn read_be32(data: &[u8], at: usize) -> (n: u32)
    requires
        at + 4 <= data.len(),
    ensures
        n == be32(data@[at as int], data@[at + 1], data@[at + 2], data@[at + 3]),
{
    (data[at] as u32) * 16777216 + (data[at + 1] as u32) * 65536 + (data[at + 2] as u32) * 256
        + data[at + 3] as u32
}

/// Reads the header of a pack and gives the count of records that it
/// declares.
///
/// Fails with `BadPackHeader` where there are fewer than twelve bytes or
/// they do not start with `PACK`, and with `UnsupportedVersion` where the
/// version is not 2.
pub fn read_pack_header(pack: &[u8]) -> (r: Result<u32, Error>)
    ensures
        r == pack_header(pack@),
{
    let signature: [u8; 4] = [0x50, 0x41, 0x43, 0x4b];
    assert(signature@ =~= pack_signature());
    if pack.len() < 12 || !crate::bytes::matches_at(pack, 0, signature.as_slice()) {
        return Err(Error::BadPackHeader);
    }
    if read_be32(pack, 4) != 2 {
        return Err(Error::UnsupportedVersion);
    }
    Ok(read_be32(pack, 8))
}

/// The pack in the response to a fetch, from its signature on, and the
/// count of records that it declares: the side band is taken apart, and
/// unless the remote reported a failure the pack is found at its signature
/// and its header is read.
pub open spec fn unpack_header(response: Seq<u8>) -> Result<(Seq<u8>, u32), Error> {
    match sideband_spec(response) {
        Err(e) => Err(e),
        Ok(parts) => if parts.failure is Some {
            Err(Error::RemoteFailure)
        } else {
            match pack_start(parts.pack) {
                Err(e) => Err(e),
                Ok(at) => match pack_header(parts.pack.subrange(at, parts.pack.len() as int)) {
                    Err(e) => Err(e),
                    Ok(count) => Ok((parts.pack.subrange(at, parts.pack.len() as int), count)),
                },
            }
        },
    }
}

/// What unpacking the response to a fetch into a store with `files` gives:
/// the pack is taken out of the response, and its records are ingested.
pub open spec fn unpack_spec(files: Map<Seq<u8>, Seq<u8>>, response: Seq<u8>) -> Result<
    Ingested,
    Error,
> {
    match unpack_header(response) {
        Err(e) => Err(e),
        Ok((pack, count)) => ingest(files, pack, count as nat),
    }
}

/// Unpacks the response to a fetch into the store and reports what was
/// done.
///
/// Fails with `RemoteFailure` where the remote reported a failure on the
/// side band, and as [`decode_sideband_data`], [`find_pack_start`],
/// [`read_pack_header`] and [`process_pack_objects`] do. The store keeps
/// what it held, and what was stored before a failure.
pub fn unpack_packfile(store: &mut ObjectStore, pack_data: &[u8]) -> (r: Result<
    IngestReport,
    Error,
>)
    requires
        old(store).wf(),
    ensures
        final(store).wf(),
        old(store)@.submap_of(final(store)@),
        match r {
            Ok(report) => unpack_spec(old(store)@, pack_data@) matches Ok(done) && done.files
                == final(store)@ && reports(report, done),
            Err(e) => unpack_spec(old(store)@, pack_data@) == Err::<Ingested, Error>(e),
        },
        r matches Ok(report) ==> unpack_header(pack_data@) matches Ok(head) && head.1
            == report.object_count,
        r matches Ok(report) ==> report.stored + report.skipped == report.parsed
            && report.parsed <= report.object_count,
{
    let decoded = match decode_sideband_data(pack_data) {
        Ok(found) => {
            if found.failure.is_some() {
                return Err(Error::RemoteFailure);
            }
            found.pack
        },
        Err(e) => { return Err(e); },
    };
    let at = match find_pack_start(decoded.as_slice()) {
        Ok(at) => at,
        Err(e) => { return Err(e); },
    };
    let pack = &decoded.as_slice()[at..decoded.len()];
    let count = match read_pack_header(pack) {
        Ok(count) => count,
        Err(e) => { return Err(e); },
    };
    process_pack_objects(store, pack, count)
}

} // verus!
