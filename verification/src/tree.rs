//! Trees: reading the entries of a tree, and writing a tree from entries.
//!
//! The content of a tree is one entry after the other: the mode in octal
//! digits, a space, the name, a NUL byte, and the twenty raw bytes of the
//! identity. A tree is written with its entries in the order of their names,
//! byte by byte.

use crate::bytes::{copy_range, find_byte, lemma_position_of, position_of, push_all};
use crate::codec::{hex_bytes, hex_decode};
use crate::delta::bytes_result;
use crate::error::Error;
use crate::object::{canonical, put_result, put_spec, ObjectKind, ObjectStore};
use vstd::prelude::*;
use vstd::string::StringSliceAdditionalSpecFns;

verus! {

/// The entries of a tree's content from `pos` on, behind those in `done`:
/// mode, name and raw identity of each.
pub open spec fn tree_entries_from(
    content: Seq<u8>,
    pos: int,
    done: Seq<(Seq<u8>, Seq<u8>, Seq<u8>)>,
) -> Result<Seq<(Seq<u8>, Seq<u8>, Seq<u8>)>, Error>
    decreases content.len() - pos,
{
    if pos < 0 || pos >= content.len() {
        Ok(done)
    } else {
        let space = position_of(content, pos, 0x20);
        let nul = position_of(content, space + 1, 0);
        if space >= content.len() || nul >= content.len() || nul + 21 > content.len() {
            Err(Error::MalformedObject)
        } else {
            proof {
                lemma_position_of(content, pos, 0x20);
                lemma_position_of(content, space + 1, 0);
            }
            tree_entries_from(
                content,
                nul + 21,
                done.push(
                    (
                        content.subrange(pos, space),
                        content.subrange(space + 1, nul),
                        content.subrange(nul + 1, nul + 21),
                    ),
                ),
            )
        }
    }
}

/// The entries of a tree's content.
pub open spec fn tree_entries(content: Seq<u8>) -> Result<
    Seq<(Seq<u8>, Seq<u8>, Seq<u8>)>,
    Error,
> {
    tree_entries_from(content, 0, Seq::empty())
}

/// The mathematical form of a list of entries read from a tree.
pub open spec fn triples_view(entries: Seq<(Vec<u8>, Vec<u8>, Vec<u8>)>) -> Seq<
    (Seq<u8>, Seq<u8>, Seq<u8>),
> {
    Seq::new(entries.len(), |i: int| (entries[i].0@, entries[i].1@, entries[i].2@))
}

/// Reads the entries of a tree: mode, name and the twenty raw bytes of the
/// identity of each.
///
/// Fails with `MalformedObject` where an entry lacks its space or its NUL
/// byte, or where fewer than twenty bytes follow the NUL byte.
pub fn parse_tree_content(content: &[u8]) -> (r: Result<Vec<(Vec<u8>, Vec<u8>, Vec<u8>)>, Error>)
    ensures
        match r {
            Ok(entries) => tree_entries(content@) == Ok::<
                Seq<(Seq<u8>, Seq<u8>, Seq<u8>)>,
                Error,
            >(triples_view(entries@)),
            Err(e) => tree_entries(content@) == Err::<Seq<(Seq<u8>, Seq<u8>, Seq<u8>)>, Error>(e),
        },
{
    let mut entries: Vec<(Vec<u8>, Vec<u8>, Vec<u8>)> = Vec::new();
    let mut pos: usize = 0;
    assert(triples_view(entries@) =~= Seq::empty());
    while pos < content.len()
        invariant
            pos <= content.len(),
            tree_entries_from(content@, pos as int, triples_view(entries@)) == tree_entries(
                content@,
            ),
        decreases content.len() - pos,
    {
        let space = find_byte(content, pos, 0x20);
        if space >= content.len() {
            return Err(Error::MalformedObject);
        }
        let nul = find_byte(content, space + 1, 0);
        if nul >= content.len() || content.len() - nul < 21 {
            return Err(Error::MalformedObject);
        }
        let mode = copy_range(content, pos, space);
        let name = copy_range(content, space + 1, nul);
        let id = copy_range(content, nul + 1, nul + 21);
        let ghost before = triples_view(entries@);
        entries.push((mode, name, id));
        assert(triples_view(entries@) =~= before.push((mode@, name@, id@)));
        pos = nul + 21;
    }
    Ok(entries)
}

/// Whether `a` comes before `b` or is `b`, comparing from byte `from` on:
/// the first byte that differs decides, and a string comes before its
/// continuations.
pub open spec fn precedes_from(a: Seq<u8>, b: Seq<u8>, from: int) -> bool
    decreases a.len() - from,
{
    if from < 0 || from >= a.len() {
        true
    } else if from >= b.len() {
        false
    } else if a[from] != b[from] {
        a[from] < b[from]
    } else {
        precedes_from(a, b, from + 1)
    }
}

/// Whether `a` comes before `b` in the order of byte strings, or is `b`.
pub open spec fn precedes(a: Seq<u8>, b: Seq<u8>) -> bool {
    precedes_from(a, b, 0)
}

/// Law: of two byte strings one comes before the other, or they are equal.
pub proof fn lemma_precedes_total(a: Seq<u8>, b: Seq<u8>, from: int)
    requires
        0 <= from,
    ensures
        precedes_from(a, b, from) || precedes_from(b, a, from),
    decreases a.len() - from,
{
    if from < a.len() && from < b.len() && a[from] == b[from] {
        lemma_precedes_total(a, b, from + 1);
    }
}

/// Tells whether `a` comes before `b` or is `b`.
pub fn name_precedes(a: &[u8], b: &[u8]) -> (r: bool)
    ensures
        r == precedes(a@, b@),
{
    let mut i: usize = 0;
    while i < a.len()
        invariant
            i <= a.len(),
            precedes_from(a@, b@, i as int) == precedes(a@, b@),
        decreases a.len() - i,
    {
        if i >= b.len() {
            return false;
        }
        if a[i] != b[i] {
            return a[i] < b[i];
        }
        i = i + 1;
    }
    true
}

/// An entry of a tree that is to be written: mode and name, and the
/// identity of the object in hexadecimal.
#[derive(Debug, PartialEq, Eq)]
pub struct TreeEntry {
    pub mode: Vec<u8>,
    pub name: Vec<u8>,
    pub hash: Vec<u8>,
}

/// The mathematical form of [`TreeEntry`].
pub struct EntryView {
    pub mode: Seq<u8>,
    pub name: Seq<u8>,
    pub hash: Seq<u8>,
}

impl View for TreeEntry {
    type V = EntryView;

    open spec fn view(&self) -> EntryView {
        EntryView { mode: self.mode@, name: self.name@, hash: self.hash@ }
    }
}

/// The mathematical form of a list of entries.
pub open spec fn entries_view(entries: Seq<TreeEntry>) -> Seq<EntryView> {
    Seq::new(entries.len(), |i: int| entries[i]@)
}

/// A list in the order of names with one more entry put in its place:
/// behind every entry that its name does not come before.
pub open spec fn insert_sorted(sorted: Seq<EntryView>, e: EntryView) -> Seq<EntryView>
    decreases sorted.len(),
{
    if sorted.len() == 0 || precedes(sorted.last().name, e.name) {
        sorted.push(e)
    } else {
        insert_sorted(sorted.drop_last(), e).push(sorted.last())
    }
}

/// The entries in the order of their names; entries of one name keep the
/// order in which they came.
pub open spec fn sort_by_name(entries: Seq<EntryView>) -> Seq<EntryView>
    decreases entries.len(),
{
    if entries.len() == 0 {
        Seq::empty()
    } else {
        insert_sorted(sort_by_name(entries.drop_last()), entries.last())
    }
}

/// Whether each entry's name comes before the next one's, or is the same.
pub open spec fn in_name_order(entries: Seq<EntryView>) -> bool {
    forall|i: int|
        0 <= i < entries.len() - 1 ==> precedes(
            (#[trigger] entries[i]).name,
            entries[i + 1].name,
        )
}

/// Where [`insert_sorted`] puts an entry: at `at`, when the entry before
/// `at` lets it pass and none from `at` on does.
proof fn lemma_insert_at(sorted: Seq<EntryView>, e: EntryView, at: int)
    requires
        0 <= at <= sorted.len(),
        at > 0 ==> precedes(sorted[at - 1].name, e.name),
        forall|k: int| at <= k < sorted.len() ==> !precedes((#[trigger] sorted[k]).name, e.name),
    ensures
        insert_sorted(sorted, e) == sorted.insert(at, e),
    decreases sorted.len() - at,
{
    if at == sorted.len() {
        assert(sorted.push(e) =~= sorted.insert(at, e));
    } else {
        let shorter = sorted.drop_last();
        assert(!precedes(sorted[sorted.len() - 1].name, e.name));
        assert forall|k: int| at <= k < shorter.len() implies !precedes(
            (#[trigger] shorter[k]).name,
            e.name,
        ) by {
            assert(shorter[k] == sorted[k]);
        }
        lemma_insert_at(shorter, e, at);
        assert(shorter.insert(at, e).push(sorted.last()) =~= sorted.insert(at, e));
    }
}

/// Law: putting an entry in its place keeps the order of names and adds
/// just that entry.
pub proof fn lemma_insert_sorted(sorted: Seq<EntryView>, e: EntryView)
    requires
        in_name_order(sorted),
    ensures
        in_name_order(insert_sorted(sorted, e)),
        insert_sorted(sorted, e).to_multiset() == sorted.to_multiset().insert(e),
        insert_sorted(sorted, e).len() == sorted.len() + 1,
    decreases sorted.len(),
{
    broadcast use vstd::seq_lib::group_to_multiset_ensures;

    let out = insert_sorted(sorted, e);
    if sorted.len() == 0 || precedes(sorted.last().name, e.name) {
        assert forall|i: int| 0 <= i < out.len() - 1 implies precedes(
            (#[trigger] out[i]).name,
            out[i + 1].name,
        ) by {
            if i < sorted.len() - 1 {
                assert(out[i] == sorted[i]);
                assert(out[i + 1] == sorted[i + 1]);
            }
        }
    } else {
        let shorter = sorted.drop_last();
        let last = sorted.last();
        assert forall|i: int| 0 <= i < shorter.len() - 1 implies precedes(
            (#[trigger] shorter[i]).name,
            shorter[i + 1].name,
        ) by {
            assert(shorter[i] == sorted[i]);
            assert(shorter[i + 1] == sorted[i + 1]);
        }
        lemma_insert_sorted(shorter, e);
        let inner = insert_sorted(shorter, e);
        lemma_precedes_total(last.name, e.name, 0);
        // The entry before `last` in the result is `e` or the one that stood there.
        lemma_last_of_insert(shorter, e);
        assert forall|i: int| 0 <= i < out.len() - 1 implies precedes(
            (#[trigger] out[i]).name,
            out[i + 1].name,
        ) by {
            if i < inner.len() - 1 {
                assert(out[i] == inner[i]);
                assert(out[i + 1] == inner[i + 1]);
            } else {
                assert(out[i] == inner.last());
                assert(out[i + 1] == last);
                if inner.last() != e {
                    assert(inner.last() == shorter.last());
                    assert(shorter.last() == sorted[sorted.len() - 2]);
                }
            }
        }
        assert(sorted =~= shorter.push(last));
    }
}

proof fn lemma_last_of_insert(sorted: Seq<EntryView>, e: EntryView)
    ensures
        insert_sorted(sorted, e).len() == sorted.len() + 1,
        insert_sorted(sorted, e).last() == e || (sorted.len() > 0 && insert_sorted(
            sorted,
            e,
        ).last() == sorted.last()),
    decreases sorted.len(),
{
    if !(sorted.len() == 0 || precedes(sorted.last().name, e.name)) {
        lemma_last_of_insert(sorted.drop_last(), e);
    }
}

/// Law: sorting by name gives the same entries in the order of their names.
pub proof fn lemma_sort_by_name(entries: Seq<EntryView>)
    ensures
        in_name_order(sort_by_name(entries)),
        sort_by_name(entries).to_multiset() == entries.to_multiset(),
        sort_by_name(entries).len() == entries.len(),
    decreases entries.len(),
{
    broadcast use vstd::seq_lib::group_to_multiset_ensures;

    if entries.len() > 0 {
        lemma_sort_by_name(entries.drop_last());
        lemma_insert_sorted(sort_by_name(entries.drop_last()), entries.last());
        assert(entries =~= entries.drop_last().push(entries.last()));
    }
}

/// Puts the entries in the order of their names.
pub fn sort_entries(entries: Vec<TreeEntry>) -> (sorted: Vec<TreeEntry>)
    ensures
        entries_view(sorted@) == sort_by_name(entries_view(entries@)),
{
    let ghost all = entries_view(entries@);
    let mut rest = entries;
    let mut turned: Vec<TreeEntry> = Vec::new();
    // Taken from the back, the entries are first brought into the order in
    // which they came.
    let ghost mut taken: nat = 0;
    while rest.len() > 0
        invariant
            taken + rest@.len() == all.len(),
            turned@.len() == taken,
            entries_view(rest@) =~= all.subrange(0, rest@.len() as int),
            forall|k: int|
                0 <= k < taken ==> (#[trigger] turned@[k])@ == all[all.len() - 1 - k],
        decreases rest@.len(),
    {
        let ghost before = rest@;
        let e = rest.pop().unwrap();
        assert(e@ == entries_view(before)[before.len() - 1]);
        turned.push(e);
        proof {
            taken = taken + 1;
        }
    }
    let mut sorted: Vec<TreeEntry> = Vec::new();
    assert(entries_view(sorted@) =~= sort_by_name(all.subrange(0, 0)));
    while turned.len() > 0
        invariant
            turned@.len() <= all.len(),
            forall|k: int|
                0 <= k < turned@.len() ==> (#[trigger] turned@[k])@ == all[all.len() - 1 - k],
            entries_view(sorted@) == sort_by_name(all.subrange(0, all.len() - turned@.len())),
        decreases turned@.len(),
    {
        let ghost done = all.len() - turned@.len();
        let ghost before = entries_view(sorted@);
        let e = turned.pop().unwrap();
        assert(e@ == all[done]);
        let mut at: usize = sorted.len();
        while at > 0 && !name_precedes(sorted[at - 1].name.as_slice(), e.name.as_slice())
            invariant
                at <= sorted@.len(),
                entries_view(sorted@) == before,
                forall|k: int|
                    at <= k < before.len() ==> !precedes((#[trigger] before[k]).name, e@.name),
            decreases at,
        {
            assert(before[at - 1] == sorted@[at - 1]@);
            at = at - 1;
        }
        proof {
            if at > 0 {
                assert(before[at - 1] == sorted@[at - 1]@);
            }
            lemma_insert_at(before, e@, at as int);
            let grown = all.subrange(0, done + 1);
            assert(grown.drop_last() =~= all.subrange(0, done));
            assert(grown.last() == all[done]);
        }
        sorted.insert(at, e);
        assert(entries_view(sorted@) =~= before.insert(at as int, e@));
    }
    assert(all.subrange(0, all.len() as int) =~= all);
    sorted
}

/// The bytes of one entry in a tree's content. The identity must be forty
/// hexadecimal digits.
pub open spec fn entry_bytes(e: EntryView) -> Result<Seq<u8>, Error> {
    match hex_bytes(e.hash) {
        Some(raw) => if raw.len() == 20 {
            Ok(e.mode + seq![0x20u8] + e.name + seq![0u8] + raw)
        } else {
            Err(Error::InvalidIdentity)
        },
        None => Err(Error::InvalidIdentity),
    }
}

/// The content of a tree with the entries from `i` on, behind `done`.
pub open spec fn tree_bytes_from(entries: Seq<EntryView>, i: int, done: Seq<u8>) -> Result<
    Seq<u8>,
    Error,
>
    decreases entries.len() - i,
{
    if i < 0 || i >= entries.len() {
        Ok(done)
    } else {
        match entry_bytes(entries[i]) {
            Ok(bytes) => tree_bytes_from(entries, i + 1, done + bytes),
            Err(e) => Err(e),
        }
    }
}

/// The content of a tree with these entries, in this order.
pub open spec fn tree_bytes(entries: Seq<EntryView>) -> Result<Seq<u8>, Error> {
    tree_bytes_from(entries, 0, Seq::empty())
}

/// Builds the content of a tree with these entries, in this order.
///
/// Fails with `InvalidIdentity` where the identity of an entry is not forty
/// hexadecimal digits.
pub fn tree_content(entries: &Vec<TreeEntry>) -> (r: Result<Vec<u8>, Error>)
    ensures
        bytes_result(r) == tree_bytes(entries_view(entries@)),
{
    let mut content: Vec<u8> = Vec::new();
    let mut i: usize = 0;
    while i < entries.len()
        invariant
            i <= entries@.len(),
            tree_bytes_from(entries_view(entries@), i as int, content@) == tree_bytes(
                entries_view(entries@),
            ),
        decreases entries@.len() - i,
    {
        assert(entries_view(entries@)[i as int] == entries@[i as int]@);
        let raw = match hex_decode(entries[i].hash.as_slice()) {
            Some(raw) => raw,
            None => { return Err(Error::InvalidIdentity); },
        };
        if raw.len() != 20 {
            return Err(Error::InvalidIdentity);
        }
        let ghost before = content@;
        push_all(&mut content, entries[i].mode.as_slice());
        content.push(0x20);
        push_all(&mut content, entries[i].name.as_slice());
        content.push(0);
        push_all(&mut content, raw.as_slice());
        assert(content@ =~= before + (entries@[i as int]@.mode + seq![0x20u8]
            + entries@[i as int]@.name + seq![0u8] + raw@));
        i = i + 1;
    }
    Ok(content)
}

/// Whether an entry can be told apart again once written: its mode holds no
/// space, its name no NUL byte, and its identity is forty hexadecimal
/// digits.
pub open spec fn entry_readable(e: EntryView) -> bool {
    &&& forall|k: int| 0 <= k < e.mode.len() ==> e.mode[k] != 0x20
    &&& forall|k: int| 0 <= k < e.name.len() ==> e.name[k] != 0
    &&& hex_bytes(e.hash) matches Some(raw) && raw.len() == 20
}

/// An entry as it is read from a tree: mode, name and raw identity.
pub open spec fn entry_triple(e: EntryView) -> (Seq<u8>, Seq<u8>, Seq<u8>) {
    (e.mode, e.name, hex_bytes(e.hash).unwrap())
}

/// The bytes of the entries from `i` on, one after the other.
pub open spec fn entries_bytes(entries: Seq<EntryView>, i: int) -> Seq<u8>
    decreases entries.len() - i,
{
    if i < 0 || i >= entries.len() {
        Seq::empty()
    } else {
        entry_bytes(entries[i]).unwrap() + entries_bytes(entries, i + 1)
    }
}

proof fn lemma_tree_bytes_from(entries: Seq<EntryView>, i: int, done: Seq<u8>)
    requires
        0 <= i <= entries.len(),
        forall|k: int| 0 <= k < entries.len() ==> entry_readable(#[trigger] entries[k]),
    ensures
        tree_bytes_from(entries, i, done) == Ok::<Seq<u8>, Error>(done + entries_bytes(entries, i)),
    decreases entries.len() - i,
{
    if i < entries.len() {
        assert(entry_readable(entries[i]));
        let bytes = entry_bytes(entries[i]).unwrap();
        lemma_tree_bytes_from(entries, i + 1, done + bytes);
        assert(done + bytes + entries_bytes(entries, i + 1) =~= done + entries_bytes(entries, i));
    } else {
        assert(done + entries_bytes(entries, i) =~= done);
    }
}

proof fn lemma_tree_entries_from(
    before: Seq<u8>,
    entries: Seq<EntryView>,
    i: int,
    done: Seq<(Seq<u8>, Seq<u8>, Seq<u8>)>,
)
    requires
        0 <= i <= entries.len(),
        forall|k: int| 0 <= k < entries.len() ==> entry_readable(#[trigger] entries[k]),
    ensures
        tree_entries_from(before + entries_bytes(entries, i), before.len() as int, done) == Ok::<
            Seq<(Seq<u8>, Seq<u8>, Seq<u8>)>,
            Error,
        >(done + Seq::new((entries.len() - i) as nat, |k: int| entry_triple(entries[i + k]))),
    decreases entries.len() - i,
{
    let content = before + entries_bytes(entries, i);
    let rest = Seq::new((entries.len() - i) as nat, |k: int| entry_triple(entries[i + k]));
    if i < entries.len() {
        let e = entries[i];
        assert(entry_readable(e));
        let raw = hex_bytes(e.hash).unwrap();
        let bytes = e.mode + seq![0x20u8] + e.name + seq![0u8] + raw;
        assert(entry_bytes(e).unwrap() == bytes);
        let pos = before.len() as int;
        let space = pos + e.mode.len();
        let nul = space + 1 + e.name.len();
        assert forall|k: int| pos <= k < space implies content[k] != 0x20 by {
            assert(content[k] == e.mode[k - pos]);
        }
        assert(content[space] == 0x20);
        crate::bytes::lemma_position_is(content, pos, 0x20, space);
        assert forall|k: int| space + 1 <= k < nul implies content[k] != 0 by {
            assert(content[k] == e.name[k - space - 1]);
        }
        assert(content[nul] == 0);
        crate::bytes::lemma_position_is(content, space + 1, 0, nul);
        assert(content.subrange(pos, space) =~= e.mode);
        assert(content.subrange(space + 1, nul) =~= e.name);
        assert(content.subrange(nul + 1, nul + 21) =~= raw);
        lemma_tree_entries_from(before + bytes, entries, i + 1, done.push(entry_triple(e)));
        assert(before + bytes + entries_bytes(entries, i + 1) =~= content);
        let later = Seq::new(
            (entries.len() - i - 1) as nat,
            |k: int| entry_triple(entries[i + 1 + k]),
        );
        assert(done.push(entry_triple(e)) + later =~= done + rest);
    } else {
        assert(content =~= before);
        assert(done + rest =~= done);
    }
}

/// Law: the content that is written for entries which can be told apart
/// reads back as those entries, in their order.
pub proof fn lemma_tree_round_trip(entries: Seq<EntryView>)
    requires
        forall|k: int| 0 <= k < entries.len() ==> entry_readable(#[trigger] entries[k]),
    ensures
        tree_bytes(entries) matches Ok(content) && tree_entries(content) == Ok::<
            Seq<(Seq<u8>, Seq<u8>, Seq<u8>)>,
            Error,
        >(Seq::new(entries.len(), |k: int| entry_triple(entries[k]))),
{
    lemma_tree_bytes_from(entries, 0, Seq::empty());
    lemma_tree_entries_from(Seq::empty(), entries, 0, Seq::empty());
    let content = entries_bytes(entries, 0);
    assert(Seq::<u8>::empty() + content =~= content);
    let all = Seq::new(entries.len(), |k: int| entry_triple(entries[k]));
    assert(Seq::<(Seq<u8>, Seq<u8>, Seq<u8>)>::empty() + Seq::new(
        (entries.len() - 0) as nat,
        |k: int| entry_triple(entries[0 + k]),
    ) =~= all);
}

/// The store after a tree with these entries was written, and what the
/// writing returns: the entries are put in the order of their names, and the
/// tree is stored.
pub open spec fn write_tree_spec(files: Map<Seq<u8>, Seq<u8>>, entries: Seq<EntryView>) -> (
    Map<Seq<u8>, Seq<u8>>,
    Result<Seq<u8>, Error>,
) {
    match tree_bytes(sort_by_name(entries)) {
        Err(e) => (files, Err(e)),
        Ok(content) => (
            put_spec(files, canonical(ObjectKind::Tree, content)),
            put_result(files, canonical(ObjectKind::Tree, content)),
        ),
    }
}

/// Writes a tree with the given entries into the store, in the order of
/// their names, and returns its identity.
///
/// Fails with `InvalidIdentity` where the identity of an entry is not forty
/// hexadecimal digits, and as [`ObjectStore::put`] does; the store is then
/// unchanged.
pub fn write_tree(store: &mut ObjectStore, entries: Vec<TreeEntry>) -> (r: Result<Vec<u8>, Error>)
    requires
        old(store).wf(),
    ensures
        final(store).wf(),
        (final(store)@, bytes_result(r)) == write_tree_spec(old(store)@, entries_view(entries@)),
        old(store)@.submap_of(final(store)@),
{
    let sorted = sort_entries(entries);
    let content = match tree_content(&sorted) {
        Ok(content) => content,
        Err(e) => { return Err(e); },
    };
    store.put_raw(ObjectKind::Tree, content.as_slice())
}

/// What an entry of a directory is.
#[derive(Clone, Copy, Debug, PartialEq, Eq, Structural)]
pub enum FileKind {
    Directory,
    Symlink,
    File,
}

/// The mode under which an entry of a directory stands in a tree.
pub open spec fn mode_of(kind: FileKind) -> Seq<u8> {
    match kind {
        FileKind::Directory => "40000".spec_bytes(),
        FileKind::Symlink => "120000".spec_bytes(),
        FileKind::File => "100644".spec_bytes(),
    }
}

/// Tells the mode under which an entry of a directory stands in a tree.
pub fn get_mode_for_file(kind: FileKind) -> (mode: Vec<u8>)
    ensures
        mode@ == mode_of(kind),
{
    let text = match kind {
        FileKind::Directory => "40000",
        FileKind::Symlink => "120000",
        FileKind::File => "100644",
    };
    let mut mode: Vec<u8> = Vec::new();
    push_all(&mut mode, text.as_bytes());
    mode
}

} // verus!
