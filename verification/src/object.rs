//! Objects and the store that keeps them.
//!
//! An object is a kind and a content. Its canonical form is the name of the
//! kind, a space, the length of the content in decimal, a NUL byte and the
//! content; its identity is the SHA-1 digest of that form, in forty
//! hexadecimal digits. The store maps identities to loose-object files: the
//! canonical form, deflated. It lives in memory; a caller that wants it on
//! disk writes each file under the path that [`loose_path`] gives.

use crate::bytes::{
    bytes_equal, copy_range, decimal, decimal_value, find_byte, lemma_decimal_round_trip,
    lemma_position_is, parse_decimal, position_of, push_all, push_decimal,
};
use crate::codec::{
    deflate, deflate_spec, inflate, inflate_spec, is_identity, is_valid_identity, sha1_hex,
    sha1_text,
};
use crate::error::Error;
use vstd::prelude::*;

verus! {

/// The three kinds of object.
#[derive(Clone, Copy, Debug, PartialEq, Eq, Structural)]
pub enum ObjectKind {
    Commit,
    Tree,
    Blob,
}

impl ObjectKind {
    /// The name of the kind in ASCII: `commit`, `tree` or `blob`.
    pub open spec fn name(self) -> Seq<u8> {
        match self {
            ObjectKind::Commit => seq![0x63u8, 0x6f, 0x6d, 0x6d, 0x69, 0x74],
            ObjectKind::Tree => seq![0x74u8, 0x72, 0x65, 0x65],
            ObjectKind::Blob => seq![0x62u8, 0x6c, 0x6f, 0x62],
        }
    }

    /// The name of the kind as text.
    pub open spec fn text(self) -> Seq<char> {
        match self {
            ObjectKind::Commit => "commit"@,
            ObjectKind::Tree => "tree"@,
            ObjectKind::Blob => "blob"@,
        }
    }

    /// The name of the kind in ASCII.
    pub fn name_bytes(&self) -> (out: Vec<u8>)
        ensures
            out@ == self.name(),
    {
        let out = match self {
            ObjectKind::Commit => vec![0x63u8, 0x6f, 0x6d, 0x6d, 0x69, 0x74],
            ObjectKind::Tree => vec![0x74u8, 0x72, 0x65, 0x65],
            ObjectKind::Blob => vec![0x62u8, 0x6c, 0x6f, 0x62],
        };
        assert(out@ =~= self.name());
        out
    }

    /// The name of the kind as text.
    pub fn as_str(&self) -> (out: &'static str)
        ensures
            out@ == self.text(),
    {
        match self {
            ObjectKind::Commit => "commit",
            ObjectKind::Tree => "tree",
            ObjectKind::Blob => "blob",
        }
    }
}

/// The kind that a name stands for.
pub open spec fn kind_named(name: Seq<u8>) -> Option<ObjectKind> {
    if name == ObjectKind::Commit.name() {
        Some(ObjectKind::Commit)
    } else if name == ObjectKind::Tree.name() {
        Some(ObjectKind::Tree)
    } else if name == ObjectKind::Blob.name() {
        Some(ObjectKind::Blob)
    } else {
        None
    }
}

/// The canonical form of an object.
pub open spec fn canonical(kind: ObjectKind, content: Seq<u8>) -> Seq<u8> {
    kind.name() + seq![0x20u8] + decimal(content.len()) + seq![0u8] + content
}

/// What a canonical form says: the kind, the length that it declares, and
/// the content behind the first NUL byte. The header before that byte must be
/// a kind's name, one space and a decimal numeral that fits the machine.
pub open spec fn split_object(raw: Seq<u8>) -> Result<(ObjectKind, nat, Seq<u8>), Error> {
    let nul = position_of(raw, 0, 0);
    let header = raw.subrange(0, nul);
    let space = position_of(header, 0, 0x20);
    if nul >= raw.len() || space >= header.len() {
        Err(Error::MalformedObject)
    } else {
        match (
            kind_named(header.subrange(0, space)),
            decimal_value(header.subrange(space + 1, header.len() as int)),
        ) {
            (Some(kind), Some(size)) => if size <= usize::MAX {
                Ok((kind, size, raw.subrange(nul + 1, raw.len() as int)))
            } else {
                Err(Error::MalformedObject)
            },
            _ => Err(Error::MalformedObject),
        }
    }
}

/// Law: the canonical form of an object says its kind, the length of its
/// content and its content.
pub proof fn lemma_split_canonical(kind: ObjectKind, content: Seq<u8>)
    requires
        content.len() <= usize::MAX,
    ensures
        split_object(canonical(kind, content)) == Ok::<(ObjectKind, nat, Seq<u8>), Error>(
            (kind, content.len(), content),
        ),
{
    let raw = canonical(kind, content);
    let name = kind.name();
    let digits = decimal(content.len());
    lemma_decimal_round_trip(content.len());
    let nul = (name.len() + 1 + digits.len()) as int;
    assert forall|k: int| 0 <= k < nul implies raw[k] != 0 by {
        if k < name.len() {
            assert(raw[k] == name[k]);
        } else if k > name.len() {
            assert(raw[k] == digits[k - name.len() - 1]);
        }
    }
    lemma_position_is(raw, 0, 0, nul);
    let header = raw.subrange(0, nul);
    assert(header =~= name + seq![0x20u8] + digits);
    assert forall|k: int| 0 <= k < name.len() implies header[k] != 0x20 by {
        assert(header[k] == name[k]);
    }
    lemma_position_is(header, 0, 0x20, name.len() as int);
    assert(header.subrange(0, name.len() as int) =~= name);
    assert(header.subrange(name.len() as int + 1, header.len() as int) =~= digits);
    assert(raw.subrange(nul + 1, raw.len() as int) =~= content);
    assert(kind_named(name) == Some(kind)) by {
        assert(ObjectKind::Commit.name().len() == 6);
        assert(ObjectKind::Tree.name()[0] == 0x74);
        assert(ObjectKind::Blob.name()[0] == 0x62);
    }
}

/// Builds the canonical form of an object.
pub fn canonical_form(kind: ObjectKind, content: &[u8]) -> (raw: Vec<u8>)
    ensures
        raw@ == canonical(kind, content@),
{
    let mut raw = kind.name_bytes();
    raw.push(0x20);
    push_decimal(&mut raw, content.len() as u64);
    raw.push(0);
    push_all(&mut raw, content);
    assert(raw@ =~= canonical(kind, content@));
    raw
}

/// Tells the kind that a name stands for.
fn kind_of_name(name: &[u8]) -> (r: Option<ObjectKind>)
    ensures
        r == kind_named(name@),
{
    if bytes_equal(name, ObjectKind::Commit.name_bytes().as_slice()) {
        Some(ObjectKind::Commit)
    } else if bytes_equal(name, ObjectKind::Tree.name_bytes().as_slice()) {
        Some(ObjectKind::Tree)
    } else if bytes_equal(name, ObjectKind::Blob.name_bytes().as_slice()) {
        Some(ObjectKind::Blob)
    } else {
        None
    }
}

/// Splits a canonical form into kind, declared length and content.
///
/// Fails with `MalformedObject` where there is no NUL byte, or where the
/// header before it is not a kind's name, one space and a decimal length.
pub fn parse_object(raw: &[u8]) -> (r: Result<(ObjectKind, usize, Vec<u8>), Error>)
    ensures
        match r {
            Ok((kind, size, content)) => split_object(raw@) == Ok::<
                (ObjectKind, nat, Seq<u8>),
                Error,
            >((kind, size as nat, content@)),
            Err(e) => split_object(raw@) == Err::<(ObjectKind, nat, Seq<u8>), Error>(e),
        },
{
    let nul = find_byte(raw, 0, 0);
    if nul >= raw.len() {
        return Err(Error::MalformedObject);
    }
    let header = &raw[0..nul];
    let space = find_byte(header, 0, 0x20);
    if space >= header.len() {
        return Err(Error::MalformedObject);
    }
    let kind = match kind_of_name(&header[0..space]) {
        Some(kind) => kind,
        None => { return Err(Error::MalformedObject); },
    };
    let size = match parse_decimal(&header[space + 1..header.len()]) {
        Some(size) => size,
        None => { return Err(Error::MalformedObject); },
    };
    if size > usize::MAX as u64 {
        return Err(Error::MalformedObject);
    }
    Ok((kind, size as usize, copy_range(raw, nul + 1, raw.len())))
}

/// One loose object: an identity and the file kept under it.
#[derive(Debug, PartialEq, Eq)]
pub struct StoredObject {
    pub id: Vec<u8>,
    pub file: Vec<u8>,
}

/// A store of loose objects, in the order in which they came.
#[derive(Debug, PartialEq, Eq)]
pub struct ObjectStore {
    entries: Vec<StoredObject>,
}

/// The place of the entry with identity `id`, where there is one.
pub open spec fn place_of(listing: Seq<(Seq<u8>, Seq<u8>)>, id: Seq<u8>) -> Option<int> {
    if exists|i: int| 0 <= i < listing.len() && (#[trigger] listing[i]).0 == id {
        Some(choose|i: int| 0 <= i < listing.len() && (#[trigger] listing[i]).0 == id)
    } else {
        None
    }
}

/// The files of a listing by identity.
pub open spec fn files_of(listing: Seq<(Seq<u8>, Seq<u8>)>) -> Map<Seq<u8>, Seq<u8>> {
    Map::new(
        |id: Seq<u8>| place_of(listing, id) is Some,
        |id: Seq<u8>| listing[place_of(listing, id).unwrap()].1,
    )
}

/// Whether a listing names each identity once, and identities only.
pub open spec fn listing_wf(listing: Seq<(Seq<u8>, Seq<u8>)>) -> bool {
    &&& forall|i: int| 0 <= i < listing.len() ==> is_identity((#[trigger] listing[i]).0)
    &&& forall|i: int, j: int|
        0 <= i < j < listing.len() ==> (#[trigger] listing[i]).0 != (#[trigger] listing[j]).0
}

/// A listing with one more file under a new identity maps as before, and the
/// new identity to the new file.
pub proof fn lemma_files_of_push(listing: Seq<(Seq<u8>, Seq<u8>)>, id: Seq<u8>, file: Seq<u8>)
    requires
        listing_wf(listing),
        !files_of(listing).dom().contains(id),
        is_identity(id),
    ensures
        listing_wf(listing.push((id, file))),
        files_of(listing.push((id, file))) == files_of(listing).insert(id, file),
{
    let longer = listing.push((id, file));
    assert forall|i: int| 0 <= i < listing.len() implies (#[trigger] listing[i]).0 != id by {
        if listing[i].0 == id {
            assert(place_of(listing, id) is Some);
        }
    }
    assert forall|key: Seq<u8>|
        #![trigger files_of(longer).dom().contains(key)]
        #![trigger files_of(longer)[key]]
        {
            &&& files_of(longer).dom().contains(key) == files_of(listing).insert(
                id,
                file,
            ).dom().contains(key)
            &&& files_of(longer).dom().contains(key) ==> files_of(longer)[key] == files_of(
                listing,
            ).insert(id, file)[key]
        } by {
        if key == id {
            assert(longer[listing.len() as int].0 == id);
            let at = place_of(longer, key).unwrap();
            if at < listing.len() {
                assert(longer[at] == listing[at]);
            }
        } else if place_of(listing, key) is Some {
            let old_at = place_of(listing, key).unwrap();
            assert(longer[old_at] == listing[old_at]);
            let at = place_of(longer, key).unwrap();
            assert(longer[at] == listing[at]);
            if at != old_at {
                if at < old_at {
                    assert(listing[at].0 != listing[old_at].0);
                } else {
                    assert(listing[old_at].0 != listing[at].0);
                }
            }
        } else if place_of(longer, key) is Some {
            let at = place_of(longer, key).unwrap();
            assert(longer[at] == listing[at]);
        }
    }
    assert(files_of(longer) =~= files_of(listing).insert(id, file));
}

/// The store after `canonical` was put into it: unchanged where its identity
/// is taken or the compressor fails, else with the deflated form under it.
pub open spec fn put_spec(files: Map<Seq<u8>, Seq<u8>>, canonical: Seq<u8>) -> Map<
    Seq<u8>,
    Seq<u8>,
> {
    if files.dom().contains(sha1_hex(canonical)) {
        files
    } else {
        match deflate_spec(canonical) {
            Ok(stream) => files.insert(sha1_hex(canonical), stream),
            Err(_) => files,
        }
    }
}

/// What putting `canonical` into the store returns.
pub open spec fn put_result(files: Map<Seq<u8>, Seq<u8>>, canonical: Seq<u8>) -> Result<
    Seq<u8>,
    Error,
> {
    if files.dom().contains(sha1_hex(canonical)) {
        Ok(sha1_hex(canonical))
    } else {
        match deflate_spec(canonical) {
            Ok(_) => Ok(sha1_hex(canonical)),
            Err(e) => Err(e),
        }
    }
}

/// The canonical form kept under `id`.
pub open spec fn get_spec(files: Map<Seq<u8>, Seq<u8>>, id: Seq<u8>) -> Result<Seq<u8>, Error> {
    if !files.dom().contains(id) {
        Err(Error::ObjectMissing)
    } else {
        match inflate_spec(files[id]) {
            Ok((raw, _)) => Ok(raw),
            Err(e) => Err(e),
        }
    }
}

/// The kind and content of the object kept under `id`.
pub open spec fn get_content_spec(files: Map<Seq<u8>, Seq<u8>>, id: Seq<u8>) -> Result<
    (ObjectKind, Seq<u8>),
    Error,
> {
    match get_spec(files, id) {
        Err(e) => Err(e),
        Ok(raw) => match split_object(raw) {
            Ok((kind, _, content)) => Ok((kind, content)),
            Err(e) => Err(e),
        },
    }
}

/// The store after `file` was offered under `id`: with the file added where
/// `id` is an identity that the store does not hold, else unchanged.
pub open spec fn keep_spec(files: Map<Seq<u8>, Seq<u8>>, id: Seq<u8>, file: Seq<u8>) -> Map<
    Seq<u8>,
    Seq<u8>,
> {
    if is_identity(id) && !files.dom().contains(id) {
        files.insert(id, file)
    } else {
        files
    }
}

/// What offering a file under `id` returns: whether it was added.
pub open spec fn keep_result(files: Map<Seq<u8>, Seq<u8>>, id: Seq<u8>) -> Result<bool, Error> {
    if is_identity(id) {
        Ok(!files.dom().contains(id))
    } else {
        Err(Error::InvalidIdentity)
    }
}

/// A listing after a store changed from `before` to `after` by at most one
/// file under `id`.
pub open spec fn listing_after(
    listing: Seq<(Seq<u8>, Seq<u8>)>,
    before: Map<Seq<u8>, Seq<u8>>,
    after: Map<Seq<u8>, Seq<u8>>,
    id: Seq<u8>,
) -> Seq<(Seq<u8>, Seq<u8>)> {
    if after == before {
        listing
    } else {
        listing.push((id, after[id]))
    }
}

/// Law: putting the same canonical form a second time leaves the store as
/// the first put left it, and returns the same.
pub proof fn lemma_put_idempotent(files: Map<Seq<u8>, Seq<u8>>, canonical: Seq<u8>)
    ensures
        put_spec(put_spec(files, canonical), canonical) == put_spec(files, canonical),
        put_result(files, canonical) is Ok ==> put_result(put_spec(files, canonical), canonical)
            == put_result(files, canonical),
{
}

/// Law: where the file kept under an identity inflates to the canonical
/// form of an object, reading that identity gives the object's kind and
/// content.
pub proof fn lemma_read_back(
    files: Map<Seq<u8>, Seq<u8>>,
    id: Seq<u8>,
    kind: ObjectKind,
    content: Seq<u8>,
)
    requires
        content.len() <= usize::MAX,
        get_spec(files, id) == Ok::<Seq<u8>, Error>(canonical(kind, content)),
    ensures
        get_content_spec(files, id) == Ok::<(ObjectKind, Seq<u8>), Error>((kind, content)),
{
    lemma_split_canonical(kind, content);
}

/// Law: a put changes no file that the store held.
pub proof fn lemma_put_keeps(files: Map<Seq<u8>, Seq<u8>>, canonical: Seq<u8>)
    ensures
        files.submap_of(put_spec(files, canonical)),
{
}

impl View for ObjectStore {
    type V = Map<Seq<u8>, Seq<u8>>;

    /// The files of the store by identity.
    closed spec fn view(&self) -> Map<Seq<u8>, Seq<u8>> {
        files_of(self.listing())
    }
}

impl ObjectStore {
    /// The identities and files of the store in the order in which they came.
    pub closed spec fn listing(&self) -> Seq<(Seq<u8>, Seq<u8>)> {
        Seq::new(self.entries@.len(), |i: int| (self.entries@[i].id@, self.entries@[i].file@))
    }

    /// Whether the store names each identity once, and identities only.
    pub open spec fn wf(&self) -> bool {
        listing_wf(self.listing())
    }

    /// How the view follows from the listing.
    pub proof fn lemma_view(&self)
        ensures
            self@ == files_of(self.listing()),
    {
    }

    /// A store that holds nothing.
    pub fn new() -> (store: ObjectStore)
        ensures
            store.wf(),
            store.listing() == Seq::<(Seq<u8>, Seq<u8>)>::empty(),
            store@ == Map::<Seq<u8>, Seq<u8>>::empty(),
    {
        let store = ObjectStore { entries: Vec::new() };
        assert(store.listing() =~= Seq::<(Seq<u8>, Seq<u8>)>::empty());
        assert(store@ =~= Map::<Seq<u8>, Seq<u8>>::empty());
        store
    }

    /// How many objects the store holds.
    pub fn len(&self) -> (n: usize)
        ensures
            n == self.listing().len(),
    {
        self.entries.len()
    }

    /// The object at place `i` of the listing.
    pub fn entry(&self, i: usize) -> (e: &StoredObject)
        requires
            i < self.listing().len(),
        ensures
            (e.id@, e.file@) == self.listing()[i as int],
    {
        &self.entries[i]
    }

    /// Finds the place of `id` in the listing.
    fn find(&self, id: &[u8]) -> (r: Option<usize>)
        ensures
            match r {
                Some(i) => i < self.listing().len() && self.listing()[i as int].0 == id@,
                None => !self@.dom().contains(id@),
            },
            r is Some <==> self@.dom().contains(id@),
    {
        let mut i: usize = 0;
        while i < self.entries.len()
            invariant
                i <= self.entries.len(),
                forall|j: int| 0 <= j < i ==> (#[trigger] self.listing()[j]).0 != id@,
            decreases self.entries.len() - i,
        {
            if bytes_equal(self.entries[i].id.as_slice(), id) {
                assert(self.listing()[i as int].0 == id@);
                return Some(i);
            }
            i = i + 1;
        }
        None
    }

    /// Whether the store holds an object under `id`.
    pub fn contains(&self, id: &[u8]) -> (found: bool)
        ensures
            found == self@.dom().contains(id@),
    {
        self.find(id).is_some()
    }

    /// The file kept under `id`, where there is one.
    pub fn file(&self, id: &[u8]) -> (r: Option<&Vec<u8>>)
        requires
            self.wf(),
        ensures
            match r {
                Some(file) => self@.dom().contains(id@) && self@[id@] == file@,
                None => !self@.dom().contains(id@),
            },
    {
        match self.find(id) {
            Some(i) => {
                proof {
                    let at = place_of(self.listing(), id@).unwrap();
                    if at < i {
                        assert(self.listing()[at].0 != self.listing()[i as int].0);
                    } else if i < at {
                        assert(self.listing()[i as int].0 != self.listing()[at].0);
                    }
                }
                Some(&self.entries[i].file)
            },
            None => None,
        }
    }

    /// Keeps `file` under `id` unless the store holds that identity already.
    /// Says whether the file was added.
    ///
    /// Fails with `InvalidIdentity`, and changes nothing, where `id` is not
    /// forty lowercase hexadecimal digits.
    pub fn insert_file(&mut self, id: &[u8], file: Vec<u8>) -> (r: Result<bool, Error>)
        requires
            old(self).wf(),
        ensures
            final(self).wf(),
            r == keep_result(old(self)@, id@),
            final(self)@ == keep_spec(old(self)@, id@, file@),
            final(self).listing() == listing_after(
                old(self).listing(),
                old(self)@,
                final(self)@,
                id@,
            ),
    {
        if !is_valid_identity(id) {
            return Err(Error::InvalidIdentity);
        }
        if self.contains(id) {
            return Ok(false);
        }
        let ghost before = self.listing();
        let key = copy_range(id, 0, id.len());
        assert(key@ =~= id@);
        self.entries.push(StoredObject { id: key, file });
        proof {
            assert(self.listing() =~= before.push((id@, file@)));
            lemma_files_of_push(before, id@, file@);
            assert(self@[id@] == file@);
            assert(self@ != old(self)@);
        }
        Ok(true)
    }

    /// Stores a canonical form under its identity and returns the identity.
    /// A form that the store holds already is not written again.
    ///
    /// Fails with `CodecFailure`, and changes nothing, where the form is new
    /// and cannot be deflated.
    pub fn put(&mut self, canonical: &[u8]) -> (r: Result<Vec<u8>, Error>)
        requires
            old(self).wf(),
        ensures
            final(self).wf(),
            final(self)@ == put_spec(old(self)@, canonical@),
            crate::delta::bytes_result(r) == put_result(old(self)@, canonical@),
            r is Ok ==> final(self)@.dom().contains(sha1_hex(canonical@)),
            r is Ok && !old(self)@.dom().contains(sha1_hex(canonical@)) ==> get_spec(
                final(self)@,
                sha1_hex(canonical@),
            ) == Ok::<Seq<u8>, Error>(canonical@),
            final(self).listing() == listing_after(
                old(self).listing(),
                old(self)@,
                final(self)@,
                sha1_hex(canonical@),
            ),
    {
        let id = sha1_text(canonical);
        if self.contains(id.as_slice()) {
            return Ok(id);
        }
        let stream = match deflate(canonical) {
            Ok(stream) => stream,
            Err(e) => { return Err(e); },
        };
        let ghost file = stream@;
        match self.insert_file(id.as_slice(), stream) {
            Ok(_) => {
                assert(self@[id@] == file);
                assert(self@ != old(self)@);
                Ok(id)
            },
            Err(e) => Err(e),
        }
    }

    /// Stores an object and returns its identity.
    ///
    /// Fails as [`ObjectStore::put`] does. Reading the identity back gives
    /// the kind and the content, unless the store held another object under
    /// the same identity before.
    pub fn put_raw(&mut self, kind: ObjectKind, content: &[u8]) -> (r: Result<Vec<u8>, Error>)
        requires
            old(self).wf(),
        ensures
            final(self).wf(),
            final(self)@ == put_spec(old(self)@, canonical(kind, content@)),
            crate::delta::bytes_result(r) == put_result(old(self)@, canonical(kind, content@)),
            r matches Ok(id) ==> final(self)@.dom().contains(id@),
            r matches Ok(id) ==> (old(self)@.dom().contains(id@) ==> get_spec(old(self)@, id@)
                == Ok::<Seq<u8>, Error>(canonical(kind, content@))) ==> get_content_spec(
                final(self)@,
                id@,
            ) == Ok::<(ObjectKind, Seq<u8>), Error>((kind, content@)),
            final(self).listing() == listing_after(
                old(self).listing(),
                old(self)@,
                final(self)@,
                sha1_hex(canonical(kind, content@)),
            ),
    {
        let raw = canonical_form(kind, content);
        let length = content.len();
        proof {
            assert(content@.len() == length);
            lemma_split_canonical(kind, content@);
        }
        self.put(raw.as_slice())
    }

    /// Reads the canonical form kept under `id`.
    ///
    /// Fails with `ObjectMissing` where the store holds nothing under `id`,
    /// and with `CodecCorrupt` where the file does not inflate.
    pub fn get(&self, id: &[u8]) -> (r: Result<Vec<u8>, Error>)
        requires
            self.wf(),
        ensures
            crate::delta::bytes_result(r) == get_spec(self@, id@),
    {
        let file = match self.file(id) {
            Some(file) => file,
            None => { return Err(Error::ObjectMissing); },
        };
        match inflate(file.as_slice()) {
            Ok((raw, _)) => Ok(raw),
            Err(e) => Err(e),
        }
    }

    /// Reads the kind and the content of the object kept under `id`.
    ///
    /// Fails as [`ObjectStore::get`] does, and with `MalformedObject` where
    /// what is kept there has no sound header.
    pub fn get_content(&self, id: &[u8]) -> (r: Result<(ObjectKind, Vec<u8>), Error>)
        requires
            self.wf(),
        ensures
            match r {
                Ok((kind, content)) => get_content_spec(self@, id@) == Ok::<
                    (ObjectKind, Seq<u8>),
                    Error,
                >((kind, content@)),
                Err(e) => get_content_spec(self@, id@) == Err::<(ObjectKind, Seq<u8>), Error>(e),
            },
    {
        let raw = match self.get(id) {
            Ok(raw) => raw,
            Err(e) => { return Err(e); },
        };
        match parse_object(raw.as_slice()) {
            Ok((kind, _, content)) => Ok((kind, content)),
            Err(e) => Err(e),
        }
    }
}

/// Where a loose object lies below the object directory: a directory named
/// by the first two digits of the identity, and in it a file named by the
/// other thirty-eight.
pub open spec fn loose_path_spec(id: Seq<u8>) -> Result<(Seq<u8>, Seq<u8>), Error> {
    if is_identity(id) {
        Ok((id.subrange(0, 2), id.subrange(2, 40)))
    } else {
        Err(Error::InvalidIdentity)
    }
}

/// Tells the directory and the file name of a loose object. Fails with
/// `InvalidIdentity` where `id` is not an identity.
pub fn loose_path(id: &[u8]) -> (r: Result<(Vec<u8>, Vec<u8>), Error>)
    ensures
        match r {
            Ok((dir, file)) => loose_path_spec(id@) == Ok::<(Seq<u8>, Seq<u8>), Error>(
                (dir@, file@),
            ),
            Err(e) => loose_path_spec(id@) == Err::<(Seq<u8>, Seq<u8>), Error>(e),
        },
{
    if !is_valid_identity(id) {
        return Err(Error::InvalidIdentity);
    }
    Ok((copy_range(id, 0, 2), copy_range(id, 2, 40)))
}

/// What reading an object gives: kind, declared length and content.
pub open spec fn read_spec(files: Map<Seq<u8>, Seq<u8>>, id: Seq<u8>) -> Result<
    (ObjectKind, nat, Seq<u8>),
    Error,
> {
    if id.len() != 40 {
        Err(Error::InvalidIdentity)
    } else {
        match get_spec(files, id) {
            Err(e) => Err(e),
            Ok(raw) => split_object(raw),
        }
    }
}

/// Reads an object of any kind: its kind, the length that its header
/// declares, and its content.
///
/// Fails with `InvalidIdentity` where `object_id` has not forty characters,
/// with `ObjectMissing` where the store holds nothing under it, with
/// `CodecCorrupt` where the file does not inflate, and with
/// `MalformedObject` where the header is unsound.
pub fn read_blob(store: &ObjectStore, object_id: &[u8]) -> (r: Result<
    (ObjectKind, usize, Vec<u8>),
    Error,
>)
    requires
        store.wf(),
    ensures
        match r {
            Ok((kind, size, content)) => read_spec(store@, object_id@) == Ok::<
                (ObjectKind, nat, Seq<u8>),
                Error,
            >((kind, size as nat, content@)),
            Err(e) => read_spec(store@, object_id@) == Err::<(ObjectKind, nat, Seq<u8>), Error>(e),
        },
{
    if object_id.len() != 40 {
        return Err(Error::InvalidIdentity);
    }
    let raw = match store.get(object_id) {
        Ok(raw) => raw,
        Err(e) => { return Err(e); },
    };
    parse_object(raw.as_slice())
}

/// What reading a tree gives: as [`read_spec`], but any other kind is
/// malformed.
pub open spec fn read_tree_spec(files: Map<Seq<u8>, Seq<u8>>, id: Seq<u8>) -> Result<
    (ObjectKind, nat, Seq<u8>),
    Error,
> {
    match read_spec(files, id) {
        Ok((kind, size, content)) => if kind == ObjectKind::Tree {
            Ok((kind, size, content))
        } else {
            Err(Error::MalformedObject)
        },
        Err(e) => Err(e),
    }
}

/// Reads a tree. Fails as [`read_blob`] does, and with `MalformedObject`
/// where the object is no tree.
pub fn read_tree_object(store: &ObjectStore, object_id: &[u8]) -> (r: Result<
    (ObjectKind, usize, Vec<u8>),
    Error,
>)
    requires
        store.wf(),
    ensures
        match r {
            Ok((kind, size, content)) => read_tree_spec(store@, object_id@) == Ok::<
                (ObjectKind, nat, Seq<u8>),
                Error,
            >((kind, size as nat, content@)),
            Err(e) => read_tree_spec(store@, object_id@) == Err::<
                (ObjectKind, nat, Seq<u8>),
                Error,
            >(e),
        },
{
    match read_blob(store, object_id) {
        Ok((kind, size, content)) => match kind {
            ObjectKind::Tree => Ok((kind, size, content)),
            _ => Err(Error::MalformedObject),
        },
        Err(e) => Err(e),
    }
}

/// The store after `data` was written under `hash`: with the deflated data
/// added where `hash` is an identity that the store does not hold and the
/// compressor succeeds, else unchanged.
pub open spec fn write_spec(files: Map<Seq<u8>, Seq<u8>>, data: Seq<u8>, hash: Seq<u8>) -> Map<
    Seq<u8>,
    Seq<u8>,
> {
    match deflate_spec(data) {
        Ok(stream) => keep_spec(files, hash, stream),
        Err(_) => files,
    }
}

/// What writing `data` under `hash` returns.
pub open spec fn write_result(files: Map<Seq<u8>, Seq<u8>>, data: Seq<u8>, hash: Seq<u8>) -> Result<
    (),
    Error,
> {
    if !is_identity(hash) {
        Err(Error::InvalidIdentity)
    } else if files.dom().contains(hash) {
        Ok(())
    } else {
        match deflate_spec(data) {
            Ok(_) => Ok(()),
            Err(e) => Err(e),
        }
    }
}

/// Writes the canonical form `blob_data` under the identity `hash`, which
/// the caller has computed. An identity that the store holds is left as it
/// is.
///
/// Fails with `InvalidIdentity` where `hash` is no identity and with
/// `CodecFailure` where the data cannot be deflated; the store is then
/// unchanged.
pub fn write_blob(store: &mut ObjectStore, blob_data: &[u8], hash: &[u8]) -> (r: Result<(), Error>)
    requires
        old(store).wf(),
    ensures
        final(store).wf(),
        r == write_result(old(store)@, blob_data@, hash@),
        r is Ok ==> final(store)@ == write_spec(old(store)@, blob_data@, hash@),
        r is Err ==> final(store)@ == old(store)@,
        old(store)@.submap_of(final(store)@),
        final(store).listing() == listing_after(
            old(store).listing(),
            old(store)@,
            final(store)@,
            hash@,
        ),
{
    if !is_valid_identity(hash) {
        return Err(Error::InvalidIdentity);
    }
    if store.contains(hash) {
        return Ok(());
    }
    let stream = match deflate(blob_data) {
        Ok(stream) => stream,
        Err(e) => { return Err(e); },
    };
    match store.insert_file(hash, stream) {
        Ok(_) => Ok(()),
        Err(e) => Err(e),
    }
}

/// The store after a file's content was hashed, and written if asked.
pub open spec fn hash_file_spec(files: Map<Seq<u8>, Seq<u8>>, content: Seq<u8>, write: bool) -> Map<
    Seq<u8>,
    Seq<u8>,
> {
    if write {
        put_spec(files, canonical(ObjectKind::Blob, content))
    } else {
        files
    }
}

/// What hashing a file's content returns: the identity of the blob, or the
/// failure of the write.
pub open spec fn hash_file_result(
    files: Map<Seq<u8>, Seq<u8>>,
    content: Seq<u8>,
    write: bool,
) -> Result<Seq<u8>, Error> {
    if write {
        put_result(files, canonical(ObjectKind::Blob, content))
    } else {
        Ok(sha1_hex(canonical(ObjectKind::Blob, content)))
    }
}

/// Computes the identity of the blob with the given content and, if
/// `should_write` is set, stores the blob. Fails only where the write does.
pub fn create_file_hash(store: &mut ObjectStore, content: &[u8], should_write: bool) -> (r: Result<
    Vec<u8>,
    Error,
>)
    requires
        old(store).wf(),
    ensures
        final(store).wf(),
        final(store)@ == hash_file_spec(old(store)@, content@, should_write),
        crate::delta::bytes_result(r) == hash_file_result(old(store)@, content@, should_write),
        final(store).listing() == listing_after(
            old(store).listing(),
            old(store)@,
            final(store)@,
            sha1_hex(canonical(ObjectKind::Blob, content@)),
        ),
{
    let raw = canonical_form(ObjectKind::Blob, content);
    let hash = sha1_text(raw.as_slice());
    if should_write {
        match write_blob(store, raw.as_slice(), hash.as_slice()) {
            Ok(_) => {},
            Err(e) => { return Err(e); },
        }
    }
    Ok(hash)
}

} // verus!
