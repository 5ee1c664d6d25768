//! Ref discovery and the request for a pack.
//!
//! The advertisement of a remote is a list of lines. Apart from the service
//! announcement and flush packets, each line is four length digits followed
//! by fields that white space parts: an identity and a ref name, and on the
//! line that carries the capabilities more than that. The capability
//! `symref=HEAD:<ref>` names the ref that `HEAD` points to.

use crate::bytes::{bytes_equal, copy_range, find_byte, has_at, matches_at, push_all};
use crate::text::{fields, lines_from, lines_of, split_fields, words_view};
use crate::error::Error;
use crate::pktline::{encode_pkt_line, pkt_line};
use vstd::prelude::*;
use vstd::string::StringSliceAdditionalSpecFns;

verus! {

/// The line of the service announcement, as far as it is looked at.
pub open spec fn service_line() -> Seq<u8> {
    "001e# service=git-upload-pack".spec_bytes()
}

/// A flush packet.
pub open spec fn flush_packet() -> Seq<u8> {
    "0000".spec_bytes()
}

/// What stands before the target in the capability that names the ref of
/// `HEAD`.
pub open spec fn symref_prefix() -> Seq<u8> {
    "symref=HEAD:".spec_bytes()
}

/// Whether a line is passed over before its fields are looked at: one of
/// fewer than four bytes, the service announcement, or a flush packet.
pub open spec fn passed_over(line: Seq<u8>) -> bool {
    line.len() < 4 || has_at(line, 0, service_line()) || line == flush_packet()
}

/// The fields of a line behind its four length digits; none for a line that
/// is passed over.
pub open spec fn line_fields(line: Seq<u8>) -> Seq<Seq<u8>> {
    if passed_over(line) {
        Seq::empty()
    } else {
        fields(line.subrange(4, line.len() as int))
    }
}

/// The ref that a field names as the target of `HEAD`, where it is the
/// capability `symref=HEAD:<ref>`.
pub open spec fn symref_target(field: Seq<u8>) -> Option<Seq<u8>> {
    if has_at(field, 0, symref_prefix()) {
        Some(field.subrange(symref_prefix().len() as int, field.len() as int))
    } else {
        None
    }
}

/// The target of `HEAD` after the fields of a capability line were looked
/// at, `head` being the target before: that of the last field that names
/// one.
pub open spec fn head_after(fields: Seq<Seq<u8>>, head: Seq<u8>) -> Seq<u8>
    decreases fields.len(),
{
    if fields.len() == 0 {
        head
    } else {
        match symref_target(fields.last()) {
            Some(target) => target,
            None => head_after(fields.drop_last(), head),
        }
    }
}

/// What discovery has gathered: the refs as pairs of name and identity, and
/// the target of `HEAD`.
pub struct Advert {
    pub refs: Seq<(Seq<u8>, Seq<u8>)>,
    pub head_ref: Seq<u8>,
}

/// Discovery taking in the fields of one line. Two fields are an identity
/// and a ref name, and count where the identity has forty bytes. More than
/// two fields are searched for the target of `HEAD`.
pub open spec fn absorb_fields(ad: Advert, fields: Seq<Seq<u8>>) -> Advert {
    if fields.len() < 2 {
        ad
    } else if fields.len() == 2 {
        if fields[0].len() == 40 {
            Advert { refs: ad.refs.push((fields[1], fields[0])), head_ref: ad.head_ref }
        } else {
            ad
        }
    } else {
        Advert { refs: ad.refs, head_ref: head_after(fields, ad.head_ref) }
    }
}

/// Discovery after all of `lines`.
pub open spec fn absorbed(lines: Seq<Seq<u8>>) -> Advert
    decreases lines.len(),
{
    if lines.len() == 0 {
        Advert { refs: Seq::empty(), head_ref: Seq::empty() }
    } else {
        absorb_fields(absorbed(lines.drop_last()), line_fields(lines.last()))
    }
}

/// The identity listed last under `name`.
pub open spec fn listed(refs: Seq<(Seq<u8>, Seq<u8>)>, name: Seq<u8>) -> Option<Seq<u8>>
    decreases refs.len(),
{
    if refs.len() == 0 {
        None
    } else if refs.last().0 == name {
        Some(refs.last().1)
    } else {
        listed(refs.drop_last(), name)
    }
}

/// What discovery makes of an advertisement: all refs, and `HEAD` as the
/// ref that it points to and the identity listed for that ref. Without such
/// an identity there is no `HEAD`.
pub open spec fn discover(body: Seq<u8>) -> Result<
    (Seq<(Seq<u8>, Seq<u8>)>, (Seq<u8>, Seq<u8>)),
    Error,
> {
    let ad = absorbed(lines_of(body));
    match listed(ad.refs, ad.head_ref) {
        Some(id) => Ok((ad.refs, (ad.head_ref, id))),
        None => Err(Error::NoHead),
    }
}

/// The mathematical form of a list of pairs of byte strings.
pub open spec fn pairs_view(pairs: Seq<(Vec<u8>, Vec<u8>)>) -> Seq<(Seq<u8>, Seq<u8>)> {
    Seq::new(pairs.len(), |i: int| (pairs[i].0@, pairs[i].1@))
}

/// Finds the target of `HEAD` among the fields of a capability line.
fn find_head(fields: &Vec<Vec<u8>>, head: Vec<u8>) -> (out: Vec<u8>)
    ensures
        out@ == head_after(words_view(fields@), head@),
{
    let prefix = "symref=HEAD:".as_bytes();
    let mut found: Vec<u8> = head;
    let mut i: usize = 0;
    assert(words_view(fields@).subrange(0, 0) =~= Seq::<Seq<u8>>::empty());
    while i < fields.len()
        invariant
            i <= fields@.len(),
            prefix@ == symref_prefix(),
            found@ == head_after(words_view(fields@).subrange(0, i as int), head@),
        decreases fields@.len() - i,
    {
        let ghost part = words_view(fields@).subrange(0, i + 1);
        assert(part.drop_last() =~= words_view(fields@).subrange(0, i as int));
        assert(part.last() == fields@[i as int]@);
        let field = fields[i].as_slice();
        if matches_at(field, 0, prefix) {
            found = copy_range(field, prefix.len(), field.len());
        }
        i = i + 1;
    }
    assert(words_view(fields@).subrange(0, i as int) =~= words_view(fields@));
    found
}

/// Looks up the identity listed last under `name`.
fn find_listed(refs: &Vec<(Vec<u8>, Vec<u8>)>, name: &[u8]) -> (r: Option<Vec<u8>>)
    ensures
        match r {
            Some(id) => listed(pairs_view(refs@), name@) == Some(id@),
            None => listed(pairs_view(refs@), name@) is None,
        },
{
    let mut i: usize = refs.len();
    assert(pairs_view(refs@).subrange(0, i as int) =~= pairs_view(refs@));
    while i > 0
        invariant
            i <= refs@.len(),
            listed(pairs_view(refs@).subrange(0, i as int), name@) == listed(
                pairs_view(refs@),
                name@,
            ),
        decreases i,
    {
        let ghost part = pairs_view(refs@).subrange(0, i as int);
        i = i - 1;
        assert(part.last() == (refs@[i as int].0@, refs@[i as int].1@));
        assert(part.drop_last() =~= pairs_view(refs@).subrange(0, i as int));
        if bytes_equal(refs[i].0.as_slice(), name) {
            return Some(refs[i].1.clone());
        }
    }
    None
}

/// Whether a line is passed over.
fn is_passed_over(line: &[u8]) -> (r: bool)
    ensures
        r == passed_over(line@),
{
    line.len() < 4 || matches_at(line, 0, "001e# service=git-upload-pack".as_bytes())
        || bytes_equal(line, "0000".as_bytes())
}

/// Reads the advertisement of a remote: all refs as pairs of name and
/// identity, and `HEAD` as the ref that it points to and the identity of
/// that ref.
///
/// Fails with `NoHead` where no capability names the target of `HEAD` or no
/// line lists that target.
pub fn parse_refs_response(body: &[u8]) -> (r: Result<
    (Vec<(Vec<u8>, Vec<u8>)>, (Vec<u8>, Vec<u8>)),
    Error,
>)
    ensures
        match r {
            Ok((refs, (head_ref, head_sha))) => discover(body@) == Ok::<
                (Seq<(Seq<u8>, Seq<u8>)>, (Seq<u8>, Seq<u8>)),
                Error,
            >((pairs_view(refs@), (head_ref@, head_sha@))),
            Err(e) => discover(body@) == Err::<
                (Seq<(Seq<u8>, Seq<u8>)>, (Seq<u8>, Seq<u8>)),
                Error,
            >(e),
        },
{
    let mut refs: Vec<(Vec<u8>, Vec<u8>)> = Vec::new();
    let mut head_ref: Vec<u8> = Vec::new();
    let mut start: usize = 0;
    let ghost mut seen: Seq<Seq<u8>> = Seq::empty();
    assert(pairs_view(refs@) =~= Seq::empty());
    while start < body.len()
        invariant
            start <= body.len(),
            seen + lines_from(body@, start as int) == lines_of(body@),
            absorbed(seen) == (Advert { refs: pairs_view(refs@), head_ref: head_ref@ }),
        decreases body.len() - start,
    {
        let end = find_byte(body, start, 0x0a);
        let stop: usize = if start < end && end < body.len() && body[end - 1] == 0x0d {
            end - 1
        } else {
            end
        };
        let line = &body[start..stop];
        let next: usize = if end < body.len() {
            end + 1
        } else {
            end
        };
        proof {
            let longer = seen.push(line@);
            assert(longer.drop_last() =~= seen);
            assert(lines_from(body@, body@.len() as int) =~= Seq::<Seq<u8>>::empty());
            assert(seen + lines_from(body@, start as int) =~= longer + lines_from(
                body@,
                next as int,
            ));
            seen = longer;
        }
        if !is_passed_over(line) {
            let fields = split_fields(&line[4..line.len()]);
            if fields.len() == 2 {
                if fields[0].len() == 40 {
                    let ghost before = pairs_view(refs@);
                    let name = fields[1].clone();
                    let id = fields[0].clone();
                    refs.push((name, id));
                    assert(pairs_view(refs@) =~= before.push((fields@[1]@, fields@[0]@)));
                }
            } else if fields.len() > 2 {
                head_ref = find_head(&fields, head_ref);
            }
        }
        start = next;
    }
    proof {
        assert(seen + Seq::<Seq<u8>>::empty() =~= seen);
    }
    match find_listed(&refs, head_ref.as_slice()) {
        Some(head_sha) => Ok((refs, (head_ref, head_sha))),
        None => Err(Error::NoHead),
    }
}

/// Whether a line carries, among more than two fields, the capability that
/// names `target` as the ref of `HEAD`.
pub open spec fn names_head(line: Seq<u8>, target: Seq<u8>) -> bool {
    line_fields(line).len() > 2 && exists|k: int|
        0 <= k < line_fields(line).len() && symref_target(#[trigger] line_fields(line)[k]) == Some(
            target,
        )
}

/// Whether a line lists the ref `name` with the identity `id`.
pub open spec fn lists(line: Seq<u8>, name: Seq<u8>, id: Seq<u8>) -> bool {
    line_fields(line).len() == 2 && line_fields(line)[0] == id && line_fields(line)[1] == name
        && id.len() == 40
}

proof fn lemma_head_after(fields: Seq<Seq<u8>>, head: Seq<u8>, target: Seq<u8>)
    requires
        forall|k: int|
            0 <= k < fields.len() && symref_target(#[trigger] fields[k]) is Some ==> symref_target(
                fields[k],
            ) == Some(target),
    ensures
        head_after(fields, head) == (if exists|k: int|
            0 <= k < fields.len() && symref_target(#[trigger] fields[k]) is Some {
            target
        } else {
            head
        }),
    decreases fields.len(),
{
    if fields.len() > 0 {
        let shorter = fields.drop_last();
        assert forall|k: int|
            0 <= k < shorter.len() && symref_target(
                #[trigger] shorter[k],
            ) is Some implies symref_target(shorter[k]) == Some(target) by {
            assert(shorter[k] == fields[k]);
        }
        lemma_head_after(shorter, head, target);
        let last = fields.len() - 1;
        if symref_target(fields.last()) is Some {
            assert(symref_target(fields[last]) is Some);
        } else if exists|k: int|
            0 <= k < fields.len() && symref_target(#[trigger] fields[k]) is Some {
            let k = choose|k: int|
                0 <= k < fields.len() && symref_target(#[trigger] fields[k]) is Some;
            assert(shorter[k] == fields[k]);
        } else {
            if exists|k: int|
                0 <= k < shorter.len() && symref_target(#[trigger] shorter[k]) is Some {
                let k = choose|k: int|
                    0 <= k < shorter.len() && symref_target(#[trigger] shorter[k]) is Some;
                assert(shorter[k] == fields[k]);
            }
        }
    }
}

proof fn lemma_absorbed(lines: Seq<Seq<u8>>, head_ref: Seq<u8>, head_sha: Seq<u8>)
    requires
        forall|i: int, other: Seq<u8>|
            0 <= i < lines.len() && #[trigger] names_head(lines[i], other) ==> other == head_ref,
        forall|j: int, other: Seq<u8>|
            0 <= j < lines.len() && #[trigger] lists(lines[j], head_ref, other) ==> other
                == head_sha,
    ensures
        absorbed(lines).head_ref == (if exists|i: int|
            0 <= i < lines.len() && names_head(#[trigger] lines[i], head_ref) {
            head_ref
        } else {
            Seq::empty()
        }),
        listed(absorbed(lines).refs, head_ref) == (if exists|j: int|
            0 <= j < lines.len() && lists(#[trigger] lines[j], head_ref, head_sha) {
            Some(head_sha)
        } else {
            None
        }),
    decreases lines.len(),
{
    if lines.len() > 0 {
        let shorter = lines.drop_last();
        let last = lines.len() - 1;
        let line = lines.last();
        let found = line_fields(line);
        assert forall|i: int, other: Seq<u8>|
            0 <= i < shorter.len() && #[trigger] names_head(shorter[i], other) implies other
            == head_ref by {
            assert(shorter[i] == lines[i]);
        }
        assert forall|j: int, other: Seq<u8>|
            0 <= j < shorter.len() && #[trigger] lists(shorter[j], head_ref, other) implies other
            == head_sha by {
            assert(shorter[j] == lines[j]);
        }
        lemma_absorbed(shorter, head_ref, head_sha);
        let before = absorbed(shorter);
        let after = absorbed(lines);
        assert(after == absorb_fields(before, found));
        // Which target of `HEAD` the line leaves.
        assert forall|k: int|
            0 <= k < found.len() && symref_target(#[trigger] found[k]) is Some && found.len()
                > 2 implies symref_target(found[k]) == Some(head_ref) by {
            let other = symref_target(found[k]).unwrap();
            assert(names_head(lines[last], other));
        }
        let named_here = names_head(line, head_ref);
        if found.len() > 2 {
            lemma_head_after(found, before.head_ref, head_ref);
            if exists|k: int| 0 <= k < found.len() && symref_target(#[trigger] found[k]) is Some {
                let k = choose|k: int|
                    0 <= k < found.len() && symref_target(#[trigger] found[k]) is Some;
                assert(symref_target(found[k]) == Some(head_ref));
                assert(named_here);
            }
        }
        if named_here {
            assert(names_head(lines[last], head_ref));
        } else if exists|i: int| 0 <= i < lines.len() && names_head(#[trigger] lines[i], head_ref) {
            let i = choose|i: int|
                0 <= i < lines.len() && names_head(#[trigger] lines[i], head_ref);
            assert(shorter[i] == lines[i]);
        } else if exists|i: int|
            0 <= i < shorter.len() && names_head(#[trigger] shorter[i], head_ref) {
            let i = choose|i: int|
                0 <= i < shorter.len() && names_head(#[trigger] shorter[i], head_ref);
            assert(shorter[i] == lines[i]);
        }
        // Which identity the line leaves listed for the target.
        let listed_here = lists(line, head_ref, head_sha);
        if found.len() == 2 && found[0].len() == 40 {
            assert(after.refs.drop_last() =~= before.refs);
            if found[1] == head_ref {
                assert(lists(lines[last], head_ref, found[0]));
            }
        }
        if listed_here {
            assert(lists(lines[last], head_ref, head_sha));
        } else if exists|j: int|
            0 <= j < lines.len() && lists(#[trigger] lines[j], head_ref, head_sha) {
            let j = choose|j: int|
                0 <= j < lines.len() && lists(#[trigger] lines[j], head_ref, head_sha);
            assert(shorter[j] == lines[j]);
        } else if exists|j: int|
            0 <= j < shorter.len() && lists(#[trigger] shorter[j], head_ref, head_sha) {
            let j = choose|j: int|
                0 <= j < shorter.len() && lists(#[trigger] shorter[j], head_ref, head_sha);
            assert(shorter[j] == lines[j]);
        }
    }
}

/// Law: where a capability of the advertisement names `head_ref` as the ref
/// of `HEAD` and a line lists `head_ref` with the identity `head_sha`,
/// discovery gives that ref and that identity for `HEAD`, provided that the
/// advertisement names no other ref for `HEAD` and lists `head_ref` with no
/// other identity.
pub proof fn lemma_discovery_finds_head(body: Seq<u8>, head_ref: Seq<u8>, head_sha: Seq<u8>)
    requires
        exists|i: int|
            0 <= i < lines_of(body).len() && names_head(#[trigger] lines_of(body)[i], head_ref),
        exists|j: int|
            0 <= j < lines_of(body).len() && lists(
                #[trigger] lines_of(body)[j],
                head_ref,
                head_sha,
            ),
        forall|i: int, other: Seq<u8>|
            0 <= i < lines_of(body).len() && #[trigger] names_head(lines_of(body)[i], other)
                ==> other == head_ref,
        forall|j: int, other: Seq<u8>|
            0 <= j < lines_of(body).len() && #[trigger] lists(lines_of(body)[j], head_ref, other)
                ==> other == head_sha,
    ensures
        discover(body) matches Ok(found) && found.1 == (head_ref, head_sha),
{
    lemma_absorbed(lines_of(body), head_ref, head_sha);
}

/// The address of an endpoint of a repository: the address of the
/// repository, `.git` unless it ends so, then the endpoint.
pub open spec fn endpoint_url(repo_url: Seq<u8>, endpoint: Seq<u8>) -> Seq<u8> {
    if has_at(repo_url, repo_url.len() - ".git".spec_bytes().len(), ".git".spec_bytes()) {
        repo_url + endpoint
    } else {
        repo_url + ".git".spec_bytes() + endpoint
    }
}

/// Builds the address of an endpoint of a repository.
fn build_url(repo_url: &[u8], endpoint: &[u8]) -> (url: Vec<u8>)
    ensures
        url@ == endpoint_url(repo_url@, endpoint@),
{
    let suffix = ".git".as_bytes();
    let mut url: Vec<u8> = Vec::new();
    push_all(&mut url, repo_url);
    let ends: bool = suffix.len() <= repo_url.len() && matches_at(
        repo_url,
        repo_url.len() - suffix.len(),
        suffix,
    );
    if !ends {
        push_all(&mut url, suffix);
    }
    push_all(&mut url, endpoint);
    assert(url@ =~= endpoint_url(repo_url@, endpoint@));
    url
}

/// The address from which the advertisement of a repository is fetched.
pub fn refs_url(repo_url: &[u8]) -> (url: Vec<u8>)
    ensures
        url@ == endpoint_url(repo_url@, "/info/refs?service=git-upload-pack".spec_bytes()),
{
    build_url(repo_url, "/info/refs?service=git-upload-pack".as_bytes())
}

/// The address to which the request for a pack is posted.
pub fn pack_url(repo_url: &[u8]) -> (url: Vec<u8>)
    ensures
        url@ == endpoint_url(repo_url@, "/git-upload-pack".spec_bytes()),
{
    build_url(repo_url, "/git-upload-pack".as_bytes())
}

/// The request for everything that leads to one commit: a line that wants
/// the commit and names the capabilities, a flush packet, and `done`.
pub open spec fn fetch_request(want: Seq<u8>) -> Seq<u8> {
    pkt_line(
        "want ".spec_bytes() + want
            + " multi_ack_detailed side-band-64k thin-pack ofs-delta\n".spec_bytes(),
    ) + flush_packet() + pkt_line("done\n".spec_bytes())
}

/// Builds the body of the request for a pack: the commit with identity
/// `head_sha` is wanted, nothing is offered.
pub fn build_fetch_request(head_sha: &[u8]) -> (body: Vec<u8>)
    ensures
        body@ == fetch_request(head_sha@),
{
    let mut want: Vec<u8> = Vec::new();
    push_all(&mut want, "want ".as_bytes());
    push_all(&mut want, head_sha);
    push_all(&mut want, " multi_ack_detailed side-band-64k thin-pack ofs-delta\n".as_bytes());
    let mut body = encode_pkt_line(want.as_slice());
    push_all(&mut body, "0000".as_bytes());
    let done = encode_pkt_line("done\n".as_bytes());
    push_all(&mut body, done.as_slice());
    body
}

/// What the file `HEAD` holds when `HEAD` points to the ref `head_ref`.
pub open spec fn head_file_spec(head_ref: Seq<u8>) -> Seq<u8> {
    "ref: ".spec_bytes() + head_ref + seq![0x0au8]
}

/// Builds the content of the file `HEAD` for a `HEAD` that points to the
/// ref `head_ref`.
pub fn head_file(head_ref: &[u8]) -> (content: Vec<u8>)
    ensures
        content@ == head_file_spec(head_ref@),
{
    let mut content: Vec<u8> = Vec::new();
    push_all(&mut content, "ref: ".as_bytes());
    push_all(&mut content, head_ref);
    content.push(0x0a);
    content
}

/// Builds the content of the file of a ref that names the object `id`: the
/// identity and a line feed.
pub fn ref_file(id: &[u8]) -> (content: Vec<u8>)
    ensures
        content@ == id@ + seq![0x0au8],
{
    let mut content: Vec<u8> = Vec::new();
    push_all(&mut content, id);
    content.push(0x0a);
    assert(content@ =~= id@ + seq![0x0au8]);
    content
}

} // verus!
