//! Commits: finding the tree of a commit, and writing a commit.
//!
//! The content of a commit is a block of header lines, an empty line and
//! the message. The header `tree` names the tree of the commit; `parent`,
//! `author` and `committer` follow it.

use crate::bytes::{
    bytes_equal, copy_range, decimal, find_byte, has_at, lemma_position_of, matches_at,
    position_of, push_all, push_decimal,
};
use crate::codec::local_now;
use crate::delta::bytes_result;
use crate::error::Error;
use crate::object::{canonical, put_result, put_spec, ObjectKind, ObjectStore};
use crate::text::{is_space, is_space_byte, line_at, skip_spaces};
use vstd::prelude::*;
use vstd::string::StringSliceAdditionalSpecFns;

verus! {

/// The end of `text` without the white space before `end`.
pub open spec fn trim_end(text: Seq<u8>, end: int) -> int
    decreases end,
{
    if 0 < end <= text.len() && is_space(text[end - 1]) {
        trim_end(text, end - 1)
    } else {
        end
    }
}

/// A text without the white space at its start and at its end.
pub open spec fn trimmed(text: Seq<u8>) -> Seq<u8> {
    let start = skip_spaces(text, 0);
    let end = trim_end(text, text.len() as int);
    if start >= end {
        Seq::empty()
    } else {
        text.subrange(start, end)
    }
}

/// Copies a text without the white space at its start and at its end.
pub fn trim(text: &[u8]) -> (out: Vec<u8>)
    ensures
        out@ == trimmed(text@),
{
    let mut start: usize = 0;
    while start < text.len() && is_space_byte(text[start])
        invariant
            start <= text.len(),
            skip_spaces(text@, start as int) == skip_spaces(text@, 0),
        decreases text.len() - start,
    {
        start = start + 1;
    }
    let mut end: usize = text.len();
    while end > 0 && is_space_byte(text[end - 1])
        invariant
            end <= text.len(),
            trim_end(text@, end as int) == trim_end(text@, text@.len() as int),
        decreases end,
    {
        end = end - 1;
    }
    if start >= end {
        Vec::new()
    } else {
        copy_range(text, start, end)
    }
}

/// What a header line starts with that names the tree.
pub open spec fn tree_prefix() -> Seq<u8> {
    "tree ".spec_bytes()
}

/// The tree that the first line from `start` on names which starts with
/// `tree `: what follows on that line, without white space around it.
pub open spec fn tree_named(content: Seq<u8>, start: int) -> Option<Seq<u8>>
    decreases content.len() - start,
{
    if start < 0 || start >= content.len() {
        None
    } else {
        let line = line_at(content, start);
        let end = position_of(content, start, 0x0a);
        if has_at(line, 0, tree_prefix()) {
            Some(trimmed(line.subrange(tree_prefix().len() as int, line.len() as int)))
        } else if end >= content.len() {
            None
        } else {
            proof {
                lemma_position_of(content, start, 0x0a);
            }
            tree_named(content, end + 1)
        }
    }
}

/// The tree of a commit given in canonical form: the content starts behind
/// the first NUL byte, and its first line that starts with `tree ` names the
/// tree.
pub open spec fn commit_tree_spec(commit: Seq<u8>) -> Result<Seq<u8>, Error> {
    let nul = position_of(commit, 0, 0);
    if nul >= commit.len() {
        Err(Error::MalformedObject)
    } else {
        match tree_named(commit.subrange(nul + 1, commit.len() as int), 0) {
            Some(tree) => Ok(tree),
            None => Err(Error::MalformedObject),
        }
    }
}

/// Finds the identity of the tree in a commit given in canonical form.
///
/// Fails with `MalformedObject` where the commit has no NUL byte or no line
/// that starts with `tree `.
pub fn parse_commit_tree(commit_data: &[u8]) -> (r: Result<Vec<u8>, Error>)
    ensures
        bytes_result(r) == commit_tree_spec(commit_data@),
{
    let nul = find_byte(commit_data, 0, 0);
    if nul >= commit_data.len() {
        return Err(Error::MalformedObject);
    }
    let content = &commit_data[nul + 1..commit_data.len()];
    let prefix = "tree ".as_bytes();
    let mut start: usize = 0;
    while start < content.len()
        invariant
            start <= content.len(),
            prefix@ == tree_prefix(),
            nul == position_of(commit_data@, 0, 0),
            nul < commit_data.len(),
            content@ == commit_data@.subrange(nul + 1, commit_data.len() as int),
            tree_named(content@, start as int) == tree_named(content@, 0),
        decreases content.len() - start,
    {
        let end = find_byte(content, start, 0x0a);
        let stop: usize = if start < end && end < content.len() && content[end - 1] == 0x0d {
            end - 1
        } else {
            end
        };
        let line = &content[start..stop];
        if matches_at(line, 0, prefix) {
            return Ok(trim(&line[prefix.len()..line.len()]));
        }
        if end >= content.len() {
            return Err(Error::MalformedObject);
        }
        start = end + 1;
    }
    Err(Error::MalformedObject)
}

/// What the arguments of `commit-tree` say: the tree, a parent if one is
/// given, and the message.
#[derive(Debug, PartialEq, Eq)]
pub struct CommitArgs {
    pub tree: Vec<u8>,
    pub parent: Option<Vec<u8>>,
    pub message: Vec<u8>,
}

/// The mathematical form of [`CommitArgs`].
pub struct CommitArgsView {
    pub tree: Seq<u8>,
    pub parent: Option<Seq<u8>>,
    pub message: Seq<u8>,
}

impl View for CommitArgs {
    type V = CommitArgsView;

    open spec fn view(&self) -> CommitArgsView {
        CommitArgsView {
            tree: self.tree@,
            parent: match self.parent {
                Some(p) => Some(p@),
                None => None,
            },
            message: self.message@,
        }
    }
}

/// The arguments `<tree> [-p <parent>] -m <message>` taken apart. There
/// must be three to five of them; what follows the message is not looked
/// at.
pub open spec fn parse_args_spec(args: Seq<Seq<u8>>) -> Result<CommitArgsView, Error> {
    if args.len() < 3 || args.len() > 5 {
        Err(Error::InvalidArguments)
    } else {
        let with_parent = args[1] == "-p".spec_bytes();
        let at: int = if with_parent {
            3
        } else {
            1
        };
        if at + 1 < args.len() && args[at] == "-m".spec_bytes() {
            Ok(
                CommitArgsView {
                    tree: args[0],
                    parent: if with_parent {
                        Some(args[2])
                    } else {
                        None
                    },
                    message: args[at + 1],
                },
            )
        } else {
            Err(Error::InvalidArguments)
        }
    }
}

/// Takes the arguments of `commit-tree` apart.
///
/// Fails with `InvalidArguments` where there are fewer than three or more
/// than five, or where `-m` and a message do not follow the tree or the
/// parent.
pub fn parse_args(args: &Vec<Vec<u8>>) -> (r: Result<CommitArgs, Error>)
    ensures
        match r {
            Ok(found) => parse_args_spec(crate::text::words_view(args@)) == Ok::<
                CommitArgsView,
                Error,
            >(found@),
            Err(e) => parse_args_spec(crate::text::words_view(args@)) == Err::<
                CommitArgsView,
                Error,
            >(e),
        },
{
    if args.len() < 3 || args.len() > 5 {
        return Err(Error::InvalidArguments);
    }
    let with_parent = bytes_equal(args[1].as_slice(), "-p".as_bytes());
    let at: usize = if with_parent {
        3
    } else {
        1
    };
    if at + 1 < args.len() && bytes_equal(args[at].as_slice(), "-m".as_bytes()) {
        let parent = if with_parent {
            Some(args[2].clone())
        } else {
            None
        };
        Ok(CommitArgs { tree: args[0].clone(), parent, message: args[at + 1].clone() })
    } else {
        Err(Error::InvalidArguments)
    }
}

/// The decimal numeral of an integer, with a minus sign where it is
/// negative.
pub open spec fn signed_decimal(n: int) -> Seq<u8> {
    if n < 0 {
        seq![0x2du8] + decimal((-n) as nat)
    } else {
        decimal(n as nat)
    }
}

/// The decimal numeral of a number in at least two digits.
pub open spec fn two_digits(n: nat) -> Seq<u8> {
    if n < 10 {
        seq![0x30u8] + decimal(n)
    } else {
        decimal(n)
    }
}

/// An offset from UTC in seconds as text: the sign, hours and minutes in
/// two digits each with a colon between them, and the seconds likewise
/// where they are not zero.
pub open spec fn offset_text(offset: int) -> Seq<u8> {
    let size = if offset < 0 {
        -offset
    } else {
        offset
    };
    let sign = if offset < 0 {
        0x2du8
    } else {
        0x2bu8
    };
    let head = seq![sign] + two_digits((size / 3600) as nat) + seq![0x3au8] + two_digits(
        (size / 60 % 60) as nat,
    );
    if size % 60 == 0 {
        head
    } else {
        head + seq![0x3au8] + two_digits((size % 60) as nat)
    }
}

/// A point in time as a commit states it: the seconds since the epoch, a
/// space, and the offset from UTC.
pub open spec fn timestamp_text(seconds: int, offset: int) -> Seq<u8> {
    signed_decimal(seconds) + seq![0x20u8] + offset_text(offset)
}

/// Appends a number in at least two digits.
fn push_two_digits(out: &mut Vec<u8>, n: u64)
    ensures
        final(out)@ == old(out)@ + two_digits(n as nat),
{
    if n < 10 {
        out.push(0x30);
    }
    push_decimal(out, n);
    assert(out@ =~= old(out)@ + two_digits(n as nat));
}

/// Appends the decimal numeral of an integer.
fn push_signed(out: &mut Vec<u8>, n: i64)
    ensures
        final(out)@ == old(out)@ + signed_decimal(n as int),
{
    if n < 0 {
        out.push(0x2d);
        push_decimal(out, (-(n + 1)) as u64 + 1);
    } else {
        push_decimal(out, n as u64);
    }
    assert(out@ =~= old(out)@ + signed_decimal(n as int));
}

/// Appends an offset from UTC as text.
fn push_offset(out: &mut Vec<u8>, offset: i32)
    ensures
        final(out)@ == old(out)@ + offset_text(offset as int),
{
    let size: u64 = if offset < 0 {
        (-(offset as i64)) as u64
    } else {
        offset as u64
    };
    let mut text: Vec<u8> = Vec::new();
    if offset < 0 {
        text.push(0x2d);
    } else {
        text.push(0x2b);
    }
    push_two_digits(&mut text, size / 3600);
    text.push(0x3a);
    push_two_digits(&mut text, size / 60 % 60);
    if size % 60 != 0 {
        text.push(0x3a);
        push_two_digits(&mut text, size % 60);
    }
    assert(text@ =~= offset_text(offset as int));
    push_all(out, text.as_slice());
}

/// Writes a point in time as a commit states it.
pub fn format_timestamp(seconds: i64, offset: i32) -> (out: Vec<u8>)
    ensures
        out@ == timestamp_text(seconds as int, offset as int),
{
    let mut out: Vec<u8> = Vec::new();
    push_signed(&mut out, seconds);
    out.push(0x20);
    push_offset(&mut out, offset);
    assert(out@ =~= timestamp_text(seconds as int, offset as int));
    out
}

/// The line of a header that names a person at a time.
pub open spec fn person_line(role: Seq<u8>, name: Seq<u8>, email: Seq<u8>, stamp: Seq<u8>) -> Seq<
    u8,
> {
    role + seq![0x20u8] + name + " <".spec_bytes() + email + "> ".spec_bytes() + stamp + seq![
        0x0au8,
    ]
}

/// The content of a commit: the tree, the parent if there is one, author
/// and committer, an empty line, and the message with a line feed.
pub open spec fn commit_content(
    args: CommitArgsView,
    name: Seq<u8>,
    email: Seq<u8>,
    stamp: Seq<u8>,
) -> Seq<u8> {
    "tree ".spec_bytes() + args.tree + seq![0x0au8] + (match args.parent {
        Some(parent) => "parent ".spec_bytes() + parent + seq![0x0au8],
        None => Seq::empty(),
    }) + person_line("author".spec_bytes(), name, email, stamp) + person_line(
        "committer".spec_bytes(),
        name,
        email,
        stamp,
    ) + seq![0x0au8] + args.message + seq![0x0au8]
}

/// Appends the line of a header that names a person at a time.
fn push_person(out: &mut Vec<u8>, role: &str, name: &[u8], email: &[u8], stamp: &[u8])
    ensures
        final(out)@ == old(out)@ + person_line(role.spec_bytes(), name@, email@, stamp@),
{
    push_all(out, role.as_bytes());
    out.push(0x20);
    push_all(out, name);
    push_all(out, " <".as_bytes());
    push_all(out, email);
    push_all(out, "> ".as_bytes());
    push_all(out, stamp);
    out.push(0x0a);
    assert(out@ =~= old(out)@ + person_line(role.spec_bytes(), name@, email@, stamp@));
}

/// Builds the content of a commit by one person, who is author and
/// committer, at the time that `stamp` states.
pub fn build_commit(args: &CommitArgs, name: &[u8], email: &[u8], stamp: &[u8]) -> (out: Vec<u8>)
    ensures
        out@ == commit_content(args@, name@, email@, stamp@),
{
    let mut out: Vec<u8> = Vec::new();
    push_all(&mut out, "tree ".as_bytes());
    push_all(&mut out, args.tree.as_slice());
    out.push(0x0a);
    match &args.parent {
        Some(parent) => {
            push_all(&mut out, "parent ".as_bytes());
            push_all(&mut out, parent.as_slice());
            out.push(0x0a);
        },
        None => {},
    }
    let ghost head = out@;
    assert(head =~= "tree ".spec_bytes() + args@.tree + seq![0x0au8] + (match args@.parent {
        Some(parent) => "parent ".spec_bytes() + parent + seq![0x0au8],
        None => Seq::empty(),
    }));
    push_person(&mut out, "author", name, email, stamp);
    push_person(&mut out, "committer", name, email, stamp);
    out.push(0x0a);
    push_all(&mut out, args.message.as_slice());
    out.push(0x0a);
    assert(out@ =~= commit_content(args@, name@, email@, stamp@));
    out
}

/// The store after a commit was written at a given time, and what the
/// writing returns.
pub open spec fn commit_tree_spec_at(
    files: Map<Seq<u8>, Seq<u8>>,
    args: Seq<Seq<u8>>,
    name: Seq<u8>,
    email: Seq<u8>,
    seconds: int,
    offset: int,
) -> (Map<Seq<u8>, Seq<u8>>, Result<Seq<u8>, Error>) {
    match parse_args_spec(args) {
        Err(e) => (files, Err(e)),
        Ok(found) => {
            let raw = canonical(
                ObjectKind::Commit,
                commit_content(found, name, email, timestamp_text(seconds, offset)),
            );
            (put_spec(files, raw), put_result(files, raw))
        },
    }
}

/// Writes a commit by one person at a given time into the store and returns
/// its identity.
///
/// Fails with `InvalidArguments` as [`parse_args`] does, and as
/// [`ObjectStore::put`] does; the store is then unchanged.
pub fn commit_tree_at(
    store: &mut ObjectStore,
    args: &Vec<Vec<u8>>,
    name: &[u8],
    email: &[u8],
    seconds: i64,
    offset: i32,
) -> (r: Result<Vec<u8>, Error>)
    requires
        old(store).wf(),
    ensures
        final(store).wf(),
        (final(store)@, bytes_result(r)) == commit_tree_spec_at(
            old(store)@,
            crate::text::words_view(args@),
            name@,
            email@,
            seconds as int,
            offset as int,
        ),
        old(store)@.submap_of(final(store)@),
{
    let found = match parse_args(args) {
        Ok(found) => found,
        Err(e) => { return Err(e); },
    };
    let stamp = format_timestamp(seconds, offset);
    let content = build_commit(&found, name, email, stamp.as_slice());
    store.put_raw(ObjectKind::Commit, content.as_slice())
}

/// Writes a commit by one person into the store, at the time and with the
/// offset from UTC that the machine's clock gives, and returns its
/// identity.
///
/// The outcome is that of [`commit_tree_at`] for some point in time.
pub fn commit_tree(store: &mut ObjectStore, args: &Vec<Vec<u8>>, name: &[u8], email: &[u8]) -> (r:
    Result<Vec<u8>, Error>)
    requires
        old(store).wf(),
    ensures
        final(store).wf(),
        old(store)@.submap_of(final(store)@),
        exists|seconds: int, offset: int|
            (final(store)@, bytes_result(r)) == #[trigger] commit_tree_spec_at(
                old(store)@,
                crate::text::words_view(args@),
                name@,
                email@,
                seconds,
                offset,
            ),
{
    let (seconds, offset) = local_now();
    commit_tree_at(store, args, name, email, seconds, offset)
}

} // verus!
