//! Planning a working tree: which directories to make and which files to
//! write for the tree of a commit.
//!
//! The plan is made from the store alone. Whoever carries it out makes each
//! directory, writes each file, and sets the executable bit where the plan
//! says so.

use crate::bytes::{bytes_equal, push_all};
use crate::codec::{hex_encode, hex_text};
use crate::commit::{commit_tree_spec, parse_commit_tree};
use crate::error::Error;
use crate::object::{get_content_spec, get_spec, ObjectKind, ObjectStore};
use crate::tree::{parse_tree_content, tree_entries, triples_view};
use vstd::prelude::*;
use vstd::string::StringSliceAdditionalSpecFns;

verus! {

/// One step of a plan.
#[derive(Debug, PartialEq, Eq)]
pub enum CheckoutStep {
    /// Make the directory at `path`, and those above it.
    MakeDir { path: Vec<u8> },
    /// Write `content` to the file at `path`.
    WriteFile { path: Vec<u8>, content: Vec<u8>, executable: bool },
}

/// The mathematical form of [`CheckoutStep`].
pub enum StepView {
    MakeDir { path: Seq<u8> },
    WriteFile { path: Seq<u8>, content: Seq<u8>, executable: bool },
}

impl View for CheckoutStep {
    type V = StepView;

    open spec fn view(&self) -> StepView {
        match self {
            CheckoutStep::MakeDir { path } => StepView::MakeDir { path: path@ },
            CheckoutStep::WriteFile { path, content, executable } => StepView::WriteFile {
                path: path@,
                content: content@,
                executable: *executable,
            },
        }
    }
}

/// The mathematical form of a plan.
pub open spec fn steps_view(steps: Seq<CheckoutStep>) -> Seq<StepView> {
    Seq::new(steps.len(), |i: int| steps[i]@)
}

/// The mode of a directory.
pub open spec fn dir_mode() -> Seq<u8> {
    "40000".spec_bytes()
}

/// The mode of an executable file.
pub open spec fn exec_mode() -> Seq<u8> {
    "100755".spec_bytes()
}

/// The path of an entry named `name` below `base`: the two with a slash
/// between them, or the name alone at the top.
pub open spec fn join_path(base: Seq<u8>, name: Seq<u8>) -> Seq<u8> {
    if base.len() == 0 {
        name
    } else {
        base + seq![0x2fu8] + name
    }
}

/// The plan for the tree with identity `id` below the path `base`, behind
/// the steps in `done`. `depth` bounds how many trees may be nested.
pub open spec fn plan_tree(
    files: Map<Seq<u8>, Seq<u8>>,
    id: Seq<u8>,
    base: Seq<u8>,
    depth: nat,
    done: Seq<StepView>,
) -> Result<Seq<StepView>, Error>
    decreases depth, 0nat,
{
    if depth == 0 {
        Err(Error::TreeTooDeep)
    } else {
        match get_content_spec(files, id) {
            Err(e) => Err(e),
            Ok((kind, content)) => if kind != ObjectKind::Tree {
                Err(Error::MalformedObject)
            } else {
                match tree_entries(content) {
                    Err(e) => Err(e),
                    Ok(entries) => plan_entries(files, entries, 0, base, (depth - 1) as nat, done),
                }
            },
        }
    }
}

/// The plan for the entries of a tree from the one at `i` on: a directory
/// is made and its tree planned below it; anything else is a file with the
/// content of the object that the entry names.
pub open spec fn plan_entries(
    files: Map<Seq<u8>, Seq<u8>>,
    entries: Seq<(Seq<u8>, Seq<u8>, Seq<u8>)>,
    i: int,
    base: Seq<u8>,
    depth: nat,
    done: Seq<StepView>,
) -> Result<Seq<StepView>, Error>
    decreases depth, entries.len() - i,
{
    if i < 0 || i >= entries.len() {
        Ok(done)
    } else {
        let (mode, name, raw) = entries[i];
        let path = join_path(base, name);
        let id = hex_text(raw);
        if mode == dir_mode() {
            match plan_tree(files, id, path, depth, done.push(StepView::MakeDir { path })) {
                Err(e) => Err(e),
                Ok(more) => plan_entries(files, entries, i + 1, base, depth, more),
            }
        } else {
            match get_content_spec(files, id) {
                Err(e) => Err(e),
                Ok((_, content)) => plan_entries(
                    files,
                    entries,
                    i + 1,
                    base,
                    depth,
                    done.push(
                        StepView::WriteFile { path, content, executable: mode == exec_mode() },
                    ),
                ),
            }
        }
    }
}

/// Builds the path of an entry below `base`.
fn make_path(base: &[u8], name: &[u8]) -> (path: Vec<u8>)
    ensures
        path@ == join_path(base@, name@),
{
    let mut path: Vec<u8> = Vec::new();
    if base.len() > 0 {
        push_all(&mut path, base);
        path.push(0x2f);
    }
    push_all(&mut path, name);
    assert(path@ =~= join_path(base@, name@));
    path
}

/// Plans the tree with identity `tree_sha` below the path `base_path` and
/// adds the steps to `steps`. At most `depth` trees may be nested.
///
/// Fails with `TreeTooDeep` where the trees are nested deeper, with
/// `MalformedObject` where `tree_sha` names no tree or a tree cannot be
/// read, and as [`ObjectStore::get_content`] does for every object that the
/// tree reaches.
pub fn checkout_tree(
    store: &ObjectStore,
    tree_sha: &[u8],
    base_path: &[u8],
    depth: usize,
    steps: &mut Vec<CheckoutStep>,
) -> (r: Result<(), Error>)
    requires
        store.wf(),
    ensures
        match r {
            Ok(_) => plan_tree(
                store@,
                tree_sha@,
                base_path@,
                depth as nat,
                steps_view(old(steps)@),
            ) == Ok::<Seq<StepView>, Error>(steps_view(final(steps)@)),
            Err(e) => plan_tree(
                store@,
                tree_sha@,
                base_path@,
                depth as nat,
                steps_view(old(steps)@),
            ) == Err::<Seq<StepView>, Error>(e),
        },
    decreases depth,
{
    if depth == 0 {
        return Err(Error::TreeTooDeep);
    }
    let content = match store.get_content(tree_sha) {
        Ok((kind, content)) => match kind {
            ObjectKind::Tree => content,
            _ => { return Err(Error::MalformedObject); },
        },
        Err(e) => { return Err(e); },
    };
    let entries = match parse_tree_content(content.as_slice()) {
        Ok(entries) => entries,
        Err(e) => { return Err(e); },
    };
    let ghost listed = triples_view(entries@);
    let dir = "40000".as_bytes();
    let exec = "100755".as_bytes();
    let mut i: usize = 0;
    while i < entries.len()
        invariant
            i <= entries@.len(),
            store.wf(),
            depth > 0,
            listed == triples_view(entries@),
            dir@ == dir_mode(),
            exec@ == exec_mode(),
            plan_tree(store@, tree_sha@, base_path@, depth as nat, steps_view(old(steps)@))
                == plan_entries(
                store@,
                listed,
                0,
                base_path@,
                (depth - 1) as nat,
                steps_view(old(steps)@),
            ),
            plan_entries(
                store@,
                listed,
                i as int,
                base_path@,
                (depth - 1) as nat,
                steps_view(steps@),
            ) == plan_entries(
                store@,
                listed,
                0,
                base_path@,
                (depth - 1) as nat,
                steps_view(old(steps)@),
            ),
        decreases entries@.len() - i,
    {
        assert(listed[i as int] == (
            entries@[i as int].0@,
            entries@[i as int].1@,
            entries@[i as int].2@,
        ));
        let path = make_path(base_path, entries[i].1.as_slice());
        let id = hex_encode(entries[i].2.as_slice());
        let ghost before = steps_view(steps@);
        if bytes_equal(entries[i].0.as_slice(), dir) {
            let below = path.clone();
            steps.push(CheckoutStep::MakeDir { path });
            assert(steps_view(steps@) =~= before.push(StepView::MakeDir { path: below@ }));
            match checkout_tree(store, id.as_slice(), below.as_slice(), depth - 1, steps) {
                Ok(_) => {},
                Err(e) => { return Err(e); },
            }
        } else {
            let content = match store.get_content(id.as_slice()) {
                Ok((_, content)) => content,
                Err(e) => { return Err(e); },
            };
            let executable = bytes_equal(entries[i].0.as_slice(), exec);
            let ghost step = StepView::WriteFile { path: path@, content: content@, executable };
            steps.push(CheckoutStep::WriteFile { path, content, executable });
            assert(steps_view(steps@) =~= before.push(step));
        }
        i = i + 1;
    }
    Ok(())
}

/// The plan for the commit with identity `head`: the plan for its tree at
/// the top, with as many nested trees as the store holds objects.
pub open spec fn plan_commit(files: Map<Seq<u8>, Seq<u8>>, head: Seq<u8>, depth: nat) -> Result<
    Seq<StepView>,
    Error,
> {
    match get_spec(files, head) {
        Err(e) => Err(e),
        Ok(raw) => match commit_tree_spec(raw) {
            Err(e) => Err(e),
            Ok(tree) => plan_tree(files, tree, Seq::empty(), depth, Seq::empty()),
        },
    }
}

/// Plans the working tree of the commit with identity `head_sha`: the
/// directories to make and the files to write, in the order of the trees.
///
/// Fails as [`ObjectStore::get`], [`parse_commit_tree`] and
/// [`checkout_tree`] do.
pub fn checkout_files(store: &ObjectStore, head_sha: &[u8]) -> (r: Result<Vec<CheckoutStep>, Error>)
    requires
        store.wf(),
    ensures
        match r {
            Ok(steps) => plan_commit(store@, head_sha@, store.listing().len()) == Ok::<
                Seq<StepView>,
                Error,
            >(steps_view(steps@)),
            Err(e) => plan_commit(store@, head_sha@, store.listing().len()) == Err::<
                Seq<StepView>,
                Error,
            >(e),
        },
{
    let raw = match store.get(head_sha) {
        Ok(raw) => raw,
        Err(e) => { return Err(e); },
    };
    let tree = match parse_commit_tree(raw.as_slice()) {
        Ok(tree) => tree,
        Err(e) => { return Err(e); },
    };
    let mut steps: Vec<CheckoutStep> = Vec::new();
    let top: Vec<u8> = Vec::new();
    assert(steps_view(steps@) =~= Seq::empty());
    match checkout_tree(store, tree.as_slice(), top.as_slice(), store.len(), &mut steps) {
        Ok(_) => Ok(steps),
        Err(e) => Err(e),
    }
}

} // verus!
