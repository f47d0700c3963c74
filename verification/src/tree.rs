//! What a scan amounts to on a whole directory tree.
//!
//! A tree is described by what reading each of its directories gives. The
//! records of a tree are defined directory by directory, and a scan that is
//! answered from the tree is shown to return exactly them.

use crate::disk_utils::{file_record, EntryKind, FileInfoView};
use crate::scan::{advance, resume_step, DirEntry, OutcomeView, Step, WarningView};
use vstd::prelude::*;

verus! {

/// What reading a directory gives, and below each entry that is a directory
/// what reading that one gives.
pub enum Listing {
    Entries(Seq<Node>),
    PermissionDenied,
    Failed(Seq<char>),
}

/// A directory entry, with the listing of the directory where it is one.
pub struct Node {
    pub entry: DirEntry,
    pub below: Listing,
}

/// The files found in a part of a tree and the warnings raised there, up to
/// the failure that ended the scan if there was one.
#[verifier::ext_equal]
pub struct Scanned {
    pub files: Seq<FileInfoView>,
    pub warnings: Seq<WarningView>,
    pub failure: Option<(Seq<char>, Seq<char>)>,
}

impl Scanned {
    /// Nothing found and nothing said.
    pub open spec fn nothing() -> Scanned {
        Scanned { files: Seq::empty(), warnings: Seq::empty(), failure: None }
    }

    /// This part of the tree and then `next`: what was found in both, unless
    /// the scan failed in this part already.
    pub open spec fn followed_by(self, next: Scanned) -> Scanned {
        if self.failure.is_some() {
            self
        } else {
            Scanned {
                files: self.files + next.files,
                warnings: self.warnings + next.warnings,
                failure: next.failure,
            }
        }
    }

    /// How a scan ends that had found `files` and raised `warnings` before it
    /// came to this part of the tree, the last part.
    pub open spec fn after(self, files: Seq<FileInfoView>, warnings: Seq<WarningView>) -> Step {
        match self.failure {
            Some((path, message)) => Step::Failed {
                path,
                message,
                warnings: warnings + self.warnings,
            },
            None => Step::Done { files: files + self.files, warnings: warnings + self.warnings },
        }
    }
}

/// What the scan of the directory at `path` finds, where reading it gives
/// `listing`: nothing but a warning where it may not be opened, a failure
/// where it cannot be read, and else what its entries hold.
pub open spec fn scan_listing(path: Seq<char>, listing: Listing) -> Scanned
    decreases listing, 1int,
{
    match listing {
        Listing::PermissionDenied => Scanned {
            files: Seq::empty(),
            warnings: seq![WarningView::PermissionDenied(path)],
            failure: None,
        },
        Listing::Failed(message) => Scanned {
            files: Seq::empty(),
            warnings: Seq::empty(),
            failure: Some((path, message)),
        },
        Listing::Entries(nodes) => scan_nodes(nodes),
    }
}

/// What the scan of one entry finds: the record of a file, the files of a
/// directory, a warning for what is neither, and a failure where the entry
/// could not be read or its metadata is unknown.
pub open spec fn scan_node(node: Node) -> Scanned
    decreases node, 0int,
{
    match node.entry {
        DirEntry::Unreadable { directory, message } => Scanned {
            files: Seq::empty(),
            warnings: Seq::empty(),
            failure: Some((directory@, message@)),
        },
        DirEntry::Unknown { path, message } => Scanned {
            files: Seq::empty(),
            warnings: Seq::empty(),
            failure: Some((path@, message@)),
        },
        DirEntry::Found { path, name_is_text, metadata } => match metadata.kind {
            EntryKind::Directory => scan_listing(path@, node.below),
            EntryKind::File => Scanned {
                files: seq![file_record(metadata, path@, name_is_text)],
                warnings: Seq::empty(),
                failure: None,
            },
            EntryKind::Other => Scanned {
                files: Seq::empty(),
                warnings: seq![WarningView::Skipped(path@)],
                failure: None,
            },
        },
    }
}

/// What the scan of some entries finds: what each holds, one after the other.
pub open spec fn scan_nodes(nodes: Seq<Node>) -> Scanned
    decreases nodes, 0int,
{
    if nodes.len() == 0 {
        Scanned::nothing()
    } else {
        scan_nodes(nodes.drop_last()).followed_by(scan_node(nodes.last()))
    }
}

/// The entries themselves, without what lies below them.
pub open spec fn entries_of(nodes: Seq<Node>) -> Seq<DirEntry> {
    Seq::new(nodes.len(), |i: int| nodes[i].entry)
}

/// What reading a directory with the given listing gives.
pub open spec fn shown(listing: Listing) -> OutcomeView {
    match listing {
        Listing::Entries(nodes) => OutcomeView::Entries(entries_of(nodes)),
        Listing::PermissionDenied => OutcomeView::PermissionDenied,
        Listing::Failed(message) => OutcomeView::Failed(message),
    }
}

/// The number of entries in a listing and below them, and one for the listing.
pub open spec fn listing_weight(listing: Listing) -> nat
    decreases listing, 1int,
{
    match listing {
        Listing::Entries(nodes) => 1 + forest_weight(nodes),
        _ => 0,
    }
}

/// One for the entry, and the weight of what lies below it.
pub open spec fn node_weight(node: Node) -> nat
    decreases node, 0int,
{
    1 + listing_weight(node.below)
}

/// The weights of the entries together.
pub open spec fn forest_weight(nodes: Seq<Node>) -> nat
    decreases nodes, 0int,
{
    if nodes.len() == 0 {
        0
    } else {
        forest_weight(nodes.drop_last()) + node_weight(nodes.last())
    }
}

/// The weight of entries laid end to end is the sum of their weights.
pub proof fn lemma_forest_weight_concat(a: Seq<Node>, b: Seq<Node>)
    ensures
        forest_weight(a + b) == forest_weight(a) + forest_weight(b),
    decreases b.len(),
{
    if b.len() == 0 {
        assert(a + b =~= a);
    } else {
        lemma_forest_weight_concat(a, b.drop_last());
        assert((a + b).drop_last() =~= a + b.drop_last());
        assert((a + b).last() == b.last());
    }
}

/// The weight of some entries is that of one of them, of those before it and
/// of those after it.
pub proof fn lemma_forest_weight_split(nodes: Seq<Node>, at: int)
    requires
        0 <= at < nodes.len(),
    ensures
        forest_weight(nodes) == forest_weight(nodes.take(at)) + node_weight(nodes[at])
            + forest_weight(nodes.skip(at + 1)),
{
    let one = seq![nodes[at]];
    assert(nodes =~= (nodes.take(at) + one) + nodes.skip(at + 1));
    lemma_forest_weight_concat(nodes.take(at) + one, nodes.skip(at + 1));
    lemma_forest_weight_concat(nodes.take(at), one);
    assert(one.drop_last() =~= Seq::<Node>::empty());
    assert(one.last() == nodes[at]);
    assert(forest_weight(one.drop_last()) == 0);
    assert(forest_weight(one) == node_weight(nodes[at]));
}

/// What entries laid end to end hold is what the first hold, followed by what
/// the others hold.
pub proof fn lemma_scan_nodes_concat(a: Seq<Node>, b: Seq<Node>)
    ensures
        scan_nodes(a + b) == scan_nodes(a).followed_by(scan_nodes(b)),
    decreases b.len(),
{
    if b.len() == 0 {
        assert(a + b =~= a);
        assert(scan_nodes(a).followed_by(scan_nodes(b)) =~= scan_nodes(a));
    } else {
        lemma_scan_nodes_concat(a, b.drop_last());
        assert((a + b).drop_last() =~= a + b.drop_last());
        assert((a + b).last() == b.last());
        let x = scan_nodes(a);
        let y = scan_nodes(b.drop_last());
        let z = scan_node(b.last());
        assert(x.followed_by(y).followed_by(z) =~= x.followed_by(y.followed_by(z)));
    }
}

/// What some entries hold is what the first holds, followed by what the
/// others hold.
pub proof fn lemma_scan_nodes_first(nodes: Seq<Node>)
    requires
        nodes.len() > 0,
    ensures
        scan_nodes(nodes) == scan_node(nodes[0]).followed_by(scan_nodes(nodes.drop_first())),
{
    let one = seq![nodes[0]];
    assert(nodes =~= one + nodes.drop_first());
    lemma_scan_nodes_concat(one, nodes.drop_first());
    assert(one.drop_last() =~= Seq::<Node>::empty());
    assert(one.last() == nodes[0]);
    assert(scan_nodes(one.drop_last()) == Scanned::nothing());
    assert(Scanned::nothing().followed_by(scan_node(nodes[0])) =~= scan_node(nodes[0]));
    assert(scan_nodes(one) =~= scan_node(nodes[0]));
}

/// Where a visit of some entries stops, and what it has found by then: what
/// the entries hold that it has passed.
pub proof fn lemma_advance(
    nodes: Seq<Node>,
    files: Seq<FileInfoView>,
    warnings: Seq<WarningView>,
)
    ensures
        match advance(entries_of(nodes), files, warnings) {
            Step::Read { directory, pending, files: found, warnings: said } => {
                let at = nodes.len() - pending.len() - 1;
                &&& 0 <= at < nodes.len()
                &&& pending == entries_of(nodes.skip(at + 1))
                &&& nodes[at].entry matches DirEntry::Found { path, metadata, .. }
                &&& metadata.kind == EntryKind::Directory
                &&& path@ == directory
                &&& scan_nodes(nodes.take(at)).failure.is_none()
                &&& found == files + scan_nodes(nodes.take(at)).files
                &&& said == warnings + scan_nodes(nodes.take(at)).warnings
            },
            Step::Done { files: found, warnings: said } => {
                &&& scan_nodes(nodes).failure.is_none()
                &&& found == files + scan_nodes(nodes).files
                &&& said == warnings + scan_nodes(nodes).warnings
            },
            Step::Failed { path, message, warnings: said } => {
                &&& scan_nodes(nodes).failure == Some((path, message))
                &&& said == warnings + scan_nodes(nodes).warnings
            },
        },
    decreases nodes.len(),
{
    let entries = entries_of(nodes);
    if nodes.len() == 0 {
        assert(files + scan_nodes(nodes).files =~= files);
        assert(warnings + scan_nodes(nodes).warnings =~= warnings);
    } else {
        let rest = nodes.drop_first();
        let first = scan_node(nodes[0]);
        assert(entries.drop_first() =~= entries_of(rest));
        assert(entries[0] == nodes[0].entry);
        lemma_scan_nodes_first(nodes);
        match nodes[0].entry {
            DirEntry::Unreadable { directory, message } => {
                assert(warnings + scan_nodes(nodes).warnings =~= warnings);
            },
            DirEntry::Unknown { path, message } => {
                assert(warnings + scan_nodes(nodes).warnings =~= warnings);
            },
            DirEntry::Found { path, name_is_text, metadata } => match metadata.kind {
                EntryKind::Directory => {
                    assert(nodes.take(0) =~= Seq::<Node>::empty());
                    assert(nodes.skip(1) =~= rest);
                    assert(files + scan_nodes(nodes.take(0)).files =~= files);
                    assert(warnings + scan_nodes(nodes.take(0)).warnings =~= warnings);
                },
                EntryKind::File => {
                    let found = files.push(file_record(metadata, path@, name_is_text));
                    assert(found =~= files + first.files);
                    assert(warnings =~= warnings + first.warnings);
                    lemma_advance(rest, found, warnings);
                    lemma_advance_after(nodes, files, warnings, found, warnings);
                },
                EntryKind::Other => {
                    let said = warnings.push(WarningView::Skipped(path@));
                    assert(files =~= files + first.files);
                    assert(said =~= warnings + first.warnings);
                    lemma_advance(rest, files, said);
                    lemma_advance_after(nodes, files, warnings, files, said);
                },
            },
        }
    }
}

/// What `lemma_advance` says of a visit that has passed the first entry, put
/// in terms of all the entries.
proof fn lemma_advance_after(
    nodes: Seq<Node>,
    files: Seq<FileInfoView>,
    warnings: Seq<WarningView>,
    found: Seq<FileInfoView>,
    said: Seq<WarningView>,
)
    requires
        nodes.len() > 0,
        scan_node(nodes[0]).failure.is_none(),
        found == files + scan_node(nodes[0]).files,
        said == warnings + scan_node(nodes[0]).warnings,
        scan_nodes(nodes) == scan_node(nodes[0]).followed_by(scan_nodes(nodes.drop_first())),
        match advance(entries_of(nodes.drop_first()), found, said) {
            Step::Read { directory, pending, files: f, warnings: w } => {
                let rest = nodes.drop_first();
                let at = rest.len() - pending.len() - 1;
                &&& 0 <= at < rest.len()
                &&& pending == entries_of(rest.skip(at + 1))
                &&& rest[at].entry matches DirEntry::Found { path, metadata, .. }
                &&& metadata.kind == EntryKind::Directory
                &&& path@ == directory
                &&& scan_nodes(rest.take(at)).failure.is_none()
                &&& f == found + scan_nodes(rest.take(at)).files
                &&& w == said + scan_nodes(rest.take(at)).warnings
            },
            Step::Done { files: f, warnings: w } => {
                &&& scan_nodes(nodes.drop_first()).failure.is_none()
                &&& f == found + scan_nodes(nodes.drop_first()).files
                &&& w == said + scan_nodes(nodes.drop_first()).warnings
            },
            Step::Failed { path, message, warnings: w } => {
                &&& scan_nodes(nodes.drop_first()).failure == Some((path, message))
                &&& w == said + scan_nodes(nodes.drop_first()).warnings
            },
        },
    ensures
        match advance(entries_of(nodes.drop_first()), found, said) {
            Step::Read { directory, pending, files: f, warnings: w } => {
                let at = nodes.len() - pending.len() - 1;
                &&& 0 <= at < nodes.len()
                &&& pending == entries_of(nodes.skip(at + 1))
                &&& nodes[at].entry matches DirEntry::Found { path, metadata, .. }
                &&& metadata.kind == EntryKind::Directory
                &&& path@ == directory
                &&& scan_nodes(nodes.take(at)).failure.is_none()
                &&& f == files + scan_nodes(nodes.take(at)).files
                &&& w == warnings + scan_nodes(nodes.take(at)).warnings
            },
            Step::Done { files: f, warnings: w } => {
                &&& scan_nodes(nodes).failure.is_none()
                &&& f == files + scan_nodes(nodes).files
                &&& w == warnings + scan_nodes(nodes).warnings
            },
            Step::Failed { path, message, warnings: w } => {
                &&& scan_nodes(nodes).failure == Some((path, message))
                &&& w == warnings + scan_nodes(nodes).warnings
            },
        },
{
    let rest = nodes.drop_first();
    let first = scan_node(nodes[0]);
    match advance(entries_of(rest), found, said) {
        Step::Read { directory, pending, files: f, warnings: w } => {
            let at = nodes.len() - pending.len() - 1;
            let before = rest.take(at - 1);
            assert(rest.skip(at) =~= nodes.skip(at + 1));
            assert(rest[at - 1] == nodes[at]);
            assert(nodes.take(at).drop_first() =~= before);
            assert(nodes.take(at)[0] == nodes[0]);
            lemma_scan_nodes_first(nodes.take(at));
            assert(f =~= files + scan_nodes(nodes.take(at)).files);
            assert(w =~= warnings + scan_nodes(nodes.take(at)).warnings);
        },
        Step::Done { files: f, warnings: w } => {
            assert(f =~= files + scan_nodes(nodes).files);
            assert(w =~= warnings + scan_nodes(nodes).warnings);
        },
        Step::Failed { path, message, warnings: w } => {
            assert(w =~= warnings + scan_nodes(nodes).warnings);
        },
    }
}

/// The entries that a scan has before it once it has read a directory with
/// the listing `below`: those of the directory, then those that were pending.
pub open spec fn ahead(below: Listing, pending: Seq<Node>) -> Seq<Node> {
    match below {
        Listing::Entries(children) => children + pending,
        _ => pending,
    }
}

/// What the scan finds in the directory itself before it visits any entry.
pub open spec fn opening(directory: Seq<char>, below: Listing) -> Scanned {
    match below {
        Listing::Entries(children) => Scanned::nothing(),
        _ => scan_listing(directory, below),
    }
}

/// Reading a directory and visiting what is ahead stops, if at a directory,
/// at one of the entries ahead, and what then lies below and ahead weighs
/// less than before.
pub proof fn lemma_next_read(
    directory: Seq<char>,
    below: Listing,
    pending: Seq<Node>,
    files: Seq<FileInfoView>,
)
    ensures
        resume_step(directory, entries_of(pending), files, shown(below)) matches Step::Read {
            pending: rest,
            ..
        } ==> {
            let todo = ahead(below, pending);
            let at = todo.len() - rest.len() - 1;
            &&& 0 <= at < todo.len()
            &&& listing_weight(todo[at].below) + forest_weight(todo.skip(at + 1))
                < listing_weight(below) + forest_weight(pending)
        },
{
    let todo = ahead(below, pending);
    match below {
        Listing::Failed(message) => {},
        Listing::PermissionDenied => {
            let said = seq![WarningView::PermissionDenied(directory)];
            lemma_advance(todo, files, said);
            match advance(entries_of(todo), files, said) {
                Step::Read { pending: rest, .. } => {
                    lemma_forest_weight_split(todo, todo.len() - rest.len() - 1);
                },
                _ => {},
            }
        },
        Listing::Entries(children) => {
            assert(entries_of(children) + entries_of(pending) =~= entries_of(todo));
            lemma_advance(todo, files, Seq::empty());
            lemma_forest_weight_concat(children, pending);
            match advance(entries_of(todo), files, Seq::empty()) {
                Step::Read { pending: rest, .. } => {
                    lemma_forest_weight_split(todo, todo.len() - rest.len() - 1);
                },
                _ => {},
            }
        },
    }
}

/// How a scan ends that waits for `directory` to be read, with `pending` to
/// visit afterwards, where every directory it asks for is read as the tree
/// says: `below` for `directory`, and for each later one what lies below its
/// entry. `warnings` are those raised before; the result holds them all.
pub open spec fn run(
    directory: Seq<char>,
    below: Listing,
    pending: Seq<Node>,
    files: Seq<FileInfoView>,
    warnings: Seq<WarningView>,
) -> Step
    decreases listing_weight(below) + forest_weight(pending),
{
    match resume_step(directory, entries_of(pending), files, shown(below)) {
        Step::Read { directory: next, pending: rest, files: found, warnings: said } => {
            let todo = ahead(below, pending);
            let at = todo.len() - rest.len() - 1;
            proof {
                lemma_next_read(directory, below, pending, files);
            }
            run(next, todo[at].below, todo.skip(at + 1), found, warnings + said)
        },
        Step::Done { files: found, warnings: said } => Step::Done {
            files: found,
            warnings: warnings + said,
        },
        Step::Failed { path, message, warnings: said } => Step::Failed {
            path,
            message,
            warnings: warnings + said,
        },
    }
}

/// A part of the tree in which the scan did not fail adds its files and its
/// warnings to those from before.
pub proof fn lemma_after_followed_by(
    first: Scanned,
    next: Scanned,
    files: Seq<FileInfoView>,
    warnings: Seq<WarningView>,
)
    requires
        first.failure.is_none(),
    ensures
        first.followed_by(next).after(files, warnings) == next.after(
            files + first.files,
            warnings + first.warnings,
        ),
{
    let joined = first.followed_by(next);
    assert(files + joined.files =~= (files + first.files) + next.files);
    assert(warnings + joined.warnings =~= (warnings + first.warnings) + next.warnings);
}

/// A scan that is answered from a tree ends with what the tree holds: the
/// files of the directory it waits for and of the entries that are pending,
/// behind the files it had, or the first failure among them.
pub proof fn lemma_run_scans(
    directory: Seq<char>,
    below: Listing,
    pending: Seq<Node>,
    files: Seq<FileInfoView>,
    warnings: Seq<WarningView>,
)
    ensures
        run(directory, below, pending, files, warnings) == scan_listing(
            directory,
            below,
        ).followed_by(scan_nodes(pending)).after(files, warnings),
    decreases listing_weight(below) + forest_weight(pending),
{
    let whole = scan_listing(directory, below).followed_by(scan_nodes(pending));
    match below {
        Listing::Failed(message) => {
            assert(warnings + Seq::<WarningView>::empty() =~= warnings + whole.warnings);
        },
        _ => {
            let todo = ahead(below, pending);
            let open = opening(directory, below);
            let held = scan_nodes(todo);
            assert(whole =~= open.followed_by(held)) by {
                match below {
                    Listing::Entries(children) => {
                        lemma_scan_nodes_concat(children, pending);
                        assert(Scanned::nothing().followed_by(held) =~= held);
                    },
                    _ => {},
                }
            }
            assert(entries_of(todo) =~= match below {
                Listing::Entries(children) => entries_of(children) + entries_of(pending),
                _ => entries_of(pending),
            });
            assert(files + open.files =~= files);
            lemma_after_followed_by(open, held, files, warnings);
            lemma_advance(todo, files, open.warnings);
            lemma_next_read(directory, below, pending, files);
            match advance(entries_of(todo), files, open.warnings) {
                Step::Read { directory: next, pending: rest, files: found, warnings: said } => {
                    let at = todo.len() - rest.len() - 1;
                    let passed = scan_nodes(todo.take(at));
                    let beyond = scan_nodes(todo.skip(at + 1));
                    let inside = scan_listing(next, todo[at].below);
                    lemma_run_scans(
                        next,
                        todo[at].below,
                        todo.skip(at + 1),
                        found,
                        warnings + said,
                    );
                    assert(todo =~= todo.take(at) + todo.skip(at));
                    lemma_scan_nodes_concat(todo.take(at), todo.skip(at));
                    lemma_scan_nodes_first(todo.skip(at));
                    assert(todo.skip(at).drop_first() =~= todo.skip(at + 1));
                    assert(scan_node(todo[at]) == inside);
                    assert(held == passed.followed_by(inside.followed_by(beyond)));
                    lemma_after_followed_by(
                        passed,
                        inside.followed_by(beyond),
                        files,
                        warnings + open.warnings,
                    );
                    assert(warnings + said =~= (warnings + open.warnings) + passed.warnings);
                },
                Step::Done { files: found, warnings: said } => {
                    assert(warnings + said =~= (warnings + open.warnings) + held.warnings);
                },
                Step::Failed { path, message, warnings: said } => {
                    assert(warnings + said =~= (warnings + open.warnings) + held.warnings);
                },
            }
        },
    }
}

/// How the scan of a whole tree ends: the scan begins at the root, and every
/// directory it asks for is read as the tree says.
pub open spec fn scan_tree(root: Seq<char>, tree: Listing) -> Step {
    run(root, tree, Seq::empty(), Seq::empty(), Seq::empty())
}

/// The scan of a tree returns the files that the tree holds, directory by
/// directory with the files of each subdirectory where its entry stands, and
/// the warnings on the way; or it fails as the first directory or entry fails
/// that cannot be read.
pub proof fn lemma_scan_tree(root: Seq<char>, tree: Listing)
    ensures
        scan_tree(root, tree) == match scan_listing(root, tree).failure {
            Some((path, message)) => Step::Failed {
                path,
                message,
                warnings: scan_listing(root, tree).warnings,
            },
            None => Step::Done {
                files: scan_listing(root, tree).files,
                warnings: scan_listing(root, tree).warnings,
            },
        },
{
    let none = Seq::<Node>::empty();
    let found = scan_listing(root, tree);
    lemma_run_scans(root, tree, none, Seq::empty(), Seq::empty());
    assert(found.followed_by(scan_nodes(none)) =~= found);
    assert(Seq::<FileInfoView>::empty() + found.files =~= found.files);
    assert(Seq::<WarningView>::empty() + found.warnings =~= found.warnings);
}

} // verus!
