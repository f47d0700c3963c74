//! Walking a directory tree: which directories to read, and what the entries
//! read so far amount to.
//!
//! The walk itself reads nothing. It names the directory to read next, takes
//! what reading it gave, and goes through the entries in their order: a file
//! becomes a record, a directory is the next to read, with its files coming
//! where it stood among its siblings.

use crate::disk_utils::{
    create_file_info, file_record, EntryKind, EntryMetadata, FileInfo, FileInfoView,
};
use vstd::prelude::*;

verus! {

/// Why a scan was given up: what could not be read, and what the system said.
#[derive(Debug)]
pub struct ScanError {
    pub path: String,
    pub message: String,
}

/// One entry of a directory, as reading the directory gave it.
#[derive(Debug)]
pub enum DirEntry {
    /// An entry of the directory at `directory` could not be read.
    Unreadable { directory: String, message: String },
    /// The metadata of the entry at `path` could not be read.
    Unknown { path: String, message: String },
    /// The entry at `path` with its metadata. `path` is the path as text, and
    /// `name_is_text` tells whether its final component is text as the file
    /// system holds it.
    Found { path: String, name_is_text: bool, metadata: EntryMetadata },
}

/// What reading a directory gave.
#[derive(Debug)]
pub enum ReadOutcome {
    /// The entries of the directory, in the order in which they were read.
    Entries(Vec<DirEntry>),
    /// The directory may not be opened.
    PermissionDenied,
    /// The directory could not be read, for the reason given.
    Failed(String),
}

/// What reading a directory gave, with its texts as sequences of characters.
pub enum OutcomeView {
    Entries(Seq<DirEntry>),
    PermissionDenied,
    Failed(Seq<char>),
}

impl View for ReadOutcome {
    type V = OutcomeView;

    open spec fn view(&self) -> OutcomeView {
        match self {
            ReadOutcome::Entries(entries) => OutcomeView::Entries(entries@),
            ReadOutcome::PermissionDenied => OutcomeView::PermissionDenied,
            ReadOutcome::Failed(message) => OutcomeView::Failed(message@),
        }
    }
}

/// Something a scan passed over.
#[derive(Debug)]
pub enum ScanWarning {
    /// The directory at this path may not be opened; it counts as empty.
    PermissionDenied(String),
    /// The entry at this path is neither a file nor a directory.
    Skipped(String),
}

/// A warning with its path as a sequence of characters.
pub enum WarningView {
    PermissionDenied(Seq<char>),
    Skipped(Seq<char>),
}

impl View for ScanWarning {
    type V = WarningView;

    open spec fn view(&self) -> WarningView {
        match self {
            ScanWarning::PermissionDenied(path) => WarningView::PermissionDenied(path@),
            ScanWarning::Skipped(path) => WarningView::Skipped(path@),
        }
    }
}

/// The views of the records, in their order.
pub open spec fn record_views(files: Seq<FileInfo>) -> Seq<FileInfoView> {
    Seq::new(files.len(), |i: int| files[i]@)
}

/// The views of the warnings, in their order.
pub open spec fn warning_views(warnings: Seq<ScanWarning>) -> Seq<WarningView> {
    Seq::new(warnings.len(), |i: int| warnings[i]@)
}

/// Where a scan stands after a step.
pub enum Step {
    /// `directory` is to be read next; `pending` are the entries to visit
    /// after those of that directory.
    Read {
        directory: Seq<char>,
        pending: Seq<DirEntry>,
        files: Seq<FileInfoView>,
        warnings: Seq<WarningView>,
    },
    /// Every entry was visited.
    Done { files: Seq<FileInfoView>, warnings: Seq<WarningView> },
    /// The scan is given up.
    Failed { path: Seq<char>, message: Seq<char>, warnings: Seq<WarningView> },
}

/// Visits `entries` in their order until one of them is a directory, or
/// could not be read, or has unknown metadata, or until none is left. A file
/// adds its record to `files`, and an entry that is neither file nor directory
/// adds a warning. An entry that could not be read, or whose metadata could
/// not, ends the scan.
pub open spec fn advance(
    entries: Seq<DirEntry>,
    files: Seq<FileInfoView>,
    warnings: Seq<WarningView>,
) -> Step
    decreases entries.len(),
{
    if entries.len() == 0 {
        Step::Done { files, warnings }
    } else {
        let rest = entries.drop_first();
        match entries[0] {
            DirEntry::Unreadable { directory, message } => Step::Failed {
                path: directory@,
                message: message@,
                warnings,
            },
            DirEntry::Unknown { path, message } => Step::Failed {
                path: path@,
                message: message@,
                warnings,
            },
            DirEntry::Found { path, name_is_text, metadata } => match metadata.kind {
                EntryKind::Directory => Step::Read {
                    directory: path@,
                    pending: rest,
                    files,
                    warnings,
                },
                EntryKind::File => advance(
                    rest,
                    files.push(file_record(metadata, path@, name_is_text)),
                    warnings,
                ),
                EntryKind::Other => advance(
                    rest,
                    files,
                    warnings.push(WarningView::Skipped(path@)),
                ),
            },
        }
    }
}

/// The step that follows when reading `directory` gave `outcome`.
///
/// A directory that may not be opened counts as empty, with a warning. Any
/// other failure to read it ends the scan, and so does an entry of it that
/// could not be read. The entries of a directory that was read are visited
/// before the entries that were pending.
pub open spec fn resume_step(
    directory: Seq<char>,
    pending: Seq<DirEntry>,
    files: Seq<FileInfoView>,
    outcome: OutcomeView,
) -> Step {
    match outcome {
        OutcomeView::Failed(message) => Step::Failed {
            path: directory,
            message: message,
            warnings: Seq::empty(),
        },
        OutcomeView::PermissionDenied => advance(
            pending,
            files,
            seq![WarningView::PermissionDenied(directory)],
        ),
        OutcomeView::Entries(entries) => advance(entries + pending, files, Seq::empty()),
    }
}

/// The entries of a stack in the order in which they will be popped.
pub open spec fn popping_order(stack: Seq<DirEntry>) -> Seq<DirEntry> {
    Seq::new(stack.len(), |i: int| stack[stack.len() - 1 - i])
}

/// A scan that waits for one directory to be read.
pub struct FileScan {
    directory: String,
    pending: Vec<DirEntry>,
    files: Vec<FileInfo>,
}

/// How a scan goes on after a directory was read.
pub enum ScanProgress {
    /// The scan waits for the next directory to be read.
    Read(FileScan),
    /// The scan is over, with the records of the files found or with the
    /// failure that ended it.
    Done(Result<Vec<FileInfo>, ScanError>),
}

impl FileScan {
    /// The directory to read next.
    pub closed spec fn next_directory(&self) -> Seq<char> {
        self.directory@
    }

    /// The entries still to visit once the next directory is done with, in
    /// the order of the visit.
    pub closed spec fn pending(&self) -> Seq<DirEntry> {
        popping_order(self.pending@)
    }

    /// The records of the files found so far.
    pub closed spec fn files(&self) -> Seq<FileInfoView> {
        record_views(self.files@)
    }

    /// The directory to read next.
    pub fn directory(&self) -> (dir: &str)
        ensures
            dir@ == self.next_directory(),
    {
        self.directory.as_str()
    }

    /// Goes on with the scan after its directory was read, and tells what was
    /// passed over on the way.
    #[verifier::loop_isolation(false)]
    pub fn resume(self, outcome: ReadOutcome) -> (next: (ScanProgress, Vec<ScanWarning>))
        ensures
            shows(
                next.0,
                next.1@,
                resume_step(self.next_directory(), self.pending(), self.files(), outcome@),
            ),
    {
        let ghost target = resume_step(
            self.next_directory(),
            self.pending(),
            self.files(),
            outcome@,
        );
        let ghost waiting = self.pending();
        let directory = self.directory;
        let mut pending = self.pending;
        let mut files = self.files;
        let mut warnings: Vec<ScanWarning> = Vec::new();
        match outcome {
            ReadOutcome::Failed(message) => {
                assert(warning_views(warnings@) =~= Seq::<WarningView>::empty());
                return (ScanProgress::Done(Err(ScanError { path: directory, message })), warnings);
            },
            ReadOutcome::PermissionDenied => {
                warnings.push(ScanWarning::PermissionDenied(directory));
                assert(warning_views(warnings@) =~= seq![
                    WarningView::PermissionDenied(self.next_directory()),
                ]);
            },
            ReadOutcome::Entries(entries) => {
                let ghost read = entries@;
                let mut entries = entries;
                assert(read.skip(read.len() as int) + waiting =~= waiting);
                while entries.len() > 0
                    invariant
                        entries@.len() <= read.len(),
                        entries@ == read.take(entries@.len() as int),
                        popping_order(pending@) == read.skip(entries@.len() as int) + waiting,
                    decreases entries@.len(),
                {
                    let ghost stack = pending@;
                    let ghost n = entries@.len() as int;
                    let entry = entries.pop().unwrap();
                    pending.push(entry);
                    assert(entry == read[n - 1]);
                    assert(entries@ =~= read.take(n - 1));
                    assert(popping_order(pending@) =~= read.skip(n - 1) + waiting) by {
                        let now = popping_order(pending@);
                        let want = read.skip(n - 1) + waiting;
                        assert(now.len() == want.len());
                        assert forall|i: int| 0 <= i < now.len() implies now[i] == want[i] by {
                            if i > 0 {
                                assert(now[i] == popping_order(stack)[i - 1]);
                                assert((read.skip(n) + waiting)[i - 1] == want[i]);
                            }
                        }
                    }
                }
                assert(read.skip(0) =~= read);
                assert(warning_views(warnings@) =~= Seq::<WarningView>::empty());
            },
        }
        while pending.len() > 0
            invariant
                advance(popping_order(pending@), record_views(files@), warning_views(warnings@))
                    == target,
            decreases pending@.len(),
        {
            let ghost stack = pending@;
            let ghost found = record_views(files@);
            let ghost said = warning_views(warnings@);
            let entry = pending.pop().unwrap();
            proof {
                assert(popping_order(stack)[0] == entry);
                assert(popping_order(stack).drop_first() =~= popping_order(pending@));
            }
            match entry {
                DirEntry::Unreadable { directory, message } => {
                    let error = ScanError { path: directory, message };
                    return (ScanProgress::Done(Err(error)), warnings);
                },
                DirEntry::Unknown { path, message } => {
                    return (ScanProgress::Done(Err(ScanError { path, message })), warnings);
                },
                DirEntry::Found { path, name_is_text, metadata } => match metadata.kind {
                    EntryKind::Directory => {
                        let scan = FileScan { directory: path, pending, files };
                        return (ScanProgress::Read(scan), warnings);
                    },
                    EntryKind::File => {
                        files.push(create_file_info(&metadata, path.as_str(), name_is_text));
                        assert(record_views(files@) =~= found.push(
                            file_record(metadata, path@, name_is_text),
                        ));
                    },
                    EntryKind::Other => {
                        warnings.push(ScanWarning::Skipped(path));
                        assert(warning_views(warnings@) =~= said.push(
                            WarningView::Skipped(path@),
                        ));
                    },
                },
            }
        }
        assert(popping_order(pending@) =~= Seq::<DirEntry>::empty());
        (ScanProgress::Done(Ok(files)), warnings)
    }
}

/// What a scan returned is what `step` says.
pub open spec fn shows(progress: ScanProgress, warnings: Seq<ScanWarning>, step: Step) -> bool {
    match step {
        Step::Read { directory, pending, files, warnings: said } => {
            &&& progress matches ScanProgress::Read(scan)
            &&& scan.next_directory() == directory
            &&& scan.pending() == pending
            &&& scan.files() == files
            &&& warning_views(warnings) == said
        },
        Step::Done { files, warnings: said } => {
            &&& progress matches ScanProgress::Done(Ok(found))
            &&& record_views(found@) == files
            &&& warning_views(warnings) == said
        },
        Step::Failed { path, message, warnings: said } => {
            &&& progress matches ScanProgress::Done(Err(error))
            &&& error.path@ == path
            &&& error.message@ == message
            &&& warning_views(warnings) == said
        },
    }
}

/// Begins the scan of the tree under `dir`: `dir` itself is the first
/// directory to read.
pub fn list_files(dir: &str) -> (scan: FileScan)
    ensures
        scan.next_directory() == dir@,
        scan.pending() == Seq::<DirEntry>::empty(),
        scan.files() == Seq::<FileInfoView>::empty(),
{
    let scan = FileScan { directory: dir.to_owned(), pending: Vec::new(), files: Vec::new() };
    assert(scan.pending() =~= Seq::<DirEntry>::empty());
    assert(scan.files() =~= Seq::<FileInfoView>::empty());
    scan
}

} // verus!
