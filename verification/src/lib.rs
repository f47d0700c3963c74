//! Disk usage analysis: classification of files by extension, per-category and
//! per-directory byte totals, bounded largest-N selection, and the assembly of a
//! fixed-size usage report.

pub mod category_totals;
pub mod directory_totals;
pub mod disk_utils;
pub mod paths;
pub mod scan;
pub mod size_analysis;
pub mod split;
pub mod top_k;
pub mod tree;

use crate::category_totals::{
    amount, category_present, category_total, category_totals, lemma_category_total_concat,
    lemma_category_totals, CategoryTotals,
};
use crate::directory_totals::{
    directory_total, lemma_directory_total_absent, lemma_directory_total_concat, lemma_fold_tally,
    lemma_tally_of_push, tally_of, DirectoryTotals,
};
use crate::disk_utils::{FileInfo, FileInfoView, FileType, Timestamp};
use crate::scan::ScanError;
use crate::size_analysis::{
    analyze_file_categories, analyze_largest_dirs, analyze_largest_files, largest_directories,
    largest_files,
};
use vstd::prelude::*;
use vstd::string::*;

verus! {

/// How many files and how many directories a report lists at most.
pub const PIE_CHART_SLICE_COUNT: usize = 20;

/// Bytes per category, with the free bytes of the volume beside them.
#[derive(Debug, Clone, Copy, PartialEq, Eq, Structural)]
pub struct Categories {
    pub photos: u64,
    pub videos: u64,
    pub audio: u64,
    pub executables: u64,
    pub documents: u64,
    pub archives: u64,
    pub other: u64,
    pub free: u64,
}

/// One of the largest files of a report.
#[derive(Debug)]
pub struct File {
    pub name: String,
    pub path: String,
    pub file_type: String,
    pub size: u64,
    pub created: Timestamp,
    pub modified: Timestamp,
}

/// A listed file with its texts as sequences of characters.
pub struct FileView {
    pub name: Seq<char>,
    pub path: Seq<char>,
    pub file_type: Seq<char>,
    pub size: u64,
    pub created: Timestamp,
    pub modified: Timestamp,
}

impl View for File {
    type V = FileView;

    open spec fn view(&self) -> FileView {
        FileView {
            name: self.name@,
            path: self.path@,
            file_type: self.file_type@,
            size: self.size,
            created: self.created,
            modified: self.modified,
        }
    }
}

/// One of the largest directories of a report, with the bytes of the files
/// directly in it.
#[derive(Debug)]
pub struct Directory {
    pub path: String,
    pub size: u64,
}

/// The label under which a report shows a category.
pub open spec fn category_label(category: FileType) -> Seq<char> {
    match category {
        FileType::Photos => "Photo"@,
        FileType::Videos => "Video"@,
        FileType::Audio => "Audio"@,
        FileType::Documents => "Document"@,
        FileType::Archives => "Archive"@,
        FileType::Executables => "Executable"@,
        FileType::Other => "Other"@,
    }
}

/// The report entry of a file record: the record's own values, with the
/// category as its label and without the directory.
pub open spec fn listed_file(info: FileInfoView) -> FileView {
    FileView {
        name: info.name,
        path: info.path,
        file_type: category_label(info.file_type),
        size: info.size,
        created: info.created,
        modified: info.modified,
    }
}

impl File {
    /// Turns a file record into its report entry.
    pub fn from(info: FileInfo) -> (file: File)
        ensures
            file@ == listed_file(info@),
    {
        let label = match info.file_type {
            FileType::Photos => "Photo",
            FileType::Videos => "Video",
            FileType::Audio => "Audio",
            FileType::Documents => "Document",
            FileType::Archives => "Archive",
            FileType::Executables => "Executable",
            FileType::Other => "Other",
        };
        File {
            name: info.name,
            path: info.path,
            file_type: label.to_owned(),
            size: info.size,
            created: info.created,
            modified: info.modified,
        }
    }
}

/// A listed directory with its path as a sequence of characters.
pub struct DirectoryView {
    pub path: Seq<char>,
    pub size: u64,
}

impl View for Directory {
    type V = DirectoryView;

    open spec fn view(&self) -> DirectoryView {
        DirectoryView { path: self.path@, size: self.size }
    }
}

/// Where the space of a volume went: its capacity, the bytes in use, the bytes
/// per category, and the largest files and directories of the scanned tree.
#[derive(Debug)]
pub struct DriveAnalysis {
    pub total: u64,
    pub used: u64,
    pub categories: Categories,
    pub largest_files: Vec<File>,
    pub largest_directories: Vec<Directory>,
}

/// A report with its lists as sequences of views.
pub struct DriveAnalysisView {
    pub total: u64,
    pub used: u64,
    pub categories: Categories,
    pub largest_files: Seq<FileView>,
    pub largest_directories: Seq<DirectoryView>,
}

impl View for DriveAnalysis {
    type V = DriveAnalysisView;

    open spec fn view(&self) -> DriveAnalysisView {
        DriveAnalysisView {
            total: self.total,
            used: self.used,
            categories: self.categories,
            largest_files: Seq::new(
                self.largest_files@.len(),
                |i: int| self.largest_files@[i]@,
            ),
            largest_directories: Seq::new(
                self.largest_directories@.len(),
                |i: int| self.largest_directories@[i]@,
            ),
        }
    }
}

/// No bytes in any category and none free.
pub open spec fn no_categories() -> Categories {
    Categories {
        photos: 0,
        videos: 0,
        audio: 0,
        executables: 0,
        documents: 0,
        archives: 0,
        other: 0,
        free: 0,
    }
}

impl Default for DriveAnalysis {
    /// The report of nothing: all counts zero, both lists empty.
    fn default() -> (analysis: DriveAnalysis)
        ensures
            analysis.total == 0,
            analysis.used == 0,
            analysis.categories == no_categories(),
            analysis.largest_files@.len() == 0,
            analysis.largest_directories@.len() == 0,
    {
        DriveAnalysis {
            total: 0,
            used: 0,
            categories: Categories {
                photos: 0,
                videos: 0,
                audio: 0,
                executables: 0,
                documents: 0,
                archives: 0,
                other: 0,
                free: 0,
            },
            largest_files: Vec::new(),
            largest_directories: Vec::new(),
        }
    }
}

/// The message of the failure to find the volume that holds `path`.
pub open spec fn disk_space_error(path: Seq<char>) -> Seq<char> {
    "Error getting disk space for: "@ + path
}

/// The message of the failure to scan the tree under `path`.
pub open spec fn files_error(path: Seq<char>) -> Seq<char> {
    "Error getting files for: "@ + path
}

/// Every total that a report of `files` holds fits in 64 bits.
pub open spec fn totals_fit(files: Seq<FileInfo>) -> bool {
    &&& forall|category: FileType| category_total(files, category) <= u64::MAX
    &&& forall|dir: Seq<char>| directory_total(files, dir) <= u64::MAX
}

/// The report before any file is counted: capacity, bytes in use and free
/// bytes of the volume, with all bytes in use entered under `Other`.
pub open spec fn seeded_categories(total: u64, available: u64) -> Categories {
    Categories {
        photos: 0,
        videos: 0,
        audio: 0,
        executables: 0,
        documents: 0,
        archives: 0,
        other: (total - available) as u64,
        free: available,
    }
}

/// The categories of a report: for each category that occurs among `files`
/// the bytes of its files; a category that does not occur keeps what `seed`
/// holds for it.
pub open spec fn counted_categories(seed: Categories, files: Seq<FileInfo>) -> Categories {
    Categories {
        photos: counted(seed.photos, files, FileType::Photos),
        videos: counted(seed.videos, files, FileType::Videos),
        audio: counted(seed.audio, files, FileType::Audio),
        executables: counted(seed.executables, files, FileType::Executables),
        documents: counted(seed.documents, files, FileType::Documents),
        archives: counted(seed.archives, files, FileType::Archives),
        other: counted(seed.other, files, FileType::Other),
        free: seed.free,
    }
}

/// The bytes of `category` among `files`, or `seed` where none of them is of
/// that category.
pub open spec fn counted(seed: u64, files: Seq<FileInfo>, category: FileType) -> u64 {
    if category_present(files, category) {
        category_total(files, category) as u64
    } else {
        seed
    }
}

/// The entries of the `n` largest of `files`.
pub open spec fn listed_files(files: Seq<FileInfo>, n: nat) -> Seq<FileView> {
    Seq::new(largest_files(files, n).len(), |i: int| listed_file(largest_files(files, n)[i]@))
}

/// The `n` largest directories of `files` as entries.
pub open spec fn listed_directories(files: Seq<FileInfo>, n: nat) -> Seq<DirectoryView> {
    Seq::new(
        largest_directories(files, n).len(),
        |i: int|
            DirectoryView {
                path: largest_directories(files, n)[i].1,
                size: largest_directories(files, n)[i].0,
            },
    )
}

/// The report on a volume of `total` bytes with `available` of them free, and
/// on the files of a tree on it.
pub open spec fn drive_summary(
    total: u64,
    available: u64,
    files: Seq<FileInfo>,
) -> DriveAnalysisView {
    DriveAnalysisView {
        total: total,
        used: (total - available) as u64,
        categories: counted_categories(seeded_categories(total, available), files),
        largest_files: listed_files(files, PIE_CHART_SLICE_COUNT as nat),
        largest_directories: listed_directories(files, PIE_CHART_SLICE_COUNT as nat),
    }
}

/// Starts the report on the volume that holds `path` from what the volume
/// query returned, or fails where it found no volume.
pub fn begin_analysis(path: &str, space: Option<(u64, u64)>) -> (started: Result<
    DriveAnalysis,
    String,
>)
    requires
        space matches Some((total, available)) ==> available <= total,
    ensures
        match space {
            Some((total, available)) => started matches Ok(analysis) && analysis.total == total
                && analysis.used == total - available && analysis.categories
                == seeded_categories(total, available) && analysis.largest_files@.len() == 0
                && analysis.largest_directories@.len() == 0,
            None => started matches Err(message) && message@ == disk_space_error(path@),
        },
{
    let mut analysis = DriveAnalysis::default();
    match space {
        Some((total, free)) => {
            let used = total - free;
            analysis.total = total;
            analysis.used = used;
            analysis.categories.other = used;
            analysis.categories.free = free;
            Ok(analysis)
        },
        None => Err("Error getting disk space for: ".to_owned().concat(path)),
    }
}

/// Completes a started report with the outcome of the scan under `path`: the
/// bytes per category, the largest files and the largest directories; or fails
/// where the scan failed.
pub fn complete_analysis(
    analysis: DriveAnalysis,
    path: &str,
    scan: Result<Vec<FileInfo>, ScanError>,
) -> (completed: Result<DriveAnalysis, String>)
    requires
        scan matches Ok(files) ==> totals_fit(files@),
    ensures
        match scan {
            Ok(files) => completed matches Ok(report) && report.total == analysis.total
                && report.used == analysis.used && report.categories == counted_categories(
                analysis.categories,
                files@,
            ) && report@.largest_files == Seq::new(
                analysis.largest_files@.len(),
                |i: int| analysis.largest_files@[i]@,
            ) + listed_files(files@, PIE_CHART_SLICE_COUNT as nat) && report@.largest_directories
                == Seq::new(
                analysis.largest_directories@.len(),
                |i: int| analysis.largest_directories@[i]@,
            ) + listed_directories(files@, PIE_CHART_SLICE_COUNT as nat),
            Err(_) => completed matches Err(message) && message@ == files_error(path@),
        },
{
    let files = match scan {
        Ok(files) => files,
        Err(_) => {
            return Err("Error getting files for: ".to_owned().concat(path));
        },
    };
    let ghost start = analysis;
    let mut analysis = analysis;
    let ghost seed = analysis.categories;
    let ghost listed = analysis@.largest_files;
    let ghost dirs_listed = analysis@.largest_directories;

    let totals = analyze_file_categories(&files);
    match totals.get(&FileType::Photos) {
        Some(size) => {
            analysis.categories.photos = *size;
        },
        None => {},
    }
    match totals.get(&FileType::Videos) {
        Some(size) => {
            analysis.categories.videos = *size;
        },
        None => {},
    }
    match totals.get(&FileType::Audio) {
        Some(size) => {
            analysis.categories.audio = *size;
        },
        None => {},
    }
    match totals.get(&FileType::Executables) {
        Some(size) => {
            analysis.categories.executables = *size;
        },
        None => {},
    }
    match totals.get(&FileType::Documents) {
        Some(size) => {
            analysis.categories.documents = *size;
        },
        None => {},
    }
    match totals.get(&FileType::Archives) {
        Some(size) => {
            analysis.categories.archives = *size;
        },
        None => {},
    }
    match totals.get(&FileType::Other) {
        Some(size) => {
            analysis.categories.other = *size;
        },
        None => {},
    }
    assert(analysis.categories == counted_categories(seed, files@));

    let largest = analyze_largest_files(&files, PIE_CHART_SLICE_COUNT);
    let mut i: usize = 0;
    while i < largest.len()
        invariant
            i <= largest@.len(),
            largest@ == largest_files(files@, PIE_CHART_SLICE_COUNT as nat),
            analysis.categories == counted_categories(seed, files@),
            analysis.total == start.total,
            analysis.used == start.used,
            analysis@.largest_directories == dirs_listed,
            analysis@.largest_files == listed + listed_files(
                files@,
                PIE_CHART_SLICE_COUNT as nat,
            ).take(i as int),
        decreases largest@.len() - i,
    {
        let ghost before = analysis@.largest_files;
        analysis.largest_files.push(File::from(largest[i].clone()));
        assert(analysis@.largest_files =~= before.push(listed_file(largest@[i as int]@)));
        assert(analysis@.largest_files =~= listed + listed_files(
            files@,
            PIE_CHART_SLICE_COUNT as nat,
        ).take(i + 1));
        i += 1;
    }
    assert(analysis@.largest_files =~= listed + listed_files(
        files@,
        PIE_CHART_SLICE_COUNT as nat,
    ));

    let directories = analyze_largest_dirs(&files, PIE_CHART_SLICE_COUNT);
    let mut k: usize = 0;
    while k < directories.len()
        invariant
            k <= directories@.len(),
            directories@.len() == largest_directories(
                files@,
                PIE_CHART_SLICE_COUNT as nat,
            ).len(),
            forall|j: int|
                0 <= j < directories@.len() ==> (#[trigger] directories@[j]).0
                    == largest_directories(files@, PIE_CHART_SLICE_COUNT as nat)[j].0
                    && directories@[j].1@ == largest_directories(
                    files@,
                    PIE_CHART_SLICE_COUNT as nat,
                )[j].1,
            analysis.categories == counted_categories(seed, files@),
            analysis.total == start.total,
            analysis.used == start.used,
            analysis@.largest_files == listed + listed_files(
                files@,
                PIE_CHART_SLICE_COUNT as nat,
            ),
            analysis@.largest_directories == dirs_listed + listed_directories(
                files@,
                PIE_CHART_SLICE_COUNT as nat,
            ).take(k as int),
        decreases directories@.len() - k,
    {
        let ghost before = analysis@.largest_directories;
        let size = directories[k].0;
        let path = directories[k].1.clone();
        analysis.largest_directories.push(Directory { path, size });
        assert(analysis@.largest_directories =~= before.push(
            DirectoryView { path: directories@[k as int].1@, size: directories@[k as int].0 },
        ));
        assert(analysis@.largest_directories =~= dirs_listed + listed_directories(
            files@,
            PIE_CHART_SLICE_COUNT as nat,
        ).take(k + 1));
        k += 1;
    }
    assert(analysis@.largest_directories =~= dirs_listed + listed_directories(
        files@,
        PIE_CHART_SLICE_COUNT as nat,
    ));
    Ok(analysis)
}

/// Reports where the space of the volume that holds `path` went, from what the
/// volume query and the scan of the tree under `path` returned.
///
/// Fails where no volume was found, whatever the scan returned, and else where
/// the scan failed. The bytes in use are the capacity less the free bytes,
/// whatever files were found.
pub fn analyze_drive(
    path: &str,
    space: Option<(u64, u64)>,
    scan: Result<Vec<FileInfo>, ScanError>,
) -> (report: Result<DriveAnalysis, String>)
    requires
        space matches Some((total, available)) ==> available <= total,
        space.is_some() ==> (scan matches Ok(files) ==> totals_fit(files@)),
    ensures
        match space {
            None => report matches Err(message) && message@ == disk_space_error(path@),
            Some((total, available)) => match scan {
                Err(_) => report matches Err(message) && message@ == files_error(path@),
                Ok(files) => report matches Ok(analysis) && analysis@ == drive_summary(
                    total,
                    available,
                    files@,
                ) && analysis.used == total - available,
            },
        },
{
    match begin_analysis(path, space) {
        Ok(analysis) => {
            let ghost none = analysis@.largest_files;
            let ghost no_dirs = analysis@.largest_directories;
            match complete_analysis(analysis, path, scan) {
                Ok(report) => {
                    proof {
                        assert(none =~= Seq::<FileView>::empty());
                        assert(no_dirs =~= Seq::<DirectoryView>::empty());
                        assert(report@.largest_files =~= listed_files(
                            scan->Ok_0@,
                            PIE_CHART_SLICE_COUNT as nat,
                        ));
                        assert(report@.largest_directories =~= listed_directories(
                            scan->Ok_0@,
                            PIE_CHART_SLICE_COUNT as nat,
                        ));
                    }
                    Ok(report)
                },
                Err(message) => Err(message),
            }
        },
        Err(message) => Err(message),
    }
}

/// The bytes in use that a report shows are the capacity less the free bytes,
/// and the capacity is the one given, whatever files were found.
pub proof fn lemma_used_is_capacity_less_free(total: u64, available: u64, files: Seq<FileInfo>)
    requires
        available <= total,
    ensures
        drive_summary(total, available, files).total == total,
        drive_summary(total, available, files).used == total - available,
        drive_summary(total, available, files).categories.free == available,
{
}

/// The bytes of all of `files`.
pub open spec fn scanned_bytes(files: Seq<FileInfo>) -> nat
    decreases files.len(),
{
    if files.len() == 0 {
        0
    } else {
        scanned_bytes(files.drop_last()) + files.last().size as nat
    }
}

/// The bytes that a report enters under its seven categories, taken together.
pub open spec fn categories_sum(categories: Categories) -> int {
    categories.photos + categories.videos + categories.audio + categories.executables
        + categories.documents + categories.archives + categories.other
}

/// The bytes of the files are the bytes of the seven categories together.
pub proof fn lemma_scanned_bytes_by_category(files: Seq<FileInfo>)
    ensures
        scanned_bytes(files) == category_total(files, FileType::Photos) + category_total(
            files,
            FileType::Videos,
        ) + category_total(files, FileType::Audio) + category_total(files, FileType::Executables)
            + category_total(files, FileType::Documents) + category_total(
            files,
            FileType::Archives,
        ) + category_total(files, FileType::Other),
    decreases files.len(),
{
    if files.len() > 0 {
        lemma_scanned_bytes_by_category(files.drop_last());
    }
}

/// A category that does not occur among the files has no bytes.
pub proof fn lemma_category_total_absent(files: Seq<FileInfo>, category: FileType)
    ensures
        !category_present(files, category) ==> category_total(files, category) == 0,
    decreases files.len(),
{
    if files.len() > 0 && !category_present(files, category) {
        let front = files.drop_last();
        assert(files[files.len() - 1] == files.last());
        if category_present(front, category) {
            let i = choose|i: int| 0 <= i < front.len() && front[i].file_type == category;
            assert(files[i] == front[i]);
        }
        lemma_category_total_absent(front, category);
    }
}

/// Where no file of category `Other` was found, `Other` keeps all bytes in use
/// on the volume; the seven categories and the free bytes then add up to the
/// capacity and the bytes of the files found on top of it.
pub proof fn lemma_other_keeps_bytes_in_use(total: u64, available: u64, files: Seq<FileInfo>)
    requires
        available <= total,
        !category_present(files, FileType::Other),
    ensures
        drive_summary(total, available, files).categories.other == total - available,
        totals_fit(files) ==> categories_sum(drive_summary(total, available, files).categories)
            + available == total + scanned_bytes(files),
{
    if totals_fit(files) {
        lemma_scanned_bytes_by_category(files);
        lemma_category_total_absent(files, FileType::Photos);
        lemma_category_total_absent(files, FileType::Videos);
        lemma_category_total_absent(files, FileType::Audio);
        lemma_category_total_absent(files, FileType::Executables);
        lemma_category_total_absent(files, FileType::Documents);
        lemma_category_total_absent(files, FileType::Archives);
        lemma_category_total_absent(files, FileType::Other);
        assert(category_total(files, FileType::Photos) <= u64::MAX);
        assert(category_total(files, FileType::Videos) <= u64::MAX);
        assert(category_total(files, FileType::Audio) <= u64::MAX);
        assert(category_total(files, FileType::Executables) <= u64::MAX);
        assert(category_total(files, FileType::Documents) <= u64::MAX);
        assert(category_total(files, FileType::Archives) <= u64::MAX);
    }
}

/// When the categories of a report and the free bytes add up to the capacity.
///
/// Where a file of category `Other` was found, every category holds the bytes
/// of its files, and they add up exactly where the files found are all that is
/// in use on the volume. Where none was found, `Other` still holds all bytes in
/// use, and they add up only where the files found hold no bytes at all.
pub proof fn lemma_categories_account_for_capacity(
    total: u64,
    available: u64,
    files: Seq<FileInfo>,
)
    requires
        available <= total,
        totals_fit(files),
    ensures
        categories_sum(drive_summary(total, available, files).categories) + available == total
            <==> scanned_bytes(files) == (if category_present(files, FileType::Other) {
            total - available
        } else {
            0
        }),
{
    lemma_scanned_bytes_by_category(files);
    lemma_category_total_absent(files, FileType::Photos);
    lemma_category_total_absent(files, FileType::Videos);
    lemma_category_total_absent(files, FileType::Audio);
    lemma_category_total_absent(files, FileType::Executables);
    lemma_category_total_absent(files, FileType::Documents);
    lemma_category_total_absent(files, FileType::Archives);
    lemma_category_total_absent(files, FileType::Other);
    assert(category_total(files, FileType::Photos) <= u64::MAX);
    assert(category_total(files, FileType::Videos) <= u64::MAX);
    assert(category_total(files, FileType::Audio) <= u64::MAX);
    assert(category_total(files, FileType::Executables) <= u64::MAX);
    assert(category_total(files, FileType::Documents) <= u64::MAX);
    assert(category_total(files, FileType::Archives) <= u64::MAX);
    assert(category_total(files, FileType::Other) <= u64::MAX);
}

/// The first files hold no more bytes of a category or in a directory than
/// all of them.
pub proof fn lemma_totals_grow(files: Seq<FileInfo>, n: int)
    requires
        0 <= n <= files.len(),
    ensures
        forall|category: FileType|
            category_total(files.take(n), category) <= category_total(files, category),
        forall|dir: Seq<char>| directory_total(files.take(n), dir) <= directory_total(files, dir),
{
    assert(files =~= files.take(n) + files.skip(n));
    assert forall|category: FileType|
        category_total(files.take(n), category) <= category_total(files, category) by {
        lemma_category_total_concat(files.take(n), files.skip(n), category);
    }
    assert forall|dir: Seq<char>|
        directory_total(files.take(n), dir) <= directory_total(files, dir) by {
        lemma_directory_total_concat(files.take(n), files.skip(n), dir);
    }
}

/// Whether every total that a report of `files` holds fits in 64 bits: the
/// bytes of each category and the bytes directly in each directory.
pub fn totals_fit_in_u64(files: &Vec<FileInfo>) -> (fit: bool)
    ensures
        fit == totals_fit(files@),
{
    let mut categories = CategoryTotals::new();
    let mut directories = DirectoryTotals::new();
    let mut i: usize = 0;
    proof {
        assert(files@.take(0) =~= Seq::<FileInfo>::empty());
        lemma_fold_tally(files@.take(0));
    }
    while i < files.len()
        invariant
            i <= files@.len(),
            categories@ == category_totals(files@.take(i as int)),
            directories@ == tally_of(files@.take(i as int)),
        decreases files@.len() - i,
    {
        let ghost seen = files@.take(i as int);
        let ghost next = files@.take(i + 1);
        let file = &files[i];
        proof {
            assert(next.drop_last() =~= seen);
            assert(next.last() == *file);
            assert(next =~= seen.push(*file));
            lemma_category_totals(seen);
            lemma_directory_total_absent(seen, file.directory@);
            lemma_tally_of_push(seen, *file);
            lemma_totals_grow(files@, i + 1);
        }
        let in_category: u64 = match categories.get(&file.file_type) {
            Some(bytes) => *bytes,
            None => 0,
        };
        proof {
            assert(amount(categories@, file.file_type) == category_total(seen, file.file_type));
            assert(in_category == amount(categories@, file.file_type));
            assert(category_total(next, file.file_type) == in_category + file.size);
        }
        if in_category.checked_add(file.size).is_none() {
            assert(category_total(files@, file.file_type) > u64::MAX);
            return false;
        }
        let in_directory: u64 = match directories.get(file.directory.as_str()) {
            Some(bytes) => bytes,
            None => 0,
        };
        proof {
            assert(in_directory == directories@.amount(file.directory@));
            assert(directory_total(next, file.directory@) == in_directory + file.size);
        }
        if in_directory.checked_add(file.size).is_none() {
            assert(directory_total(files@, file.directory@) > u64::MAX);
            return false;
        }
        categories = categories.add(file.file_type, file.size);
        directories = directories.add(file.directory.as_str(), file.size);
        i += 1;
    }
    proof {
        assert(files@.take(i as int) =~= files@);
        lemma_category_totals(files@);
        categories.lemma_fits();
        directories.lemma_fits();
        assert forall|category: FileType| category_total(files@, category) <= u64::MAX by {
            assert(amount(categories@, category) <= u64::MAX);
        }
        assert forall|dir: Seq<char>| directory_total(files@, dir) <= u64::MAX by {
            lemma_directory_total_absent(files@, dir);
            assert(directories@.amount(dir) <= u64::MAX);
        }
    }
    true
}

} // verus!
