//! File records and the rules that classify them.

use crate::paths::{
    extension, extension_of, file_name, last_dot, lowercase, parent, path_extension,
    path_file_name, path_parent, path_starts_with, starts_with, to_lowercase,
};
pub use crate::scan::list_files;
use vstd::prelude::*;
use vstd::string::*;

verus! {

/// Content category of a file, decided by its extension.
#[derive(Debug, Clone, Copy, PartialEq, Eq, Hash, Structural)]
pub enum FileType {
    Photos,
    Videos,
    Audio,
    Documents,
    Archives,
    Executables,
    Other,
}

/// A point in time as an offset from the Unix epoch.
///
/// `secs` whole seconds and `nanos` nanoseconds after the epoch, or before it
/// when `before_epoch` is set.
#[derive(Debug, Clone, Copy, PartialEq, Eq, Structural)]
pub struct Timestamp {
    pub secs: u64,
    pub nanos: u32,
    pub before_epoch: bool,
}

impl Timestamp {
    /// The Unix epoch itself.
    pub open spec fn spec_epoch() -> Timestamp {
        Timestamp { secs: 0, nanos: 0, before_epoch: false }
    }

    /// The Unix epoch itself.
    #[verifier::when_used_as_spec(spec_epoch)]
    pub fn epoch() -> (t: Timestamp)
        ensures
            t == Timestamp::spec_epoch(),
    {
        Timestamp { secs: 0, nanos: 0, before_epoch: false }
    }
}

/// One regular file found by a scan.
#[derive(Debug)]
pub struct FileInfo {
    pub name: String,
    pub path: String,
    pub directory: String,
    pub file_type: FileType,
    pub size: u64,
    pub created: Timestamp,
    pub modified: Timestamp,
}

/// A file record with its texts as sequences of characters.
pub struct FileInfoView {
    pub name: Seq<char>,
    pub path: Seq<char>,
    pub directory: Seq<char>,
    pub file_type: FileType,
    pub size: u64,
    pub created: Timestamp,
    pub modified: Timestamp,
}

impl View for FileInfo {
    type V = FileInfoView;

    open spec fn view(&self) -> FileInfoView {
        FileInfoView {
            name: self.name@,
            path: self.path@,
            directory: self.directory@,
            file_type: self.file_type,
            size: self.size,
            created: self.created,
            modified: self.modified,
        }
    }
}

impl Clone for FileInfo {
    fn clone(&self) -> (copy: FileInfo)
        ensures
            copy == *self,
    {
        FileInfo {
            name: self.name.clone(),
            path: self.path.clone(),
            directory: self.directory.clone(),
            file_type: self.file_type,
            size: self.size,
            created: self.created,
            modified: self.modified,
        }
    }
}

/// What a directory entry is, as far as a scan tells entries apart.
#[derive(Debug, Clone, Copy, PartialEq, Eq, Structural)]
pub enum EntryKind {
    Directory,
    File,
    Other,
}

/// The metadata of one directory entry, as read from the file system.
///
/// A timestamp that the file system does not supply is `None`.
#[derive(Debug, Clone, Copy)]
pub struct EntryMetadata {
    pub kind: EntryKind,
    pub len: u64,
    pub created: Option<Timestamp>,
    pub modified: Option<Timestamp>,
}

/// A mounted volume with its capacity and its free space in bytes.
#[derive(Debug)]
pub struct Volume {
    pub mount_point: String,
    pub total_space: u64,
    pub available_space: u64,
}

/// Whether two string slices hold the same characters.
pub fn str_eq(a: &str, b: &str) -> (same: bool)
    ensures
        same == (a@ == b@),
{
    let n = a.unicode_len();
    if n != b.unicode_len() {
        return false;
    }
    let mut i: usize = 0;
    while i < n
        invariant
            n == a@.len(),
            n == b@.len(),
            i <= n,
            forall|j: int| 0 <= j < i ==> a@[j] == b@[j],
        decreases n - i,
    {
        if a.get_char(i) != b.get_char(i) {
            return false;
        }
        i += 1;
    }
    assert(a@ =~= b@);
    true
}

/// Extensions of still images.
pub open spec fn is_photo_extension(ext: Seq<char>) -> bool {
    ext == "jpg"@ || ext == "jpeg"@ || ext == "png"@ || ext == "gif"@ || ext == "bmp"@ || ext
        == "webp"@ || ext == "tiff"@ || ext == "raw"@ || ext == "heic"@
}

/// Extensions of moving images.
pub open spec fn is_video_extension(ext: Seq<char>) -> bool {
    ext == "mp4"@ || ext == "mov"@ || ext == "avi"@ || ext == "mkv"@ || ext == "wmv"@ || ext
        == "flv"@ || ext == "webm"@
}

/// Extensions of sound recordings.
pub open spec fn is_audio_extension(ext: Seq<char>) -> bool {
    ext == "mp3"@ || ext == "wav"@ || ext == "ogg"@ || ext == "m4a"@ || ext == "flac"@ || ext
        == "aac"@
}

/// Extensions of text documents, spreadsheets and presentations.
pub open spec fn is_document_extension(ext: Seq<char>) -> bool {
    ext == "pdf"@ || ext == "doc"@ || ext == "docx"@ || ext == "txt"@ || ext == "rtf"@ || ext
        == "xls"@ || ext == "xlsx"@ || ext == "ppt"@ || ext == "pptx"@ || ext == "odt"@ || ext
        == "ods"@ || ext == "odp"@ || ext == "csv"@
}

/// Extensions of compressed archives.
pub open spec fn is_archive_extension(ext: Seq<char>) -> bool {
    ext == "zip"@ || ext == "rar"@ || ext == "7z"@ || ext == "tar"@ || ext == "gz"@ || ext
        == "bz2"@
}

/// Extensions of programs, libraries and installers.
pub open spec fn is_executable_extension(ext: Seq<char>) -> bool {
    ext == "exe"@ || ext == "msi"@ || ext == "dll"@ || ext == "app"@ || ext == "dmg"@ || ext
        == "deb"@ || ext == "rpm"@
}

/// Whether the table assigns `ext` to a category other than `Other`.
pub open spec fn is_known_extension(ext: Seq<char>) -> bool {
    is_photo_extension(ext) || is_video_extension(ext) || is_audio_extension(ext)
        || is_document_extension(ext) || is_archive_extension(ext) || is_executable_extension(
        ext,
    )
}

/// The category that the table assigns to an extension already in lower case.
pub open spec fn category_of_extension(ext: Seq<char>) -> FileType {
    if is_photo_extension(ext) {
        FileType::Photos
    } else if is_video_extension(ext) {
        FileType::Videos
    } else if is_audio_extension(ext) {
        FileType::Audio
    } else if is_document_extension(ext) {
        FileType::Documents
    } else if is_archive_extension(ext) {
        FileType::Archives
    } else if is_executable_extension(ext) {
        FileType::Executables
    } else {
        FileType::Other
    }
}

/// The category of the file at `path`: that of its extension in lower case, and
/// `Other` where the path has no extension.
pub open spec fn file_category(path: Seq<char>) -> FileType {
    match path_extension(path) {
        Some(ext) => category_of_extension(lowercase(ext)),
        None => FileType::Other,
    }
}

/// Looks up an extension, already in lower case, in the category table.
pub fn classify_extension(ext: &str) -> (category: FileType)
    ensures
        category == category_of_extension(ext@),
{
    if str_eq(ext, "jpg") || str_eq(ext, "jpeg") || str_eq(ext, "png") || str_eq(ext, "gif")
        || str_eq(ext, "bmp") || str_eq(ext, "webp") || str_eq(ext, "tiff") || str_eq(ext, "raw")
        || str_eq(ext, "heic") {
        FileType::Photos
    } else if str_eq(ext, "mp4") || str_eq(ext, "mov") || str_eq(ext, "avi") || str_eq(ext, "mkv")
        || str_eq(ext, "wmv") || str_eq(ext, "flv") || str_eq(ext, "webm") {
        FileType::Videos
    } else if str_eq(ext, "mp3") || str_eq(ext, "wav") || str_eq(ext, "ogg") || str_eq(ext, "m4a")
        || str_eq(ext, "flac") || str_eq(ext, "aac") {
        FileType::Audio
    } else if str_eq(ext, "pdf") || str_eq(ext, "doc") || str_eq(ext, "docx") || str_eq(ext, "txt")
        || str_eq(ext, "rtf") || str_eq(ext, "xls") || str_eq(ext, "xlsx") || str_eq(ext, "ppt")
        || str_eq(ext, "pptx") || str_eq(ext, "odt") || str_eq(ext, "ods") || str_eq(ext, "odp")
        || str_eq(ext, "csv") {
        FileType::Documents
    } else if str_eq(ext, "zip") || str_eq(ext, "rar") || str_eq(ext, "7z") || str_eq(ext, "tar")
        || str_eq(ext, "gz") || str_eq(ext, "bz2") {
        FileType::Archives
    } else if str_eq(ext, "exe") || str_eq(ext, "msi") || str_eq(ext, "dll") || str_eq(ext, "app")
        || str_eq(ext, "dmg") || str_eq(ext, "deb") || str_eq(ext, "rpm") {
        FileType::Executables
    } else {
        FileType::Other
    }
}

/// Classifies the file at `path` by its extension, whatever its letter case.
pub fn categorize_file(path: &str) -> (category: FileType)
    ensures
        category == file_category(path@),
{
    match extension(path) {
        Some(ext) => {
            let lower = to_lowercase(ext.as_str());
            classify_extension(lower.as_str())
        },
        None => FileType::Other,
    }
}

/// Two paths whose extensions agree once in lower case fall in one category.
pub proof fn lemma_same_extension_same_category(a: Seq<char>, b: Seq<char>)
    requires
        path_extension(a).is_some(),
        path_extension(b).is_some(),
        lowercase(path_extension(a).unwrap()) == lowercase(path_extension(b).unwrap()),
    ensures
        file_category(a) == file_category(b),
{
}

/// Only what follows the last dot of the file name counts: the category of a
/// file is that of the text behind the last dot of its name, in lower case,
/// whatever stands before that dot; and `Other` where the name holds no dot or
/// only the one it begins with.
pub proof fn lemma_category_by_last_dot(path: Seq<char>, name: Seq<char>)
    requires
        path_file_name(path) == Some(name),
    ensures
        file_category(path) == if last_dot(name) <= 0 {
            FileType::Other
        } else {
            category_of_extension(lowercase(name.skip(last_dot(name) + 1)))
        },
{
    assert(path_extension(path) == extension_of(name));
}

/// A path without an extension, or with one that the table does not list, is
/// classified as `Other`.
pub proof fn lemma_unlisted_extension_is_other(path: Seq<char>)
    requires
        match path_extension(path) {
            Some(ext) => !is_known_extension(lowercase(ext)),
            None => true,
        },
    ensures
        file_category(path) == FileType::Other,
{
}

/// The timestamp to record where the file system may not have supplied one.
pub open spec fn timestamp_or_epoch(time: Option<Timestamp>) -> Timestamp {
    match time {
        Some(t) => t,
        None => Timestamp::spec_epoch(),
    }
}

/// The name of the file at `path`: the final component of the path, or
/// `unknown` where the path has none or where that component, as the file
/// system holds it, is not text.
pub open spec fn file_name_or_unknown(path: Seq<char>, name_is_text: bool) -> Seq<char> {
    match path_file_name(path) {
        Some(name) => if name_is_text {
            name
        } else {
            "unknown"@
        },
        None => "unknown"@,
    }
}

/// The record of the regular file at `path` with the given metadata.
///
/// `path` is the path as text, and `name_is_text` tells whether its final
/// component is text as the file system holds it. The name is that component,
/// or `unknown`; the directory is the path without that component, or empty
/// where nothing is left.
pub open spec fn file_record(
    metadata: EntryMetadata,
    path: Seq<char>,
    name_is_text: bool,
) -> FileInfoView {
    FileInfoView {
        name: file_name_or_unknown(path, name_is_text),
        path: path,
        directory: match path_parent(path) {
            Some(dir) => dir,
            None => Seq::empty(),
        },
        file_type: file_category(path),
        size: metadata.len,
        created: timestamp_or_epoch(metadata.created),
        modified: timestamp_or_epoch(metadata.modified),
    }
}

/// Builds the record of the regular file at `path` from its metadata.
///
/// `path` is the path as text, with replacements where the file system holds
/// what is not text; `name_is_text` tells whether its final component is text
/// there.
pub fn create_file_info(
    metadata: &EntryMetadata,
    path: &str,
    name_is_text: bool,
) -> (info: FileInfo)
    ensures
        info@ == file_record(*metadata, path@, name_is_text),
{
    let name = match file_name(path) {
        Some(name) => if name_is_text {
            name
        } else {
            "unknown".to_owned()
        },
        None => "unknown".to_owned(),
    };
    let directory = match parent(path) {
        Some(dir) => dir,
        None => String::new(),
    };
    let created = match metadata.created {
        Some(t) => t,
        None => Timestamp::epoch(),
    };
    let modified = match metadata.modified {
        Some(t) => t,
        None => Timestamp::epoch(),
    };
    FileInfo {
        name,
        path: path.to_owned(),
        directory,
        file_type: categorize_file(path),
        size: metadata.len,
        created,
        modified,
    }
}

/// The mount points of the given volumes, in their order.
pub fn get_drives(volumes: &Vec<Volume>) -> (drives: Vec<String>)
    ensures
        drives@.len() == volumes@.len(),
        forall|i: int| 0 <= i < volumes@.len() ==> drives@[i]@ == volumes@[i].mount_point@,
{
    let mut drives: Vec<String> = Vec::new();
    let mut i: usize = 0;
    while i < volumes.len()
        invariant
            i <= volumes@.len(),
            drives@.len() == i,
            forall|j: int| 0 <= j < i ==> drives@[j]@ == volumes@[j].mount_point@,
        decreases volumes@.len() - i,
    {
        drives.push(volumes[i].mount_point.clone());
        i += 1;
    }
    drives
}

/// Whether the volume at index `i` is the first whose mount point is a prefix
/// of `path`.
pub open spec fn is_first_mount(path: Seq<char>, volumes: Seq<Volume>, i: int) -> bool {
    &&& 0 <= i < volumes.len()
    &&& path_starts_with(path, volumes[i].mount_point@)
    &&& forall|j: int| 0 <= j < i ==> !path_starts_with(path, #[trigger] volumes[j].mount_point@)
}

/// Total and available bytes of the volume that holds `path`: the first of
/// `volumes` whose mount point is a prefix of the path.
pub fn get_disk_space(path: &str, volumes: &Vec<Volume>) -> (space: Option<(u64, u64)>)
    ensures
        match space {
            Some((total, available)) => exists|i: int|
                is_first_mount(path@, volumes@, i) && total == volumes@[i].total_space
                    && available == volumes@[i].available_space,
            None => forall|i: int|
                0 <= i < volumes@.len() ==> !path_starts_with(
                    path@,
                    #[trigger] volumes@[i].mount_point@,
                ),
        },
{
    let mut i: usize = 0;
    while i < volumes.len()
        invariant
            i <= volumes@.len(),
            forall|j: int|
                0 <= j < i ==> !path_starts_with(path@, #[trigger] volumes@[j].mount_point@),
        decreases volumes@.len() - i,
    {
        if starts_with(path, volumes[i].mount_point.as_str()) {
            assert(is_first_mount(path@, volumes@, i as int));
            return Some((volumes[i].total_space, volumes[i].available_space));
        }
        i += 1;
    }
    None
}

} // verus!
