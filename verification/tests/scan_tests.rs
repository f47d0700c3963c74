use storage_analyzer_lib::disk_utils::{EntryKind, EntryMetadata, FileInfo, FileType, Timestamp};
use storage_analyzer_lib::scan::{
    list_files, DirEntry, FileScan, ReadOutcome, ScanError, ScanProgress, ScanWarning,
};

fn found(path: &str, kind: EntryKind, len: u64) -> DirEntry {
    DirEntry::Found {
        path: path.to_string(),
        name_is_text: true,
        metadata: EntryMetadata {
            kind,
            len,
            created: None,
            modified: None,
        },
    }
}

/// The tree that the tests walk: what reading each directory gives.
fn read(dir: &str) -> ReadOutcome {
    match dir {
        "/root" => ReadOutcome::Entries(vec![
            found("/root/a.jpg", EntryKind::File, 1),
            found("/root/sub", EntryKind::Directory, 4096),
            found("/root/link", EntryKind::Other, 0),
            found("/root/b.mp3", EntryKind::File, 2),
            found("/root/locked", EntryKind::Directory, 4096),
            found("/root/z.zip", EntryKind::File, 3),
        ]),
        "/root/sub" => ReadOutcome::Entries(vec![
            found("/root/sub/deep", EntryKind::Directory, 4096),
            found("/root/sub/c.txt", EntryKind::File, 10),
        ]),
        "/root/sub/deep" => ReadOutcome::Entries(vec![
            found("/root/sub/deep/d.exe", EntryKind::File, 20),
            found("/root/sub/deep/socket", EntryKind::Other, 0),
        ]),
        "/root/locked" => ReadOutcome::PermissionDenied,
        "/tmp/scan" => ReadOutcome::Entries(vec![
            found("/tmp/scan/subdir", EntryKind::Directory, 4096),
            found("/tmp/scan/test1.txt", EntryKind::File, 0),
        ]),
        "/tmp/scan/subdir" => ReadOutcome::Entries(vec![found(
            "/tmp/scan/subdir/test2.txt",
            EntryKind::File,
            0,
        )]),
        "/stream" => ReadOutcome::Entries(vec![
            found("/stream/ok.txt", EntryKind::File, 1),
            found("/stream/link", EntryKind::Other, 0),
            DirEntry::Unreadable {
                directory: "/stream".to_string(),
                message: "stale file handle".to_string(),
            },
            found("/stream/dir", EntryKind::Directory, 0),
            found("/stream/after.txt", EntryKind::File, 1),
        ]),
        "/stream-only" => ReadOutcome::Entries(vec![DirEntry::Unreadable {
            directory: "/stream-only".to_string(),
            message: "stale file handle".to_string(),
        }]),
        "/deep" => ReadOutcome::Entries(vec![
            found("/deep/a.txt", EntryKind::File, 1),
            found("/deep/stream", EntryKind::Directory, 0),
            found("/deep/b.txt", EntryKind::File, 1),
        ]),
        "/deep/stream" => ReadOutcome::Entries(vec![DirEntry::Unreadable {
            directory: "/deep/stream".to_string(),
            message: "stale file handle".to_string(),
        }]),
        "/names" => ReadOutcome::Entries(vec![
            DirEntry::Found {
                path: "/names/caf\u{FFFD}.JPG".to_string(),
                name_is_text: false,
                metadata: EntryMetadata {
                    kind: EntryKind::File,
                    len: 9,
                    created: None,
                    modified: None,
                },
            },
            found("/names/plain.jpg", EntryKind::File, 1),
        ]),
        "/empty" => ReadOutcome::Entries(Vec::new()),
        "/denied" => ReadOutcome::PermissionDenied,
        "/bad" => ReadOutcome::Entries(vec![
            found("/bad/ok.txt", EntryKind::File, 1),
            found("/bad/dir", EntryKind::Directory, 0),
            found("/bad/after.txt", EntryKind::File, 1),
        ]),
        "/stat" => ReadOutcome::Entries(vec![
            found("/stat/ok.txt", EntryKind::File, 1),
            DirEntry::Unknown {
                path: "/stat/gone".to_string(),
                message: "no such file".to_string(),
            },
            found("/stat/dir", EntryKind::Directory, 0),
        ]),
        _ => ReadOutcome::Failed("input/output error".to_string()),
    }
}

fn run(root: &str) -> (Result<Vec<FileInfo>, ScanError>, Vec<ScanWarning>, Vec<String>) {
    let mut scan: FileScan = list_files(root);
    let mut warnings = Vec::new();
    let mut reads = Vec::new();
    loop {
        let dir = scan.directory().to_string();
        let outcome = read(&dir);
        reads.push(dir);
        let (progress, raised) = scan.resume(outcome);
        warnings.extend(raised);
        match progress {
            ScanProgress::Read(next) => scan = next,
            ScanProgress::Done(result) => return (result, warnings, reads),
        }
    }
}

fn warning_texts(warnings: &Vec<ScanWarning>) -> Vec<String> {
    warnings
        .iter()
        .map(|w| match w {
            ScanWarning::PermissionDenied(path) => format!("denied {}", path),
            ScanWarning::Skipped(path) => format!("skipped {}", path),
        })
        .collect()
}

#[test]
fn test_list_files() {
    let temp_path = "/tmp/scan";
    let sub_dir = "/tmp/scan/subdir";

    let (result, _, _) = run(temp_path);
    let files = result.unwrap();
    let file_info1 = files.last().unwrap();
    let file_info2 = files.first().unwrap();

    assert_eq!(files.len(), 2);
    assert_eq!(file_info1.size, 0);
    assert_eq!(file_info1.directory, temp_path.to_string());
    assert_eq!(file_info2.size, 0);
    assert_eq!(file_info2.directory, sub_dir.to_string());
    assert_eq!(file_info1.name, "test1.txt");
    assert_eq!(file_info2.name, "test2.txt");
}

#[test]
fn scan_begins_with_the_root() {
    let scan = list_files("/some/where");
    assert_eq!(scan.directory(), "/some/where");
}

#[test]
fn scan_splices_directories_in_place() {
    let (result, warnings, reads) = run("/root");
    let files = result.unwrap();
    let paths: Vec<&str> = files.iter().map(|f| f.path.as_str()).collect();
    assert_eq!(
        paths,
        vec![
            "/root/a.jpg",
            "/root/sub/deep/d.exe",
            "/root/sub/c.txt",
            "/root/b.mp3",
            "/root/z.zip",
        ]
    );
    let dirs: Vec<&str> = files.iter().map(|f| f.directory.as_str()).collect();
    assert_eq!(
        dirs,
        vec!["/root", "/root/sub/deep", "/root/sub", "/root", "/root"]
    );
    let sizes: Vec<u64> = files.iter().map(|f| f.size).collect();
    assert_eq!(sizes, vec![1, 20, 10, 2, 3]);
    let kinds: Vec<FileType> = files.iter().map(|f| f.file_type).collect();
    assert_eq!(
        kinds,
        vec![
            FileType::Photos,
            FileType::Executables,
            FileType::Documents,
            FileType::Audio,
            FileType::Archives,
        ]
    );
    assert!(files.iter().all(|f| f.created == Timestamp::epoch()));
    assert_eq!(
        reads,
        vec!["/root", "/root/sub", "/root/sub/deep", "/root/locked"]
    );
    assert_eq!(
        warning_texts(&warnings),
        vec![
            "skipped /root/sub/deep/socket",
            "skipped /root/link",
            "denied /root/locked",
        ]
    );
}

#[test]
fn scan_of_empty_directory_finds_nothing() {
    let (result, warnings, reads) = run("/empty");
    assert!(result.unwrap().is_empty());
    assert!(warnings.is_empty());
    assert_eq!(reads, vec!["/empty"]);
}

#[test]
fn scan_of_denied_root_is_empty_with_warning() {
    let (result, warnings, _) = run("/denied");
    assert!(result.unwrap().is_empty());
    assert_eq!(warning_texts(&warnings), vec!["denied /denied"]);
}

#[test]
fn scan_fails_when_root_cannot_be_read() {
    let (result, warnings, _) = run("/missing");
    let error = result.unwrap_err();
    assert_eq!(error.path, "/missing");
    assert_eq!(error.message, "input/output error");
    assert!(warnings.is_empty());
}

#[test]
fn scan_fails_when_a_subdirectory_cannot_be_read() {
    let (result, _, reads) = run("/bad");
    let error = result.unwrap_err();
    assert_eq!(error.path, "/bad/dir");
    assert_eq!(error.message, "input/output error");
    assert_eq!(reads, vec!["/bad", "/bad/dir"]);
}

#[test]
fn scan_fails_when_metadata_cannot_be_read() {
    let (result, _, reads) = run("/stat");
    let error = result.unwrap_err();
    assert_eq!(error.path, "/stat/gone");
    assert_eq!(error.message, "no such file");
    assert_eq!(reads, vec!["/stat"]);
}

#[test]
fn scan_fails_when_an_entry_cannot_be_read() {
    let (result, warnings, reads) = run("/stream");
    let error = result.unwrap_err();
    assert_eq!(error.path, "/stream");
    assert_eq!(error.message, "stale file handle");
    assert_eq!(reads, vec!["/stream"]);
    assert_eq!(warning_texts(&warnings), vec!["skipped /stream/link"]);
}

#[test]
fn scan_fails_when_the_only_entry_cannot_be_read() {
    let (result, warnings, _) = run("/stream-only");
    let error = result.unwrap_err();
    assert_eq!(error.path, "/stream-only");
    assert_eq!(error.message, "stale file handle");
    assert!(warnings.is_empty());
}

#[test]
fn scan_fails_when_an_entry_of_a_subdirectory_cannot_be_read() {
    let (result, _, reads) = run("/deep");
    let error = result.unwrap_err();
    assert_eq!(error.path, "/deep/stream");
    assert_eq!(error.message, "stale file handle");
    assert_eq!(reads, vec!["/deep", "/deep/stream"]);
}

#[test]
fn scan_names_a_file_unknown_when_its_name_is_not_text() {
    let (result, _, _) = run("/names");
    let files = result.unwrap();
    assert_eq!(files.len(), 2);
    assert_eq!(files[0].name, "unknown");
    assert_eq!(files[0].path, "/names/caf\u{FFFD}.JPG");
    assert_eq!(files[0].directory, "/names");
    assert_eq!(files[0].file_type, FileType::Photos);
    assert_eq!(files[0].size, 9);
    assert_eq!(files[1].name, "plain.jpg");
}
