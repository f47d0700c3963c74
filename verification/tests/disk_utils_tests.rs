use storage_analyzer_lib::disk_utils::{
    categorize_file, classify_extension, create_file_info, get_disk_space, get_drives, str_eq,
    EntryKind, EntryMetadata, FileType, Timestamp, Volume,
};

fn volumes() -> Vec<Volume> {
    vec![
        Volume {
            mount_point: "/mnt/data".to_string(),
            total_space: 1000,
            available_space: 400,
        },
        Volume {
            mount_point: "/home".to_string(),
            total_space: 500,
            available_space: 100,
        },
        Volume {
            mount_point: "/home/user".to_string(),
            total_space: 50,
            available_space: 10,
        },
    ]
}

#[test]
fn test_get_disk_space() {
    let result = get_disk_space("/home/user/projects", &volumes());

    assert!(result.is_some());
    let (total, free) = result.unwrap();
    assert!(total > 0);
    assert!(free > 0);
    assert_eq!((total, free), (500, 100));
}

#[test]
fn test_get_disk_space_invalid_path() {
    let result = get_disk_space("/nonexistent/path", &volumes());
    assert!(result.is_none());
}

#[test]
fn disk_space_matches_whole_components_only() {
    assert_eq!(get_disk_space("/mnt/database", &volumes()), None);
    assert_eq!(get_disk_space("/mnt/data", &volumes()), Some((1000, 400)));
    assert_eq!(get_disk_space("/mnt/data/x/y", &volumes()), Some((1000, 400)));
    assert_eq!(get_disk_space("/mnt/data", &Vec::new()), None);
}

#[test]
fn drives_are_the_mount_points_in_order() {
    assert_eq!(
        get_drives(&volumes()),
        vec![
            "/mnt/data".to_string(),
            "/home".to_string(),
            "/home/user".to_string()
        ]
    );
    assert_eq!(get_drives(&Vec::new()), Vec::<String>::new());
}

#[test]
fn classify_every_listed_extension() {
    for ext in ["jpg", "jpeg", "png", "gif", "bmp", "webp", "tiff", "raw", "heic"] {
        assert_eq!(classify_extension(ext), FileType::Photos);
    }
    for ext in ["mp4", "mov", "avi", "mkv", "wmv", "flv", "webm"] {
        assert_eq!(classify_extension(ext), FileType::Videos);
    }
    for ext in ["mp3", "wav", "ogg", "m4a", "flac", "aac"] {
        assert_eq!(classify_extension(ext), FileType::Audio);
    }
    for ext in [
        "pdf", "doc", "docx", "txt", "rtf", "xls", "xlsx", "ppt", "pptx", "odt", "ods", "odp",
        "csv",
    ] {
        assert_eq!(classify_extension(ext), FileType::Documents);
    }
    for ext in ["zip", "rar", "7z", "tar", "gz", "bz2"] {
        assert_eq!(classify_extension(ext), FileType::Archives);
    }
    for ext in ["exe", "msi", "dll", "app", "dmg", "deb", "rpm"] {
        assert_eq!(classify_extension(ext), FileType::Executables);
    }
}

#[test]
fn classify_unlisted_extensions_as_other() {
    for ext in ["", "rs", "jp", "jpgx", "JPG", "tar.gz", "mp", " mp3"] {
        assert_eq!(classify_extension(ext), FileType::Other);
    }
}

#[test]
fn categorize_ignores_letter_case() {
    assert_eq!(categorize_file("/a/photo.JPG"), FileType::Photos);
    assert_eq!(categorize_file("/a/photo.jpg"), FileType::Photos);
    assert_eq!(categorize_file("/a/photo.JpG"), FileType::Photos);
    assert_eq!(categorize_file("clip.MOV"), FileType::Videos);
    assert_eq!(categorize_file("song.Flac"), FileType::Audio);
}

#[test]
fn categorize_lowers_letters_beyond_ascii() {
    // The Kelvin sign has the small letter k as its lowercase form.
    assert_eq!(categorize_file("/a/clip.M\u{212A}V"), FileType::Videos);
    assert_eq!(classify_extension("m\u{212A}v"), FileType::Other);
}

#[test]
fn categorize_takes_the_last_extension() {
    assert_eq!(categorize_file("/a/backup.tar.gz"), FileType::Archives);
    assert_eq!(categorize_file("/a/report.pdf.exe"), FileType::Executables);
    assert_eq!(categorize_file("/a.zip/readme"), FileType::Other);
}

#[test]
fn categorize_without_extension_is_other() {
    assert_eq!(categorize_file("/a/Makefile"), FileType::Other);
    assert_eq!(categorize_file("/a/.jpg"), FileType::Other);
    assert_eq!(categorize_file("/a/name."), FileType::Other);
    assert_eq!(categorize_file(""), FileType::Other);
    assert_eq!(categorize_file("/a/file.xyz"), FileType::Other);
}

#[test]
fn str_eq_compares_characters() {
    assert!(str_eq("", ""));
    assert!(str_eq("héllo", "héllo"));
    assert!(!str_eq("héllo", "hello"));
    assert!(!str_eq("abc", "abcd"));
    assert!(!str_eq("abd", "abc"));
}

#[test]
fn file_info_from_path_and_metadata() {
    let created = Timestamp {
        secs: 1_700_000_000,
        nanos: 5,
        before_epoch: false,
    };
    let metadata = EntryMetadata {
        kind: EntryKind::File,
        len: 1234,
        created: Some(created),
        modified: None,
    };
    let info = create_file_info(&metadata, "/a/b/c.TXT", true);
    assert_eq!(info.name, "c.TXT");
    assert_eq!(info.path, "/a/b/c.TXT");
    assert_eq!(info.directory, "/a/b");
    assert_eq!(info.file_type, FileType::Documents);
    assert_eq!(info.size, 1234);
    assert_eq!(info.created, created);
    assert_eq!(info.modified, Timestamp::epoch());
    assert_eq!(
        Timestamp::epoch(),
        Timestamp {
            secs: 0,
            nanos: 0,
            before_epoch: false
        }
    );
}

#[test]
fn file_info_defaults_for_paths_without_name_or_parent() {
    let metadata = EntryMetadata {
        kind: EntryKind::File,
        len: 0,
        created: None,
        modified: None,
    };
    let root = create_file_info(&metadata, "/", true);
    assert_eq!(root.name, "unknown");
    assert_eq!(root.directory, "");
    assert_eq!(root.file_type, FileType::Other);
    let bare = create_file_info(&metadata, "notes.txt", true);
    assert_eq!(bare.name, "notes.txt");
    assert_eq!(bare.directory, "");
    let up = create_file_info(&metadata, "/a/..", true);
    assert_eq!(up.name, "unknown");
    assert_eq!(up.directory, "/a");
}

#[test]
fn file_info_is_unknown_where_the_name_is_not_text() {
    let metadata = EntryMetadata {
        kind: EntryKind::File,
        len: 3,
        created: None,
        modified: None,
    };
    let info = create_file_info(&metadata, "/a/b\u{FFFD}.mp3", false);
    assert_eq!(info.name, "unknown");
    assert_eq!(info.path, "/a/b\u{FFFD}.mp3");
    assert_eq!(info.directory, "/a");
    assert_eq!(info.file_type, FileType::Audio);
    let root = create_file_info(&metadata, "/", false);
    assert_eq!(root.name, "unknown");
}

#[test]
fn categorize_by_the_text_behind_the_last_dot() {
    assert_eq!(categorize_file("/a/x.mp3.jpg"), FileType::Photos);
    assert_eq!(categorize_file("/a/x.jpg.mp3"), FileType::Audio);
    assert_eq!(categorize_file("/a/.hidden.zip"), FileType::Archives);
    assert_eq!(categorize_file("/a/.zip"), FileType::Other);
    assert_eq!(categorize_file("/a/zip"), FileType::Other);
    assert_eq!(categorize_file("/a/x.zip."), FileType::Other);
    assert_eq!(categorize_file("/a.zip/"), FileType::Archives);
    assert_eq!(categorize_file("/a/x.zip/.."), FileType::Other);
}
