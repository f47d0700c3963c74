use storage_analyzer_lib::disk_utils::{get_disk_space, FileInfo, FileType, Timestamp, Volume};
use storage_analyzer_lib::scan::ScanError;
use storage_analyzer_lib::{
    analyze_drive, begin_analysis, complete_analysis, totals_fit_in_u64, DriveAnalysis, File,
    PIE_CHART_SLICE_COUNT,
};

const MB: u64 = 1024 * 1024;

fn record(path: &str, directory: &str, name: &str, file_type: FileType, size: u64) -> FileInfo {
    FileInfo {
        name: name.to_string(),
        path: path.to_string(),
        directory: directory.to_string(),
        file_type,
        size,
        created: Timestamp::epoch(),
        modified: Timestamp::epoch(),
    }
}

fn scenario_files() -> Vec<FileInfo> {
    vec![
        record("/path1/file1.jpg", "/path1", "file1.jpg", FileType::Photos, 5 * MB),
        record("/path1/file2.mp3", "/path1", "file2.mp3", FileType::Audio, 10 * MB),
        record("/path2/file3.txt", "/path2", "file3.txt", FileType::Documents, 15 * MB),
        record("/path2/file4.mov", "/path2", "file4.mov", FileType::Videos, 20 * MB),
        record("/path3/file5.zip", "/path3", "file5.zip", FileType::Archives, 25 * MB),
        record("/path3/file6.exe", "/path3", "file6.exe", FileType::Executables, 30 * MB),
    ]
}

fn failure() -> ScanError {
    ScanError {
        path: "/data/broken".to_string(),
        message: "input/output error".to_string(),
    }
}

#[test]
fn file_from_labels_each_category() {
    let labels = [
        (FileType::Photos, "Photo"),
        (FileType::Videos, "Video"),
        (FileType::Audio, "Audio"),
        (FileType::Documents, "Document"),
        (FileType::Archives, "Archive"),
        (FileType::Executables, "Executable"),
        (FileType::Other, "Other"),
    ];
    for (file_type, label) in labels {
        let modified = Timestamp {
            secs: 12,
            nanos: 34,
            before_epoch: true,
        };
        let mut info = record("/d/n.x", "/d", "n.x", file_type, 77);
        info.modified = modified;
        let file = File::from(info);
        assert_eq!(file.name, "n.x");
        assert_eq!(file.path, "/d/n.x");
        assert_eq!(file.file_type, label);
        assert_eq!(file.size, 77);
        assert_eq!(file.created, Timestamp::epoch());
        assert_eq!(file.modified, modified);
    }
}

#[test]
fn default_analysis_is_empty() {
    let analysis = DriveAnalysis::default();
    assert_eq!(analysis.total, 0);
    assert_eq!(analysis.used, 0);
    assert_eq!(analysis.categories.photos, 0);
    assert_eq!(analysis.categories.videos, 0);
    assert_eq!(analysis.categories.audio, 0);
    assert_eq!(analysis.categories.executables, 0);
    assert_eq!(analysis.categories.documents, 0);
    assert_eq!(analysis.categories.archives, 0);
    assert_eq!(analysis.categories.other, 0);
    assert_eq!(analysis.categories.free, 0);
    assert!(analysis.largest_files.is_empty());
    assert!(analysis.largest_directories.is_empty());
}

#[test]
fn analysis_fails_without_volume() {
    let volumes = vec![Volume {
        mount_point: "/mnt/data".to_string(),
        total_space: 1000,
        available_space: 400,
    }];
    let space = get_disk_space("/nonexistent/path", &volumes);
    let report = analyze_drive("/nonexistent/path", space, Ok(scenario_files()));
    assert_eq!(
        report.err(),
        Some("Error getting disk space for: /nonexistent/path".to_string())
    );
    let report = analyze_drive("/nonexistent/path", None, Err(failure()));
    assert_eq!(
        report.err(),
        Some("Error getting disk space for: /nonexistent/path".to_string())
    );
    assert_eq!(
        begin_analysis("/x", None).err(),
        Some("Error getting disk space for: /x".to_string())
    );
}

#[test]
fn analysis_fails_with_scan() {
    let report = analyze_drive("/data", Some((1000, 400)), Err(failure()));
    assert_eq!(
        report.err(),
        Some("Error getting files for: /data".to_string())
    );
    let started = begin_analysis("/data", Some((1000, 400))).unwrap();
    assert_eq!(
        complete_analysis(started, "/data", Err(failure())).err(),
        Some("Error getting files for: /data".to_string())
    );
}

#[test]
fn used_is_total_less_available() {
    for files in [Vec::new(), scenario_files()] {
        let report = analyze_drive("/data", Some((1000 * MB, 400 * MB)), Ok(files)).unwrap();
        assert_eq!(report.total, 1000 * MB);
        assert_eq!(report.used, 600 * MB);
        assert_eq!(report.categories.free, 400 * MB);
    }
    let full = analyze_drive("/data", Some((7, 7)), Ok(Vec::new())).unwrap();
    assert_eq!(full.used, 0);
    let empty = analyze_drive("/data", Some((7, 0)), Ok(Vec::new())).unwrap();
    assert_eq!(empty.used, 7);
}

#[test]
fn scenario_report() {
    let report = analyze_drive("/", Some((1000 * MB, 400 * MB)), Ok(scenario_files())).unwrap();
    assert_eq!(report.categories.photos, 5 * MB);
    assert_eq!(report.categories.audio, 10 * MB);
    assert_eq!(report.categories.documents, 15 * MB);
    assert_eq!(report.categories.videos, 20 * MB);
    assert_eq!(report.categories.archives, 25 * MB);
    assert_eq!(report.categories.executables, 30 * MB);
    // No file of category Other: the slot keeps all bytes in use.
    assert_eq!(report.categories.other, 600 * MB);
    let names: Vec<&str> = report.largest_files.iter().map(|f| f.name.as_str()).collect();
    assert_eq!(
        names,
        vec!["file6.exe", "file5.zip", "file4.mov", "file3.txt", "file2.mp3", "file1.jpg"]
    );
    assert_eq!(report.largest_files[0].file_type, "Executable");
    assert_eq!(report.largest_files[0].size, 30 * MB);
    let dirs: Vec<(&str, u64)> = report
        .largest_directories
        .iter()
        .map(|d| (d.path.as_str(), d.size))
        .collect();
    assert_eq!(
        dirs,
        vec![("/path3", 55 * MB), ("/path2", 35 * MB), ("/path1", 15 * MB)]
    );
}

#[test]
fn other_is_overwritten_when_a_file_of_it_exists() {
    let mut files = scenario_files();
    files.push(record("/path1/blob", "/path1", "blob", FileType::Other, 495 * MB));
    let report = analyze_drive("/", Some((1000 * MB, 400 * MB)), Ok(files)).unwrap();
    assert_eq!(report.categories.other, 495 * MB);
    let c = report.categories;
    let sum = c.photos + c.videos + c.audio + c.executables + c.documents + c.archives + c.other;
    // The files found are all that is in use: the categories account for the capacity.
    assert_eq!(sum + c.free, report.total);
}

#[test]
fn categories_do_not_account_for_capacity_when_files_are_only_part() {
    let files = vec![record("/d/blob", "/d", "blob", FileType::Other, 1)];
    let report = analyze_drive("/d", Some((100, 40)), Ok(files)).unwrap();
    let c = report.categories;
    let sum = c.photos + c.videos + c.audio + c.executables + c.documents + c.archives + c.other;
    assert_eq!(sum, 1);
    assert_ne!(sum + c.free, report.total);
}

#[test]
fn report_lists_at_most_twenty() {
    assert_eq!(PIE_CHART_SLICE_COUNT, 20);
    let mut files = Vec::new();
    for i in 0..100u64 {
        let dir = format!("/d{}", i);
        files.push(record(
            &format!("{}/f", dir),
            &dir,
            "f",
            FileType::Documents,
            i + 1,
        ));
    }
    let report = analyze_drive("/", Some((10_000, 100)), Ok(files)).unwrap();
    assert_eq!(report.largest_files.len(), 20);
    assert_eq!(report.largest_directories.len(), 20);
    assert_eq!(report.largest_files[0].size, 100);
    assert_eq!(report.largest_files[19].size, 81);
    assert_eq!(report.largest_directories[0].path, "/d99");
    assert_eq!(report.largest_directories[19].size, 81);
}

#[test]
fn totals_fit_detects_overflow_of_a_category_or_a_directory() {
    assert!(totals_fit_in_u64(&Vec::new()));
    assert!(totals_fit_in_u64(&scenario_files()));
    let edge = vec![
        record("/d/a", "/d", "a", FileType::Other, u64::MAX - 1),
        record("/d/b", "/d", "b", FileType::Other, 1),
    ];
    assert!(totals_fit_in_u64(&edge));
    let same_category = vec![
        record("/d/a", "/d", "a", FileType::Other, u64::MAX),
        record("/e/b", "/e", "b", FileType::Other, 1),
    ];
    assert!(!totals_fit_in_u64(&same_category));
    let same_directory = vec![
        record("/d/a.jpg", "/d", "a.jpg", FileType::Photos, u64::MAX),
        record("/d/b.mp3", "/d", "b.mp3", FileType::Audio, 1),
    ];
    assert!(!totals_fit_in_u64(&same_directory));
}

#[test]
fn totals_fit_where_only_all_files_together_do_not() {
    let files = vec![
        record("/d/a.jpg", "/d", "a.jpg", FileType::Photos, u64::MAX),
        record("/e/b.mp3", "/e", "b.mp3", FileType::Audio, u64::MAX),
    ];
    assert!(totals_fit_in_u64(&files));
    let report = analyze_drive("/", Some((10, 4)), Ok(files)).unwrap();
    assert_eq!(report.used, 6);
    assert_eq!(report.categories.photos, u64::MAX);
    assert_eq!(report.categories.audio, u64::MAX);
    assert_eq!(report.categories.other, 6);
    assert_eq!(report.largest_directories.len(), 1);
    assert_eq!(report.largest_directories[0].path, "/e");
    assert_eq!(report.largest_files[0].name, "b.mp3");
}

#[test]
fn other_keeps_bytes_in_use_without_a_file_of_it() {
    let report = analyze_drive("/", Some((1000 * MB, 400 * MB)), Ok(scenario_files())).unwrap();
    let c = report.categories;
    assert_eq!(c.other, 600 * MB);
    let sum = c.photos + c.videos + c.audio + c.executables + c.documents + c.archives + c.other;
    // The seven categories and the free bytes exceed the capacity by the bytes found.
    assert_eq!(sum + c.free, report.total + 105 * MB);
}
