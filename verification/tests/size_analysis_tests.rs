use storage_analyzer_lib::disk_utils::{FileInfo, FileType, Timestamp};
use storage_analyzer_lib::category_totals::CategoryTotals;
use storage_analyzer_lib::directory_totals::DirectoryTotals;
use storage_analyzer_lib::size_analysis::{
    aggregate_directories, analyze_file_categories, analyze_largest_dirs, analyze_largest_files,
};
use storage_analyzer_lib::top_k::{select_top_k, Entry, TopK};

const MB: u64 = 1024 * 1024;

fn file(name: &str, directory: &str, file_type: FileType, size: u64) -> FileInfo {
    FileInfo {
        name: name.to_string(),
        path: format!("{}/{}", directory, name),
        directory: directory.to_string(),
        file_type,
        size,
        created: Timestamp::epoch(),
        modified: Timestamp::epoch(),
    }
}

fn get_test_files() -> Vec<FileInfo> {
    vec![
        FileInfo {
            name: "file1.jpg".to_string(),
            path: "/path1/file1.jpg".to_string(),
            directory: "/path1".to_string(),
            file_type: FileType::Photos,
            size: 5 * 1024 * 1024,
            created: Timestamp::epoch(),
            modified: Timestamp::epoch(),
        },
        FileInfo {
            name: "file2.mp3".to_string(),
            path: "/path1/file2.mp3".to_string(),
            directory: "/path1".to_string(),
            file_type: FileType::Audio,
            size: 10 * 1024 * 1024,
            created: Timestamp::epoch(),
            modified: Timestamp::epoch(),
        },
        FileInfo {
            name: "file3.txt".to_string(),
            path: "/path2/file3.txt".to_string(),
            directory: "/path2".to_string(),
            file_type: FileType::Documents,
            size: 15 * 1024 * 1024,
            created: Timestamp::epoch(),
            modified: Timestamp::epoch(),
        },
        FileInfo {
            name: "file4.mov".to_string(),
            path: "/path2/file4.mov".to_string(),
            directory: "/path2".to_string(),
            file_type: FileType::Videos,
            size: 20 * 1024 * 1024,
            created: Timestamp::epoch(),
            modified: Timestamp::epoch(),
        },
        FileInfo {
            name: "file5.zip".to_string(),
            path: "/path3/file5.zip".to_string(),
            directory: "/path3".to_string(),
            file_type: FileType::Archives,
            size: 25 * 1024 * 1024,
            created: Timestamp::epoch(),
            modified: Timestamp::epoch(),
        },
        FileInfo {
            name: "file6.exe".to_string(),
            path: "/path3/file6.exe".to_string(),
            directory: "/path3".to_string(),
            file_type: FileType::Executables,
            size: 30 * 1024 * 1024,
            created: Timestamp::epoch(),
            modified: Timestamp::epoch(),
        },
    ]
}

#[test]
fn test_analyze_file_categories() {
    let files = get_test_files();
    let categories = analyze_file_categories(&files);

    assert_eq!(*categories.get(&FileType::Photos).unwrap(), 5 * 1024 * 1024);
    assert_eq!(*categories.get(&FileType::Audio).unwrap(), 10 * 1024 * 1024);
    assert_eq!(
        *categories.get(&FileType::Documents).unwrap(),
        15 * 1024 * 1024
    );
    assert_eq!(
        *categories.get(&FileType::Videos).unwrap(),
        20 * 1024 * 1024
    );
    assert_eq!(
        *categories.get(&FileType::Archives).unwrap(),
        25 * 1024 * 1024
    );
    assert_eq!(
        *categories.get(&FileType::Executables).unwrap(),
        30 * 1024 * 1024
    );
}

#[test]
fn test_analyze_largest_files() {
    let files = get_test_files();
    let largest_files = analyze_largest_files(&files, 3);

    assert_eq!(largest_files.len(), 3);
    assert_eq!(largest_files[0].name, "file6.exe");
    assert_eq!(largest_files[1].name, "file5.zip");
    assert_eq!(largest_files[2].name, "file4.mov");
}

#[test]
fn test_analyze_largest_dirs() {
    let files = get_test_files();
    let largest_dirs = analyze_largest_dirs(&files, 2);

    let (size1, dir1) = largest_dirs.first().unwrap();
    let (size2, dir2) = largest_dirs.last().unwrap();
    assert_eq!(*size1, 55 * 1024 * 1024);
    assert_eq!(dir1, "/path3");
    assert_eq!(*size2, 35 * 1024 * 1024);
    assert_eq!(dir2, "/path2");
}

#[test]
fn categories_without_files_are_absent() {
    let files = get_test_files();
    let categories = analyze_file_categories(&files);
    assert!(categories.get(&FileType::Other).is_none());
    let none = analyze_file_categories(&Vec::new());
    assert!(none.get(&FileType::Photos).is_none());
    assert!(none.get(&FileType::Other).is_none());
}

#[test]
fn category_of_empty_files_is_present_with_zero() {
    let files = vec![file("empty.bin", "/d", FileType::Other, 0)];
    let categories = analyze_file_categories(&files);
    assert_eq!(categories.get(&FileType::Other), Some(&0));
}

#[test]
fn categories_sum_files_of_one_category() {
    let files = vec![
        file("a.jpg", "/d", FileType::Photos, 7),
        file("b.mp3", "/d", FileType::Audio, 11),
        file("c.png", "/e", FileType::Photos, 13),
    ];
    let categories = analyze_file_categories(&files);
    assert_eq!(categories.get(&FileType::Photos), Some(&20));
    assert_eq!(categories.get(&FileType::Audio), Some(&11));
    assert_eq!(categories.get(&FileType::Videos), None);
}

#[test]
fn category_totals_merge_adds_matching_categories() {
    let left = CategoryTotals::new().add(FileType::Photos, 5).add(FileType::Audio, 1);
    let right = CategoryTotals::new().add(FileType::Photos, 7).add(FileType::Videos, 2);
    let merged = left.merge(right);
    assert_eq!(merged.get(&FileType::Photos), Some(&12));
    assert_eq!(merged.get(&FileType::Audio), Some(&1));
    assert_eq!(merged.get(&FileType::Videos), Some(&2));
    assert_eq!(merged.get(&FileType::Other), None);
}

#[test]
fn category_totals_do_not_depend_on_the_split() {
    let files = get_test_files();
    let whole = analyze_file_categories(&files);
    for cut in 0..=files.len() {
        let left = analyze_file_categories(&files[..cut].to_vec());
        let right = analyze_file_categories(&files[cut..].to_vec());
        let merged = left.merge(right);
        for category in [
            FileType::Photos,
            FileType::Videos,
            FileType::Audio,
            FileType::Documents,
            FileType::Archives,
            FileType::Executables,
            FileType::Other,
        ] {
            assert_eq!(merged.get(&category), whole.get(&category));
        }
    }
}

#[test]
fn directory_grouping_is_by_immediate_parent() {
    let files = vec![
        file("c.txt", "/a/b", FileType::Documents, 100),
        file("top.txt", "/a", FileType::Documents, 1),
        file("d.txt", "/a/b", FileType::Documents, 10),
    ];
    let totals = aggregate_directories(&files);
    assert_eq!(totals.len(), 2);
    assert_eq!(totals.get("/a/b"), Some(110));
    assert_eq!(totals.get("/a"), Some(1));
    assert_eq!(totals.get("/"), None);
    let (paths, sizes) = totals.into_parts();
    assert_eq!(paths, vec!["/a/b".to_string(), "/a".to_string()]);
    assert_eq!(sizes, vec![110, 1]);
}

#[test]
fn directory_totals_merge_keeps_first_occurrence_order() {
    let left = DirectoryTotals::new().add("/x", 1).add("/y", 2);
    let right = DirectoryTotals::new().add("/z", 4).add("/x", 8);
    let merged = left.merge(right);
    let (paths, sizes) = merged.into_parts();
    assert_eq!(paths, vec!["/x".to_string(), "/y".to_string(), "/z".to_string()]);
    assert_eq!(sizes, vec![9, 2, 4]);
}

#[test]
fn largest_dirs_of_many_files() {
    let mut files = Vec::new();
    for i in 0..1000u64 {
        let dir = format!("/dir{}", i % 50);
        files.push(file(&format!("f{}.txt", i), &dir, FileType::Documents, i));
    }
    let largest = analyze_largest_dirs(&files, 3);
    // Directory k holds the files k, k + 50, ..., k + 950: 20 k + 9500 bytes.
    assert_eq!(
        largest,
        vec![
            (20 * 49 + 9500, "/dir49".to_string()),
            (20 * 48 + 9500, "/dir48".to_string()),
            (20 * 47 + 9500, "/dir47".to_string()),
        ]
    );
}

#[test]
fn largest_files_are_sorted_and_bounded() {
    let mut files = Vec::new();
    for i in 0..5000u64 {
        let size = (i * 7919) % 5003;
        files.push(file(&format!("f{}", i), "/d", FileType::Other, size));
    }
    for n in [0usize, 1, 2, 20, 6000] {
        let largest = analyze_largest_files(&files, n);
        assert!(largest.len() <= n);
        for pair in largest.windows(2) {
            assert!(pair[0].size > pair[1].size);
        }
    }
    let largest = analyze_largest_files(&files, 3);
    let sizes: Vec<u64> = largest.iter().map(|f| f.size).collect();
    assert_eq!(sizes, vec![5002, 5001, 5000]);
}

#[test]
fn largest_files_keep_the_last_of_equal_sizes() {
    let files = vec![
        file("first", "/d", FileType::Other, 10),
        file("second", "/d", FileType::Other, 10),
        file("small", "/d", FileType::Other, 1),
        file("third", "/d", FileType::Other, 10),
    ];
    let largest = analyze_largest_files(&files, 3);
    assert_eq!(largest.len(), 2);
    assert_eq!(largest[0].name, "third");
    assert_eq!(largest[1].name, "small");
}

#[test]
fn select_top_k_returns_keys_with_positions() {
    let keys = vec![30, 10, 50, 20, 40];
    assert_eq!(
        select_top_k(&keys, 3),
        vec![
            Entry { key: 50, item: 2 },
            Entry { key: 40, item: 4 },
            Entry { key: 30, item: 0 },
        ]
    );
    assert_eq!(select_top_k(&keys, 0), Vec::new());
    assert_eq!(select_top_k(&Vec::new(), 4), Vec::new());
    assert_eq!(select_top_k(&keys, 9).len(), 5);
}

#[test]
fn top_k_insert_evicts_the_smallest() {
    let top = TopK::new(2).insert(5, 0).insert(9, 1).insert(7, 2).insert(1, 3);
    assert_eq!(
        top.into_entries(),
        vec![Entry { key: 9, item: 1 }, Entry { key: 7, item: 2 }]
    );
}

#[test]
fn top_k_insert_replaces_an_equal_key() {
    let top = TopK::new(3).insert(5, 0).insert(9, 1).insert(5, 2);
    assert_eq!(
        top.into_entries(),
        vec![Entry { key: 9, item: 1 }, Entry { key: 5, item: 2 }]
    );
}

#[test]
fn top_k_does_not_depend_on_the_partition() {
    let keys: Vec<u64> = (0..200u64).map(|i| (i * 37) % 211).collect();
    let n = 7;
    let whole = select_top_k(&keys, n);
    for cut in [0usize, 1, 50, 100, 199, 200] {
        let mut left = TopK::new(n);
        for i in 0..cut {
            left = left.insert(keys[i], i);
        }
        let mut right = TopK::new(n);
        for i in cut..keys.len() {
            right = right.insert(keys[i], i);
        }
        assert_eq!(left.merge(right).into_entries(), whole);
    }
    // Dealt out in turn to three workers, and merged in another order.
    let mut workers = vec![TopK::new(n), TopK::new(n), TopK::new(n)];
    for i in 0..keys.len() {
        let w = workers.remove(i % 3);
        workers.insert(i % 3, w.insert(keys[i], i));
    }
    let c = workers.pop().unwrap();
    let b = workers.pop().unwrap();
    let a = workers.pop().unwrap();
    assert_eq!(c.merge(a).merge(b).into_entries(), whole);
}

#[test]
fn scenario_sizes_in_megabytes() {
    let files = get_test_files();
    let largest = analyze_largest_files(&files, 3);
    let sizes: Vec<u64> = largest.iter().map(|f| f.size).collect();
    assert_eq!(sizes, vec![30 * MB, 25 * MB, 20 * MB]);
    let categories = analyze_file_categories(&files);
    assert_eq!(categories.get(&FileType::Other), None);
}
