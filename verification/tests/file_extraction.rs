use std::io::Write;

use win_disk_info::{
    calculate_directory_size, format_file_size, get_files, get_files_by_pattern,
    get_largest_files, get_recently_modified_files,
};

/// A test directory with five files in the root and one in a
/// subdirectory, of known sizes and contents.
struct TestTree {
    dir: tempfile::TempDir,
    _subdir: tempfile::TempDir,
    _files: Vec<tempfile::NamedTempFile>,
}

fn setup_test_directory() -> TestTree {
    let dir = tempfile::tempdir().expect("could not create temporary directory");
    let mut files = Vec::new();
    let plan = [
        ("small", ".txt", 100usize),
        ("medium", ".txt", 2000),
        ("large", ".txt", 5000),
        ("test_file", ".dat", 1500),
        ("another_test", ".dat", 1500),
    ];
    for (prefix, suffix, size) in plan.iter() {
        let mut f = tempfile::Builder::new()
            .prefix(*prefix)
            .suffix(*suffix)
            .tempfile_in(dir.path())
            .expect("could not create file");
        f.write_all(&vec![b'A'; *size]).expect("could not write file");
        files.push(f);
    }
    let subdir = tempfile::tempdir_in(dir.path()).expect("could not create subdirectory");
    let mut sub = tempfile::Builder::new()
        .prefix("subfile")
        .suffix(".txt")
        .tempfile_in(subdir.path())
        .expect("could not create file in subdirectory");
    sub.write_all(&vec![b'B'; 1000]).expect("could not write subdirectory file");
    files.push(sub);
    TestTree { dir, _subdir: subdir, _files: files }
}

#[test]
fn test_get_files() {
    let tree = setup_test_directory();
    let result = get_files(tree.dir.path().to_str().unwrap());

    assert!(result.is_ok());
    let files = result.unwrap();

    // Five files in the root directory and one in the subdirectory.
    assert_eq!(files.len(), 6);
}

#[test]
fn test_get_files_by_pattern() {
    let tree = setup_test_directory();
    let result = get_files_by_pattern(tree.dir.path().to_str().unwrap(), "test");

    assert!(result.is_ok());
    let files = result.unwrap();

    // Two files carry "test" in their name.
    assert_eq!(files.len(), 2);

    for file in files {
        assert!(file.name().contains("test"));
    }
}

#[test]
fn test_recently_modified_files() {
    let tree = setup_test_directory();
    let result = get_recently_modified_files(tree.dir.path().to_str().unwrap(), 1);

    assert!(result.is_ok());
    let files = result.unwrap();

    // Everything was written a moment ago.
    assert_eq!(files.len(), 6);
}

#[test]
fn test_calculate_directory_size() {
    let tree = setup_test_directory();
    let result = calculate_directory_size(tree.dir.path().to_str().unwrap());

    assert!(result.is_ok());
    let size = result.unwrap();

    // 100 + 2000 + 5000 + 1500 + 1500 + 1000.
    assert_eq!(size, 11100);
}

#[test]
fn test_directory_size_is_sum_of_file_sizes() {
    let tree = setup_test_directory();
    let path = tree.dir.path().to_str().unwrap();
    let files = get_files(path).unwrap();
    let total: u64 = files.iter().map(|f| f.size()).sum();
    assert_eq!(calculate_directory_size(path).unwrap(), total);
}

#[test]
fn test_get_largest_files() {
    let tree = setup_test_directory();
    let path = tree.dir.path().to_str().unwrap();
    let largest = get_largest_files(path, 3).unwrap();

    assert_eq!(largest.len(), 3);
    assert_eq!(largest[0].size(), 5000);
    assert_eq!(largest[1].size(), 2000);
    assert_eq!(largest[2].size(), 1500);
    for w in largest.windows(2) {
        assert!(w[0].size() >= w[1].size());
    }

    // Asking for more than there is returns everything, still sorted.
    let all = get_largest_files(path, 100).unwrap();
    assert_eq!(all.len(), 6);
    for w in all.windows(2) {
        assert!(w[0].size() >= w[1].size());
    }

    // Ties keep walk order: the two 1500-byte files appear in the
    // same relative order as the plain walk yields them.
    let walked: Vec<String> = get_files(path)
        .unwrap()
        .iter()
        .filter(|f| f.size() == 1500)
        .map(|f| f.name().to_string())
        .collect();
    let ranked: Vec<String> = all
        .iter()
        .filter(|f| f.size() == 1500)
        .map(|f| f.name().to_string())
        .collect();
    assert_eq!(walked, ranked);
}

#[test]
fn test_format_file_size() {
    assert_eq!(format_file_size(100), "100 bytes");

    assert_eq!(format_file_size(2048), "2.00 KB");

    let mb_size = 1024 * 1024 * 5;
    assert_eq!(format_file_size(mb_size), "5.00 MB");

    let gb_size = 1024 * 1024 * 1024 * 2;
    assert_eq!(format_file_size(gb_size), "2.00 GB");

    let tb_size = 1024 * 1024 * 1024 * 1024 * 3;
    assert_eq!(format_file_size(tb_size), "3.00 TB");
}

#[test]
fn test_format_file_size_rounds_ties_to_even() {
    // 1152/1024 is exactly 1.125: the even hundredth wins.
    assert_eq!(format_file_size(1152), "1.12 KB");
    // 1408/1024 is exactly 1.375: the odd hundredth rounds up.
    assert_eq!(format_file_size(1408), "1.38 KB");
    // Above and below an exact half round to the nearest hundredth.
    assert_eq!(format_file_size(1153), "1.13 KB");
    assert_eq!(format_file_size(1151), "1.12 KB");
}
