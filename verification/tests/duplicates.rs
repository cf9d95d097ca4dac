use std::io::Write;

use win_disk_info::{
    calculate_directory_size, find_duplicate_files, get_files, group_by_digest,
    select_hash_candidates, FileEntry,
};

fn entry(name: &str, size: u64) -> FileEntry {
    FileEntry::new(format!("/scan/{}", name), name.to_string(), size, 0)
}

#[test]
fn test_select_hash_candidates() {
    let files = vec![
        entry("a.bin", 10),
        entry("b.bin", 20),
        entry("c.bin", 10),
        entry("d.bin", 0),
        entry("e.bin", 0),
        entry("f.bin", 30),
    ];
    let candidates = select_hash_candidates(&files);
    // Only the two 10-byte files share a size; empty files are never
    // candidates, even though two of them share the size zero.
    assert_eq!(candidates.len(), 2);
    assert_eq!(candidates[0].name(), "a.bin");
    assert_eq!(candidates[1].name(), "c.bin");
}

#[test]
fn test_group_by_digest() {
    let pairs = vec![
        (entry("a.bin", 10), "aaaa".to_string()),
        (entry("b.bin", 10), "bbbb".to_string()),
        (entry("c.bin", 10), "aaaa".to_string()),
        (entry("d.bin", 20), "cccc".to_string()),
        (entry("e.bin", 10), "aaaa".to_string()),
    ];
    let groups = group_by_digest(&pairs);
    // One key is held three times; every other key only once.
    assert_eq!(groups.len(), 1);
    assert_eq!(groups[0].len(), 3);
    assert_eq!(groups[0][0].name(), "a.bin");
    assert_eq!(groups[0][1].name(), "c.bin");
    assert_eq!(groups[0][2].name(), "e.bin");
}

#[test]
fn test_group_by_digest_size_guards_hash() {
    // Equal digests with different sizes never group: membership
    // needs equal size and equal digest.
    let pairs = vec![
        (entry("a.bin", 10), "aaaa".to_string()),
        (entry("b.bin", 20), "aaaa".to_string()),
    ];
    let groups = group_by_digest(&pairs);
    assert!(groups.is_empty());
}

#[test]
fn test_round_trip_scan() {
    // A directory with files of sizes 100, 2000, 5000, 1500 and 1500
    // plus one subdirectory file of 1000: six records, 11100 bytes,
    // and the two identical 1500-byte files form exactly one
    // duplicate group of two.
    let dir = tempfile::tempdir().expect("could not create temporary directory");
    let mut keep = Vec::new();
    for size in [100usize, 2000, 5000] {
        let mut f = tempfile::Builder::new()
            .suffix(".txt")
            .tempfile_in(dir.path())
            .expect("could not create file");
        f.write_all(&vec![b'A'; size]).expect("could not write file");
        keep.push(f);
    }
    for _ in 0..2 {
        let mut f = tempfile::Builder::new()
            .suffix(".dat")
            .tempfile_in(dir.path())
            .expect("could not create file");
        f.write_all(&vec![b'A'; 1500]).expect("could not write file");
        keep.push(f);
    }
    let subdir = tempfile::tempdir_in(dir.path()).expect("could not create subdirectory");
    let mut sub = tempfile::Builder::new()
        .suffix(".txt")
        .tempfile_in(subdir.path())
        .expect("could not create file in subdirectory");
    sub.write_all(&vec![b'B'; 1000]).expect("could not write file");
    keep.push(sub);

    let path = dir.path().to_str().unwrap();
    let files = get_files(path).unwrap();
    assert_eq!(files.len(), 6);
    assert_eq!(calculate_directory_size(path).unwrap(), 11100);

    let groups = find_duplicate_files(path).unwrap();
    assert_eq!(groups.len(), 1);
    assert_eq!(groups[0].len(), 2);
    for member in &groups[0] {
        assert_eq!(member.size(), 1500);
    }
}

#[test]
fn test_empty_files_never_grouped() {
    let dir = tempfile::tempdir().expect("could not create temporary directory");
    let mut keep = Vec::new();
    for _ in 0..3 {
        let f = tempfile::Builder::new()
            .suffix(".log")
            .tempfile_in(dir.path())
            .expect("could not create file");
        keep.push(f);
    }
    let groups = find_duplicate_files(dir.path().to_str().unwrap()).unwrap();
    assert!(groups.is_empty());
}
