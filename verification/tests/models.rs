use win_disk_info::{Disk, DiskError, DiskKind, FileEntry, FileSystem, Partition};

#[test]
fn test_file_entry_fields() {
    let e = FileEntry::new("/tmp/report.tar.gz".to_string(), "report.tar.gz".to_string(), 42, 7);
    assert_eq!(e.name(), "report.tar.gz");
    assert_eq!(e.extension(), Some("gz"));
    assert_eq!(e.path(), "/tmp/report.tar.gz");
    assert_eq!(e.size(), 42);
    assert_eq!(e.modified(), 7);
    assert!(!e.is_hidden());
    assert_eq!(e.into_path(), "/tmp/report.tar.gz");
}

#[test]
fn test_file_entry_extensions() {
    let none = FileEntry::new("/x/plain".to_string(), "plain".to_string(), 0, 0);
    assert_eq!(none.extension(), None);
    let dotfile = FileEntry::new("/x/.profile".to_string(), ".profile".to_string(), 0, 0);
    assert_eq!(dotfile.extension(), None);
    assert!(dotfile.is_hidden());
    let trailing = FileEntry::new("/x/odd.".to_string(), "odd.".to_string(), 0, 0);
    assert_eq!(trailing.extension(), Some(""));
}

#[test]
fn test_partition_accessors() {
    let p = Partition::new(
        3,
        "C:".to_string(),
        FileSystem::NTFS("C:\\".to_string()),
        512_000_000_000,
        128_000_000_000,
    );
    assert_eq!(p.id(), 3);
    assert_eq!(p.name(), "C:");
    assert!(matches!(p.file_system(), FileSystem::NTFS(m) if m == "C:\\"));
    assert_eq!(p.total_space(), 512_000_000_000);
    assert_eq!(p.available_space(), 128_000_000_000);
}

#[test]
fn test_disk_accessors() {
    let p = Partition::new(0, "C:".to_string(), FileSystem::Unknown, 10, 5);
    let d = Disk::new(
        "\\\\.\\PHYSICALDRIVE0".to_string(),
        "Example SSD 1TB".to_string(),
        "S4EWNX0M123456".to_string(),
        DiskKind::SSD,
        1_000_204_886_016,
        false,
        vec![p],
    );
    assert_eq!(d.device_name(), "\\\\.\\PHYSICALDRIVE0");
    assert_eq!(d.model(), "Example SSD 1TB");
    assert_eq!(d.serial(), "S4EWNX0M123456");
    assert_eq!(*d.kind(), DiskKind::SSD);
    assert!(!d.removable());
    assert_eq!(d.size(), 1_000_204_886_016);
    assert_eq!(d.partitions().len(), 1);
    assert_eq!(d.partitions()[0].id(), 0);
}

#[test]
fn test_disk_defaults() {
    let d = Disk::default();
    assert_eq!(d.device_name(), "");
    assert_eq!(*d.kind(), DiskKind::Unknown(-1));
    assert_eq!(d.size(), 0);
    assert!(d.partitions().is_empty());
    assert_eq!(DiskKind::default(), DiskKind::Unknown(-1));
}

#[test]
fn test_disk_error_message() {
    let e = DiskError::new("query failed".to_string());
    assert_eq!(e.message(), "query failed");
}
