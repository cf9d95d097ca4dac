use win_disk_info::{
    create_file_system, extract_disk_number, get_bool_value, get_disk_kind, get_string_value,
    get_u64_value, AttrRecord, AttrValue, DiskKind, FileSystem, SupportedFileSystem,
};
use win_disk_info::{disks_from_records, DiskQueryInput};

#[test]
fn test_extract_disk_number() {
    assert_eq!(extract_disk_number("\\\\.\\PHYSICALDRIVE0"), 0);
    assert_eq!(extract_disk_number("\\\\.\\PHYSICALDRIVE1"), 1);
    assert_eq!(extract_disk_number("\\\\.\\PHYSICALDRIVE10"), 10);
    assert_eq!(extract_disk_number("invalid"), 0);
    assert_eq!(extract_disk_number("\\\\.\\PHYSICALDRIVE"), 0);
    assert_eq!(extract_disk_number("\\\\.\\PHYSICALDRIVEabc"), 0);
}

#[test]
fn test_get_string_value() {
    let mut map = AttrRecord::new();
    map.insert("key1".to_string(), AttrValue::Str("value1".to_string()));
    map.insert("key2".to_string(), AttrValue::U64(42));

    assert_eq!(get_string_value(&map, "key1"), Some("value1".to_string()));
    assert_eq!(get_string_value(&map, "key2"), None);
    assert_eq!(get_string_value(&map, "key3"), None);
}

#[test]
fn test_get_u64_value() {
    let mut map = AttrRecord::new();
    map.insert("key1".to_string(), AttrValue::U64(1234567890));
    map.insert("key2".to_string(), AttrValue::Str("not_a_number".to_string()));

    assert_eq!(get_u64_value(&map, "key1"), Some(1234567890));
    assert_eq!(get_u64_value(&map, "key2"), None);
    assert_eq!(get_u64_value(&map, "key3"), None);
}

#[test]
fn test_get_bool_value() {
    let mut map = AttrRecord::new();
    map.insert("key1".to_string(), AttrValue::Bool(true));
    map.insert("key2".to_string(), AttrValue::Bool(false));
    map.insert("key3".to_string(), AttrValue::Str("not_a_bool".to_string()));

    assert_eq!(get_bool_value(&map, "key1"), Some(true));
    assert_eq!(get_bool_value(&map, "key2"), Some(false));
    assert_eq!(get_bool_value(&map, "key3"), None);
    assert_eq!(get_bool_value(&map, "key4"), None);
}

#[test]
fn test_supported_filesystem_from() {
    assert_eq!(SupportedFileSystem::from("NTFS"), SupportedFileSystem::NTFS);
    assert_eq!(SupportedFileSystem::from("FAT32"), SupportedFileSystem::FAT32);
    assert_eq!(SupportedFileSystem::from("exFAT"), SupportedFileSystem::EXFAT);

    match SupportedFileSystem::from("XFS") {
        SupportedFileSystem::NotImplemented(fs) => assert_eq!(fs, "XFS"),
        _ => panic!("Expected NotImplemented variant"),
    }
}

#[test]
fn test_create_file_system() {
    match create_file_system("NTFS", "C:\\") {
        Some(FileSystem::NTFS(path)) => assert_eq!(path, "C:\\"),
        _ => panic!("Expected NTFS file system"),
    }

    match create_file_system("FAT32", "D:\\") {
        Some(FileSystem::FAT32(path)) => assert_eq!(path, "D:\\"),
        _ => panic!("Expected FAT32 file system"),
    }

    match create_file_system("exFAT", "E:\\") {
        Some(FileSystem::EXFAT(path)) => assert_eq!(path, "E:\\"),
        _ => panic!("Expected EXFAT file system"),
    }

    match create_file_system("EXT4", "F:\\") {
        Some(FileSystem::NotImplemented(fs, path)) => {
            assert_eq!(fs, "EXT4");
            assert_eq!(path, "F:\\");
        }
        _ => panic!("Expected NotImplemented file system"),
    }
}

#[test]
fn test_get_disk_kind() {
    let mut map = AttrRecord::new();

    map.insert("Kind".to_string(), AttrValue::U16(3));
    assert_eq!(get_disk_kind(&map), Some(DiskKind::HDD));

    map.insert("Kind".to_string(), AttrValue::U16(4));
    assert_eq!(get_disk_kind(&map), Some(DiskKind::SSD));

    map.insert("Kind".to_string(), AttrValue::U16(5));
    assert_eq!(get_disk_kind(&map), Some(DiskKind::SCM));

    map.insert("Kind".to_string(), AttrValue::U16(10));
    if let Some(DiskKind::Unknown(kind)) = get_disk_kind(&map) {
        assert_eq!(kind, 10);
    } else {
        panic!("Expected Unknown disk kind");
    }

    let empty = AttrRecord::new();
    if let Some(DiskKind::Unknown(kind)) = get_disk_kind(&empty) {
        assert_eq!(kind, -1);
    } else {
        panic!("Expected Unknown disk kind with value -1");
    }
}

fn disk_record(device_id: &str, model: &str, size: u64) -> AttrRecord {
    let mut rec = AttrRecord::new();
    rec.insert("Caption".to_string(), AttrValue::Str(format!("  {}   drive ", model)));
    rec.insert("Model".to_string(), AttrValue::Str(model.to_string()));
    rec.insert("SerialNumber".to_string(), AttrValue::Str("SER0001".to_string()));
    rec.insert("Size".to_string(), AttrValue::U64(size));
    rec.insert("Removable".to_string(), AttrValue::Bool(false));
    rec.insert("DeviceID".to_string(), AttrValue::Str(device_id.to_string()));
    rec
}

fn logical_record(name: &str, fs: &str, total: u64, free: u64) -> AttrRecord {
    let mut rec = AttrRecord::new();
    rec.insert("Name".to_string(), AttrValue::Str(name.to_string()));
    rec.insert("FileSystem".to_string(), AttrValue::Str(fs.to_string()));
    rec.insert("DeviceID".to_string(), AttrValue::Str(name.to_string()));
    rec.insert("Size".to_string(), AttrValue::U64(total));
    rec.insert("FreeSpace".to_string(), AttrValue::U64(free));
    rec
}

#[test]
fn test_disks_from_records_media_types() {
    // A media-type code of 4 maps to SSD; an absent code maps to
    // Unknown(-1); an unrecognized file-system name is kept.
    let mut storage = AttrRecord::new();
    storage.insert("MediaType".to_string(), AttrValue::U16(4));
    let with_code = DiskQueryInput {
        disk: disk_record("\\\\.\\PHYSICALDRIVE0", "Alpha", 1000),
        storage: Some(storage),
        partitions: vec![Some(logical_record("C:", "EXT4", 800, 100))],
    };
    let without_code = DiskQueryInput {
        disk: disk_record("\\\\.\\PHYSICALDRIVE1", "Beta", 2000),
        storage: None,
        partitions: vec![],
    };
    let disks = disks_from_records(&vec![with_code, without_code]);
    assert_eq!(disks.len(), 2);
    assert_eq!(*disks[0].kind(), DiskKind::SSD);
    assert_eq!(*disks[1].kind(), DiskKind::Unknown(-1));
    assert_eq!(disks[0].device_name(), "Alpha drive");
    match disks[0].partitions()[0].file_system() {
        FileSystem::NotImplemented(fs, mount) => {
            assert_eq!(fs, "EXT4");
            assert_eq!(mount, "C:\\");
        }
        _ => panic!("Expected NotImplemented file system"),
    }
}

#[test]
fn test_caption_normalization_covers_unicode_whitespace() {
    // A no-break space in the caption collapses like any other
    // white space.
    let mut rec = disk_record("\\\\.\\PHYSICALDRIVE0", "Alpha", 1000);
    rec.insert(
        "Caption".to_string(),
        AttrValue::Str("\u{a0}Gamma\u{a0}\u{2003}drive ".to_string()),
    );
    let input = DiskQueryInput { disk: rec, storage: None, partitions: vec![] };
    let disks = disks_from_records(&vec![input]);
    assert_eq!(disks.len(), 1);
    assert_eq!(disks[0].device_name(), "Gamma drive");
}

#[test]
fn test_partition_ids_increase_across_disks() {
    // Identifiers are assigned sequentially over the whole scan,
    // never reset between disks; a skipped disk or partition takes
    // no identifier.
    let first = DiskQueryInput {
        disk: disk_record("\\\\.\\PHYSICALDRIVE0", "Alpha", 1000),
        storage: None,
        partitions: vec![
            Some(logical_record("C:", "NTFS", 600, 50)),
            None,
            Some(logical_record("D:", "FAT32", 300, 20)),
        ],
    };
    let skipped = DiskQueryInput {
        disk: AttrRecord::new(),
        storage: None,
        partitions: vec![Some(logical_record("X:", "NTFS", 1, 1))],
    };
    let second = DiskQueryInput {
        disk: disk_record("\\\\.\\PHYSICALDRIVE1", "Beta", 2000),
        storage: None,
        partitions: vec![Some(logical_record("E:", "exFAT", 900, 800))],
    };
    let disks = disks_from_records(&vec![first, skipped, second]);
    assert_eq!(disks.len(), 2);
    let ids: Vec<usize> = disks
        .iter()
        .flat_map(|d| d.partitions().iter().map(|p| p.id()))
        .collect();
    assert_eq!(ids, vec![0, 1, 2]);
}
