use std::io::Write;

use win_disk_info::{
    classify_extension, find_mismatched_extensions, identify_files, select_mismatches,
    validate_file_extension, FileEntry,
};

const JPEG_HEADER: [u8; 10] = [0xFF, 0xD8, 0xFF, 0xE0, 0x00, 0x10, 0x4A, 0x46, 0x49, 0x46];
const PNG_HEADER: [u8; 8] = [0x89, 0x50, 0x4E, 0x47, 0x0D, 0x0A, 0x1A, 0x0A];
const PDF_HEADER: [u8; 7] = [0x25, 0x50, 0x44, 0x46, 0x2D, 0x31, 0x2E];

/// Creates a file with the given suffix and content in `dir` and
/// returns its record along with the handle that keeps it alive.
fn create_entry(
    dir: &tempfile::TempDir,
    suffix: &str,
    content: &[u8],
) -> (FileEntry, tempfile::NamedTempFile) {
    let mut f = tempfile::Builder::new()
        .suffix(suffix)
        .tempfile_in(dir.path())
        .expect("could not create file");
    f.write_all(content).expect("could not write file");
    let path = f.path().to_str().unwrap().to_string();
    let name = f.path().file_name().unwrap().to_str().unwrap().to_string();
    let entry = FileEntry::new(path, name, content.len() as u64, 0);
    (entry, f)
}

#[test]
fn test_validate_file_extension() {
    let dir = tempfile::tempdir().unwrap();

    let (jpeg_correct_entry, _f1) = create_entry(&dir, ".jpg", &JPEG_HEADER);
    let (is_valid, mime_type) = validate_file_extension(&jpeg_correct_entry);
    assert!(is_valid, "JPEG file with jpg extension should be valid");
    assert_eq!(mime_type, Some("image/jpeg".to_string()));

    let (jpeg_wrong_entry, _f2) = create_entry(&dir, ".png", &JPEG_HEADER);
    let (is_valid, mime_type) = validate_file_extension(&jpeg_wrong_entry);
    assert!(!is_valid, "JPEG file with png extension should be invalid");
    assert_eq!(mime_type, Some("image/jpeg".to_string()));

    let (png_correct_entry, _f3) = create_entry(&dir, ".png", &PNG_HEADER);
    let (is_valid, mime_type) = validate_file_extension(&png_correct_entry);
    assert!(is_valid, "PNG file with png extension should be valid");
    assert_eq!(mime_type, Some("image/png".to_string()));

    let (png_wrong_entry, _f4) = create_entry(&dir, ".jpg", &PNG_HEADER);
    let (is_valid, mime_type) = validate_file_extension(&png_wrong_entry);
    assert!(!is_valid, "PNG file with jpg extension should be invalid");
    assert_eq!(mime_type, Some("image/png".to_string()));

    let (pdf_correct_entry, _f5) = create_entry(&dir, ".pdf", &PDF_HEADER);
    let (is_valid, mime_type) = validate_file_extension(&pdf_correct_entry);
    assert!(is_valid, "PDF file with pdf extension should be valid");
    assert_eq!(mime_type, Some("application/pdf".to_string()));

    let (no_ext_entry, _f6) = create_entry(&dir, "", &JPEG_HEADER);
    let (is_valid, mime_type) = validate_file_extension(&no_ext_entry);
    assert!(!is_valid, "File without extension should be invalid");
    assert_eq!(mime_type, Some("image/jpeg".to_string()));
}

#[test]
fn test_classify_extension_table() {
    // The decision logic alone, on concrete values.
    assert_eq!(classify_extension(None, Some("jpg")), (true, None));
    assert_eq!(classify_extension(None, None), (true, None));
    let (ok, mime) = classify_extension(Some("image/jpeg"), Some("jpg"));
    assert!(ok);
    assert_eq!(mime, Some("image/jpeg".to_string()));
    let (ok, _) = classify_extension(Some("image/jpeg"), Some("JPEG"));
    assert!(ok, "extension comparison is case-insensitive");
    let (ok, _) = classify_extension(Some("image/jpeg"), Some("png"));
    assert!(!ok);
    let (ok, mime) = classify_extension(Some("image/jpeg"), None);
    assert!(!ok, "a typed file with no extension is flagged");
    assert_eq!(mime, Some("image/jpeg".to_string()));
    let (ok, _) = classify_extension(Some("chemical/x-pdb"), Some("weird"));
    assert!(ok, "a MIME type outside the table matches any extension");
}

#[test]
fn test_select_mismatches_keeps_failing_verdicts_in_order() {
    // The selection logic alone: only (false, Some(mime)) verdicts
    // are kept, paired with their MIME type, in input order.
    let files = vec![
        FileEntry::new("/x/a.png".to_string(), "a.png".to_string(), 1, 0),
        FileEntry::new("/x/b.jpg".to_string(), "b.jpg".to_string(), 2, 0),
        FileEntry::new("/x/c".to_string(), "c".to_string(), 3, 0),
        FileEntry::new("/x/d.txt".to_string(), "d.txt".to_string(), 4, 0),
    ];
    let verdicts = vec![
        (false, Some("image/jpeg".to_string())),
        (true, Some("image/jpeg".to_string())),
        (false, Some("image/png".to_string())),
        (true, None),
    ];
    let kept = select_mismatches(&files, &verdicts);
    assert_eq!(kept.len(), 2);
    assert_eq!(kept[0].0.name(), "a.png");
    assert_eq!(kept[0].1, "image/jpeg");
    assert_eq!(kept[1].0.name(), "c");
    assert_eq!(kept[1].1, "image/png");
}

#[test]
fn test_find_mismatched_extensions() {
    let dir = tempfile::tempdir().unwrap();

    let (correct_entry, _f1) = create_entry(&dir, ".jpg", &JPEG_HEADER);
    let (wrong_entry, _f2) = create_entry(&dir, ".png", &JPEG_HEADER);

    let file_entries = vec![correct_entry.clone(), wrong_entry.clone()];

    let mismatched = find_mismatched_extensions(&file_entries);

    assert_eq!(mismatched.len(), 1, "Should find exactly one mismatched file");
    assert_eq!(mismatched[0].0.path(), wrong_entry.path());
    assert_eq!(mismatched[0].1, "image/jpeg");
}

#[test]
fn test_identify_files() {
    let dir = tempfile::tempdir().unwrap();

    let (image_entry, _f1) = create_entry(&dir, ".jpg", &JPEG_HEADER);
    let (pdf_entry, _f2) = create_entry(&dir, ".pdf", &PDF_HEADER);

    let file_entries = vec![image_entry.clone(), pdf_entry.clone()];

    let identified = identify_files(file_entries);

    let image_bucket = identified.iter().find(|(k, _)| k == "Image");
    let archive_bucket = identified.iter().find(|(k, _)| k == "Archive");
    assert!(image_bucket.is_some(), "Should identify an image file");
    assert!(archive_bucket.is_some(), "Should identify an archive file");

    let image_bucket = &image_bucket.unwrap().1;
    let archive_bucket = &archive_bucket.unwrap().1;
    assert_eq!(image_bucket.len(), 1);
    assert_eq!(archive_bucket.len(), 1);

    assert_eq!(image_bucket[0].path(), image_entry.path());
    assert_eq!(archive_bucket[0].path(), pdf_entry.path());
}
