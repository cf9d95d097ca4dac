//! Disk, partition and file inspection library.
//!
//! The crate models physical disks and their partitions as mapped from
//! raw attribute records, walks directory trees to collect file metadata,
//! classifies file content by magic-byte signatures, and finds groups of
//! files with identical content.

pub mod duplicates;
pub mod file_extraction;
pub mod file_identification;
pub mod models;
pub mod text;
pub mod windows_storage;

pub use duplicates::{find_duplicate_files, group_by_digest, select_hash_candidates};
pub use file_extraction::{
    calculate_directory_size, format_file_size, get_files, get_files_by_pattern,
    get_largest_files, get_recently_modified_files, FileExtractionError,
};
pub use file_identification::{
    category_name, category_of_tag, classify_extension, find_mismatched_extensions,
    identify_files, mime_extension_valid, select_mismatches, validate_file_extension,
    ContentCategory,
};
pub use models::{Disk, DiskError, DiskKind, FileEntry, FileSystem, Partition};
pub use windows_storage::{
    create_file_system, disks_from_records, extract_disk_number, get_bool_value, get_disk_kind,
    get_string_value, get_u64_value, process_partition, update_disk_info, AttrRecord, AttrValue,
    DiskQueryInput, SupportedFileSystem,
};
