//! Partitions and the file systems that live on them.
//!
//! A `Partition` is a logical slice of a physical disk; its `FileSystem`
//! records the kind of file system together with its mount path(s).
//! Mount paths are kept as plain strings.

use vstd::prelude::*;

verus! {

/// A file system variant together with its mount path(s).
///
/// `BTRFS` may be mounted in several places at once, so it carries a list;
/// `Unknown` carries nothing; every other variant carries its single mount
/// path. `NotImplemented` keeps the raw file-system-type string alongside
/// the mount path.
#[derive(Debug, Clone, PartialEq)]
pub enum FileSystem {
    BTRFS(Vec<String>),
    EXT4(String),
    NTFS(String),
    FAT32(String),
    EXFAT(String),
    XFS(String),
    ZFS(String),
    NotImplemented(String, String),
    Unknown,
}

/// A logical partition on a physical disk.
#[derive(Debug, Clone, PartialEq)]
pub struct Partition {
    /// Identifier of this partition; a full scan assigns these
    /// sequentially across all disks.
    pub id: usize,
    /// Descriptive name, such as a drive letter.
    pub name: String,
    /// File system type and mount path(s).
    pub file_system: FileSystem,
    /// Total capacity in bytes.
    pub total_space: u64,
    /// Free space in bytes.
    pub available_space: u64,
}

impl Partition {
    /// Packs the given values into a `Partition`, changing none of them.
    pub fn new(
        id: usize,
        name: String,
        file_system: FileSystem,
        total_space: u64,
        available_space: u64,
    ) -> (r: Self)
        ensures
            r == (Partition { id, name, file_system, total_space, available_space }),
    {
        Partition { id, name, file_system, total_space, available_space }
    }

    /// Returns the identifier of this partition.
    pub fn id(&self) -> (r: usize)
        ensures
            r == self.id,
    {
        self.id
    }

    /// Returns the descriptive name of this partition.
    pub fn name(&self) -> (r: &str)
        ensures
            r@ == self.name@,
    {
        self.name.as_str()
    }

    /// Returns the file system of this partition.
    pub fn file_system(&self) -> (r: &FileSystem)
        ensures
            r == self.file_system,
    {
        &self.file_system
    }

    /// Returns the total capacity of this partition in bytes.
    pub fn total_space(&self) -> (r: u64)
        ensures
            r == self.total_space,
    {
        self.total_space
    }

    /// Returns the free space of this partition in bytes.
    pub fn available_space(&self) -> (r: u64)
        ensures
            r == self.available_space,
    {
        self.available_space
    }
}

} // verus!
