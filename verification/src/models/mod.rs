pub mod disk;
pub mod disk_error;
pub mod file;
pub mod partition;

pub use disk::{Disk, DiskKind};
pub use disk_error::DiskError;
pub use file::FileEntry;
pub use partition::{FileSystem, Partition};
