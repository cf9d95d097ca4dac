//! Physical disks and their storage technology.

use vstd::prelude::*;
use crate::models::partition::Partition;

verus! {

/// The storage technology of a physical disk.
///
/// `Unknown` carries the raw media-type code that was reported, or `-1`
/// when no code was present at all.
#[derive(Debug, Clone, PartialEq)]
pub enum DiskKind {
    /// Mechanical hard disk drive.
    HDD,
    /// Flash-based solid state drive.
    SSD,
    /// Storage class memory.
    SCM,
    /// Unrecognized media-type code, kept as reported.
    Unknown(isize),
}

impl Default for DiskKind {
    /// The kind used when nothing is known of a disk: `Unknown(-1)`.
    fn default() -> (r: Self)
        ensures
            r == DiskKind::Unknown(-1isize),
    {
        DiskKind::Unknown(-1)
    }
}

/// A physical storage device together with its partitions.
#[derive(Debug, Clone, PartialEq)]
pub struct Disk {
    /// Physical device identifier.
    pub device_name: String,
    /// Manufacturer and product name.
    pub model: String,
    /// Hardware serial number.
    pub serial: String,
    /// Storage technology of the device.
    pub kind: DiskKind,
    /// Total capacity in bytes.
    pub size: usize,
    /// Whether the device is removable media.
    pub removable: bool,
    /// The partitions on this disk.
    pub partitions: Vec<Partition>,
}

impl Disk {
    /// Packs the given values into a `Disk`, changing none of them.
    pub fn new(
        device_name: String,
        model: String,
        serial: String,
        kind: DiskKind,
        size: usize,
        removable: bool,
        partitions: Vec<Partition>,
    ) -> (r: Disk)
        ensures
            r == (Disk { device_name, model, serial, kind, size, removable, partitions }),
    {
        Disk { device_name, model, serial, kind, size, removable, partitions }
    }

    /// Returns the physical device identifier.
    pub fn device_name(&self) -> (r: &str)
        ensures
            r@ == self.device_name@,
    {
        self.device_name.as_str()
    }

    /// Returns the manufacturer and product name.
    pub fn model(&self) -> (r: &str)
        ensures
            r@ == self.model@,
    {
        self.model.as_str()
    }

    /// Returns the hardware serial number.
    pub fn serial(&self) -> (r: &str)
        ensures
            r@ == self.serial@,
    {
        self.serial.as_str()
    }

    /// Returns the storage technology of this disk.
    pub fn kind(&self) -> (r: &DiskKind)
        ensures
            r == self.kind,
    {
        &self.kind
    }

    /// Returns whether the disk is removable media.
    pub fn removable(&self) -> (r: bool)
        ensures
            r == self.removable,
    {
        self.removable
    }

    /// Returns the total capacity of this disk in bytes.
    pub fn size(&self) -> (r: usize)
        ensures
            r == self.size,
    {
        self.size
    }

    /// Returns the partitions on this disk.
    pub fn partitions(&self) -> (r: &[Partition])
        ensures
            r@ == self.partitions@,
    {
        self.partitions.as_slice()
    }
}

impl Default for Disk {
    /// A disk with empty strings, unknown kind, zero size and no partitions.
    fn default() -> (r: Self)
        ensures
            r.device_name@ == Seq::<char>::empty(),
            r.model@ == Seq::<char>::empty(),
            r.serial@ == Seq::<char>::empty(),
            r.kind == DiskKind::Unknown(-1isize),
            r.size == 0,
            r.removable == false,
            r.partitions@ == Seq::<Partition>::empty(),
    {
        Disk {
            device_name: String::new(),
            model: String::new(),
            serial: String::new(),
            kind: DiskKind::Unknown(-1),
            size: 0,
            removable: false,
            partitions: Vec::new(),
        }
    }
}

} // verus!
