//! Mapping raw disk-query records into typed disks and partitions.
//!
//! A disk-query backend (platform plumbing outside this crate) hands
//! over string-keyed attribute records; everything that reads, merges
//! and maps those records into `Disk` and `Partition` values is
//! verified here. The record model mirrors the value kinds such a
//! query yields: strings, unsigned 16- and 64-bit numbers, booleans
//! and lists.

use vstd::prelude::*;
use vstd::string::StrSliceExecFns;
use vstd::string::StringExecFns;
use crate::models::disk::{Disk, DiskKind};
use crate::models::partition::{FileSystem, Partition};
use crate::text::{all_digits, digits_value, last_index_of, str_eq};

verus! {

/// A typed attribute value of a disk-query record.
#[derive(Debug)]
pub enum AttrValue {
    /// A string value.
    Str(String),
    /// An unsigned 16-bit value.
    U16(u16),
    /// An unsigned 64-bit value.
    U64(u64),
    /// A boolean value.
    Bool(bool),
    /// A list of values.
    List(Vec<AttrValue>),
}

/// One attribute record: values by attribute name.
///
/// The pairs are kept newest first; a lookup takes the first pair
/// with the asked-for name, so inserting shadows older pairs.
#[derive(Debug)]
pub struct AttrRecord {
    /// The name/value pairs, newest first.
    pub pairs: Vec<(String, AttrValue)>,
}

/// The value the record holds under `key`: the first pair with that
/// name.
pub open spec fn spec_lookup(pairs: Seq<(String, AttrValue)>, key: Seq<char>) -> Option<AttrValue>
    decreases pairs.len(),
{
    if pairs.len() == 0 {
        None
    } else if pairs.first().0@ == key {
        Some(pairs.first().1)
    } else {
        spec_lookup(pairs.drop_first(), key)
    }
}

impl AttrRecord {
    /// An empty record.
    pub fn new() -> (r: AttrRecord)
        ensures
            r.pairs@.len() == 0,
    {
        AttrRecord { pairs: Vec::new() }
    }

    /// Binds `key` to `value`, shadowing any older pair of that name
    /// and leaving every other name as it was.
    pub fn insert(&mut self, key: String, value: AttrValue)
        ensures
            spec_lookup(final(self).pairs@, key@) == Some(value),
            forall|k: Seq<char>|
                k != key@ ==> #[trigger] spec_lookup(final(self).pairs@, k) == spec_lookup(
                    old(self).pairs@,
                    k,
                ),
    {
        self.pairs.insert(0, (key, value));
        proof {
            assert(final(self).pairs@.drop_first() =~= old(self).pairs@);
        }
    }

    /// Looks the value up under `key`.
    pub fn get(&self, key: &str) -> (r: Option<&AttrValue>)
        ensures
            match r {
                Some(v) => spec_lookup(self.pairs@, key@) == Some(*v),
                None => spec_lookup(self.pairs@, key@) is None,
            },
    {
        let n = self.pairs.len();
        proof {
            assert(self.pairs@.skip(0) =~= self.pairs@);
        }
        let mut i: usize = 0;
        while i < n
            invariant
                i <= n,
                n == self.pairs@.len(),
                spec_lookup(self.pairs@, key@) == spec_lookup(
                    self.pairs@.skip(i as int),
                    key@,
                ),
            decreases n - i,
        {
            proof {
                assert(self.pairs@.skip(i as int).first() == self.pairs@[i as int]);
                assert(self.pairs@.skip(i as int).drop_first() =~= self.pairs@.skip(i + 1));
            }
            if str_eq(self.pairs[i].0.as_str(), key) {
                return Some(&self.pairs[i].1);
            }
            i = i + 1;
        }
        proof {
            assert(self.pairs@.skip(n as int) =~= Seq::<(String, AttrValue)>::empty());
        }
        None
    }
}

/// The string under `key`, when the record holds one there.
pub open spec fn spec_get_string(pairs: Seq<(String, AttrValue)>, key: Seq<char>) -> Option<
    String,
> {
    match spec_lookup(pairs, key) {
        Some(AttrValue::Str(s)) => Some(s),
        _ => None,
    }
}

/// The unsigned 64-bit value under `key`, when the record holds one.
pub open spec fn spec_get_u64(pairs: Seq<(String, AttrValue)>, key: Seq<char>) -> Option<u64> {
    match spec_lookup(pairs, key) {
        Some(AttrValue::U64(v)) => Some(v),
        _ => None,
    }
}

/// The boolean under `key`, when the record holds one.
pub open spec fn spec_get_bool(pairs: Seq<(String, AttrValue)>, key: Seq<char>) -> Option<bool> {
    match spec_lookup(pairs, key) {
        Some(AttrValue::Bool(v)) => Some(v),
        _ => None,
    }
}

/// The unsigned 16-bit value under `key`, when the record holds one.
pub open spec fn spec_get_u16(pairs: Seq<(String, AttrValue)>, key: Seq<char>) -> Option<u16> {
    match spec_lookup(pairs, key) {
        Some(AttrValue::U16(v)) => Some(v),
        _ => None,
    }
}

/// Extracts a string value from a record; any other kind of value,
/// or none at all, gives `None`.
pub fn get_string_value(map: &AttrRecord, key: &str) -> (r: Option<String>)
    ensures
        r == spec_get_string(map.pairs@, key@),
{
    match map.get(key) {
        Some(AttrValue::Str(s)) => Some(s.clone()),
        _ => None,
    }
}

/// Extracts an unsigned 64-bit value from a record; any other kind of
/// value, or none at all, gives `None`.
pub fn get_u64_value(map: &AttrRecord, key: &str) -> (r: Option<u64>)
    ensures
        r == spec_get_u64(map.pairs@, key@),
{
    match map.get(key) {
        Some(AttrValue::U64(v)) => Some(*v),
        _ => None,
    }
}

/// Extracts a boolean value from a record; any other kind of value,
/// or none at all, gives `None`.
pub fn get_bool_value(map: &AttrRecord, key: &str) -> (r: Option<bool>)
    ensures
        r == spec_get_bool(map.pairs@, key@),
{
    match map.get(key) {
        Some(AttrValue::Bool(v)) => Some(*v),
        _ => None,
    }
}

/// Media-type code of a mechanical hard disk drive.
pub const MEDIA_TYPE_HDD: u16 = 3;

/// Media-type code of a solid state drive.
pub const MEDIA_TYPE_SSD: u16 = 4;

/// Media-type code of storage class memory.
pub const MEDIA_TYPE_SCM: u16 = 5;

/// The disk kind a media-type code denotes: 3 is HDD, 4 is SSD, 5 is
/// SCM, any other code is kept in `Unknown`, and a missing code gives
/// `Unknown(-1)`.
pub open spec fn spec_kind_of(code: Option<u16>) -> DiskKind {
    match code {
        Some(m) => if m == MEDIA_TYPE_HDD {
            DiskKind::HDD
        } else if m == MEDIA_TYPE_SSD {
            DiskKind::SSD
        } else if m == MEDIA_TYPE_SCM {
            DiskKind::SCM
        } else {
            DiskKind::Unknown(m as isize)
        },
        None => DiskKind::Unknown(-1isize),
    }
}

/// The disk kind a record's media-type code under `Kind` denotes; an
/// absent or ill-typed code gives `Unknown(-1)`.
pub open spec fn spec_disk_kind(pairs: Seq<(String, AttrValue)>) -> DiskKind {
    spec_kind_of(spec_get_u16(pairs, "Kind"@))
}

/// Reads the disk kind from the media-type code under `Kind`.
///
/// The kind is always determined: an absent or ill-typed code gives
/// `Unknown(-1)`.
pub fn get_disk_kind(disk_info: &AttrRecord) -> (r: Option<DiskKind>)
    ensures
        r == Some(spec_disk_kind(disk_info.pairs@)),
{
    let kind = match disk_info.get("Kind") {
        Some(AttrValue::U16(m)) => {
            let m = *m;
            if m == MEDIA_TYPE_HDD {
                DiskKind::HDD
            } else if m == MEDIA_TYPE_SSD {
                DiskKind::SSD
            } else if m == MEDIA_TYPE_SCM {
                DiskKind::SCM
            } else {
                DiskKind::Unknown(m as isize)
            }
        },
        _ => DiskKind::Unknown(-1),
    };
    Some(kind)
}

/// The file systems this crate maps by name; any other name is kept
/// as `NotImplemented`.
#[derive(Debug, PartialEq)]
pub enum SupportedFileSystem {
    /// NTFS.
    NTFS,
    /// FAT32.
    FAT32,
    /// exFAT.
    EXFAT,
    /// A file system this crate does not map, kept by name.
    NotImplemented(String),
}

/// The name `s` maps to the given supported-file-system tag.
pub open spec fn supported_fs_matches(s: Seq<char>, r: SupportedFileSystem) -> bool {
    match r {
        SupportedFileSystem::NTFS => s == "NTFS"@,
        SupportedFileSystem::FAT32 => s == "FAT32"@,
        SupportedFileSystem::EXFAT => s == "exFAT"@,
        SupportedFileSystem::NotImplemented(t) => t@ == s && s != "NTFS"@ && s != "FAT32"@ && s
            != "exFAT"@,
    }
}

/// Maps a file-system name to its tag by exact match.
pub fn supported_file_system_of(s: &str) -> (r: SupportedFileSystem)
    ensures
        supported_fs_matches(s@, r),
{
    if str_eq(s, "NTFS") {
        SupportedFileSystem::NTFS
    } else if str_eq(s, "FAT32") {
        SupportedFileSystem::FAT32
    } else if str_eq(s, "exFAT") {
        SupportedFileSystem::EXFAT
    } else {
        SupportedFileSystem::NotImplemented(s.to_owned())
    }
}

impl From<&str> for SupportedFileSystem {
    /// Maps a file-system name to its tag by exact match.
    fn from(s: &str) -> Self {
        supported_file_system_of(s)
    }
}

impl vstd::std_specs::convert::FromSpecImpl<&str> for SupportedFileSystem {
    open spec fn obeys_from_spec() -> bool {
        false
    }

    open spec fn from_spec(s: &str) -> Self {
        arbitrary()
    }
}

/// The file-system variant that the name `fs` and mount path `mount`
/// map to.
pub open spec fn fs_variant_matches(fs: Seq<char>, mount: Seq<char>, v: FileSystem) -> bool {
    match v {
        FileSystem::NTFS(p) => fs == "NTFS"@ && p@ == mount,
        FileSystem::FAT32(p) => fs == "FAT32"@ && p@ == mount,
        FileSystem::EXFAT(p) => fs == "exFAT"@ && p@ == mount,
        FileSystem::NotImplemented(t, p) => t@ == fs && p@ == mount && fs != "NTFS"@ && fs
            != "FAT32"@ && fs != "exFAT"@,
        _ => false,
    }
}

/// Maps a file-system name and its mount path to a `FileSystem`
/// variant; names other than `NTFS`, `FAT32` and `exFAT` are kept as
/// `NotImplemented`. The mapping always succeeds.
pub fn create_file_system(fs_type: &str, mount_path: &str) -> (r: Option<FileSystem>)
    ensures
        r matches Some(v) && fs_variant_matches(fs_type@, mount_path@, v),
{
    let mount = mount_path.to_owned();
    match supported_file_system_of(fs_type) {
        SupportedFileSystem::NTFS => Some(FileSystem::NTFS(mount)),
        SupportedFileSystem::FAT32 => Some(FileSystem::FAT32(mount)),
        SupportedFileSystem::EXFAT => Some(FileSystem::EXFAT(mount)),
        SupportedFileSystem::NotImplemented(fs) => Some(FileSystem::NotImplemented(fs, mount)),
    }
}

/// What is left of `s` once every copy of the prefix `p` is peeled
/// off its front.
pub open spec fn spec_trim_prefix(s: Seq<char>, p: Seq<char>) -> Seq<char>
    decreases s.len(),
{
    if p.len() > 0 && s.len() >= p.len() && s.subrange(0, p.len() as int) == p {
        spec_trim_prefix(s.skip(p.len() as int), p)
    } else {
        s
    }
}

/// The number a device identifier's tail denotes: the digits after
/// the last backslash and the `PHYSICALDRIVE` prefix, or zero when
/// they are missing, malformed or out of range.
pub open spec fn spec_extract_disk_number(s: Seq<char>) -> u32 {
    let tail = s.subrange(last_index_of(s, '\\') + 1, s.len() as int);
    let t = spec_trim_prefix(tail, "PHYSICALDRIVE"@);
    if t.len() > 0 && all_digits(t) && digits_value(t) <= u32::MAX {
        digits_value(t) as u32
    } else {
        0
    }
}

/// Whether `p` occurs in `s` starting at `at`.
fn prefix_matches_at(s: &str, p: &str, at: usize, n: usize) -> (r: bool)
    requires
        at <= n,
        n == s@.len(),
    ensures
        r == (at + p@.len() <= s@.len() && s@.subrange(at as int, at + p@.len()) == p@),
{
    let m = p.unicode_len();
    if m > n - at {
        return false;
    }
    let mut j: usize = 0;
    while j < m
        invariant
            j <= m,
            at + m <= n,
            n == s@.len(),
            m == p@.len(),
            forall|l: int| 0 <= l < j ==> s@[at + l] == p@[l],
        decreases m - j,
    {
        if s.get_char(at + j) != p.get_char(j) {
            proof {
                assert(s@.subrange(at as int, at + p@.len())[j as int] == s@[at + j]);
            }
            return false;
        }
        j = j + 1;
    }
    proof {
        assert(s@.subrange(at as int, at + p@.len()) =~= p@);
    }
    true
}

/// Extracts the disk number from a device identifier such as a
/// physical-drive path; anything unparsable gives zero.
pub fn extract_disk_number(device_id: &str) -> (r: u32)
    ensures
        r == spec_extract_disk_number(device_id@),
{
    let n = device_id.unicode_len();
    proof {
        crate::text::lemma_last_index_of(device_id@, '\\');
    }
    let start: usize = match crate::text::find_last(device_id, '\\') {
        Some(i) => i + 1,
        None => 0,
    };
    let ghost tail = device_id@.subrange(
        last_index_of(device_id@, '\\') + 1,
        device_id@.len() as int,
    );
    let prefix = "PHYSICALDRIVE";
    let plen = prefix.unicode_len();
    proof {
        reveal_strlit("PHYSICALDRIVE");
    }
    let mut a = start;
    while prefix_matches_at(device_id, prefix, a, n)
        invariant
            start <= a <= n,
            n == device_id@.len(),
            plen == prefix@.len(),
            plen > 0,
            prefix@ == "PHYSICALDRIVE"@,
            tail == device_id@.subrange(start as int, n as int),
            spec_trim_prefix(tail, "PHYSICALDRIVE"@) == spec_trim_prefix(
                device_id@.subrange(a as int, n as int),
                "PHYSICALDRIVE"@,
            ),
        decreases n - a,
    {
        proof {
            let cur = device_id@.subrange(a as int, n as int);
            assert(cur.subrange(0, plen as int) =~= device_id@.subrange(a as int, a + plen));
            assert(cur.skip(plen as int) =~= device_id@.subrange(a + plen, n as int));
        }
        a = a + plen;
    }
    proof {
        let cur = device_id@.subrange(a as int, n as int);
        if cur.len() >= plen && cur.subrange(0, plen as int) == "PHYSICALDRIVE"@ {
            assert(cur.subrange(0, plen as int) =~= device_id@.subrange(a as int, a + plen));
        }
        assert(spec_trim_prefix(tail, "PHYSICALDRIVE"@) == cur);
    }
    match crate::text::parse_u32_digits(device_id, a, n) {
        Some(v) => v,
        None => 0,
    }
}

/// Whether the list holds a string equal to `t`.
pub open spec fn list_has_string(l: Seq<AttrValue>, t: Seq<char>) -> bool {
    exists|i: int|
        0 <= i < l.len() && ((#[trigger] l[i]) matches AttrValue::Str(s) && s@ == t)
}

/// Whether the list holds a string equal to `t`.
fn list_contains_string(l: &Vec<AttrValue>, t: &str) -> (r: bool)
    ensures
        r == list_has_string(l@, t@),
{
    let mut i: usize = 0;
    while i < l.len()
        invariant
            i <= l@.len(),
            forall|j: int|
                0 <= j < i ==> !((#[trigger] l@[j]) matches AttrValue::Str(s) && s@ == t@),
        decreases l@.len() - i,
    {
        match &l[i] {
            AttrValue::Str(s) => {
                if str_eq(s.as_str(), t) {
                    return true;
                }
            },
            _ => {},
        }
        i = i + 1;
    }
    false
}

/// The string the merged record shows under the disk key `dkey`: the
/// value the detailed record holds under `skey` wins, the disk's own
/// value stands in when it has none.
pub open spec fn eff_string(
    disk: Seq<(String, AttrValue)>,
    storage: Option<Seq<(String, AttrValue)>>,
    skey: Seq<char>,
    dkey: Seq<char>,
) -> Option<String> {
    match storage {
        Some(st) => match spec_get_string(st, skey) {
            Some(v) => Some(v),
            None => spec_get_string(disk, dkey),
        },
        None => spec_get_string(disk, dkey),
    }
}

/// The media-type code the merged record shows: the detailed record's
/// `MediaType` wins over the disk's own `Kind`.
pub open spec fn eff_kind_code(
    disk: Seq<(String, AttrValue)>,
    storage: Option<Seq<(String, AttrValue)>>,
) -> Option<u16> {
    match storage {
        Some(st) => match spec_get_u16(st, "MediaType"@) {
            Some(v) => Some(v),
            None => spec_get_u16(disk, "Kind"@),
        },
        None => spec_get_u16(disk, "Kind"@),
    }
}

/// Whether the merged record shows the disk as removable: derived
/// from its capability descriptions when they are a list, else read
/// from its own `Removable` value.
pub open spec fn eff_removable(disk: Seq<(String, AttrValue)>) -> Option<bool> {
    match spec_lookup(disk, "CapabilityDescriptions"@) {
        Some(AttrValue::List(l)) => Some(list_has_string(l@, "Supports Removable Media"@)),
        _ => spec_get_bool(disk, "Removable"@),
    }
}

/// Merges the detailed record into the disk record: its `Model` and
/// `MediaType` shadow the disk's `Model` and `Kind`, its `FruId`
/// shadows `SerialNumber`, and `Removable` is derived from the disk's
/// capability descriptions. Every other name keeps its value.
pub fn update_disk_info(disk_info: &mut AttrRecord, storage_info: Option<&AttrRecord>)
    ensures
        ({
            let st = match storage_info {
                Some(st) => Some(st.pairs@),
                None => None,
            };
            &&& spec_get_string(final(disk_info).pairs@, "Model"@) == eff_string(
                old(disk_info).pairs@,
                st,
                "Model"@,
                "Model"@,
            )
            &&& spec_get_string(final(disk_info).pairs@, "SerialNumber"@) == eff_string(
                old(disk_info).pairs@,
                st,
                "FruId"@,
                "SerialNumber"@,
            )
            &&& spec_get_u16(final(disk_info).pairs@, "Kind"@) == eff_kind_code(
                old(disk_info).pairs@,
                st,
            )
            &&& spec_get_bool(final(disk_info).pairs@, "Removable"@) == eff_removable(
                old(disk_info).pairs@,
            )
            &&& forall|k: Seq<char>|
                k != "Model"@ && k != "SerialNumber"@ && k != "Kind"@ && k != "Removable"@
                    ==> #[trigger] spec_lookup(final(disk_info).pairs@, k) == spec_lookup(
                    old(disk_info).pairs@,
                    k,
                )
        }),
{
    proof {
        reveal_strlit("Model");
        reveal_strlit("SerialNumber");
        reveal_strlit("Kind");
        reveal_strlit("Removable");
        reveal_strlit("CapabilityDescriptions");
        assert("Model"@.len() == 5 && "SerialNumber"@.len() == 12 && "Kind"@.len() == 4
            && "Removable"@.len() == 9 && "CapabilityDescriptions"@.len() == 22);
        assert("Model"@ != "SerialNumber"@ && "Model"@ != "Kind"@ && "Model"@ != "Removable"@);
        assert("SerialNumber"@ != "Kind"@ && "SerialNumber"@ != "Removable"@);
        assert("Kind"@ != "Removable"@);
        assert("CapabilityDescriptions"@ != "Model"@ && "CapabilityDescriptions"@
            != "SerialNumber"@ && "CapabilityDescriptions"@ != "Kind"@
            && "CapabilityDescriptions"@ != "Removable"@);
    }
    match storage_info {
        Some(st) => {
            match get_string_value(st, "Model") {
                Some(m) => {
                    disk_info.insert("Model".to_owned(), AttrValue::Str(m));
                },
                None => {},
            }
            match get_string_value(st, "FruId") {
                Some(f) => {
                    disk_info.insert("SerialNumber".to_owned(), AttrValue::Str(f));
                },
                None => {},
            }
            match st.get("MediaType") {
                Some(AttrValue::U16(m)) => {
                    let m = *m;
                    disk_info.insert("Kind".to_owned(), AttrValue::U16(m));
                },
                _ => {},
            }
        },
        None => {},
    }
    let removable = match disk_info.get("CapabilityDescriptions") {
        Some(AttrValue::List(l)) => Some(list_contains_string(l, "Supports Removable Media")),
        _ => None,
    };
    match removable {
        Some(b) => {
            disk_info.insert("Removable".to_owned(), AttrValue::Bool(b));
        },
        None => {},
    }
}

/// Maps an optional media-type code to a disk kind.
fn kind_from_code(code: Option<u16>) -> (r: DiskKind)
    ensures
        r == spec_kind_of(code),
{
    match code {
        Some(m) => {
            if m == MEDIA_TYPE_HDD {
                DiskKind::HDD
            } else if m == MEDIA_TYPE_SSD {
                DiskKind::SSD
            } else if m == MEDIA_TYPE_SCM {
                DiskKind::SCM
            } else {
                DiskKind::Unknown(m as isize)
            }
        },
        None => DiskKind::Unknown(-1),
    }
}

/// What one disk query brought back for a single physical disk:
/// its raw record, the more detailed record looked up by disk index
/// (when one was found), and the logical-disk record resolved for
/// each associated partition (`None` where the association failed).
#[derive(Debug)]
pub struct DiskQueryInput {
    /// The raw record of the disk itself.
    pub disk: AttrRecord,
    /// The detailed record for the same disk, when one was found.
    pub storage: Option<AttrRecord>,
    /// One resolved logical-disk record per associated partition.
    pub partitions: Vec<Option<AttrRecord>>,
}

/// The pairs of the detailed record, when the input carries one.
pub open spec fn storage_pairs(input: DiskQueryInput) -> Option<Seq<(String, AttrValue)>> {
    match input.storage {
        Some(st) => Some(st.pairs@),
        None => None,
    }
}

/// A logical-disk record from which a partition can be built: name,
/// file-system name, device identifier and both space figures are
/// present with their expected types.
pub open spec fn partition_should_build(l: Seq<(String, AttrValue)>) -> bool {
    &&& spec_get_string(l, "Name"@) is Some
    &&& spec_get_string(l, "FileSystem"@) is Some
    &&& spec_get_string(l, "DeviceID"@) is Some
    &&& spec_get_u64(l, "Size"@) is Some
    &&& spec_get_u64(l, "FreeSpace"@) is Some
}

/// The partition `p`, with identifier `id`, is the one the
/// logical-disk record `l` gives rise to.
pub open spec fn partition_matches(l: Seq<(String, AttrValue)>, p: Partition, id: int) -> bool {
    &&& p.id == id
    &&& (spec_get_string(l, "Name"@) matches Some(nm) && p.name@ == nm@)
    &&& spec_get_u64(l, "Size"@) == Some(p.total_space)
    &&& spec_get_u64(l, "FreeSpace"@) == Some(p.available_space)
    &&& (spec_get_string(l, "FileSystem"@) matches Some(fs) && (spec_get_string(l, "DeviceID"@)
        matches Some(d) && fs_variant_matches(fs@, d@ + seq!['\\'], p.file_system)))
}

/// How many of the resolved records a partition can be built from.
pub open spec fn built_count(parts: Seq<Option<AttrRecord>>) -> int
    decreases parts.len(),
{
    if parts.len() == 0 {
        0
    } else {
        built_count(parts.drop_last()) + (match parts.last() {
            Some(l) => if partition_should_build(l.pairs@) {
                1int
            } else {
                0
            },
            None => 0,
        })
    }
}

/// The partitions `ps` are exactly those built from the resolved
/// records, in order, with identifiers counted up from `start`.
pub open spec fn parts_match(
    parts: Seq<Option<AttrRecord>>,
    ps: Seq<Partition>,
    start: int,
) -> bool
    decreases parts.len(),
{
    if parts.len() == 0 {
        ps.len() == 0
    } else {
        match parts.last() {
            Some(l) => if partition_should_build(l.pairs@) {
                &&& ps.len() > 0
                &&& partition_matches(l.pairs@, ps.last(), start + built_count(parts.drop_last()))
                &&& parts_match(parts.drop_last(), ps.drop_last(), start)
            } else {
                parts_match(parts.drop_last(), ps, start)
            },
            None => parts_match(parts.drop_last(), ps, start),
        }
    }
}

/// An input from which a disk can be built: caption, model, serial,
/// size, removability and device identifier can all be determined.
pub open spec fn disk_should_build(input: DiskQueryInput) -> bool {
    &&& spec_get_string(input.disk.pairs@, "Caption"@) is Some
    &&& eff_string(input.disk.pairs@, storage_pairs(input), "Model"@, "Model"@) is Some
    &&& eff_string(input.disk.pairs@, storage_pairs(input), "FruId"@, "SerialNumber"@) is Some
    &&& spec_get_u64(input.disk.pairs@, "Size"@) is Some
    &&& eff_removable(input.disk.pairs@) is Some
    &&& spec_get_string(input.disk.pairs@, "DeviceID"@) is Some
}

/// The disk `d` is the one the input gives rise to, its partitions
/// numbered from `start`.
pub open spec fn disk_matches(input: DiskQueryInput, d: Disk, start: int) -> bool {
    &&& disk_should_build(input)
    &&& (spec_get_string(input.disk.pairs@, "Caption"@) matches Some(c) && d.device_name@
        == crate::text::spec_normalize(c@))
    &&& (eff_string(input.disk.pairs@, storage_pairs(input), "Model"@, "Model"@) matches Some(m)
        && d.model@ == m@)
    &&& (eff_string(input.disk.pairs@, storage_pairs(input), "FruId"@, "SerialNumber"@) matches
        Some(s) && d.serial@ == s@)
    &&& d.kind == spec_kind_of(eff_kind_code(input.disk.pairs@, storage_pairs(input)))
    &&& (spec_get_u64(input.disk.pairs@, "Size"@) matches Some(sz) && d.size == sz as usize)
    &&& (eff_removable(input.disk.pairs@) matches Some(b) && d.removable == b)
    &&& parts_match(input.partitions@, d.partitions@, start)
}

/// How many partition identifiers a whole scan hands out: one per
/// buildable partition of each buildable disk.
pub open spec fn total_built(inputs: Seq<DiskQueryInput>) -> int
    decreases inputs.len(),
{
    if inputs.len() == 0 {
        0
    } else {
        total_built(inputs.drop_last()) + (if disk_should_build(inputs.last()) {
            built_count(inputs.last().partitions@)
        } else {
            0
        })
    }
}

/// The disks are exactly those built from the inputs, in order, with
/// partition identifiers counted up from `start` across all of them.
pub open spec fn disks_match(inputs: Seq<DiskQueryInput>, disks: Seq<Disk>, start: int) -> bool
    decreases inputs.len(),
{
    if inputs.len() == 0 {
        disks.len() == 0
    } else if disk_should_build(inputs.last()) {
        &&& disks.len() > 0
        &&& disk_matches(inputs.last(), disks.last(), start + total_built(inputs.drop_last()))
        &&& disks_match(inputs.drop_last(), disks.drop_last(), start)
    } else {
        disks_match(inputs.drop_last(), disks, start)
    }
}

/// How many partition slots the inputs carry in all, buildable or
/// not.
pub open spec fn total_slots(inputs: Seq<DiskQueryInput>) -> int
    decreases inputs.len(),
{
    if inputs.len() == 0 {
        0
    } else {
        total_slots(inputs.drop_last()) + inputs.last().partitions@.len()
    }
}

/// At most one partition is built per resolved record.
proof fn lemma_built_count_bounds(parts: Seq<Option<AttrRecord>>)
    ensures
        0 <= built_count(parts) <= parts.len(),
    decreases parts.len(),
{
    if parts.len() > 0 {
        lemma_built_count_bounds(parts.drop_last());
    }
}

/// A scan hands out at most one identifier per partition slot.
proof fn lemma_total_built_bounds(inputs: Seq<DiskQueryInput>)
    ensures
        0 <= total_built(inputs) <= total_slots(inputs),
    decreases inputs.len(),
{
    if inputs.len() > 0 {
        lemma_total_built_bounds(inputs.drop_last());
        lemma_built_count_bounds(inputs.last().partitions@);
    }
}

/// A prefix never carries more partition slots than the whole.
proof fn lemma_total_slots_mono(inputs: Seq<DiskQueryInput>, j: int)
    requires
        0 <= j <= inputs.len(),
    ensures
        total_slots(inputs.subrange(0, j)) <= total_slots(inputs),
    decreases inputs.len() - j,
{
    if j == inputs.len() {
        assert(inputs.subrange(0, j) =~= inputs);
    } else {
        lemma_total_slots_mono(inputs, j + 1);
        assert(inputs.subrange(0, j + 1).drop_last() =~= inputs.subrange(0, j));
        assert(inputs.subrange(0, j + 1).last() == inputs[j]);
    }
}

/// Builds one partition from a resolved logical-disk record, under
/// the given identifier; a record missing a needed value gives
/// `None`.
pub fn process_partition(l: &AttrRecord, id: usize) -> (r: Option<Partition>)
    ensures
        match r {
            Some(p) => partition_should_build(l.pairs@) && partition_matches(
                l.pairs@,
                p,
                id as int,
            ),
            None => !partition_should_build(l.pairs@),
        },
{
    let name = match get_string_value(l, "Name") {
        Some(n) => n,
        None => {
            return None;
        },
    };
    let fs = match get_string_value(l, "FileSystem") {
        Some(f) => f,
        None => {
            return None;
        },
    };
    let devid = match get_string_value(l, "DeviceID") {
        Some(d) => d,
        None => {
            return None;
        },
    };
    let total = match get_u64_value(l, "Size") {
        Some(t) => t,
        None => {
            return None;
        },
    };
    let avail = match get_u64_value(l, "FreeSpace") {
        Some(a) => a,
        None => {
            return None;
        },
    };
    let ghost dv = devid@;
    let mut mount = devid;
    mount.append("\\");
    proof {
        reveal_strlit("\\");
        assert(mount@ =~= dv + seq!['\\']);
    }
    let file_system = match create_file_system(fs.as_str(), mount.as_str()) {
        Some(f) => f,
        None => {
            proof {
                assert(false);
            }
            return None;
        },
    };
    Some(Partition::new(id, name, file_system, total, avail))
}

/// Builds the partitions of one disk from its resolved records,
/// numbering them on from `counter` and advancing it by one per
/// partition built.
fn build_partitions(parts: &Vec<Option<AttrRecord>>, counter: &mut usize) -> (r: Vec<Partition>)
    requires
        *old(counter) + parts@.len() <= usize::MAX,
    ensures
        parts_match(parts@, r@, *old(counter) as int),
        *final(counter) == *old(counter) + built_count(parts@),
{
    let ghost start = *old(counter) as int;
    let mut out: Vec<Partition> = Vec::new();
    let mut i: usize = 0;
    while i < parts.len()
        invariant
            i <= parts@.len(),
            start == *old(counter) as int,
            *old(counter) + parts@.len() <= usize::MAX,
            parts_match(parts@.subrange(0, i as int), out@, start),
            *counter as int == start + built_count(parts@.subrange(0, i as int)),
            *counter <= *old(counter) + i,
        decreases parts@.len() - i,
    {
        let ghost prev = out@;
        proof {
            assert(parts@.subrange(0, i + 1).drop_last() =~= parts@.subrange(0, i as int));
            assert(parts@.subrange(0, i + 1).last() == parts@[i as int]);
        }
        match &parts[i] {
            Some(l) => {
                match process_partition(l, *counter) {
                    Some(p) => {
                        out.push(p);
                        proof {
                            assert(out@.drop_last() =~= prev);
                        }
                        *counter = *counter + 1;
                    },
                    None => {},
                }
            },
            None => {},
        }
        i = i + 1;
    }
    proof {
        assert(parts@.subrange(0, parts@.len() as int) =~= parts@);
    }
    out
}

/// The string the merged record shows under `dkey`, read without
/// building the merged record.
fn eff_string_value(
    disk: &AttrRecord,
    storage: Option<&AttrRecord>,
    skey: &str,
    dkey: &str,
) -> (r: Option<String>)
    ensures
        r == eff_string(
            disk.pairs@,
            match storage {
                Some(st) => Some(st.pairs@),
                None => None,
            },
            skey@,
            dkey@,
        ),
{
    match storage {
        Some(st) => match get_string_value(st, skey) {
            Some(v) => Some(v),
            None => get_string_value(disk, dkey),
        },
        None => get_string_value(disk, dkey),
    }
}

/// The media-type code the merged record shows, read without building
/// the merged record.
fn eff_kind_value(disk: &AttrRecord, storage: Option<&AttrRecord>) -> (r: Option<u16>)
    ensures
        r == eff_kind_code(
            disk.pairs@,
            match storage {
                Some(st) => Some(st.pairs@),
                None => None,
            },
        ),
{
    let from_storage = match storage {
        Some(st) => match st.get("MediaType") {
            Some(AttrValue::U16(m)) => Some(*m),
            _ => None,
        },
        None => None,
    };
    match from_storage {
        Some(m) => Some(m),
        None => match disk.get("Kind") {
            Some(AttrValue::U16(m)) => Some(*m),
            _ => None,
        },
    }
}

/// Builds one disk from what its query brought back, numbering its
/// partitions on from `counter`; an input missing a needed value
/// gives `None` and leaves the counter alone.
pub fn build_disk(input: &DiskQueryInput, counter: &mut usize) -> (r: Option<Disk>)
    requires
        *old(counter) + input.partitions@.len() <= usize::MAX,
    ensures
        match r {
            Some(d) => disk_matches(*input, d, *old(counter) as int) && *final(counter) as int
                == *old(counter) + built_count(input.partitions@),
            None => !disk_should_build(*input) && *final(counter) == *old(counter),
        },
{
    let storage: Option<&AttrRecord> = match &input.storage {
        Some(st) => Some(st),
        None => None,
    };
    let caption = match get_string_value(&input.disk, "Caption") {
        Some(c) => c,
        None => {
            return None;
        },
    };
    let model = match eff_string_value(&input.disk, storage, "Model", "Model") {
        Some(m) => m,
        None => {
            return None;
        },
    };
    let serial = match eff_string_value(&input.disk, storage, "FruId", "SerialNumber") {
        Some(s) => s,
        None => {
            return None;
        },
    };
    let kind = kind_from_code(eff_kind_value(&input.disk, storage));
    let size64 = match get_u64_value(&input.disk, "Size") {
        Some(s) => s,
        None => {
            return None;
        },
    };
    let size = size64 as usize;
    let removable = match input.disk.get("CapabilityDescriptions") {
        Some(AttrValue::List(cl)) => list_contains_string(cl, "Supports Removable Media"),
        _ => match get_bool_value(&input.disk, "Removable") {
            Some(b) => b,
            None => {
                return None;
            },
        },
    };
    match get_string_value(&input.disk, "DeviceID") {
        Some(_) => {},
        None => {
            return None;
        },
    }
    let device_name = crate::text::normalize_whitespace(caption.as_str());
    let partitions = build_partitions(&input.partitions, counter);
    Some(Disk::new(
        device_name,
        model,
        serial,
        kind,
        size,
        removable,
        partitions,
    ))
}

/// Builds every disk a scan's records allow, skipping any disk whose
/// input lacks a needed value, and numbering partitions sequentially
/// across the whole scan, starting at zero.
pub fn disks_from_records(inputs: &Vec<DiskQueryInput>) -> (r: Vec<Disk>)
    requires
        total_slots(inputs@) <= usize::MAX,
    ensures
        disks_match(inputs@, r@, 0),
{
    let mut out: Vec<Disk> = Vec::new();
    let mut counter: usize = 0;
    let mut i: usize = 0;
    while i < inputs.len()
        invariant
            i <= inputs@.len(),
            total_slots(inputs@) <= usize::MAX,
            disks_match(inputs@.subrange(0, i as int), out@, 0),
            counter as int == total_built(inputs@.subrange(0, i as int)),
            counter as int <= total_slots(inputs@.subrange(0, i as int)),
        decreases inputs@.len() - i,
    {
        let ghost prev = out@;
        proof {
            assert(inputs@.subrange(0, i + 1).drop_last() =~= inputs@.subrange(0, i as int));
            assert(inputs@.subrange(0, i + 1).last() == inputs@[i as int]);
            lemma_total_slots_mono(inputs@, i + 1);
            lemma_built_count_bounds(inputs@[i as int].partitions@);
        }
        match build_disk(&inputs[i], &mut counter) {
            Some(d) => {
                out.push(d);
                proof {
                    assert(out@.drop_last() =~= prev);
                }
            },
            None => {},
        }
        i = i + 1;
    }
    proof {
        assert(inputs@.subrange(0, inputs@.len() as int) =~= inputs@);
    }
    out
}

/// The identifiers of the given partitions, in order.
pub open spec fn ids_of(ps: Seq<Partition>) -> Seq<int>
    decreases ps.len(),
{
    if ps.len() == 0 {
        Seq::empty()
    } else {
        ids_of(ps.drop_last()).push(ps.last().id as int)
    }
}

/// The identifiers of every partition of every disk, disk by disk.
pub open spec fn all_partition_ids(disks: Seq<Disk>) -> Seq<int>
    decreases disks.len(),
{
    if disks.len() == 0 {
        Seq::empty()
    } else {
        all_partition_ids(disks.drop_last()) + ids_of(disks.last().partitions@)
    }
}

/// The partitions built from one disk's records carry the
/// consecutive identifiers from `start` on.
proof fn lemma_parts_ids(parts: Seq<Option<AttrRecord>>, ps: Seq<Partition>, start: int)
    requires
        parts_match(parts, ps, start),
    ensures
        ids_of(ps).len() == built_count(parts),
        forall|i: int| 0 <= i < ids_of(ps).len() ==> ids_of(ps)[i] == start + i,
    decreases parts.len(),
{
    lemma_built_count_bounds(parts);
    if parts.len() > 0 {
        match parts.last() {
            Some(l) => {
                if partition_should_build(l.pairs@) {
                    lemma_parts_ids(parts.drop_last(), ps.drop_last(), start);
                } else {
                    lemma_parts_ids(parts.drop_last(), ps, start);
                }
            },
            None => {
                lemma_parts_ids(parts.drop_last(), ps, start);
            },
        }
    }
}

/// Across a whole scan the partition identifiers are exactly
/// `start`, `start + 1`, and so on, disk by disk.
proof fn lemma_disks_ids(inputs: Seq<DiskQueryInput>, disks: Seq<Disk>, start: int)
    requires
        disks_match(inputs, disks, start),
    ensures
        all_partition_ids(disks).len() == total_built(inputs),
        forall|i: int|
            0 <= i < all_partition_ids(disks).len() ==> all_partition_ids(disks)[i] == start + i,
    decreases inputs.len(),
{
    lemma_total_built_bounds(inputs);
    if inputs.len() > 0 {
        if disk_should_build(inputs.last()) {
            lemma_disks_ids(inputs.drop_last(), disks.drop_last(), start);
            lemma_parts_ids(
                inputs.last().partitions@,
                disks.last().partitions@,
                start + total_built(inputs.drop_last()),
            );
        } else {
            lemma_disks_ids(inputs.drop_last(), disks, start);
        }
    }
}

/// Partition identifiers of a full scan are unique and strictly
/// increasing: they are the consecutive numbers from zero, never
/// reset between disks.
pub proof fn lemma_partition_ids_sequential(inputs: Seq<DiskQueryInput>, disks: Seq<Disk>)
    requires
        disks_match(inputs, disks, 0),
    ensures
        forall|i: int|
            0 <= i < all_partition_ids(disks).len() ==> all_partition_ids(disks)[i] == i,
        forall|i: int, j: int|
            0 <= i < j < all_partition_ids(disks).len() ==> all_partition_ids(disks)[i]
                < all_partition_ids(disks)[j],
{
    lemma_disks_ids(inputs, disks, 0);
}

} // verus!
