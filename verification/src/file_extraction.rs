//! Directory walking: collecting file records, filtering them by name
//! or age, sizing a tree, and rendering sizes for people.
//!
//! The walk itself is done by the `walkdir` crate behind a trusted
//! wrapper that hands back plain values; everything that selects,
//! converts, filters, sums or sorts those values is verified here.

use vstd::prelude::*;
use vstd::string::StrSliceExecFns;
use vstd::string::StringExecFns;
use crate::models::file::{FileEntry, entry_wf};
use crate::text::{is_substring, spec_digits, digit_char, u64_string};

verus! {

/// The error type of the `walkdir` crate, as an opaque value.
#[verifier::external_type_specification]
#[verifier::external_body]
pub struct ExWalkdirError(walkdir::Error);

/// One entry met during a directory walk, as plain values.
///
/// `size` and `modified` are `None` when the entry's metadata or
/// modification time could not be read.
pub struct WalkEntry {
    /// Complete path of the entry.
    pub path: String,
    /// Name of the entry without its leading directories.
    pub name: String,
    /// Whether the entry is a regular file.
    pub is_file: bool,
    /// Size in bytes, when metadata could be read.
    pub size: Option<u64>,
    /// Modification time in seconds since the Unix epoch, when it
    /// could be read.
    pub modified: Option<i64>,
}

/// Relies on walkdir::WalkDir: yields every entry under the root,
/// depth first, or the first traversal error.
#[verifier::external_body]
pub(crate) fn walk_tree(path: &str) -> (r: Result<Vec<WalkEntry>, walkdir::Error>) {
    let mut v = Vec::new();
    for entry in walkdir::WalkDir::new(path) {
        let e = entry?;
        let md = e.metadata().ok();
        v.push(WalkEntry {
            path: e.path().to_string_lossy().into_owned(),
            name: e.file_name().to_string_lossy().into_owned(),
            is_file: e.file_type().is_file(),
            size: md.as_ref().map(|m| m.len()),
            modified: md.and_then(|m| m.modified().ok()).and_then(|t|
                t.duration_since(std::time::UNIX_EPOCH).ok()).map(|d| d.as_secs() as i64),
        });
    }
    Ok(v)
}

/// Relies on chrono::Local::now: the clock, read as seconds since the
/// Unix epoch. Nothing is promised of the value.
#[verifier::external_body]
fn now_unix_seconds() -> i64 {
    chrono::Local::now().timestamp()
}

/// A walked entry that yields a file record: a regular file whose
/// size and modification time could both be read. An entry whose
/// metadata cannot be read is skipped; the scan goes on without it.
pub open spec fn entry_selected(w: WalkEntry) -> bool {
    w.is_file && w.size is Some && w.modified is Some
}

/// The file record `f` is the one a selected walk entry `w` gives
/// rise to: same path and name, and the size and time the walk read.
pub open spec fn entry_matches(w: WalkEntry, f: FileEntry) -> bool {
    &&& f.path@ == w.path@
    &&& f.name@ == w.name@
    &&& w.size == Some(f.size)
    &&& w.modified == Some(f.modified)
    &&& entry_wf(f)
}

/// The records `files` are exactly those of the walked entries that
/// are regular files with readable metadata, in walk order.
pub open spec fn files_match(entries: Seq<WalkEntry>, files: Seq<FileEntry>) -> bool
    decreases entries.len(),
{
    if entries.len() == 0 {
        files.len() == 0
    } else if entry_selected(entries.last()) {
        &&& files.len() > 0
        &&& entry_matches(entries.last(), files.last())
        &&& files_match(entries.drop_last(), files.drop_last())
    } else {
        files_match(entries.drop_last(), files)
    }
}

/// Builds one file record per regular file among the walked entries,
/// in walk order; entries whose metadata could not be read are
/// skipped.
pub fn files_from_entries(entries: &Vec<WalkEntry>) -> (r: Vec<FileEntry>)
    ensures
        files_match(entries@, r@),
        forall|i: int| 0 <= i < r@.len() ==> entry_wf(#[trigger] r@[i]),
{
    let mut out: Vec<FileEntry> = Vec::new();
    let mut i: usize = 0;
    while i < entries.len()
        invariant
            i <= entries@.len(),
            files_match(entries@.subrange(0, i as int), out@),
            forall|k: int| 0 <= k < out@.len() ==> entry_wf(#[trigger] out@[k]),
        decreases entries@.len() - i,
    {
        let ghost prev = out@;
        let w = &entries[i];
        if w.is_file {
            match (&w.size, &w.modified) {
                (Some(size), Some(modified)) => {
                    let f = FileEntry::new(w.path.clone(), w.name.clone(), *size, *modified);
                    proof {
                        assert(entry_matches(entries@[i as int], f));
                    }
                    out.push(f);
                    proof {
                        assert(out@.drop_last() =~= prev);
                        assert(out@.last() == f);
                    }
                },
                _ => {},
            }
        }
        proof {
            assert(entries@.subrange(0, i + 1).drop_last() =~= entries@.subrange(0, i as int));
            assert(entries@.subrange(0, i + 1).last() == entries@[i as int]);
        }
        i = i + 1;
    }
    proof {
        assert(entries@.subrange(0, entries@.len() as int) =~= entries@);
    }
    out
}

/// There is a walk whose regular files are exactly these records.
pub open spec fn some_walk_files(files: Seq<FileEntry>) -> bool {
    exists|entries: Seq<WalkEntry>| files_match(entries, files)
}

/// Walks the tree under `path` and returns one record per regular
/// file found, in walk order. A traversal error aborts the whole
/// walk; a file whose metadata cannot be read is skipped and the scan
/// goes on.
pub fn get_files(path: &str) -> (r: Result<Vec<FileEntry>, walkdir::Error>)
    ensures
        r matches Ok(files) ==> some_walk_files(files@),
        r matches Ok(files) ==> forall|i: int|
            0 <= i < files@.len() ==> entry_wf(#[trigger] files@[i]),
{
    match walk_tree(path) {
        Err(e) => Err(e),
        Ok(entries) => {
            let files = files_from_entries(&entries);
            proof {
                assert(some_walk_files(files@)) by {
                    assert(files_match(entries@, files@));
                }
            }
            Ok(files)
        },
    }
}

/// The total size of the regular files among the walked entries;
/// entries whose metadata could not be read contribute nothing.
pub open spec fn spec_dir_size(entries: Seq<WalkEntry>) -> int
    decreases entries.len(),
{
    if entries.len() == 0 {
        0
    } else {
        spec_dir_size(entries.drop_last()) + (if entry_selected(entries.last()) {
            entries.last().size->Some_0 as int
        } else {
            0
        })
    }
}

/// The sum of the sizes of the given file records.
pub open spec fn total_size(files: Seq<FileEntry>) -> int
    decreases files.len(),
{
    if files.len() == 0 {
        0
    } else {
        total_size(files.drop_last()) + files.last().size as int
    }
}

/// The records of a walk carry exactly the sizes that the walk sums:
/// the sizes of `get_files`' result add up to what
/// `calculate_directory_size` computes over the same entries.
pub proof fn lemma_size_sum_matches(entries: Seq<WalkEntry>, files: Seq<FileEntry>)
    requires
        files_match(entries, files),
    ensures
        total_size(files) == spec_dir_size(entries),
    decreases entries.len(),
{
    if entries.len() > 0 {
        if entry_selected(entries.last()) {
            lemma_size_sum_matches(entries.drop_last(), files.drop_last());
        } else {
            lemma_size_sum_matches(entries.drop_last(), files);
        }
    }
}

/// Sums the sizes of the regular files among the walked entries,
/// saturating at `u64::MAX`.
pub fn dir_size_from_entries(entries: &Vec<WalkEntry>) -> (r: u64)
    ensures
        spec_dir_size(entries@) <= u64::MAX ==> r == spec_dir_size(entries@),
        spec_dir_size(entries@) > u64::MAX ==> r == u64::MAX,
{
    let mut acc: u64 = 0;
    let mut i: usize = 0;
    while i < entries.len()
        invariant
            i <= entries@.len(),
            spec_dir_size(entries@.subrange(0, i as int)) <= u64::MAX ==> acc == spec_dir_size(
                entries@.subrange(0, i as int),
            ),
            spec_dir_size(entries@.subrange(0, i as int)) > u64::MAX ==> acc == u64::MAX,
        decreases entries@.len() - i,
    {
        proof {
            assert(entries@.subrange(0, i + 1).drop_last() =~= entries@.subrange(0, i as int));
            assert(entries@.subrange(0, i + 1).last() == entries@[i as int]);
        }
        let w = &entries[i];
        if w.is_file {
            match (&w.size, &w.modified) {
                (Some(s), Some(_)) => {
                    acc = match acc.checked_add(*s) {
                        Some(t) => t,
                        None => u64::MAX,
                    };
                },
                _ => {},
            }
        }
        i = i + 1;
    }
    proof {
        assert(entries@.subrange(0, entries@.len() as int) =~= entries@);
    }
    acc
}

/// Walks the tree under `path` and sums the sizes of all regular
/// files; files whose metadata cannot be read are skipped. The sum
/// saturates at `u64::MAX`.
pub fn calculate_directory_size(path: &str) -> (r: Result<u64, walkdir::Error>)
    ensures
        r matches Ok(n) ==> exists|entries: Seq<WalkEntry>|
            {
                &&& spec_dir_size(entries) <= u64::MAX ==> n == spec_dir_size(entries)
                &&& spec_dir_size(entries) > u64::MAX ==> n == u64::MAX
            },
{
    match walk_tree(path) {
        Err(e) => Err(e),
        Ok(entries) => {
            let n = dir_size_from_entries(&entries);
            proof {
                assert((spec_dir_size(entries@) <= u64::MAX ==> n == spec_dir_size(entries@))
                    && (spec_dir_size(entries@) > u64::MAX ==> n == u64::MAX));
            }
            Ok(n)
        },
    }
}

/// Whether a record's name has `pattern` as a substring.
pub open spec fn name_has_pattern(f: FileEntry, pattern: Seq<char>) -> bool {
    is_substring(f.name@, pattern)
}

/// Keeps the records whose name contains `pattern`, in order.
pub fn filter_by_pattern(files: &Vec<FileEntry>, pattern: &str) -> (r: Vec<FileEntry>)
    ensures
        r@ == files@.filter(|f: FileEntry| name_has_pattern(f, pattern@)),
{
    let ghost pred = |f: FileEntry| name_has_pattern(f, pattern@);
    let mut out: Vec<FileEntry> = Vec::new();
    let mut i: usize = 0;
    while i < files.len()
        invariant
            i <= files@.len(),
            out@ == files@.subrange(0, i as int).filter(
                |f: FileEntry| name_has_pattern(f, pattern@),
            ),
        decreases files@.len() - i,
    {
        let f = &files[i];
        if crate::text::str_contains(f.name.as_str(), pattern) {
            out.push(f.clone());
        }
        proof {
            reveal(Seq::filter);
            assert(files@.subrange(0, i + 1).drop_last() =~= files@.subrange(0, i as int));
            assert(files@.subrange(0, i + 1).last() == files@[i as int]);
        }
        i = i + 1;
    }
    proof {
        assert(files@.subrange(0, files@.len() as int) =~= files@);
    }
    out
}

/// Every record a pattern filter keeps has the pattern in its name
/// and was among the records handed in; every handed-in record with
/// the pattern in its name is kept.
pub proof fn lemma_pattern_filter_is_matching_subset(
    files: Seq<FileEntry>,
    pattern: Seq<char>,
    kept: Seq<FileEntry>,
)
    requires
        kept == files.filter(|f: FileEntry| name_has_pattern(f, pattern)),
    ensures
        forall|i: int| 0 <= i < kept.len() ==> name_has_pattern(#[trigger] kept[i], pattern),
        forall|i: int| 0 <= i < kept.len() ==> files.contains(#[trigger] kept[i]),
        forall|i: int|
            0 <= i < files.len() && name_has_pattern(#[trigger] files[i], pattern)
                ==> kept.contains(files[i]),
{
    let pred = |f: FileEntry| name_has_pattern(f, pattern);
    broadcast use vstd::seq_lib::group_filter_ensures;
    lemma_filter_is_subset(files, pred);
    assert forall|i: int|
        0 <= i < files.len() && name_has_pattern(#[trigger] files[i], pattern) implies kept.contains(
        files[i],
    ) by {
        assert(pred(files[i]));
        assert(files.filter(pred).contains(files[i]));
    }
}

/// Everything a filter keeps was among the records handed in.
pub(crate) proof fn lemma_filter_is_subset(files: Seq<FileEntry>, pred: spec_fn(FileEntry) -> bool)
    ensures
        forall|i: int|
            0 <= i < files.filter(pred).len() ==> files.contains(#[trigger] files.filter(pred)[i]),
    decreases files.len(),
{
    reveal(Seq::filter);
    if files.len() > 0 {
        lemma_filter_is_subset(files.drop_last(), pred);
        assert forall|i: int| 0 <= i < files.filter(pred).len() implies files.contains(
            files.filter(pred)[i],
        ) by {
            let sub = files.drop_last().filter(pred);
            if i < sub.len() {
                assert(sub[i] == files.filter(pred)[i]);
                assert(files.drop_last().contains(sub[i]));
                let j = choose|j: int| 0 <= j < files.drop_last().len() && files.drop_last()[j]
                    == sub[i];
                assert(files[j] == sub[i]);
            } else {
                assert(files.filter(pred)[i] == files.last());
            }
        }
    }
}

/// Walks the tree under `path` and returns the records of the regular
/// files whose name contains `pattern`, in walk order.
pub fn get_files_by_pattern(path: &str, pattern: &str) -> (r: Result<
    Vec<FileEntry>,
    walkdir::Error,
>)
    ensures
        r matches Ok(files) ==> forall|i: int|
            0 <= i < files@.len() ==> name_has_pattern(#[trigger] files@[i], pattern@),
        r matches Ok(files) ==> exists|all: Seq<FileEntry>|
            some_walk_files(all) && files@ == all.filter(
                |f: FileEntry| name_has_pattern(f, pattern@),
            ),
{
    match walk_tree(path) {
        Err(e) => Err(e),
        Ok(entries) => {
            let all = files_from_entries(&entries);
            let files = filter_by_pattern(&all, pattern);
            proof {
                let pred = |f: FileEntry| name_has_pattern(f, pattern@);
                broadcast use vstd::seq_lib::group_filter_ensures;
                assert(some_walk_files(all@)) by {
                    assert(files_match(entries@, all@));
                }
            }
            Ok(files)
        },
    }
}

/// The error type of the file-collecting operations.
#[derive(Debug)]
pub enum FileExtractionError {
    /// The directory walk itself failed.
    WalkDir(walkdir::Error),
    /// The cutoff time could not be computed.
    TimeError(String),
}

/// The records `files` are exactly those walked entries that are
/// regular files with readable metadata whose modification time is at
/// or after `cutoff`, in walk order.
pub open spec fn recent_match(entries: Seq<WalkEntry>, cutoff: i64, files: Seq<FileEntry>) -> bool
    decreases entries.len(),
{
    if entries.len() == 0 {
        files.len() == 0
    } else if entry_selected(entries.last()) && entries.last().modified->Some_0 >= cutoff {
        &&& files.len() > 0
        &&& entry_matches(entries.last(), files.last())
        &&& recent_match(entries.drop_last(), cutoff, files.drop_last())
    } else {
        recent_match(entries.drop_last(), cutoff, files)
    }
}

/// Keeps the regular files modified at or after `cutoff`; entries
/// whose modification time could not be read are skipped.
pub fn recent_files_from_entries(entries: &Vec<WalkEntry>, cutoff: i64) -> (r: Vec<FileEntry>)
    ensures
        recent_match(entries@, cutoff, r@),
{
    let mut out: Vec<FileEntry> = Vec::new();
    let mut i: usize = 0;
    while i < entries.len()
        invariant
            i <= entries@.len(),
            recent_match(entries@.subrange(0, i as int), cutoff, out@),
        decreases entries@.len() - i,
    {
        let ghost prev = out@;
        let w = &entries[i];
        if w.is_file {
            match (&w.size, &w.modified) {
                (Some(size), Some(modified)) => {
                    if *modified >= cutoff {
                        let f = FileEntry::new(w.path.clone(), w.name.clone(), *size, *modified);
                        proof {
                            assert(entry_matches(entries@[i as int], f));
                        }
                        out.push(f);
                        proof {
                            assert(out@.drop_last() =~= prev);
                            assert(out@.last() == f);
                        }
                    }
                },
                _ => {},
            }
        }
        proof {
            assert(entries@.subrange(0, i + 1).drop_last() =~= entries@.subrange(0, i as int));
            assert(entries@.subrange(0, i + 1).last() == entries@[i as int]);
        }
        i = i + 1;
    }
    proof {
        assert(entries@.subrange(0, entries@.len() as int) =~= entries@);
    }
    out
}

/// There is a walk and a cutoff whose recent regular files are exactly
/// these records.
pub open spec fn some_recent_walk_files(files: Seq<FileEntry>) -> bool {
    exists|entries: Seq<WalkEntry>, cutoff: i64| recent_match(entries, cutoff, files)
}

/// Walks the tree under `path` and returns the records of the regular
/// files modified within the last `days` days. Files whose
/// modification time cannot be read are skipped. When the cutoff time
/// cannot be computed at all, the whole call fails with `TimeError`.
pub fn get_recently_modified_files(path: &str, days: u64) -> (r: Result<
    Vec<FileEntry>,
    FileExtractionError,
>)
    ensures
        days * 86400 > i64::MAX ==> r matches Err(FileExtractionError::TimeError(_)),
        r matches Ok(files) ==> some_recent_walk_files(files@),
{
    let secs = match days.checked_mul(86400) {
        Some(s) => s,
        None => {
            return Err(FileExtractionError::TimeError("cutoff out of range".to_owned()));
        },
    };
    if secs > i64::MAX as u64 {
        return Err(FileExtractionError::TimeError("cutoff out of range".to_owned()));
    }
    let now = now_unix_seconds();
    let cutoff = match now.checked_sub(secs as i64) {
        Some(c) => c,
        None => {
            return Err(FileExtractionError::TimeError("cutoff out of range".to_owned()));
        },
    };
    match walk_tree(path) {
        Err(e) => Err(FileExtractionError::WalkDir(e)),
        Ok(entries) => {
            let files = recent_files_from_entries(&entries, cutoff);
            proof {
                assert(some_recent_walk_files(files@)) by {
                    assert(recent_match(entries@, cutoff, files@));
                }
            }
            Ok(files)
        },
    }
}

/// Sizes never grow along the sequence: each record is at least as
/// large as every later one.
pub open spec fn sorted_desc(files: Seq<FileEntry>) -> bool {
    forall|i: int, j: int| 0 <= i <= j < files.len() ==> files[i].size >= files[j].size
}

/// Inserts `x` after every record at least as large, keeping the
/// order of the rest: the insertion step of a stable descending sort.
pub open spec fn spec_insert_desc(s: Seq<FileEntry>, x: FileEntry) -> Seq<FileEntry>
    decreases s.len(),
{
    if s.len() == 0 {
        seq![x]
    } else if s.last().size >= x.size {
        s.push(x)
    } else {
        spec_insert_desc(s.drop_last(), x).push(s.last())
    }
}

/// Sorts records by size, largest first; records of equal size keep
/// their relative order.
pub open spec fn spec_sort_desc(s: Seq<FileEntry>) -> Seq<FileEntry>
    decreases s.len(),
{
    if s.len() == 0 {
        Seq::empty()
    } else {
        spec_insert_desc(spec_sort_desc(s.drop_last()), s.last())
    }
}

/// The largest `limit` records, by a stable descending sort.
pub open spec fn spec_largest(files: Seq<FileEntry>, limit: int) -> Seq<FileEntry> {
    let sorted = spec_sort_desc(files);
    if limit <= sorted.len() {
        sorted.take(limit)
    } else {
        sorted
    }
}

/// Inserting adds exactly `x`: every record of the result is `x` or
/// one of the records it started from.
proof fn lemma_insert_desc_elements(s: Seq<FileEntry>, x: FileEntry)
    ensures
        spec_insert_desc(s, x).len() == s.len() + 1,
        forall|i: int|
            0 <= i < spec_insert_desc(s, x).len() ==> (#[trigger] spec_insert_desc(s, x)[i] == x
                || s.contains(spec_insert_desc(s, x)[i])),
    decreases s.len(),
{
    let r = spec_insert_desc(s, x);
    if s.len() == 0 {
    } else if s.last().size >= x.size {
        assert forall|i: int| 0 <= i < r.len() implies (r[i] == x || s.contains(r[i])) by {
            if i < s.len() {
                assert(s[i] == r[i]);
            }
        }
    } else {
        lemma_insert_desc_elements(s.drop_last(), x);
        let sub = spec_insert_desc(s.drop_last(), x);
        assert forall|i: int| 0 <= i < r.len() implies (r[i] == x || s.contains(r[i])) by {
            if i < sub.len() {
                assert(r[i] == sub[i]);
                if sub[i] != x {
                    assert(s.drop_last().contains(sub[i]));
                    let j = choose|j: int| 0 <= j < s.drop_last().len() && s.drop_last()[j]
                        == sub[i];
                    assert(s[j] == sub[i]);
                }
            } else {
                assert(r[i] == s.last());
                assert(s[s.len() - 1] == s.last());
            }
        }
    }
}

/// Inserting into a sorted sequence keeps it sorted.
proof fn lemma_insert_desc_sorted(s: Seq<FileEntry>, x: FileEntry)
    requires
        sorted_desc(s),
    ensures
        sorted_desc(spec_insert_desc(s, x)),
    decreases s.len(),
{
    let r = spec_insert_desc(s, x);
    if s.len() == 0 {
    } else if s.last().size >= x.size {
        assert forall|i: int, j: int| 0 <= i <= j < r.len() implies r[i].size >= r[j].size by {
            if j < s.len() {
                assert(r[i] == s[i] && r[j] == s[j]);
            } else if i < s.len() {
                assert(r[i] == s[i] && r[j] == x);
                assert(s[i].size >= s.last().size);
            }
        }
    } else {
        assert(sorted_desc(s.drop_last())) by {
            assert(forall|i: int, j: int|
                0 <= i <= j < s.drop_last().len() ==> s.drop_last()[i] == s[i] && s.drop_last()[j]
                    == s[j]);
        }
        lemma_insert_desc_sorted(s.drop_last(), x);
        lemma_insert_desc_elements(s.drop_last(), x);
        let sub = spec_insert_desc(s.drop_last(), x);
        assert forall|i: int, j: int| 0 <= i <= j < r.len() implies r[i].size >= r[j].size by {
            if j < sub.len() {
                assert(r[i] == sub[i] && r[j] == sub[j]);
            } else if i < sub.len() {
                assert(r[i] == sub[i] && r[j] == s.last());
                if sub[i] == x {
                    assert(x.size > s.last().size);
                } else {
                    assert(s.drop_last().contains(sub[i]));
                    let k = choose|k: int| 0 <= k < s.drop_last().len() && s.drop_last()[k]
                        == sub[i];
                    assert(s[k] == sub[i]);
                    assert(s[k].size >= s.last().size);
                }
            }
        }
    }
}

/// A stable descending sort sorts, keeps the count, and invents no
/// record.
pub proof fn lemma_sort_desc_permutes(s: Seq<FileEntry>)
    ensures
        sorted_desc(spec_sort_desc(s)),
        spec_sort_desc(s).len() == s.len(),
        forall|i: int|
            0 <= i < spec_sort_desc(s).len() ==> s.contains(#[trigger] spec_sort_desc(s)[i]),
    decreases s.len(),
{
    if s.len() > 0 {
        lemma_sort_desc_permutes(s.drop_last());
        let sub = spec_sort_desc(s.drop_last());
        lemma_insert_desc_sorted(sub, s.last());
        lemma_insert_desc_elements(sub, s.last());
        let r = spec_sort_desc(s);
        assert forall|i: int| 0 <= i < r.len() implies s.contains(r[i]) by {
            if r[i] == s.last() {
                assert(s[s.len() - 1] == s.last());
            } else {
                assert(sub.contains(r[i]));
                let j = choose|j: int| 0 <= j < sub.len() && sub[j] == r[i];
                assert(s.drop_last().contains(sub[j]));
                let k = choose|k: int| 0 <= k < s.drop_last().len() && s.drop_last()[k] == sub[j];
                assert(s[k] == r[i]);
            }
        }
    }
}

/// Inserting a record adds exactly that record to the multiset.
proof fn lemma_insert_desc_multiset(s: Seq<FileEntry>, x: FileEntry)
    ensures
        spec_insert_desc(s, x).to_multiset() == s.to_multiset().insert(x),
    decreases s.len(),
{
    broadcast use vstd::seq_lib::group_to_multiset_ensures;

    if s.len() == 0 {
        assert(seq![x] =~= Seq::<FileEntry>::empty().push(x));
        assert(spec_insert_desc(s, x).to_multiset() =~= s.to_multiset().insert(x));
    } else if s.last().size >= x.size {
    } else {
        lemma_insert_desc_multiset(s.drop_last(), x);
        assert(s =~= s.drop_last().push(s.last()));
        assert(s.drop_last().to_multiset().insert(x).insert(s.last())
            =~= s.drop_last().to_multiset().insert(s.last()).insert(x));
    }
}

/// A stable descending sort rearranges the records and nothing more:
/// the multiset of records is kept exactly.
pub proof fn lemma_sort_desc_multiset(s: Seq<FileEntry>)
    ensures
        spec_sort_desc(s).to_multiset() == s.to_multiset(),
    decreases s.len(),
{
    broadcast use vstd::seq_lib::group_to_multiset_ensures;

    if s.len() > 0 {
        lemma_sort_desc_multiset(s.drop_last());
        lemma_insert_desc_multiset(spec_sort_desc(s.drop_last()), s.last());
        assert(s =~= s.drop_last().push(s.last()));
    }
}

/// The largest records are at most `limit` many, sorted largest
/// first, and all drawn from the records handed in; they are optimal:
/// the sort is a permutation of the records, and no record it leaves
/// beyond the cut is larger than any record kept.
pub proof fn lemma_largest_files(files: Seq<FileEntry>, limit: int, kept: Seq<FileEntry>)
    requires
        0 <= limit,
        kept == spec_largest(files, limit),
    ensures
        kept.len() <= limit,
        sorted_desc(kept),
        forall|i: int| 0 <= i < kept.len() ==> files.contains(#[trigger] kept[i]),
        spec_sort_desc(files).to_multiset() == files.to_multiset(),
        forall|a: int, b: int|
            0 <= a < kept.len() && limit <= b < spec_sort_desc(files).len() ==> (
            #[trigger] kept[a]).size >= (#[trigger] spec_sort_desc(files)[b]).size,
{
    lemma_sort_desc_permutes(files);
    lemma_sort_desc_multiset(files);
    let sorted = spec_sort_desc(files);
    if limit <= sorted.len() {
        assert(forall|i: int| 0 <= i < kept.len() ==> kept[i] == sorted[i]);
    }
}

/// Inserts `x` into a vector sorted largest first, after every record
/// at least as large.
fn insert_desc(out: &mut Vec<FileEntry>, x: FileEntry)
    ensures
        final(out)@ == spec_insert_desc(old(out)@, x),
{
    let mut p: usize = out.len();
    while p > 0 && out[p - 1].size < x.size
        invariant
            p <= out@.len(),
            forall|j: int| p <= j < out@.len() ==> out@[j].size < x.size,
        decreases p,
    {
        p = p - 1;
    }
    proof {
        lemma_insert_desc_at(out@, x, p as int);
    }
    out.insert(p, x);
}

/// Where the trailing run of smaller records starts is where the
/// insertion step puts `x`.
proof fn lemma_insert_desc_at(s: Seq<FileEntry>, x: FileEntry, p: int)
    requires
        0 <= p <= s.len(),
        forall|j: int| p <= j < s.len() ==> s[j].size < x.size,
        p > 0 ==> s[p - 1].size >= x.size,
    ensures
        spec_insert_desc(s, x) == s.insert(p, x),
    decreases s.len(),
{
    if s.len() == 0 {
        assert(seq![x] =~= s.insert(0, x));
    } else if s.last().size >= x.size {
        assert(p == s.len());
        assert(s.push(x) =~= s.insert(s.len() as int, x));
    } else {
        assert(p < s.len());
        lemma_insert_desc_at(s.drop_last(), x, p);
        assert(s.drop_last().insert(p, x).push(s.last()) =~= s.insert(p, x));
    }
}

/// Sorts the records by size, largest first; records of equal size
/// keep their relative order.
pub fn sort_files_by_size_desc(files: &Vec<FileEntry>) -> (r: Vec<FileEntry>)
    ensures
        r@ == spec_sort_desc(files@),
{
    let mut out: Vec<FileEntry> = Vec::new();
    let mut i: usize = 0;
    while i < files.len()
        invariant
            i <= files@.len(),
            out@ == spec_sort_desc(files@.subrange(0, i as int)),
        decreases files@.len() - i,
    {
        insert_desc(&mut out, files[i].clone());
        proof {
            assert(files@.subrange(0, i + 1).drop_last() =~= files@.subrange(0, i as int));
            assert(files@.subrange(0, i + 1).last() == files@[i as int]);
        }
        i = i + 1;
    }
    proof {
        assert(files@.subrange(0, files@.len() as int) =~= files@);
    }
    out
}

/// The largest `limit` of the given records, sorted largest first,
/// ties kept in their original order.
pub fn largest_files_of(files: &Vec<FileEntry>, limit: usize) -> (r: Vec<FileEntry>)
    ensures
        r@ == spec_largest(files@, limit as int),
{
    let mut out = sort_files_by_size_desc(files);
    out.truncate(limit);
    out
}

/// Walks the tree under `path` and returns the records of the `limit`
/// largest regular files, sorted largest first; ties keep walk order.
pub fn get_largest_files(path: &str, limit: usize) -> (r: Result<Vec<FileEntry>, walkdir::Error>)
    ensures
        r matches Ok(files) ==> files@.len() <= limit,
        r matches Ok(files) ==> sorted_desc(files@),
        r matches Ok(files) ==> exists|all: Seq<FileEntry>|
            some_walk_files(all) && files@ == spec_largest(all, limit as int),
{
    match walk_tree(path) {
        Err(e) => Err(e),
        Ok(entries) => {
            let all = files_from_entries(&entries);
            let files = largest_files_of(&all, limit);
            proof {
                lemma_largest_files(all@, limit as int, files@);
                assert(some_walk_files(all@)) by {
                    assert(files_match(entries@, all@));
                }
            }
            Ok(files)
        },
    }
}

/// Bytes in a kibibyte.
pub const KB: u64 = 1024;

/// Bytes in a mebibyte.
pub const MB: u64 = 1024 * 1024;

/// Bytes in a gibibyte.
pub const GB: u64 = 1024 * 1024 * 1024;

/// Bytes in a tebibyte.
pub const TB: u64 = 1024 * 1024 * 1024 * 1024;

/// `size` scaled by `unit`, as a whole part and a fractional part of
/// two decimal digits, rounded to the nearest hundredth with an exact
/// half rounded to the even hundredth; a fraction that rounds to one
/// carries into the whole part.
pub open spec fn spec_scaled(size: u64, unit: u64) -> (int, int) {
    let whole = size as int / unit as int;
    let q = (size as int % unit as int) * 100 / unit as int;
    let r = (size as int % unit as int) * 100 % unit as int;
    let frac = if 2 * r > unit as int || (2 * r == unit as int && q % 2 == 1) {
        q + 1
    } else {
        q
    };
    if frac == 100 {
        (whole + 1, 0)
    } else {
        (whole, frac)
    }
}

/// The characters of `size` scaled by `unit`: the whole part, a dot,
/// and exactly two fractional digits.
pub open spec fn spec_scaled_chars(size: u64, unit: u64) -> Seq<char> {
    let (whole, frac) = spec_scaled(size, unit);
    spec_digits(whole as nat) + seq!['.', digit_char((frac / 10) as nat), digit_char(
        (frac % 10) as nat,
    )]
}

/// The rendering of a byte count for people: two-decimal fixed point
/// in the largest unit that fits, or the exact count below one
/// kibibyte.
pub open spec fn spec_format_file_size(size: u64) -> Seq<char> {
    if size >= TB {
        spec_scaled_chars(size, TB) + " TB"@
    } else if size >= GB {
        spec_scaled_chars(size, GB) + " GB"@
    } else if size >= MB {
        spec_scaled_chars(size, MB) + " MB"@
    } else if size >= KB {
        spec_scaled_chars(size, KB) + " KB"@
    } else {
        spec_digits(size as nat) + " bytes"@
    }
}

/// Renders `size` scaled by `unit` with two decimals, an exact half
/// rounded to the even hundredth, and the given suffix.
fn scaled_string(size: u64, unit: u64, suffix: &str) -> (r: String)
    requires
        1024 <= unit <= 0x10000000000,
    ensures
        r@ == spec_scaled_chars(size, unit) + suffix@,
{
    let whole = size / unit;
    proof {
        vstd::arithmetic::div_mod::lemma_div_is_ordered_by_denominator(
            size as int,
            1024,
            unit as int,
        );
    }
    let scaled = (size % unit) * 100;
    let q = scaled / unit;
    let rem = scaled % unit;
    proof {
        let u = unit as int;
        vstd::arithmetic::div_mod::lemma_mod_bound(size as int, u);
        assert(scaled <= 100 * u - 100);
        vstd::arithmetic::div_mod::lemma_div_is_ordered(scaled as int, 100 * u - 1, u);
        vstd::arithmetic::div_mod::lemma_fundamental_div_mod_converse(100 * u - 1, u, 99, u - 1);
        assert(q <= 99);
    }
    let frac = if 2 * rem > unit || (2 * rem == unit && q % 2 == 1) {
        q + 1
    } else {
        q
    };
    let (w2, f2): (u64, u64) = if frac == 100 {
        (whole + 1, 0)
    } else {
        (whole, frac)
    };
    proof {
        assert((w2 as int, f2 as int) == spec_scaled(size, unit));
        reveal_strlit(".");
    }
    let mut s = u64_string(w2);
    s.append(".");
    s.append(crate::text::digit_str(f2 / 10));
    s.append(crate::text::digit_str(f2 % 10));
    s.append(suffix);
    proof {
        assert(s@ =~= spec_scaled_chars(size, unit) + suffix@);
    }
    s
}

/// Renders a byte count for people: two-decimal fixed point in the
/// largest unit that fits, or the exact count below one kibibyte.
pub fn format_file_size(size: u64) -> (r: String)
    ensures
        r@ == spec_format_file_size(size),
{
    if size >= TB {
        scaled_string(size, TB, " TB")
    } else if size >= GB {
        scaled_string(size, GB, " GB")
    } else if size >= MB {
        scaled_string(size, MB, " MB")
    } else if size >= KB {
        scaled_string(size, KB, " KB")
    } else {
        let mut s = u64_string(size);
        s.append(" bytes");
        s
    }
}

} // verus!
