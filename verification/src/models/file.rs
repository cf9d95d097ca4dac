//! File records collected during a directory walk.

use vstd::prelude::*;
use vstd::string::StrSliceExecFns;
use crate::text::{last_index_of, lemma_last_index_of};

verus! {

/// The extension of a file name: the part after the last dot, unless
/// the name has no dot or only a leading dot (a dot-file has no
/// extension).
pub open spec fn spec_extension_of(name: Seq<char>) -> Option<Seq<char>> {
    let i = last_index_of(name, '.');
    if i <= 0 {
        None
    } else {
        Some(name.subrange(i + 1, name.len() as int))
    }
}

/// Computes the extension of a file name.
pub fn extension_of(name: &str) -> (r: Option<String>)
    ensures
        r.deep_view() == spec_extension_of(name@),
{
    let found = crate::text::find_last(name, '.');
    proof {
        lemma_last_index_of(name@, '.');
    }
    match found {
        None => None,
        Some(i) => {
            if i == 0 {
                None
            } else {
                let n = name.unicode_len();
                let ext = name.substring_char(i + 1, n);
                Some(ext.to_owned())
            }
        },
    }
}

/// One file found during a directory walk, with its metadata.
///
/// A record is immutable once built; `modified` is the modification
/// time in seconds since the Unix epoch.
#[derive(Debug)]
pub struct FileEntry {
    /// Complete path of the file.
    pub path: String,
    /// File name without the leading directories.
    pub name: String,
    /// File extension, when the name carries one.
    pub extension: Option<String>,
    /// File size in bytes.
    pub size: u64,
    /// Modification time, seconds since the Unix epoch.
    pub modified: i64,
}

/// A record whose extension agrees with its name.
pub open spec fn entry_wf(e: FileEntry) -> bool {
    e.extension.deep_view() == spec_extension_of(e.name@)
}

impl FileEntry {
    /// Builds a record from the walked metadata; the extension is
    /// derived from the name.
    pub fn new(path: String, name: String, size: u64, modified: i64) -> (r: FileEntry)
        ensures
            r.path@ == path@,
            r.name@ == name@,
            r.size == size,
            r.modified == modified,
            entry_wf(r),
    {
        let extension = extension_of(name.as_str());
        FileEntry { path, name, extension, size, modified }
    }

    /// Returns the file name without its leading directories.
    pub fn name(&self) -> (r: &str)
        ensures
            r@ == self.name@,
    {
        self.name.as_str()
    }

    /// Returns the extension of this file, if any.
    pub fn extension(&self) -> (r: Option<&str>)
        ensures
            r.deep_view() == self.extension.deep_view(),
    {
        match &self.extension {
            Some(e) => Some(e.as_str()),
            None => None,
        }
    }

    /// Returns the complete path of this file.
    pub fn path(&self) -> (r: &str)
        ensures
            r@ == self.path@,
    {
        self.path.as_str()
    }

    /// Consumes the record and returns its path.
    pub fn into_path(self) -> (r: String)
        ensures
            r@ == self.path@,
    {
        self.path
    }

    /// Returns the file size in bytes.
    pub fn size(&self) -> (r: u64)
        ensures
            r == self.size,
    {
        self.size
    }

    /// Returns the modification time, seconds since the Unix epoch.
    pub fn modified(&self) -> (r: i64)
        ensures
            r == self.modified,
    {
        self.modified
    }

    /// Whether the file is hidden by the leading-dot convention.
    pub fn is_hidden(&self) -> (r: bool)
        ensures
            r == (self.name@.len() > 0 && self.name@[0] == '.'),
    {
        if self.name.as_str().unicode_len() == 0 {
            return false;
        }
        self.name.as_str().get_char(0) == '.'
    }
}

impl Clone for FileEntry {
    /// A clone keeps every field of the record.
    fn clone(&self) -> (r: Self)
        ensures
            r == *self,
    {
        FileEntry {
            path: self.path.clone(),
            name: self.name.clone(),
            extension: match &self.extension {
                Some(e) => Some(e.clone()),
                None => None,
            },
            size: self.size,
            modified: self.modified,
        }
    }
}

} // verus!
