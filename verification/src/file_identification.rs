//! Classifying file content by magic-byte signatures and holding it
//! against the file's extension.
//!
//! The signature sniffing itself is done by the `infer` crate behind
//! a trusted wrapper that hands back plain strings; the mapping from
//! sniffed type to category, the extension table and all filtering
//! are verified here.

use vstd::prelude::*;
use vstd::string::StrSliceExecFns;
use vstd::string::StringExecFns;
use crate::models::file::FileEntry;
use crate::text::{lower, str_eq, str_eq_ignore_ascii_case};

verus! {

/// The content category of a file, as its leading bytes show it.
#[derive(Debug, Clone, Copy, PartialEq, Eq, Structural)]
pub enum ContentCategory {
    /// An application or executable format.
    Application,
    /// An archive format.
    Archive,
    /// An audio format.
    Audio,
    /// A book format.
    Book,
    /// A document format.
    Document,
    /// A font format.
    Font,
    /// An image format.
    Image,
    /// A plain-text format.
    Text,
    /// A video format.
    Video,
    /// A custom, caller-registered format.
    Custom,
    /// No known signature matched.
    Unknown,
}

/// Relies on infer::get_from_path: sniffs the leading bytes of the
/// file at `path`. `Ok(Some)` carries the matched type's tag (the
/// name of its matcher kind) and its MIME string; `Ok(None)` means no
/// signature matched; `Err` carries the text of the read error.
#[verifier::external_body]
fn sniff_path(path: &str) -> (r: Result<Option<(String, String)>, String>) {
    match infer::get_from_path(path) {
        Err(e) => Err(e.to_string()),
        Ok(None) => Ok(None),
        Ok(Some(k)) => Ok(Some((format!("{:?}", k.matcher_type()), k.mime_type().to_string()))),
    }
}

/// The category a sniffed type's tag denotes; an unknown tag falls
/// back to `Unknown`.
pub open spec fn spec_category_of_tag(tag: Seq<char>) -> ContentCategory {
    if tag == "App"@ {
        ContentCategory::Application
    } else if tag == "Archive"@ {
        ContentCategory::Archive
    } else if tag == "Audio"@ {
        ContentCategory::Audio
    } else if tag == "Book"@ {
        ContentCategory::Book
    } else if tag == "Doc"@ {
        ContentCategory::Document
    } else if tag == "Font"@ {
        ContentCategory::Font
    } else if tag == "Image"@ {
        ContentCategory::Image
    } else if tag == "Text"@ {
        ContentCategory::Text
    } else if tag == "Video"@ {
        ContentCategory::Video
    } else if tag == "Custom"@ {
        ContentCategory::Custom
    } else {
        ContentCategory::Unknown
    }
}

/// Maps a sniffed type's tag to its category.
pub fn category_of_tag(tag: &str) -> (r: ContentCategory)
    ensures
        r == spec_category_of_tag(tag@),
{
    if str_eq(tag, "App") {
        ContentCategory::Application
    } else if str_eq(tag, "Archive") {
        ContentCategory::Archive
    } else if str_eq(tag, "Audio") {
        ContentCategory::Audio
    } else if str_eq(tag, "Book") {
        ContentCategory::Book
    } else if str_eq(tag, "Doc") {
        ContentCategory::Document
    } else if str_eq(tag, "Font") {
        ContentCategory::Font
    } else if str_eq(tag, "Image") {
        ContentCategory::Image
    } else if str_eq(tag, "Text") {
        ContentCategory::Text
    } else if str_eq(tag, "Video") {
        ContentCategory::Video
    } else if str_eq(tag, "Custom") {
        ContentCategory::Custom
    } else {
        ContentCategory::Unknown
    }
}

/// The human-readable name of a category, used to key the
/// classification buckets.
pub open spec fn spec_category_name(c: ContentCategory) -> Seq<char> {
    match c {
        ContentCategory::Application => "Application"@,
        ContentCategory::Archive => "Archive"@,
        ContentCategory::Audio => "Audio"@,
        ContentCategory::Book => "Book"@,
        ContentCategory::Document => "Document"@,
        ContentCategory::Font => "Font"@,
        ContentCategory::Image => "Image"@,
        ContentCategory::Text => "Text"@,
        ContentCategory::Video => "Video"@,
        ContentCategory::Custom => "Custom"@,
        ContentCategory::Unknown => "Unknown"@,
    }
}

/// Renders a category's name.
pub fn category_name(c: ContentCategory) -> (r: String)
    ensures
        r@ == spec_category_name(c),
{
    match c {
        ContentCategory::Application => "Application".to_owned(),
        ContentCategory::Archive => "Archive".to_owned(),
        ContentCategory::Audio => "Audio".to_owned(),
        ContentCategory::Book => "Book".to_owned(),
        ContentCategory::Document => "Document".to_owned(),
        ContentCategory::Font => "Font".to_owned(),
        ContentCategory::Image => "Image".to_owned(),
        ContentCategory::Text => "Text".to_owned(),
        ContentCategory::Video => "Video".to_owned(),
        ContentCategory::Custom => "Custom".to_owned(),
        ContentCategory::Unknown => "Unknown".to_owned(),
    }
}

/// Whether the extension agrees with the detected MIME type, by the
/// fixed table of common formats; the extension is compared up to
/// ASCII case (deliberately: the table's entries are ASCII, and a
/// non-ASCII letterform is not treated as a spelling of one), and a
/// MIME type the table does not know agrees with any extension.
pub open spec fn spec_mime_ext_valid(mime: Seq<char>, ext: Seq<char>) -> bool {
    if mime == "image/jpeg"@ {
        lower(ext) == "jpg"@ || lower(ext) == "jpeg"@
    } else if mime == "image/png"@ {
        lower(ext) == "png"@
    } else if mime == "image/gif"@ {
        lower(ext) == "gif"@
    } else if mime == "image/webp"@ {
        lower(ext) == "webp"@
    } else if mime == "image/bmp"@ {
        lower(ext) == "bmp"@
    } else if mime == "audio/mpeg"@ {
        lower(ext) == "mp3"@
    } else if mime == "audio/wav"@ {
        lower(ext) == "wav"@
    } else if mime == "audio/ogg"@ {
        lower(ext) == "ogg"@
    } else if mime == "audio/flac"@ {
        lower(ext) == "flac"@
    } else if mime == "video/mp4"@ {
        lower(ext) == "mp4"@
    } else if mime == "video/x-matroska"@ {
        lower(ext) == "mkv"@
    } else if mime == "video/webm"@ {
        lower(ext) == "webm"@
    } else if mime == "video/quicktime"@ {
        lower(ext) == "mov"@
    } else if mime == "video/x-msvideo"@ {
        lower(ext) == "avi"@
    } else if mime == "application/pdf"@ {
        lower(ext) == "pdf"@
    } else if mime == "application/msword"@ {
        lower(ext) == "doc"@
    } else if mime == "application/vnd.openxmlformats-officedocument.wordprocessingml.document"@ {
        lower(ext) == "docx"@
    } else if mime == "application/vnd.ms-excel"@ {
        lower(ext) == "xls"@
    } else if mime == "application/vnd.openxmlformats-officedocument.spreadsheetml.sheet"@ {
        lower(ext) == "xlsx"@
    } else if mime == "application/zip"@ {
        lower(ext) == "zip"@
    } else if mime == "application/x-rar-compressed"@ {
        lower(ext) == "rar"@
    } else if mime == "application/gzip"@ {
        lower(ext) == "gz"@ || lower(ext) == "gzip"@
    } else if mime == "application/x-7z-compressed"@ {
        lower(ext) == "7z"@
    } else {
        true
    }
}

/// Lower-casing leaves each extension of the table as it is.
proof fn lemma_table_extensions_are_lower_case()
    ensures
        lower("jpg"@) == "jpg"@,
        lower("jpeg"@) == "jpeg"@,
        lower("png"@) == "png"@,
        lower("gif"@) == "gif"@,
        lower("webp"@) == "webp"@,
        lower("bmp"@) == "bmp"@,
        lower("mp3"@) == "mp3"@,
        lower("wav"@) == "wav"@,
        lower("ogg"@) == "ogg"@,
        lower("flac"@) == "flac"@,
        lower("mp4"@) == "mp4"@,
        lower("mkv"@) == "mkv"@,
        lower("webm"@) == "webm"@,
        lower("mov"@) == "mov"@,
        lower("avi"@) == "avi"@,
        lower("pdf"@) == "pdf"@,
        lower("doc"@) == "doc"@,
        lower("docx"@) == "docx"@,
        lower("xls"@) == "xls"@,
        lower("xlsx"@) == "xlsx"@,
        lower("zip"@) == "zip"@,
        lower("rar"@) == "rar"@,
        lower("gz"@) == "gz"@,
        lower("gzip"@) == "gzip"@,
        lower("7z"@) == "7z"@,
{
    reveal_strlit("jpg");
    reveal_strlit("jpeg");
    reveal_strlit("png");
    reveal_strlit("gif");
    reveal_strlit("webp");
    reveal_strlit("bmp");
    reveal_strlit("mp3");
    reveal_strlit("wav");
    reveal_strlit("ogg");
    reveal_strlit("flac");
    reveal_strlit("mp4");
    reveal_strlit("mkv");
    reveal_strlit("webm");
    reveal_strlit("mov");
    reveal_strlit("avi");
    reveal_strlit("pdf");
    reveal_strlit("doc");
    reveal_strlit("docx");
    reveal_strlit("xls");
    reveal_strlit("xlsx");
    reveal_strlit("zip");
    reveal_strlit("rar");
    reveal_strlit("gz");
    reveal_strlit("gzip");
    reveal_strlit("7z");
    assert(lower("jpg"@) =~= "jpg"@);
    assert(lower("jpeg"@) =~= "jpeg"@);
    assert(lower("png"@) =~= "png"@);
    assert(lower("gif"@) =~= "gif"@);
    assert(lower("webp"@) =~= "webp"@);
    assert(lower("bmp"@) =~= "bmp"@);
    assert(lower("mp3"@) =~= "mp3"@);
    assert(lower("wav"@) =~= "wav"@);
    assert(lower("ogg"@) =~= "ogg"@);
    assert(lower("flac"@) =~= "flac"@);
    assert(lower("mp4"@) =~= "mp4"@);
    assert(lower("mkv"@) =~= "mkv"@);
    assert(lower("webm"@) =~= "webm"@);
    assert(lower("mov"@) =~= "mov"@);
    assert(lower("avi"@) =~= "avi"@);
    assert(lower("pdf"@) =~= "pdf"@);
    assert(lower("doc"@) =~= "doc"@);
    assert(lower("docx"@) =~= "docx"@);
    assert(lower("xls"@) =~= "xls"@);
    assert(lower("xlsx"@) =~= "xlsx"@);
    assert(lower("zip"@) =~= "zip"@);
    assert(lower("rar"@) =~= "rar"@);
    assert(lower("gz"@) =~= "gz"@);
    assert(lower("gzip"@) =~= "gzip"@);
    assert(lower("7z"@) =~= "7z"@);
}

/// Holds an extension against a detected MIME type by the fixed
/// table.
pub fn mime_extension_valid(mime: &str, ext: &str) -> (r: bool)
    ensures
        r == spec_mime_ext_valid(mime@, ext@),
{
    proof {
        lemma_table_extensions_are_lower_case();
    }
    if str_eq(mime, "image/jpeg") {
        str_eq_ignore_ascii_case(ext, "jpg") || str_eq_ignore_ascii_case(ext, "jpeg")
    } else if str_eq(mime, "image/png") {
        str_eq_ignore_ascii_case(ext, "png")
    } else if str_eq(mime, "image/gif") {
        str_eq_ignore_ascii_case(ext, "gif")
    } else if str_eq(mime, "image/webp") {
        str_eq_ignore_ascii_case(ext, "webp")
    } else if str_eq(mime, "image/bmp") {
        str_eq_ignore_ascii_case(ext, "bmp")
    } else if str_eq(mime, "audio/mpeg") {
        str_eq_ignore_ascii_case(ext, "mp3")
    } else if str_eq(mime, "audio/wav") {
        str_eq_ignore_ascii_case(ext, "wav")
    } else if str_eq(mime, "audio/ogg") {
        str_eq_ignore_ascii_case(ext, "ogg")
    } else if str_eq(mime, "audio/flac") {
        str_eq_ignore_ascii_case(ext, "flac")
    } else if str_eq(mime, "video/mp4") {
        str_eq_ignore_ascii_case(ext, "mp4")
    } else if str_eq(mime, "video/x-matroska") {
        str_eq_ignore_ascii_case(ext, "mkv")
    } else if str_eq(mime, "video/webm") {
        str_eq_ignore_ascii_case(ext, "webm")
    } else if str_eq(mime, "video/quicktime") {
        str_eq_ignore_ascii_case(ext, "mov")
    } else if str_eq(mime, "video/x-msvideo") {
        str_eq_ignore_ascii_case(ext, "avi")
    } else if str_eq(mime, "application/pdf") {
        str_eq_ignore_ascii_case(ext, "pdf")
    } else if str_eq(mime, "application/msword") {
        str_eq_ignore_ascii_case(ext, "doc")
    } else if str_eq(mime, "application/vnd.openxmlformats-officedocument.wordprocessingml.document") {
        str_eq_ignore_ascii_case(ext, "docx")
    } else if str_eq(mime, "application/vnd.ms-excel") {
        str_eq_ignore_ascii_case(ext, "xls")
    } else if str_eq(mime, "application/vnd.openxmlformats-officedocument.spreadsheetml.sheet") {
        str_eq_ignore_ascii_case(ext, "xlsx")
    } else if str_eq(mime, "application/zip") {
        str_eq_ignore_ascii_case(ext, "zip")
    } else if str_eq(mime, "application/x-rar-compressed") {
        str_eq_ignore_ascii_case(ext, "rar")
    } else if str_eq(mime, "application/gzip") {
        str_eq_ignore_ascii_case(ext, "gz") || str_eq_ignore_ascii_case(ext, "gzip")
    } else if str_eq(mime, "application/x-7z-compressed") {
        str_eq_ignore_ascii_case(ext, "7z")
    } else {
        true
    }
}

/// Decides extension validity from a detected MIME type and the
/// file's extension.
///
/// No detected type gives the benefit of the doubt: `(true, None)`.
/// A detected type with no extension at all is flagged:
/// `(false, Some(mime))`. Otherwise the fixed table decides, and the
/// detected MIME type is handed back alongside the verdict.
pub fn classify_extension(detected_mime: Option<&str>, extension: Option<&str>) -> (r: (
    bool,
    Option<String>,
))
    ensures
        detected_mime is None ==> r.0 == true && r.1 is None,
        detected_mime matches Some(m) ==> (r.1 matches Some(out) && out@ == m@ && (match extension {
            None => r.0 == false,
            Some(e) => r.0 == spec_mime_ext_valid(m@, e@),
        })),
{
    match detected_mime {
        None => (true, None),
        Some(m) => {
            let mime = m.to_owned();
            match extension {
                None => (false, Some(mime)),
                Some(e) => (mime_extension_valid(m, e), Some(mime)),
            }
        },
    }
}

/// Sniffs the file's content and holds its extension against the
/// detected MIME type.
///
/// Whatever the sniff came back with: an undetermined type passes
/// with no MIME; a determined type is handed back, passes only when
/// the table accepts the file's extension, and a file without any
/// extension fails.
pub fn validate_file_extension(file: &FileEntry) -> (r: (bool, Option<String>))
    ensures
        r.1 is None ==> r.0 == true,
        r.1 matches Some(m) ==> (match file.extension {
            None => r.0 == false,
            Some(e) => r.0 == spec_mime_ext_valid(m@, e@),
        }),
{
    let sniffed = sniff_path(file.path.as_str());
    let mime: Option<String> = match sniffed {
        Ok(Some((_tag, m))) => Some(m),
        _ => None,
    };
    match mime {
        None => classify_extension(None, file.extension()),
        Some(m) => classify_extension(Some(m.as_str()), file.extension()),
    }
}

/// Whether `k` is the name of some content category.
pub open spec fn is_category_name(k: Seq<char>) -> bool {
    exists|c: ContentCategory| k == spec_category_name(c)
}

/// Whether some bucket of `bs` holds the record `f`.
pub open spec fn bucket_member(bs: Seq<(String, Vec<FileEntry>)>, f: FileEntry) -> bool {
    exists|i: int, j: int|
        0 <= i < bs.len() && 0 <= j < bs[i].1@.len() && bs[i].1@[j] == f
}

/// Whether some bucket of `bs` is keyed `k`.
pub open spec fn has_bucket(bs: Seq<(String, Vec<FileEntry>)>, k: Seq<char>) -> bool {
    exists|i: int| 0 <= i < bs.len() && bs[i].0@ == k
}

/// Buckets with pairwise distinct keys and no empty bucket.
pub open spec fn buckets_wf(bs: Seq<(String, Vec<FileEntry>)>) -> bool {
    &&& forall|i: int, j: int| 0 <= i < j < bs.len() ==> bs[i].0@ != bs[j].0@
    &&& forall|i: int| 0 <= i < bs.len() ==> bs[i].1@.len() > 0
}

/// The contents of the bucket keyed `k` — the first such bucket — or
/// the empty sequence when no bucket carries that key. Well-formed
/// buckets are never empty, so the two cases cannot be confused.
pub open spec fn bucket_of(bs: Seq<(String, Vec<FileEntry>)>, k: Seq<char>) -> Seq<FileEntry>
    decreases bs.len(),
{
    if bs.len() == 0 {
        Seq::empty()
    } else if bs.first().0@ == k {
        bs.first().1@
    } else {
        bucket_of(bs.drop_first(), k)
    }
}

/// When no earlier position carries `k`, the bucket of `k` is the one
/// at `idx`.
proof fn lemma_bucket_of_at(bs: Seq<(String, Vec<FileEntry>)>, k: Seq<char>, idx: int)
    requires
        0 <= idx < bs.len(),
        bs[idx].0@ == k,
        forall|j: int| 0 <= j < idx ==> bs[j].0@ != k,
    ensures
        bucket_of(bs, k) == bs[idx].1@,
    decreases idx,
{
    if idx > 0 {
        assert(forall|j: int|
            0 <= j < idx - 1 ==> #[trigger] bs.drop_first()[j].0@ == bs[j + 1].0@);
        lemma_bucket_of_at(bs.drop_first(), k, idx - 1);
        assert(bs.drop_first()[idx - 1] == bs[idx]);
    }
}

/// When no position carries `k`, the bucket of `k` is empty.
proof fn lemma_bucket_of_absent(bs: Seq<(String, Vec<FileEntry>)>, k: Seq<char>)
    requires
        forall|j: int| 0 <= j < bs.len() ==> bs[j].0@ != k,
    ensures
        bucket_of(bs, k) == Seq::<FileEntry>::empty(),
    decreases bs.len(),
{
    if bs.len() > 0 {
        assert(forall|j: int|
            0 <= j < bs.len() - 1 ==> #[trigger] bs.drop_first()[j].0@ == bs[j + 1].0@);
        lemma_bucket_of_absent(bs.drop_first(), k);
    }
}

/// Replacing the pair at `idx` without changing its key leaves the
/// bucket of every other key as it was.
proof fn lemma_bucket_of_update(
    bs: Seq<(String, Vec<FileEntry>)>,
    idx: int,
    p: (String, Vec<FileEntry>),
    k: Seq<char>,
)
    requires
        0 <= idx < bs.len(),
        p.0@ == bs[idx].0@,
        k != bs[idx].0@,
    ensures
        bucket_of(bs.update(idx, p), k) == bucket_of(bs, k),
    decreases idx,
{
    let upd = bs.update(idx, p);
    if idx == 0 {
        assert(upd.first() == p);
        assert(upd.drop_first() =~= bs.drop_first());
    } else {
        assert(upd.first() == bs.first());
        assert(upd.drop_first() =~= bs.drop_first().update(idx - 1, p));
        if bs.first().0@ != k {
            assert(bs.drop_first()[idx - 1] == bs[idx]);
            lemma_bucket_of_update(bs.drop_first(), idx - 1, p, k);
        }
    }
}

/// Appending a bucket leaves the bucket of every key present before
/// as it was; a key absent before gets the new pair's contents when
/// the keys agree, and stays empty otherwise.
proof fn lemma_bucket_of_push(
    bs: Seq<(String, Vec<FileEntry>)>,
    p: (String, Vec<FileEntry>),
    k: Seq<char>,
)
    ensures
        has_bucket(bs, k) ==> bucket_of(bs.push(p), k) == bucket_of(bs, k),
        !has_bucket(bs, k) && p.0@ == k ==> bucket_of(bs.push(p), k) == p.1@,
        !has_bucket(bs, k) && p.0@ != k ==> bucket_of(bs.push(p), k) == Seq::<FileEntry>::empty(),
    decreases bs.len(),
{
    if bs.len() == 0 {
        assert(bs.push(p).first() == p);
        assert(bs.push(p).drop_first() =~= Seq::<(String, Vec<FileEntry>)>::empty());
        assert(bucket_of(bs.push(p).drop_first(), k) == Seq::<FileEntry>::empty());
    } else {
        assert(bs.push(p).first() == bs.first());
        assert(bs.push(p).drop_first() =~= bs.drop_first().push(p));
        lemma_bucket_of_push(bs.drop_first(), p, k);
        if bs.first().0@ == k {
            assert(bs[0].0@ == k);
            assert(has_bucket(bs, k));
        } else {
            assert(has_bucket(bs, k) ==> has_bucket(bs.drop_first(), k)) by {
                if has_bucket(bs, k) {
                    let bi = choose|bi: int| 0 <= bi < bs.len() && bs[bi].0@ == k;
                    assert(bs.drop_first()[bi - 1] == bs[bi]);
                }
            }
            assert(has_bucket(bs.drop_first(), k) ==> has_bucket(bs, k)) by {
                if has_bucket(bs.drop_first(), k) {
                    let bi = choose|bi: int|
                        0 <= bi < bs.drop_first().len() && bs.drop_first()[bi].0@ == k;
                    assert(bs[bi + 1].0@ == k);
                }
            }
        }
    }
}

/// Files the record under `key`: into the bucket of that key when
/// one exists, else into a new bucket at the end. The bucket keyed
/// `key` gains exactly `f` at its end; every other key's bucket is
/// left as it was.
fn bucket_push(buckets: &mut Vec<(String, Vec<FileEntry>)>, key: String, f: FileEntry)
    requires
        buckets_wf(old(buckets)@),
    ensures
        buckets_wf(final(buckets)@),
        bucket_of(final(buckets)@, key@) == bucket_of(old(buckets)@, key@).push(f),
        forall|k: Seq<char>|
            k != key@ ==> #[trigger] bucket_of(final(buckets)@, k) == bucket_of(
                old(buckets)@,
                k,
            ),
        forall|g: FileEntry|
            #[trigger] bucket_member(final(buckets)@, g) <==> bucket_member(old(buckets)@, g) || g
                == f,
        forall|k: Seq<char>|
            #[trigger] has_bucket(final(buckets)@, k) <==> has_bucket(old(buckets)@, k) || k
                == key@,
{
    let n = buckets.len();
    let mut i: usize = 0;
    while i < n
        invariant
            i <= n,
            n == buckets@.len(),
            buckets@ == old(buckets)@,
            buckets_wf(old(buckets)@),
            forall|j: int| 0 <= j < i ==> buckets@[j].0@ != key@,
        decreases n - i,
    {
        if str_eq(buckets[i].0.as_str(), key.as_str()) {
            let ghost orig = buckets@;
            let mut pair = buckets.remove(i);
            let ghost moved = pair;
            pair.1.push(f);
            let ghost newpair = pair;
            buckets.insert(i, pair);
            proof {
                assert(moved == orig[i as int]);
                assert(newpair.0 == moved.0);
                assert(newpair.1@ =~= orig[i as int].1@.push(f));
                assert(buckets@ =~= orig.update(i as int, newpair));
                assert forall|j: int|
                    0 <= j < buckets@.len() implies buckets@[j].0@ == orig[j].0@ && (
                #[trigger] buckets@[j]).1@.len() > 0 by {
                    if j != i as int {
                        assert(buckets@[j] == orig[j]);
                        assert(buckets@[j].0@ == orig[j].0@);
                        assert(orig[j].1@.len() > 0);
                        assert(buckets@[j].1@.len() > 0);
                    } else {
                        assert(buckets@[j] == newpair);
                        assert(newpair.0@ == orig[j].0@);
                        assert(newpair.1@.len() > 0);
                    }
                }
                assert forall|g: FileEntry| #[trigger]
                    bucket_member(buckets@, g) implies bucket_member(orig, g) || g == f by {
                    let (bi, bj) = choose|bi: int, bj: int|
                        0 <= bi < buckets@.len() && 0 <= bj < buckets@[bi].1@.len()
                            && buckets@[bi].1@[bj] == g;
                    if bi == i as int && bj == orig[i as int].1@.len() {
                    } else {
                        assert(orig[bi].1@[bj] == g);
                        assert(bucket_member(orig, g));
                    }
                }
                assert forall|g: FileEntry|
                    bucket_member(orig, g) implies #[trigger] bucket_member(buckets@, g) by {
                    let (bi, bj) = choose|bi: int, bj: int|
                        0 <= bi < orig.len() && 0 <= bj < orig[bi].1@.len() && orig[bi].1@[bj]
                            == g;
                    assert(buckets@[bi].1@[bj] == g);
                }
                assert(buckets@[i as int].1@[orig[i as int].1@.len() as int] == f);
                assert(bucket_member(buckets@, f));
                assert forall|k: Seq<char>| #[trigger]
                    has_bucket(buckets@, k) implies has_bucket(orig, k) || k == key@ by {
                    let bi = choose|bi: int| 0 <= bi < buckets@.len() && buckets@[bi].0@ == k;
                    assert(orig[bi].0@ == k);
                }
                assert forall|k: Seq<char>|
                    has_bucket(orig, k) implies #[trigger] has_bucket(buckets@, k) by {
                    let bi = choose|bi: int| 0 <= bi < orig.len() && orig[bi].0@ == k;
                    assert(buckets@[bi].0@ == k);
                }
                assert(has_bucket(buckets@, key@)) by {
                    assert(buckets@[i as int].0@ == key@);
                }
                lemma_bucket_of_at(orig, key@, i as int);
                lemma_bucket_of_at(buckets@, key@, i as int);
                assert(bucket_of(buckets@, key@) =~= bucket_of(orig, key@).push(f));
                assert forall|k: Seq<char>| k != key@ implies #[trigger] bucket_of(buckets@, k)
                    == bucket_of(orig, k) by {
                    lemma_bucket_of_update(orig, i as int, newpair, k);
                }
            }
            return;
        }
        i = i + 1;
    }
    let ghost orig = buckets@;
    let ghost keyv = key@;
    let mut group: Vec<FileEntry> = Vec::new();
    group.push(f);
    buckets.push((key, group));
    proof {
        assert(buckets@.drop_last() =~= orig);
        assert(buckets@.last().1@ =~= seq![f]);
        assert forall|g: FileEntry| #[trigger]
            bucket_member(buckets@, g) implies bucket_member(orig, g) || g == f by {
            let (bi, bj) = choose|bi: int, bj: int|
                0 <= bi < buckets@.len() && 0 <= bj < buckets@[bi].1@.len() && buckets@[bi].1@[bj]
                    == g;
            if bi < orig.len() {
                assert(orig[bi].1@[bj] == g);
            }
        }
        assert forall|g: FileEntry|
            bucket_member(orig, g) implies #[trigger] bucket_member(buckets@, g) by {
            let (bi, bj) = choose|bi: int, bj: int|
                0 <= bi < orig.len() && 0 <= bj < orig[bi].1@.len() && orig[bi].1@[bj] == g;
            assert(buckets@[bi].1@[bj] == g);
        }
        assert(buckets@[buckets@.len() - 1].1@[0] == f);
        assert(bucket_member(buckets@, f));
        assert forall|k: Seq<char>| #[trigger]
            has_bucket(buckets@, k) implies has_bucket(orig, k) || k == keyv by {
            let bi = choose|bi: int| 0 <= bi < buckets@.len() && buckets@[bi].0@ == k;
            if bi < orig.len() {
                assert(orig[bi].0@ == k);
            }
        }
        assert forall|k: Seq<char>|
            has_bucket(orig, k) implies #[trigger] has_bucket(buckets@, k) by {
            let bi = choose|bi: int| 0 <= bi < orig.len() && orig[bi].0@ == k;
            assert(buckets@[bi].0@ == k);
        }
        assert(buckets@[buckets@.len() - 1].0@ == keyv);
        assert(has_bucket(buckets@, keyv));
        assert(!has_bucket(orig, keyv));
        lemma_bucket_of_absent(orig, keyv);
        lemma_bucket_of_push(orig, buckets@.last(), keyv);
        assert(bucket_of(buckets@, keyv) =~= bucket_of(orig, keyv).push(f)) by {
            assert(buckets@ =~= orig.push(buckets@.last()));
        }
        assert forall|k: Seq<char>| k != keyv implies #[trigger] bucket_of(buckets@, k)
            == bucket_of(orig, k) by {
            lemma_bucket_of_push(orig, buckets@.last(), k);
            assert(buckets@ =~= orig.push(buckets@.last()));
            if !has_bucket(orig, k) {
                lemma_bucket_of_absent(orig, k);
            }
        }
    }
}

/// The records standing at the positions where `keys` shows
/// `Some(k)`, in order: what the bucket keyed `k` must hold when the
/// records were sorted by those per-record keys.
pub open spec fn selected_by_key(
    files: Seq<FileEntry>,
    keys: Seq<Option<Seq<char>>>,
    k: Seq<char>,
) -> Seq<FileEntry>
    recommends
        keys.len() == files.len(),
    decreases files.len(),
{
    if files.len() == 0 {
        Seq::empty()
    } else {
        let rest = selected_by_key(files.drop_last(), keys.drop_last(), k);
        if keys.last() == Some(k) {
            rest.push(files.last())
        } else {
            rest
        }
    }
}

/// The buckets `bs` sort `files` by the per-record keys: a record
/// whose key is `Some(k)` stands in the bucket keyed `k` and nowhere
/// else, a record whose key is `None` stands in no bucket, and each
/// bucket keeps input order. Every assigned key is a category name.
pub open spec fn buckets_sort(
    files: Seq<FileEntry>,
    keys: Seq<Option<Seq<char>>>,
    bs: Seq<(String, Vec<FileEntry>)>,
) -> bool {
    &&& keys.len() == files.len()
    &&& forall|i: int|
        0 <= i < keys.len() ==> ((#[trigger] keys[i]) matches Some(k) ==> is_category_name(k))
    &&& forall|k: Seq<char>| #[trigger] bucket_of(bs, k) == selected_by_key(files, keys, k)
}

/// Sorts the records into buckets by content category: each record's
/// leading bytes are sniffed, records with a matched signature go
/// under their category's name, records with no match go under
/// `Unknown`, and records that could not be read at all are skipped.
///
/// Every bucket key is a category name, keys are pairwise distinct,
/// no bucket is empty, and some per-record key assignment — one
/// sniffed category or nothing per record — explains every bucket's
/// exact contents, so each record stands in at most one bucket, in
/// input order.
pub fn identify_files(file_entries: Vec<FileEntry>) -> (r: Vec<(String, Vec<FileEntry>)>)
    ensures
        buckets_wf(r@),
        forall|i: int| 0 <= i < r@.len() ==> is_category_name(#[trigger] r@[i].0@),
        forall|g: FileEntry| #[trigger] bucket_member(r@, g) ==> file_entries@.contains(g),
        exists|keys: Seq<Option<Seq<char>>>| buckets_sort(file_entries@, keys, r@),
{
    let mut out: Vec<(String, Vec<FileEntry>)> = Vec::new();
    let ghost mut keys: Seq<Option<Seq<char>>> = Seq::empty();
    let mut idx: usize = 0;
    proof {
        assert forall|k: Seq<char>| #[trigger] bucket_of(out@, k) == selected_by_key(
            file_entries@.subrange(0, 0),
            keys,
            k,
        ) by {
            assert(file_entries@.subrange(0, 0) =~= Seq::<FileEntry>::empty());
        }
    }
    while idx < file_entries.len()
        invariant
            idx <= file_entries@.len(),
            buckets_wf(out@),
            forall|i: int| 0 <= i < out@.len() ==> is_category_name(#[trigger] out@[i].0@),
            forall|g: FileEntry| #[trigger] bucket_member(out@, g) ==> file_entries@.contains(g),
            keys.len() == idx,
            forall|i: int|
                0 <= i < keys.len() ==> ((#[trigger] keys[i]) matches Some(k)
                    ==> is_category_name(k)),
            forall|k: Seq<char>| #[trigger] bucket_of(out@, k) == selected_by_key(
                file_entries@.subrange(0, idx as int),
                keys,
                k,
            ),
        decreases file_entries@.len() - idx,
    {
        let ghost prev_keys = keys;
        let ghost prefix = file_entries@.subrange(0, idx as int);
        let ghost prefix2 = file_entries@.subrange(0, idx + 1);
        proof {
            assert(prefix2.drop_last() =~= prefix);
            assert(prefix2.last() == file_entries@[idx as int]);
        }
        let file = &file_entries[idx];
        let sniffed = sniff_path(file.path.as_str());
        let category: Option<ContentCategory> = match sniffed {
            Err(_) => None,
            Ok(None) => Some(ContentCategory::Unknown),
            Ok(Some((tag, _mime))) => Some(category_of_tag(tag.as_str())),
        };
        match category {
            None => {
                proof {
                    keys = keys.push(None);
                    assert forall|k: Seq<char>| #[trigger] bucket_of(out@, k) == selected_by_key(
                        prefix2,
                        keys,
                        k,
                    ) by {
                        assert(keys.drop_last() =~= prev_keys);
                        assert(selected_by_key(prefix2, keys, k) == selected_by_key(
                            prefix,
                            prev_keys,
                            k,
                        ));
                    }
                }
            },
            Some(c) => {
                let key = category_name(c);
                proof {
                    assert(is_category_name(key@));
                    keys = keys.push(Some(key@));
                    assert(keys.drop_last() =~= prev_keys);
                }
                let ghost keyv = key@;
                bucket_push(&mut out, key, file.clone());
                proof {
                    assert(file_entries@.contains(file_entries@[idx as int]));
                    assert forall|k: int| 0 <= k < out@.len() implies is_category_name(
                        #[trigger] out@[k].0@,
                    ) by {
                        assert(has_bucket(out@, out@[k].0@));
                    }
                    assert forall|k: Seq<char>| #[trigger] bucket_of(out@, k) == selected_by_key(
                        prefix2,
                        keys,
                        k,
                    ) by {
                        if k == keyv {
                            assert(keys.last() == Some(k));
                            assert(selected_by_key(prefix2, keys, k) == selected_by_key(
                                prefix,
                                prev_keys,
                                k,
                            ).push(file_entries@[idx as int]));
                        } else {
                            assert(keys.last() != Some(k));
                            assert(selected_by_key(prefix2, keys, k) == selected_by_key(
                                prefix,
                                prev_keys,
                                k,
                            ));
                        }
                    }
                }
            },
        }
        idx = idx + 1;
    }
    proof {
        assert(file_entries@.subrange(0, file_entries@.len() as int) =~= file_entries@);
        assert(buckets_sort(file_entries@, keys, out@));
    }
    out
}

/// A record whose extension does not fit the MIME type detected for
/// it: either it has no extension at all, or the table rejects the
/// pair.
pub open spec fn is_mismatch(f: FileEntry, mime: Seq<char>) -> bool {
    match f.extension {
        None => true,
        Some(e) => !spec_mime_ext_valid(mime, e@),
    }
}

/// The verdict `v` is one `validate_file_extension` can give for the
/// record `f`: no detected type passes; a detected type with no
/// extension fails; otherwise the table decides.
pub open spec fn verdict_consistent(f: FileEntry, v: (bool, Option<String>)) -> bool {
    match v.1 {
        None => v.0 == true,
        Some(m) => match f.extension {
            None => v.0 == false,
            Some(e) => v.0 == spec_mime_ext_valid(m@, e@),
        },
    }
}

/// The mismatched records by the verdicts: every record whose verdict
/// is false with a detected MIME type, paired with that MIME type, in
/// input order.
pub open spec fn spec_mismatches(
    files: Seq<FileEntry>,
    verdicts: Seq<(bool, Option<String>)>,
) -> Seq<(FileEntry, String)>
    recommends
        verdicts.len() == files.len(),
    decreases files.len(),
{
    if files.len() == 0 {
        Seq::empty()
    } else {
        let rest = spec_mismatches(files.drop_last(), verdicts.drop_last());
        if !verdicts.last().0 && verdicts.last().1 is Some {
            rest.push((files.last(), verdicts.last().1->Some_0))
        } else {
            rest
        }
    }
}

/// Keeps exactly the records whose verdict is false with a detected
/// MIME type, each paired with that MIME type, in input order.
pub fn select_mismatches(files: &Vec<FileEntry>, verdicts: &Vec<(bool, Option<String>)>) -> (r:
    Vec<(FileEntry, String)>)
    requires
        verdicts@.len() == files@.len(),
    ensures
        r@ == spec_mismatches(files@, verdicts@),
{
    let mut out: Vec<(FileEntry, String)> = Vec::new();
    let mut i: usize = 0;
    proof {
        assert(files@.subrange(0, 0) =~= Seq::<FileEntry>::empty());
    }
    while i < files.len()
        invariant
            i <= files@.len(),
            verdicts@.len() == files@.len(),
            out@ == spec_mismatches(
                files@.subrange(0, i as int),
                verdicts@.subrange(0, i as int),
            ),
        decreases files@.len() - i,
    {
        proof {
            assert(files@.subrange(0, i + 1).drop_last() =~= files@.subrange(0, i as int));
            assert(files@.subrange(0, i + 1).last() == files@[i as int]);
            assert(verdicts@.subrange(0, i + 1).drop_last() =~= verdicts@.subrange(0, i as int));
            assert(verdicts@.subrange(0, i + 1).last() == verdicts@[i as int]);
        }
        if !verdicts[i].0 {
            match &verdicts[i].1 {
                Some(m) => {
                    out.push((files[i].clone(), m.clone()));
                },
                None => {},
            }
        }
        i = i + 1;
    }
    proof {
        assert(files@.subrange(0, files@.len() as int) =~= files@);
        assert(verdicts@.subrange(0, verdicts@.len() as int) =~= verdicts@);
    }
    out
}

/// Each kept pair is a record of `files` together with its own
/// failing verdict's MIME type.
pub proof fn lemma_mismatches_members(
    files: Seq<FileEntry>,
    verdicts: Seq<(bool, Option<String>)>,
)
    requires
        verdicts.len() == files.len(),
    ensures
        forall|a: int|
            0 <= a < spec_mismatches(files, verdicts).len() ==> exists|j: int|
                0 <= j < files.len() && (#[trigger] spec_mismatches(files, verdicts)[a]).0
                    == files[j] && !verdicts[j].0 && verdicts[j].1 == Some(
                    spec_mismatches(files, verdicts)[a].1,
                ),
    decreases files.len(),
{
    if files.len() > 0 {
        lemma_mismatches_members(files.drop_last(), verdicts.drop_last());
        let cur = spec_mismatches(files, verdicts);
        let prev = spec_mismatches(files.drop_last(), verdicts.drop_last());
        assert forall|a: int| 0 <= a < cur.len() implies exists|j: int|
            0 <= j < files.len() && (#[trigger] cur[a]).0 == files[j] && !verdicts[j].0
                && verdicts[j].1 == Some(cur[a].1) by {
            if a < prev.len() {
                assert(cur[a] == prev[a]);
                let j = choose|j: int|
                    0 <= j < files.drop_last().len() && prev[a].0 == files.drop_last()[j]
                        && !verdicts.drop_last()[j].0 && verdicts.drop_last()[j].1 == Some(
                        prev[a].1,
                    );
                assert(files.drop_last()[j] == files[j]);
                assert(verdicts.drop_last()[j] == verdicts[j]);
            } else {
                assert(cur[a] == (files.last(), verdicts.last().1->Some_0));
                assert(files[files.len() - 1] == files.last());
                assert(verdicts[files.len() - 1] == verdicts.last());
            }
        }
    }
}

/// Some per-record verdict sequence, each verdict one the validator
/// can give for its record, selects exactly these pairs.
pub open spec fn mismatch_selection(files: Seq<FileEntry>, r: Seq<(FileEntry, String)>) -> bool {
    exists|verdicts: Seq<(bool, Option<String>)>|
        {
            &&& verdicts.len() == files.len()
            &&& forall|i: int|
                0 <= i < verdicts.len() ==> verdict_consistent(files[i], #[trigger] verdicts[i])
            &&& r == spec_mismatches(files, verdicts)
        }
}

/// Keeps the records whose extension does not fit their detected
/// MIME type, each with that MIME type, in input order; records whose
/// type cannot be determined are passed over.
pub fn find_mismatched_extensions(file_entries: &Vec<FileEntry>) -> (r: Vec<(FileEntry, String)>)
    ensures
        mismatch_selection(file_entries@, r@),
        forall|i: int|
            0 <= i < r@.len() ==> file_entries@.contains((#[trigger] r@[i]).0) && is_mismatch(
                r@[i].0,
                r@[i].1@,
            ),
{
    let mut verdicts: Vec<(bool, Option<String>)> = Vec::new();
    let mut idx: usize = 0;
    while idx < file_entries.len()
        invariant
            idx <= file_entries@.len(),
            verdicts@.len() == idx,
            forall|i: int|
                0 <= i < verdicts@.len() ==> verdict_consistent(
                    file_entries@[i],
                    #[trigger] verdicts@[i],
                ),
        decreases file_entries@.len() - idx,
    {
        let verdict = validate_file_extension(&file_entries[idx]);
        proof {
            assert(verdict_consistent(file_entries@[idx as int], verdict));
        }
        verdicts.push(verdict);
        idx = idx + 1;
    }
    let out = select_mismatches(file_entries, &verdicts);
    proof {
        assert(mismatch_selection(file_entries@, out@)) by {
            assert(out@ == spec_mismatches(file_entries@, verdicts@));
        }
        lemma_mismatches_members(file_entries@, verdicts@);
        assert forall|i: int|
            0 <= i < out@.len() implies file_entries@.contains((#[trigger] out@[i]).0)
            && is_mismatch(out@[i].0, out@[i].1@) by {
            let j = choose|j: int|
                0 <= j < file_entries@.len() && out@[i].0 == file_entries@[j] && !verdicts@[j].0
                    && verdicts@[j].1 == Some(out@[i].1);
            assert(verdict_consistent(file_entries@[j], verdicts@[j]));
        }
    }
    out
}

} // verus!
