//! Finding groups of files with identical content.
//!
//! The scan walks the tree once and buckets records by exact size:
//! only files that share their size with another file can be
//! duplicates, so only those are worth hashing. Each remaining file
//! gets a whole-content digest, and files agreeing in both size and
//! digest form a group; only groups of two or more are reported.
//! Empty files are never considered. The digest comes from the
//! `sha256` crate behind a trusted wrapper; every selection and
//! grouping step is verified here.

use vstd::prelude::*;
use crate::models::file::FileEntry;
use crate::file_extraction::{files_from_entries, walk_tree};
use crate::text::str_eq;

verus! {

/// Relies on sha256::try_digest: the hex-encoded digest of the whole
/// content of the file at `path` (64 hex characters), or the text of
/// the read error.
#[verifier::external_body]
fn digest_file(path: &str) -> (r: Result<String, String>)
    ensures
        r matches Ok(s) ==> s@.len() == 64,
{
    match sha256::try_digest(path) {
        Ok(h) => Ok(h),
        Err(e) => Err(e.to_string()),
    }
}

/// How many of the records have exactly this size.
pub open spec fn count_with_size(files: Seq<FileEntry>, sz: u64) -> int {
    files.filter(|g: FileEntry| g.size == sz).len() as int
}

/// A record worth hashing: not empty, and of a size at least one
/// other record shares.
pub open spec fn is_dup_candidate(all: Seq<FileEntry>, f: FileEntry) -> bool {
    f.size > 0 && count_with_size(all, f.size) >= 2
}

/// Counts the records of exactly this size.
fn count_size(files: &Vec<FileEntry>, sz: u64) -> (r: usize)
    ensures
        r == count_with_size(files@, sz),
{
    let mut cnt: usize = 0;
    let mut i: usize = 0;
    while i < files.len()
        invariant
            i <= files@.len(),
            cnt == files@.subrange(0, i as int).filter(|g: FileEntry| g.size == sz).len(),
            cnt <= i,
        decreases files@.len() - i,
    {
        proof {
            reveal(Seq::filter);
            assert(files@.subrange(0, i + 1).drop_last() =~= files@.subrange(0, i as int));
            assert(files@.subrange(0, i + 1).last() == files@[i as int]);
        }
        if files[i].size == sz {
            cnt = cnt + 1;
        }
        i = i + 1;
    }
    proof {
        assert(files@.subrange(0, files@.len() as int) =~= files@);
    }
    cnt
}

/// Keeps the records worth hashing: every non-empty record whose
/// exact size at least one other record shares, in order.
pub fn select_hash_candidates(files: &Vec<FileEntry>) -> (r: Vec<FileEntry>)
    ensures
        r@ == files@.filter(|f: FileEntry| is_dup_candidate(files@, f)),
{
    let mut out: Vec<FileEntry> = Vec::new();
    let mut i: usize = 0;
    while i < files.len()
        invariant
            i <= files@.len(),
            out@ == files@.subrange(0, i as int).filter(
                |f: FileEntry| is_dup_candidate(files@, f),
            ),
        decreases files@.len() - i,
    {
        let f = &files[i];
        if f.size > 0 {
            let cnt = count_size(files, f.size);
            if cnt >= 2 {
                out.push(f.clone());
            }
        }
        proof {
            reveal(Seq::filter);
            assert(files@.subrange(0, i + 1).drop_last() =~= files@.subrange(0, i as int));
            assert(files@.subrange(0, i + 1).last() == files@[i as int]);
        }
        i = i + 1;
    }
    proof {
        assert(files@.subrange(0, files@.len() as int) =~= files@);
    }
    out
}

/// Two hashed records that can only be duplicates of each other:
/// equal size and equal digest.
pub open spec fn same_key(a: (FileEntry, String), b: (FileEntry, String)) -> bool {
    a.0.size == b.0.size && a.1@ == b.1@
}

/// Whether some earlier pair carries the same size and digest.
pub open spec fn has_earlier(pairs: Seq<(FileEntry, String)>, i: int) -> bool {
    exists|k: int| 0 <= k < i && same_key(#[trigger] pairs[k], pairs[i])
}

/// The records of every pair agreeing with pair `i` in size and
/// digest, in order.
pub open spec fn group_of(pairs: Seq<(FileEntry, String)>, i: int) -> Seq<FileEntry> {
    pairs.filter(|q: (FileEntry, String)| same_key(q, pairs[i])).map_values(
        |q: (FileEntry, String)| q.0,
    )
}

/// The duplicate groups among the first `i` keys: for each pair that
/// is the first of its size/digest key, the records of that key, kept
/// only when there are at least two of them.
pub open spec fn groups_scan(pairs: Seq<(FileEntry, String)>, i: int) -> Seq<Seq<FileEntry>>
    decreases i,
{
    if i <= 0 {
        Seq::empty()
    } else {
        let prev = groups_scan(pairs, i - 1);
        if !has_earlier(pairs, i - 1) && group_of(pairs, i - 1).len() >= 2 {
            prev.push(group_of(pairs, i - 1))
        } else {
            prev
        }
    }
}

/// The duplicate groups of the hashed records: one group per
/// size/digest key held by at least two pairs, in first-occurrence
/// order, each group in pair order.
pub open spec fn spec_duplicate_groups(pairs: Seq<(FileEntry, String)>) -> Seq<Seq<FileEntry>> {
    groups_scan(pairs, pairs.len() as int)
}

/// The contents of the grouped vectors.
pub open spec fn group_views(gs: Seq<Vec<FileEntry>>) -> Seq<Seq<FileEntry>> {
    gs.map_values(|v: Vec<FileEntry>| v@)
}

/// Whether an earlier pair carries the same size and digest as pair
/// `i`.
fn has_earlier_exec(pairs: &Vec<(FileEntry, String)>, i: usize) -> (r: bool)
    requires
        i < pairs@.len(),
    ensures
        r == has_earlier(pairs@, i as int),
{
    let sz = pairs[i].0.size;
    let mut k: usize = 0;
    while k < i
        invariant
            k <= i < pairs@.len(),
            sz == pairs@[i as int].0.size,
            forall|l: int| 0 <= l < k ==> !same_key(#[trigger] pairs@[l], pairs@[i as int]),
        decreases i - k,
    {
        if pairs[k].0.size == sz && str_eq(pairs[k].1.as_str(), pairs[i].1.as_str()) {
            return true;
        }
        k = k + 1;
    }
    false
}

/// Collects the records of every pair agreeing with pair `i` in size
/// and digest.
fn collect_group(pairs: &Vec<(FileEntry, String)>, i: usize) -> (r: Vec<FileEntry>)
    requires
        i < pairs@.len(),
    ensures
        r@ == group_of(pairs@, i as int),
{
    let sz = pairs[i].0.size;
    let mut out: Vec<FileEntry> = Vec::new();
    let mut k: usize = 0;
    while k < pairs.len()
        invariant
            k <= pairs@.len(),
            i < pairs@.len(),
            sz == pairs@[i as int].0.size,
            out@ == pairs@.subrange(0, k as int).filter(
                |q: (FileEntry, String)| same_key(q, pairs@[i as int]),
            ).map_values(|q: (FileEntry, String)| q.0),
        decreases pairs@.len() - k,
    {
        let ghost pred = |q: (FileEntry, String)| same_key(q, pairs@[i as int]);
        proof {
            reveal(Seq::filter);
            assert(pairs@.subrange(0, k + 1).drop_last() =~= pairs@.subrange(0, k as int));
            assert(pairs@.subrange(0, k + 1).last() == pairs@[k as int]);
        }
        if pairs[k].0.size == sz && str_eq(pairs[k].1.as_str(), pairs[i].1.as_str()) {
            out.push(pairs[k].0.clone());
            proof {
                let pre = pairs@.subrange(0, k as int).filter(pred);
                assert(pairs@.subrange(0, k + 1).filter(pred) =~= pre.push(pairs@[k as int]));
                assert(pre.push(pairs@[k as int]).map_values(
                    |q: (FileEntry, String)| q.0,
                ) =~= pre.map_values(|q: (FileEntry, String)| q.0).push(pairs@[k as int].0));
            }
        } else {
            proof {
                assert(pairs@.subrange(0, k + 1).filter(pred) =~= pairs@.subrange(
                    0,
                    k as int,
                ).filter(pred));
            }
        }
        k = k + 1;
    }
    proof {
        assert(pairs@.subrange(0, pairs@.len() as int) =~= pairs@);
    }
    out
}

/// Groups the hashed records by size and digest: one group per key
/// held by at least two pairs, in first-occurrence order, each group
/// in pair order.
pub fn group_by_digest(pairs: &Vec<(FileEntry, String)>) -> (r: Vec<Vec<FileEntry>>)
    ensures
        group_views(r@) == spec_duplicate_groups(pairs@),
{
    let mut out: Vec<Vec<FileEntry>> = Vec::new();
    let mut i: usize = 0;
    proof {
        assert(group_views(out@) =~= groups_scan(pairs@, 0));
    }
    while i < pairs.len()
        invariant
            i <= pairs@.len(),
            group_views(out@) == groups_scan(pairs@, i as int),
        decreases pairs@.len() - i,
    {
        let ghost prev = out@;
        if !has_earlier_exec(pairs, i) {
            let grp = collect_group(pairs, i);
            if grp.len() >= 2 {
                let ghost gv = grp@;
                out.push(grp);
                proof {
                    assert(group_views(out@) =~= group_views(prev).push(gv));
                }
            }
        }
        i = i + 1;
    }
    out
}

/// Every duplicate group has at least two members, and each group is
/// exactly the records of the pairs of one size/digest key — the key
/// of its first pair: records of pairs with any other key stand in
/// other groups.
pub proof fn lemma_groups_are_keyed(pairs: Seq<(FileEntry, String)>, i: int)
    requires
        0 <= i <= pairs.len(),
    ensures
        forall|g: int|
            0 <= g < groups_scan(pairs, i).len() ==> (#[trigger] groups_scan(pairs, i)[g]).len()
                >= 2,
        forall|g: int|
            0 <= g < groups_scan(pairs, i).len() ==> exists|fi: int|
                0 <= fi < i && !has_earlier(pairs, fi) && #[trigger] groups_scan(pairs, i)[g]
                    == group_of(pairs, fi),
    decreases i,
{
    if i > 0 {
        lemma_groups_are_keyed(pairs, i - 1);
        let cur = groups_scan(pairs, i);
        let prev = groups_scan(pairs, i - 1);
        assert forall|g: int| 0 <= g < cur.len() implies exists|fi: int|
            0 <= fi < i && !has_earlier(pairs, fi) && #[trigger] cur[g] == group_of(pairs, fi) by {
            if g < prev.len() {
                assert(cur[g] == prev[g]);
                let fi = choose|fi: int|
                    0 <= fi < i - 1 && !has_earlier(pairs, fi) && prev[g] == group_of(pairs, fi);
                assert(cur[g] == group_of(pairs, fi));
            } else {
                assert(cur[g] == group_of(pairs, i - 1));
            }
        }
    }
}

/// A group member is the record of one of the pairs of the group's
/// key.
pub proof fn lemma_group_member_from_pair(pairs: Seq<(FileEntry, String)>, fi: int, a: int)
    requires
        0 <= fi < pairs.len(),
        0 <= a < group_of(pairs, fi).len(),
    ensures
        exists|k: int|
            0 <= k < pairs.len() && (#[trigger] pairs[k]).0 == group_of(pairs, fi)[a] && same_key(
                pairs[k],
                pairs[fi],
            ),
{
    let pred = |q: (FileEntry, String)| same_key(q, pairs[fi]);
    let kept = pairs.filter(pred);
    broadcast use vstd::seq_lib::group_filter_ensures;
    lemma_filter_members(pairs, pred, a);
    let k = choose|k: int| 0 <= k < pairs.len() && pairs[k] == kept[a];
    assert(pairs[k].0 == group_of(pairs, fi)[a]);
}

/// An element a filter kept stands somewhere in the sequence it was
/// drawn from.
proof fn lemma_filter_members(
    s: Seq<(FileEntry, String)>,
    pred: spec_fn((FileEntry, String)) -> bool,
    a: int,
)
    requires
        0 <= a < s.filter(pred).len(),
    ensures
        exists|k: int| 0 <= k < s.len() && #[trigger] s[k] == s.filter(pred)[a],
    decreases s.len(),
{
    reveal(Seq::filter);
    if s.len() > 0 {
        let sub = s.drop_last().filter(pred);
        if a < sub.len() {
            lemma_filter_members(s.drop_last(), pred, a);
            let k = choose|k: int|
                0 <= k < s.drop_last().len() && s.drop_last()[k] == s.drop_last().filter(pred)[a];
            assert(s[k] == s.filter(pred)[a]);
        } else {
            assert(s.filter(pred)[a] == s.last());
            assert(s[s.len() - 1] == s.filter(pred)[a]);
        }
    }
}

/// A filter keeps at least one element when the predicate holds
/// somewhere.
proof fn lemma_filter_at_least_one(
    s: Seq<(FileEntry, String)>,
    pred: spec_fn((FileEntry, String)) -> bool,
    i: int,
)
    requires
        0 <= i < s.len(),
        pred(s[i]),
    ensures
        s.filter(pred).len() >= 1,
    decreases s.len(),
{
    reveal(Seq::filter);
    if s.len() > 0 {
        if i < s.len() - 1 {
            assert(s.drop_last()[i] == s[i]);
            lemma_filter_at_least_one(s.drop_last(), pred, i);
        }
    }
}

/// A filter keeps at least two elements when the predicate holds at
/// two distinct places.
proof fn lemma_filter_at_least_two(
    s: Seq<(FileEntry, String)>,
    pred: spec_fn((FileEntry, String)) -> bool,
    i: int,
    j: int,
)
    requires
        0 <= i < j < s.len(),
        pred(s[i]),
        pred(s[j]),
    ensures
        s.filter(pred).len() >= 2,
    decreases s.len(),
{
    reveal(Seq::filter);
    if j == s.len() - 1 {
        lemma_filter_at_least_one(s.drop_last(), pred, i);
    } else {
        assert(s.drop_last()[i] == s[i] && s.drop_last()[j] == s[j]);
        lemma_filter_at_least_two(s.drop_last(), pred, i, j);
    }
}

/// The first pair carrying the same key as pair `i`.
proof fn lemma_first_of_key(pairs: Seq<(FileEntry, String)>, i: int) -> (f: int)
    requires
        0 <= i < pairs.len(),
    ensures
        0 <= f <= i,
        same_key(pairs[f], pairs[i]),
        !has_earlier(pairs, f),
    decreases i,
{
    if !has_earlier(pairs, i) {
        i
    } else {
        let k = choose|k: int| 0 <= k < i && same_key(#[trigger] pairs[k], pairs[i]);
        let f = lemma_first_of_key(pairs, k);
        f
    }
}

/// A group, once collected, stays through the rest of the scan.
proof fn lemma_groups_scan_grows(pairs: Seq<(FileEntry, String)>, a: int, b: int)
    requires
        0 <= a <= b,
    ensures
        groups_scan(pairs, a).len() <= groups_scan(pairs, b).len(),
        forall|g: int|
            0 <= g < groups_scan(pairs, a).len() ==> #[trigger] groups_scan(pairs, b)[g]
                == groups_scan(pairs, a)[g],
    decreases b - a,
{
    if a < b {
        lemma_groups_scan_grows(pairs, a, b - 1);
    }
}

/// Two hashed records agreeing in size and digest end up side by
/// side: one returned group holds both their records.
pub proof fn lemma_identical_content_share_group(pairs: Seq<(FileEntry, String)>, i: int, j: int)
    requires
        0 <= i < pairs.len(),
        0 <= j < pairs.len(),
        i != j,
        same_key(pairs[i], pairs[j]),
    ensures
        exists|g: int|
            0 <= g < spec_duplicate_groups(pairs).len() && (#[trigger] spec_duplicate_groups(
                pairs,
            )[g]).contains(pairs[i].0) && spec_duplicate_groups(pairs)[g].contains(pairs[j].0),
{
    let f = lemma_first_of_key(pairs, i);
    let pred = |q: (FileEntry, String)| same_key(q, pairs[f]);
    let kept = pairs.filter(pred);
    broadcast use vstd::seq_lib::group_filter_ensures;
    assert(pred(pairs[i]));
    assert(pred(pairs[j]));
    if i < j {
        lemma_filter_at_least_two(pairs, pred, i, j);
    } else {
        lemma_filter_at_least_two(pairs, pred, j, i);
    }
    let grp = group_of(pairs, f);
    assert(grp.len() >= 2);
    assert(kept.contains(pairs[i]));
    let ki = choose|k: int| 0 <= k < kept.len() && kept[k] == pairs[i];
    assert(grp[ki] == pairs[i].0);
    assert(grp.contains(pairs[i].0));
    assert(kept.contains(pairs[j]));
    let kj = choose|k: int| 0 <= k < kept.len() && kept[k] == pairs[j];
    assert(grp[kj] == pairs[j].0);
    assert(grp.contains(pairs[j].0));
    assert(groups_scan(pairs, f + 1).last() == grp);
    let g = groups_scan(pairs, f + 1).len() - 1;
    lemma_groups_scan_grows(pairs, f + 1, pairs.len() as int);
    assert(spec_duplicate_groups(pairs)[g] == grp);
}

/// Every record of every pair with the key of pair `fi` shares one
/// size, pair `fi`'s.
pub proof fn lemma_group_members_share_size(pairs: Seq<(FileEntry, String)>, fi: int)
    requires
        0 <= fi < pairs.len(),
    ensures
        forall|a: int|
            0 <= a < group_of(pairs, fi).len() ==> (#[trigger] group_of(pairs, fi)[a]).size
                == pairs[fi].0.size,
{
    let pred = |q: (FileEntry, String)| same_key(q, pairs[fi]);
    broadcast use vstd::seq_lib::group_filter_ensures;
    assert forall|a: int| 0 <= a < group_of(pairs, fi).len() implies (#[trigger] group_of(
        pairs,
        fi,
    )[a]).size == pairs[fi].0.size by {
        assert(pred(pairs.filter(pred)[a]));
    }
}

/// Two hashed records of different sizes never share a group: every
/// group's members agree on the size of its key.
pub proof fn lemma_different_sizes_never_share_group(
    pairs: Seq<(FileEntry, String)>,
    i: int,
    j: int,
)
    requires
        0 <= i < pairs.len(),
        0 <= j < pairs.len(),
        pairs[i].0.size != pairs[j].0.size,
    ensures
        forall|g: int|
            0 <= g < spec_duplicate_groups(pairs).len() ==> !((#[trigger] spec_duplicate_groups(
                pairs,
            )[g]).contains(pairs[i].0) && spec_duplicate_groups(pairs)[g].contains(pairs[j].0)),
{
    lemma_groups_are_keyed(pairs, pairs.len() as int);
    assert forall|g: int| 0 <= g < spec_duplicate_groups(pairs).len() implies !((
    #[trigger] spec_duplicate_groups(pairs)[g]).contains(pairs[i].0) && spec_duplicate_groups(
        pairs,
    )[g].contains(pairs[j].0)) by {
        let grp = spec_duplicate_groups(pairs)[g];
        let fi = choose|fi: int|
            0 <= fi < pairs.len() && !has_earlier(pairs, fi) && #[trigger] groups_scan(
                pairs,
                pairs.len() as int,
            )[g] == group_of(pairs, fi);
        lemma_group_members_share_size(pairs, fi);
        if grp.contains(pairs[i].0) && grp.contains(pairs[j].0) {
            let a = choose|a: int| 0 <= a < grp.len() && grp[a] == pairs[i].0;
            let b = choose|b: int| 0 <= b < grp.len() && grp[b] == pairs[j].0;
            assert(grp[a].size == pairs[fi].0.size);
            assert(grp[b].size == pairs[fi].0.size);
        }
    }
}

/// The result of one duplicate scan: some walk yielded `files`, each
/// hashed pair's record is one of them and is non-empty, and the
/// groups are exactly the key-wise grouping of those pairs.
pub open spec fn scan_grouping(groups: Seq<Seq<FileEntry>>) -> bool {
    exists|files: Seq<FileEntry>, pairs: Seq<(FileEntry, String)>|
        {
            &&& crate::file_extraction::some_walk_files(files)
            &&& forall|k: int|
                0 <= k < pairs.len() ==> files.contains((#[trigger] pairs[k]).0) && pairs[k].0.size
                    > 0
            &&& groups == spec_duplicate_groups(pairs)
        }
}

/// Walks the tree under `path` and returns the groups of files with
/// identical content: files of the same non-zero size whose whole
/// content digests agree, in groups of at least two. Empty files are
/// never grouped; files whose content cannot be read are left out.
pub fn find_duplicate_files(path: &str) -> (r: Result<Vec<Vec<FileEntry>>, walkdir::Error>)
    ensures
        r matches Ok(groups) ==> scan_grouping(group_views(groups@)),
        r matches Ok(groups) ==> forall|g: int|
            0 <= g < groups@.len() ==> (#[trigger] groups@[g])@.len() >= 2,
        r matches Ok(groups) ==> forall|g: int, a: int|
            0 <= g < groups@.len() && 0 <= a < groups@[g]@.len() ==> (#[trigger] groups@[g]@[a]).size
                > 0,
        r matches Ok(groups) ==> forall|g: int, a: int, b: int|
            0 <= g < groups@.len() && 0 <= a < groups@[g]@.len() && 0 <= b < groups@[g]@.len()
                ==> (#[trigger] groups@[g]@[a]).size == (#[trigger] groups@[g]@[b]).size,
{
    let entries = match walk_tree(path) {
        Err(e) => {
            return Err(e);
        },
        Ok(entries) => entries,
    };
    let files = files_from_entries(&entries);
    let candidates = select_hash_candidates(&files);
    proof {
        broadcast use vstd::seq_lib::group_filter_ensures;

        crate::file_extraction::lemma_filter_is_subset(
            files@,
            |f: FileEntry| is_dup_candidate(files@, f),
        );
    }
    let mut pairs: Vec<(FileEntry, String)> = Vec::new();
    let mut i: usize = 0;
    while i < candidates.len()
        invariant
            i <= candidates@.len(),
            forall|k: int|
                0 <= k < candidates@.len() ==> (#[trigger] candidates@[k]).size > 0
                    && files@.contains(candidates@[k]),
            forall|k: int|
                0 <= k < pairs@.len() ==> (#[trigger] pairs@[k]).0.size > 0 && files@.contains(
                    pairs@[k].0,
                ),
        decreases candidates@.len() - i,
    {
        match digest_file(candidates[i].path.as_str()) {
            Ok(d) => {
                pairs.push((candidates[i].clone(), d));
            },
            Err(_) => {},
        }
        i = i + 1;
    }
    let groups = group_by_digest(&pairs);
    proof {
        lemma_groups_are_keyed(pairs@, pairs@.len() as int);
        assert(scan_grouping(group_views(groups@))) by {
            assert(crate::file_extraction::some_walk_files(files@)) by {
                assert(crate::file_extraction::files_match(entries@, files@));
            }
        }
        assert forall|g: int, a: int|
            0 <= g < groups@.len() && 0 <= a < groups@[g]@.len() implies (
        #[trigger] groups@[g]@[a]).size > 0 by {
            assert(group_views(groups@)[g] == groups@[g]@);
            let fi = choose|fi: int|
                0 <= fi < pairs@.len() && !has_earlier(pairs@, fi) && #[trigger] groups_scan(
                    pairs@,
                    pairs@.len() as int,
                )[g] == group_of(pairs@, fi);
            lemma_group_member_from_pair(pairs@, fi, a);
        }
        assert forall|g: int, a: int, b: int|
            0 <= g < groups@.len() && 0 <= a < groups@[g]@.len() && 0 <= b < groups@[g]@.len()
            implies (#[trigger] groups@[g]@[a]).size == (#[trigger] groups@[g]@[b]).size by {
            assert(group_views(groups@)[g] == groups@[g]@);
            let fi = choose|fi: int|
                0 <= fi < pairs@.len() && !has_earlier(pairs@, fi) && #[trigger] groups_scan(
                    pairs@,
                    pairs@.len() as int,
                )[g] == group_of(pairs@, fi);
            lemma_group_members_share_size(pairs@, fi);
        }
        assert forall|g: int| 0 <= g < groups@.len() implies (#[trigger] groups@[g])@.len() >= 2 by {
            assert(group_views(groups@)[g] == groups@[g]@);
        }
    }
    Ok(groups)
}

} // verus!
