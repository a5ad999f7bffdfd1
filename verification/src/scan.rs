//! Candidate scanning: walking a root directory, filtering entries by
//! extension, and ordering the matches oldest-first.
//!
//! Paths are handled as byte strings. The extension of a path is read from
//! its final component (the bytes after the last `/`): it is everything after
//! the component's last `.`, unless that `.` is the component's first byte,
//! in which case the file counts as having no extension. Matching is exact
//! and case-sensitive.

use vstd::prelude::*;

verus! {

/// One filesystem entry as the directory walk reports it.
#[derive(Debug)]
pub struct ScanEntry {
    /// The entry's path, as bytes.
    pub path: Vec<u8>,
    /// Whether the entry is a regular file. The walk does not follow
    /// symlinks, so a symlink is never a regular file here.
    pub is_file: bool,
    /// Seconds since the Unix epoch of the entry's last modification, or
    /// `None` when the metadata could not be read.
    pub modified: Option<u64>,
}

/// A file eligible for deletion: its path and its last-modified time.
#[derive(Debug)]
pub struct Candidate {
    /// The file's path, as bytes.
    pub path: Vec<u8>,
    /// Seconds since the Unix epoch of the file's last modification.
    pub modified: u64,
}

/// Index where the final path component begins: just after the last `/`,
/// or 0 when the path has no `/`.
pub open spec fn name_start(path: Seq<u8>) -> int
    decreases path.len(),
{
    if path.len() == 0 {
        0
    } else if path.last() == 47u8 {
        path.len() as int
    } else {
        name_start(path.drop_last())
    }
}

/// Index of the last `.` strictly after position `lo`, or -1 when there is
/// none.
pub open spec fn last_dot_after(path: Seq<u8>, lo: int) -> int
    decreases path.len(),
{
    if path.len() == 0 || path.len() <= lo + 1 {
        -1
    } else if path.last() == 46u8 {
        path.len() - 1
    } else {
        last_dot_after(path.drop_last(), lo)
    }
}

/// The extension of `path`: the bytes of its final component after the
/// component's last `.`, unless that `.` is the component's first byte.
pub open spec fn extension_of(path: Seq<u8>) -> Option<Seq<u8>> {
    let d = last_dot_after(path, name_start(path));
    if d >= 0 {
        Some(path.subrange(d + 1, path.len() as int))
    } else {
        None
    }
}

/// Whether an extension, when there is one, is in the filter set. A file
/// without an extension matches no filter set, and the empty filter set
/// matches nothing.
pub open spec fn ext_in_filters(ext: Option<Seq<u8>>, filters: Seq<Seq<u8>>) -> bool {
    match ext {
        Option::Some(e) => filters.contains(e),
        Option::None => false,
    }
}

/// The views of a list of byte strings.
pub open spec fn views_of(filters: Seq<Vec<u8>>) -> Seq<Seq<u8>> {
    filters.map_values(|f: Vec<u8>| f@)
}

/// The bytes of `String::from_utf8_lossy` applied to `bytes`: invalid UTF-8
/// sequences replaced, valid UTF-8 input handed back unchanged.
pub uninterp spec fn utf8_lossy_bytes(bytes: Seq<u8>) -> Seq<u8>;

/// Whether `s` begins with `p`.
pub open spec fn has_prefix(s: Seq<u8>, p: Seq<u8>) -> bool {
    s.len() >= p.len() && s.subrange(0, p.len() as int) == p
}

/// Whether the scanner keeps an entry: a regular file with a readable
/// modification time whose extension is in the filter set.
pub open spec fn entry_matches(e: ScanEntry, filters: Seq<Seq<u8>>) -> bool {
    e.is_file && e.modified is Some && ext_in_filters(extension_of(e.path@), filters)
}

/// The candidate an entry turns into once kept.
pub open spec fn candidate_of(e: ScanEntry) -> Candidate {
    Candidate { path: e.path, modified: e.modified.unwrap() }
}

/// The candidates drawn from a sequence of scan entries, in scan order:
/// exactly the matching entries, each as a candidate.
pub open spec fn matched(entries: Seq<ScanEntry>, filters: Seq<Seq<u8>>) -> Seq<Candidate>
    decreases entries.len(),
{
    if entries.len() == 0 {
        Seq::empty()
    } else {
        let rest = matched(entries.drop_last(), filters);
        if entry_matches(entries.last(), filters) {
            rest.push(candidate_of(entries.last()))
        } else {
            rest
        }
    }
}

/// Extracts the extension of a path, as `extension_of` describes it.
pub fn extension_of_path(path: &Vec<u8>) -> (r: Option<Vec<u8>>)
    ensures
        r matches Some(e) ==> extension_of(path@) == Some(e@),
        r is None ==> extension_of(path@) is None,
{
    let len = path.len();
    proof {
        assert(path@.take(len as int) =~= path@);
    }
    // Where the final path component begins: scan right to left for `/`.
    let mut n: usize = len;
    while n > 0 && path[n - 1] != 47u8
        invariant
            n <= len,
            len == path@.len(),
            name_start(path@) == name_start(path@.take(n as int)),
        decreases n,
    {
        proof {
            assert(path@.take(n as int).drop_last() =~= path@.take(n as int - 1));
        }
        n -= 1;
    }
    proof {
        assert(path@.take(len as int) =~= path@);
        assert(name_start(path@) == n as int);
    }
    // The last `.` strictly after the component's first byte, right to left.
    let mut j: usize = len;
    while j > 0 && j - 1 > n && path[j - 1] != 46u8
        invariant
            n <= j <= len,
            len == path@.len(),
            name_start(path@) == n as int,
            last_dot_after(path@, n as int) == last_dot_after(path@.take(j as int), n as int),
        decreases j,
    {
        proof {
            assert(path@.take(j as int).drop_last() =~= path@.take(j as int - 1));
        }
        j -= 1;
    }
    if j > 0 && j - 1 > n {
        // path[j - 1] is the dot that starts the extension
        let d = j - 1;
        assert(last_dot_after(path@, n as int) == d as int);
        let mut ext: Vec<u8> = Vec::new();
        let mut k: usize = d + 1;
        while k < len
            invariant
                d + 1 <= k <= len,
                len == path@.len(),
                ext@ == path@.subrange(d + 1, k as int),
            decreases len - k,
        {
            ext.push(path[k]);
            proof {
                assert(path@.subrange(d + 1, k as int).push(path@[k as int]) =~= path@
                    .subrange(d + 1, k as int + 1));
            }
            k += 1;
        }
        Some(ext)
    } else {
        proof {
            assert(last_dot_after(path@, n as int) == -1);
        }
        None
    }
}

/// Whether two byte strings hold the same bytes.
pub fn bytes_equal(a: &Vec<u8>, b: &Vec<u8>) -> (r: bool)
    ensures
        r == (a@ == b@),
{
    if a.len() != b.len() {
        return false;
    }
    let mut i: usize = 0;
    while i < a.len()
        invariant
            i <= a@.len(),
            a@.len() == b@.len(),
            forall|t: int| 0 <= t < i ==> a@[t] == b@[t],
        decreases a@.len() - i,
    {
        if a[i] != b[i] {
            return false;
        }
        i += 1;
    }
    proof {
        assert(a@ =~= b@);
    }
    true
}

/// Whether the extension of `path` is in the filter set.
pub fn extension_matches(path: &Vec<u8>, filters: &Vec<Vec<u8>>) -> (r: bool)
    ensures
        r == ext_in_filters(extension_of(path@), views_of(filters@)),
{
    let ext = match extension_of_path(path) {
        Some(e) => e,
        None => {
            return false;
        },
    };
    let mut i: usize = 0;
    while i < filters.len()
        invariant
            i <= filters@.len(),
            extension_of(path@) == Some(ext@),
            forall|t: int| 0 <= t < i ==> views_of(filters@)[t] != ext@,
        decreases filters@.len() - i,
    {
        if bytes_equal(&filters[i], &ext) {
            assert(views_of(filters@)[i as int] == ext@);
            return true;
        }
        i += 1;
    }
    false
}

/// Keeps exactly the matching entries, in scan order, each as a candidate.
pub fn filter_candidates(entries: Vec<ScanEntry>, filters: &Vec<Vec<u8>>) -> (r: Vec<Candidate>)
    ensures
        r@ == matched(entries@, views_of(filters@)),
        forall|i: int|
            0 <= i < r@.len() ==> ext_in_filters(
                extension_of(#[trigger] r@[i].path@),
                views_of(filters@),
            ),
{
    let ghost orig = entries@;
    let ghost fs = views_of(filters@);
    let mut rest = entries;
    let mut out: Vec<Candidate> = Vec::new();
    let ghost mut k: int = 0;
    while rest.len() > 0
        invariant
            0 <= k <= orig.len(),
            rest@ == orig.subrange(k, orig.len() as int),
            out@ == matched(orig.take(k), fs),
            fs == views_of(filters@),
            forall|i: int|
                0 <= i < out@.len() ==> ext_in_filters(
                    extension_of(#[trigger] out@[i].path@),
                    fs,
                ),
        decreases rest@.len(),
    {
        let e = rest.remove(0);
        proof {
            assert(e == orig[k]);
            assert(orig.subrange(k, orig.len() as int).remove(0) =~= orig.subrange(
                k + 1,
                orig.len() as int,
            ));
            assert(orig.take(k + 1).drop_last() =~= orig.take(k));
            assert(orig.take(k + 1).last() == orig[k]);
        }
        if e.is_file && e.modified.is_some() && extension_matches(&e.path, filters) {
            let m = e.modified.unwrap();
            out.push(Candidate { path: e.path, modified: m });
        }
        proof {
            k = k + 1;
        }
    }
    proof {
        assert(orig.take(k) =~= orig);
    }
    out
}

/// Non-decreasing by modified time.
pub open spec fn sorted_by_modified(s: Seq<Candidate>) -> bool {
    forall|i: int, j: int| 0 <= i <= j < s.len() ==> #[trigger] s[i].modified <= #[trigger] s[j].modified
}

/// Where a stable sort puts one more candidate: after every element whose
/// modified time is at or below its own.
pub open spec fn insert_ordered(s: Seq<Candidate>, c: Candidate) -> Seq<Candidate>
    decreases s.len(),
{
    if s.len() == 0 {
        seq![c]
    } else if c.modified < s.last().modified {
        insert_ordered(s.drop_last(), c).push(s.last())
    } else {
        s.push(c)
    }
}

/// The stable sort of a candidate sequence by modified time: equal times
/// keep their relative order.
pub open spec fn sort_by_modified(s: Seq<Candidate>) -> Seq<Candidate>
    decreases s.len(),
{
    if s.len() == 0 {
        Seq::empty()
    } else {
        insert_ordered(sort_by_modified(s.drop_last()), s.last())
    }
}

proof fn lemma_insert_ordered_at(s: Seq<Candidate>, j: int, c: Candidate)
    requires
        sorted_by_modified(s),
        0 <= j <= s.len(),
        forall|t: int| j <= t < s.len() ==> #[trigger] s[t].modified > c.modified,
        j > 0 ==> s[j - 1].modified <= c.modified,
    ensures
        insert_ordered(s, c) == s.insert(j, c),
    decreases s.len(),
{
    if s.len() == 0 {
        assert(insert_ordered(s, c) =~= s.insert(0, c));
    } else if c.modified < s.last().modified {
        assert(j < s.len());
        assert(sorted_by_modified(s.drop_last())) by {
            assert(forall|x: int, y: int|
                0 <= x <= y < s.len() - 1 ==> #[trigger] s.drop_last()[x].modified
                    <= #[trigger] s.drop_last()[y].modified);
        }
        assert(forall|t: int|
            j <= t < s.drop_last().len() ==> #[trigger] s.drop_last()[t].modified > c.modified);
        lemma_insert_ordered_at(s.drop_last(), j, c);
        assert(s.drop_last().insert(j, c).push(s.last()) =~= s.insert(j, c));
    } else {
        assert(j == s.len());
        assert(s.push(c) =~= s.insert(j, c));
    }
}

proof fn lemma_sorted_insert(s: Seq<Candidate>, j: int, c: Candidate)
    requires
        sorted_by_modified(s),
        0 <= j <= s.len(),
        forall|t: int| j <= t < s.len() ==> #[trigger] s[t].modified > c.modified,
        j > 0 ==> s[j - 1].modified <= c.modified,
    ensures
        sorted_by_modified(s.insert(j, c)),
        forall|x: Candidate| #[trigger] s.insert(j, c).contains(x) ==> s.contains(x) || x == c,
{
    let s2 = s.insert(j, c);
    assert forall|x: int, y: int| 0 <= x <= y < s2.len() implies #[trigger] s2[x].modified
        <= #[trigger] s2[y].modified by {
        if x < j {
            assert(s2[x] == s[x]);
        } else if x == j {
            assert(s2[x] == c);
        } else {
            assert(s2[x] == s[x - 1]);
        }
        if y < j {
            assert(s2[y] == s[y]);
        } else if y == j {
            assert(s2[y] == c);
        } else {
            assert(s2[y] == s[y - 1]);
        }
    }
    assert forall|x: Candidate| #[trigger] s2.contains(x) implies s.contains(x) || x == c by {
        let t = choose|t: int| 0 <= t < s2.len() && s2[t] == x;
        if t < j {
            assert(s[t] == x);
        } else if t == j {
            assert(x == c);
        } else {
            assert(s[t - 1] == x);
        }
    }
}

/// Sorts candidates by modified time, oldest first, keeping the relative
/// order of equal times.
pub fn sort_candidates(input: Vec<Candidate>) -> (r: Vec<Candidate>)
    ensures
        r@ == sort_by_modified(input@),
        sorted_by_modified(r@),
        forall|x: Candidate| #[trigger] r@.contains(x) ==> input@.contains(x),
{
    let ghost orig = input@;
    let mut rest = input;
    let mut out: Vec<Candidate> = Vec::new();
    let ghost mut k: int = 0;
    while rest.len() > 0
        invariant
            0 <= k <= orig.len(),
            rest@ == orig.subrange(k, orig.len() as int),
            out@ == sort_by_modified(orig.take(k)),
            sorted_by_modified(out@),
            forall|x: Candidate| #[trigger] out@.contains(x) ==> orig.take(k).contains(x),
        decreases rest@.len(),
    {
        let c = rest.remove(0);
        proof {
            assert(c == orig[k]);
            assert(orig.subrange(k, orig.len() as int).remove(0) =~= orig.subrange(
                k + 1,
                orig.len() as int,
            ));
        }
        let mut j: usize = out.len();
        while j > 0 && out[j - 1].modified > c.modified
            invariant
                j <= out@.len(),
                forall|t: int| j <= t < out@.len() ==> #[trigger] out@[t].modified > c.modified,
            decreases j,
        {
            j -= 1;
        }
        proof {
            lemma_sorted_insert(out@, j as int, c);
            lemma_insert_ordered_at(out@, j as int, c);
            assert(orig.take(k + 1).drop_last() =~= orig.take(k));
            assert(orig.take(k + 1).last() == orig[k]);
        }
        let ghost out_before = out@;
        out.insert(j, c);
        proof {
            assert forall|x: Candidate| #[trigger] out@.contains(x) implies orig.take(
                k + 1,
            ).contains(x) by {
                if out_before.contains(x) {
                    let t = choose|t: int| 0 <= t < orig.take(k).len() && orig.take(k)[t] == x;
                    assert(orig.take(k + 1)[t] == x);
                } else {
                    assert(x == c);
                    assert(orig.take(k + 1)[k] == x);
                }
            }
            k = k + 1;
        }
    }
    proof {
        assert(orig.take(k) =~= orig);
    }
    out
}

/// Relies on walkdir::WalkDir and walkdir::DirEntry (path, file_type,
/// metadata) together with the metadata's modification time from std: yields
/// every entry under `root`, symlinks not followed, each with its path bytes,
/// whether it is a regular file, and its last-modified time in seconds since
/// the Unix epoch when that could be read. Entries the walk fails on are
/// skipped. Which entries come back reflects the live filesystem, so nothing
/// is promised of that; what walkdir does promise is that each entry's path
/// is the walked root with the entry's components joined on, so every path
/// begins with the root as it was handed to the walk. The root is handed to
/// the walk through String::from_utf8_lossy (`utf8_lossy_bytes`), and entry
/// paths come back the same lossy way, which leaves that valid-UTF-8 prefix
/// intact.
#[verifier::external_body]
fn walk_entries(root: &Vec<u8>) -> (r: Vec<ScanEntry>)
    ensures
        forall|i: int|
            0 <= i < r@.len() ==> has_prefix(#[trigger] r@[i].path@, utf8_lossy_bytes(root@)),
{
    let mut out: Vec<ScanEntry> = Vec::new();
    let root_s = String::from_utf8_lossy(root.as_slice()).into_owned();
    for entry in walkdir::WalkDir::new(&root_s) {
        if let Ok(e) = entry {
            let modified = e.metadata().ok().and_then(|m| m.modified().ok()).and_then(
                |t| t.duration_since(std::time::UNIX_EPOCH).ok(),
            ).map(|d| d.as_secs());
            let is_file = e.file_type().is_file();
            let path = e.path().to_string_lossy().into_owned().into_bytes();
            out.push(ScanEntry { path, is_file, modified });
        }
    }
    out
}

/// Every candidate drawn from a sequence of scan entries carries the path of
/// one of those entries.
proof fn lemma_matched_from_entries(entries: Seq<ScanEntry>, filters: Seq<Seq<u8>>)
    ensures
        forall|j: int|
            0 <= j < matched(entries, filters).len() ==> exists|i: int|
                0 <= i < entries.len() && (#[trigger] matched(entries, filters)[j]).path
                    == entries[i].path,
    decreases entries.len(),
{
    if entries.len() > 0 {
        lemma_matched_from_entries(entries.drop_last(), filters);
        let rest = matched(entries.drop_last(), filters);
        assert forall|j: int| 0 <= j < matched(entries, filters).len() implies exists|i: int|
            0 <= i < entries.len() && (#[trigger] matched(entries, filters)[j]).path
                == entries[i].path by {
            if j < rest.len() {
                assert(matched(entries, filters)[j] == rest[j]);
                let i = choose|i: int|
                    0 <= i < entries.drop_last().len() && rest[j].path
                        == entries.drop_last()[i].path;
                assert(entries.drop_last()[i] == entries[i]);
                assert(matched(entries, filters)[j].path == entries[i].path);
            } else {
                assert(entry_matches(entries.last(), filters));
                assert(matched(entries, filters)[j] == candidate_of(entries.last()));
                assert(matched(entries, filters)[j].path == entries[entries.len() - 1].path);
            }
        }
    }
}

/// Scans `root` recursively and returns the deletion candidates: the regular
/// files whose extension is in `filter_extensions`, oldest first, equal
/// times in scan order. Entries the walk or the metadata reads fail on are
/// skipped; the scan itself never fails. Every candidate lies under the
/// scanned root: its path begins with the root's bytes (lossily rewritten
/// where the root was not valid UTF-8).
pub fn find_matching_files(root: &Vec<u8>, filter_extensions: &Vec<Vec<u8>>) -> (r: Vec<Candidate>)
    ensures
        sorted_by_modified(r@),
        exists|entries: Seq<ScanEntry>| r@ == sort_by_modified(
            #[trigger] matched(entries, views_of(filter_extensions@)),
        ),
        forall|i: int|
            0 <= i < r@.len() ==> ext_in_filters(
                extension_of(#[trigger] r@[i].path@),
                views_of(filter_extensions@),
            ),
        forall|i: int|
            0 <= i < r@.len() ==> has_prefix(#[trigger] r@[i].path@, utf8_lossy_bytes(root@)),
{
    let entries = walk_entries(root);
    let ghost es = entries@;
    let cands = filter_candidates(entries, filter_extensions);
    let ghost cs = cands@;
    let r = sort_candidates(cands);
    proof {
        assert(r@ == sort_by_modified(matched(es, views_of(filter_extensions@))));
        lemma_matched_from_entries(es, views_of(filter_extensions@));
        assert forall|i: int| 0 <= i < r@.len() implies ext_in_filters(
            extension_of(#[trigger] r@[i].path@),
            views_of(filter_extensions@),
        ) && has_prefix(r@[i].path@, utf8_lossy_bytes(root@)) by {
            assert(r@.contains(r@[i]));
            assert(cs.contains(r@[i]));
            let t = choose|t: int| 0 <= t < cs.len() && cs[t] == r@[i];
            assert(ext_in_filters(extension_of(cs[t].path@), views_of(filter_extensions@)));
            let e = choose|e: int| 0 <= e < es.len() && cs[t].path == es[e].path;
            assert(has_prefix(es[e].path@, utf8_lossy_bytes(root@)));
        }
    }
    r
}

/// No discarded file is ever queued: when every scan entry with path `p`
/// fails the match — wrong extension, no extension, or not a regular file —
/// the candidates drawn from those entries hold no candidate with path `p`.
/// This holds for every filter set, the empty one included.
pub proof fn lemma_discarded_never_queued(entries: Seq<ScanEntry>, filters: Seq<Seq<u8>>, p: Seq<u8>)
    requires
        forall|i: int|
            0 <= i < entries.len() && (#[trigger] entries[i].path@) == p ==> !entry_matches(
                entries[i],
                filters,
            ),
    ensures
        forall|j: int|
            0 <= j < matched(entries, filters).len() ==> (#[trigger] matched(
                entries,
                filters,
            )[j].path@) != p,
    decreases entries.len(),
{
    if entries.len() > 0 {
        assert forall|i: int|
            0 <= i < entries.drop_last().len() && (#[trigger] entries.drop_last()[i].path@)
                == p implies !entry_matches(entries.drop_last()[i], filters) by {
            assert(entries[i].path@ == p);
        }
        lemma_discarded_never_queued(entries.drop_last(), filters, p);
        let rest = matched(entries.drop_last(), filters);
        assert forall|j: int|
            0 <= j < matched(entries, filters).len() implies (#[trigger] matched(
            entries,
            filters,
        )[j].path@) != p by {
            if entry_matches(entries.last(), filters) {
                assert(entries[entries.len() - 1].path@ != p);
                assert(matched(entries, filters) == rest.push(candidate_of(entries.last())));
                if j < rest.len() {
                    assert(matched(entries, filters)[j] == rest[j]);
                } else {
                    assert(matched(entries, filters)[j] == candidate_of(entries.last()));
                }
            } else {
                assert(matched(entries, filters) == rest);
            }
        }
    }
}

/// With an empty filter set the scanner queues nothing.
pub proof fn lemma_empty_filter_queues_nothing(entries: Seq<ScanEntry>)
    ensures
        matched(entries, Seq::empty()).len() == 0,
    decreases entries.len(),
{
    if entries.len() > 0 {
        lemma_empty_filter_queues_nothing(entries.drop_last());
    }
}

} // verus!
