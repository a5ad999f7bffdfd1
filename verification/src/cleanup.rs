//! The cleanup run: the initial usage gate, the scan, and the deletion loop
//! that re-checks live usage before every candidate.

use vstd::prelude::*;

use crate::scan::Candidate;
use crate::scan::ScanEntry;
use crate::scan::ext_in_filters;
use crate::scan::extension_of;
use crate::scan::find_matching_files;
use crate::scan::has_prefix;
use crate::scan::matched;
use crate::scan::sort_by_modified;
use crate::scan::sorted_by_modified;
use crate::scan::utf8_lossy_bytes;
use crate::scan::views_of;
use crate::usage::QueryError;
use crate::usage::read_use_percentage;

verus! {

/// Why a cleanup run aborted.
#[derive(Debug)]
pub enum CleanupError {
    /// The root directory could not be resolved to an existing path.
    PathResolution,
    /// A usage query failed, before the scan or between deletions.
    Query(QueryError),
    /// Deleting a candidate failed; holds the raw errno.
    Deletion(i32),
}

/// What stopped the candidate loop before the queue was exhausted or the
/// target was met.
#[derive(Debug)]
pub enum ConsumeFailure {
    /// A usage query failed between deletions.
    Query(QueryError),
    /// Deleting the last reported candidate failed; holds the raw errno.
    Deletion(i32),
}

/// What a pass over the candidate queue did.
#[derive(Debug)]
pub struct ConsumeSummary {
    /// Candidates reported for removal, in queue order. In commit mode each
    /// of them, except the last one when a deletion failure is recorded, was
    /// deleted.
    pub reported: Vec<Candidate>,
    /// Candidates left untouched when the loop stopped.
    pub remaining: Vec<Candidate>,
    /// What aborted the loop, if anything did.
    pub failure: Option<ConsumeFailure>,
}

/// What a full cleanup run did.
#[derive(Debug)]
pub struct CleanupReport {
    /// The resolved root directory the run worked under.
    pub root: Vec<u8>,
    /// The usage percentage before any action.
    pub initial_usage: u8,
    /// Whether the scan ran at all: it does only when the initial usage is
    /// at or above the target.
    pub scanned: bool,
    /// Candidates reported for removal, oldest first.
    pub reported: Vec<Candidate>,
    /// Candidates left untouched when the run stopped.
    pub remaining: Vec<Candidate>,
}

/// A failed cleanup run: the error, together with what the run had done by
/// the time it aborted, so the actions already taken are not lost.
#[derive(Debug)]
pub struct CleanupFailure {
    /// What failed.
    pub error: CleanupError,
    /// The usage before any action, when the initial reading succeeded.
    pub initial_usage: Option<u8>,
    /// Candidates reported before the failure, oldest first. In commit mode
    /// each of them, except the last one when a deletion failed, was
    /// deleted.
    pub reported: Vec<Candidate>,
    /// Candidates left untouched.
    pub remaining: Vec<Candidate>,
}

/// How many candidates the loop consumes from a queue of length `qlen` when
/// the successive usage readings are `us`: it stops right before the first
/// reading below `target`, or when the queue or the readings run out.
pub open spec fn consumed_len(us: Seq<u8>, target: u8, qlen: nat) -> nat
    decreases qlen,
{
    if qlen == 0 || us.len() == 0 {
        0
    } else if us[0] < target {
        0
    } else {
        (1 + consumed_len(us.drop_first(), target, (qlen - 1) as nat)) as nat
    }
}

/// The loop never deletes more files than necessary: once the reading at
/// position `i` is below target, at most `i` candidates are ever consumed,
/// whatever the queue holds.
pub proof fn lemma_no_overdeletion(us: Seq<u8>, target: u8, qlen: nat, i: int)
    requires
        0 <= i < us.len(),
        us[i] < target,
    ensures
        consumed_len(us, target, qlen) <= i,
    decreases i,
{
    if qlen == 0 || us.len() == 0 || us[0] < target {
    } else {
        lemma_no_overdeletion(us.drop_first(), target, (qlen - 1) as nat, i - 1);
    }
}

/// The number of consumed candidates never exceeds the queue's length.
pub proof fn lemma_consumed_len_bound(us: Seq<u8>, target: u8, qlen: nat)
    ensures
        consumed_len(us, target, qlen) <= qlen,
    decreases qlen,
{
    if qlen == 0 || us.len() == 0 || us[0] < target {
    } else {
        lemma_consumed_len_bound(us.drop_first(), target, (qlen - 1) as nat);
    }
}

/// When the first `n` readings are all at or above target and either the
/// queue is exhausted after them (`n == qlen`) or reading `n` is below
/// target, exactly `n` candidates are consumed.
proof fn lemma_consumed_len_value(us: Seq<u8>, target: u8, qlen: nat, n: nat)
    requires
        n <= us.len(),
        n <= qlen,
        forall|j: int| 0 <= j < n ==> #[trigger] us[j] >= target,
        n == qlen || (n < us.len() && us[n as int] < target),
    ensures
        consumed_len(us, target, qlen) == n,
    decreases n,
{
    if n == 0 {
        if qlen != 0 && us.len() != 0 {
            assert(us[0] < target);
        }
    } else {
        assert(us[0] >= target);
        lemma_consumed_len_value(us.drop_first(), target, (qlen - 1) as nat, (n - 1) as nat);
    }
}

/// Relies on nix::unistd::unlink: removes the directory entry at `path`.
/// Whether it succeeds depends on the live filesystem, so nothing is
/// promised beyond the shape of the result; on failure the raw errno is
/// handed back.
#[verifier::external_body]
fn unlink_file(path: &Vec<u8>) -> Result<(), i32> {
    match nix::unistd::unlink(path.as_slice()) {
        Ok(()) => Ok(()),
        Err(e) => Err(e as i32),
    }
}

/// Relies on std::path::Path::canonicalize: resolves `path` to an absolute
/// path with symlinks, `.` and `..` removed, `None` when resolution fails —
/// for instance when the path does not exist. The result is handed back as
/// UTF-8 bytes, lossily converted: being the bytes of a string, they are
/// valid UTF-8, and String::from_utf8_lossy (`utf8_lossy_bytes`) leaves
/// valid UTF-8 unchanged, which std documents.
#[verifier::external_body]
fn canonicalize_dir(path: &Vec<u8>) -> (r: Option<Vec<u8>>)
    ensures
        r matches Some(c) ==> utf8_lossy_bytes(c@) == c@,
{
    let s = String::from_utf8_lossy(path.as_slice()).into_owned();
    std::path::Path::new(&s).canonicalize().ok().map(|p| p.to_string_lossy().into_owned().into_bytes())
}

/// Consumes `queue` front to back. Before each candidate the live usage of
/// the filesystem under `root` is re-read; at the first reading below
/// `target` the loop stops and the rest of the queue is left untouched.
/// Every consumed candidate is reported; in commit mode it is also deleted,
/// and a failed deletion or usage query aborts the loop at that point.
pub fn consume_queue(root: &Vec<u8>, queue: Vec<Candidate>, target: u8, commit: bool) -> (r:
    ConsumeSummary)
    ensures
        r.reported@ + r.remaining@ == queue@,
        !commit ==> !(r.failure matches Some(ConsumeFailure::Deletion(_))),
        r.failure matches Some(ConsumeFailure::Deletion(_)) ==> r.reported@.len() > 0,
        queue@.len() == 0 ==> r.failure is None,
        r.failure is None ==> exists|us: Seq<u8>|
            (forall|k: int| 0 <= k < us.len() ==> #[trigger] us[k] <= 100) && r.reported@.len()
                == consumed_len(us, target, queue@.len()),
        r.failure is None && r.remaining@.len() > 0 ==> exists|us: Seq<u8>|
            (forall|k: int| 0 <= k < us.len() ==> #[trigger] us[k] <= 100) && us.len()
                == r.reported@.len() + 1 && r.reported@.len() == consumed_len(
                us,
                target,
                queue@.len(),
            ),
{
    let ghost orig = queue@;
    let mut rest = queue;
    let mut reported: Vec<Candidate> = Vec::new();
    let ghost mut us: Seq<u8> = Seq::empty();
    while rest.len() > 0
        invariant
            orig == queue@,
            reported@ + rest@ == orig,
            us.len() == reported@.len(),
            forall|j: int| 0 <= j < us.len() ==> #[trigger] us[j] >= target,
            forall|j: int| 0 <= j < us.len() ==> #[trigger] us[j] <= 100,
        decreases rest@.len(),
    {
        let u = match read_use_percentage(root) {
            Ok(u) => u,
            Err(q) => {
                return ConsumeSummary {
                    reported,
                    remaining: rest,
                    failure: Some(ConsumeFailure::Query(q)),
                };
            },
        };
        if u < target {
            proof {
                let us2 = us.push(u);
                assert forall|k: int| 0 <= k < us2.len() implies us2[k] <= 100 by {
                    if k < us.len() as int {
                        assert(us2[k] == us[k]);
                    } else {
                        assert(us2[k] == u);
                    }
                }
                lemma_consumed_len_value(us2, target, orig.len(), reported@.len());
                assert(reported@.len() == consumed_len(us2, target, orig.len()));
                assert(us2.len() == reported@.len() + 1);
            }
            return ConsumeSummary { reported, remaining: rest, failure: None };
        }
        proof {
            us = us.push(u);
        }
        let c = rest.remove(0);
        let deleted: Result<(), i32> = if commit {
            unlink_file(&c.path)
        } else {
            Ok(())
        };
        reported.push(c);
        proof {
            assert(reported@ + rest@ =~= orig);
        }
        if let Err(e) = deleted {
            return ConsumeSummary {
                reported,
                remaining: rest,
                failure: Some(ConsumeFailure::Deletion(e)),
            };
        }
    }
    proof {
        assert(reported@ + rest@ =~= reported@);
        assert(reported@.len() == orig.len());
        lemma_consumed_len_value(us, target, orig.len(), reported@.len());
    }
    ConsumeSummary { reported, remaining: rest, failure: None }
}

/// One full cleanup run over `root`.
///
/// The root is first resolved; a root that cannot be resolved aborts the run
/// before anything else. The live usage is then read once: a reading below
/// `target` ends the run with no scan and no action. Otherwise the candidate
/// queue is built — regular files under the root whose extension is in
/// `filter_extensions`, oldest first — and consumed front to back, re-reading
/// the live usage before every candidate and stopping at the first reading
/// below `target`. Every consumed candidate is reported; with `commit` it is
/// also deleted, and any deletion or usage-query failure aborts the run at
/// that candidate. A dry run (`commit == false`) never deletes anything and
/// so never reports a deletion failure. A failed run hands back, beside the
/// error, whatever it had reported by then, so the actions already taken are
/// not lost.
pub fn run_cleanup(
    root: &Vec<u8>,
    filter_extensions: &Vec<Vec<u8>>,
    target: u8,
    commit: bool,
) -> (r: Result<CleanupReport, CleanupFailure>)
    ensures
        r matches Ok(rep) ==> rep.initial_usage <= 100,
        r matches Ok(rep) ==> (rep.scanned <==> rep.initial_usage >= target),
        r matches Ok(rep) ==> (rep.initial_usage < target ==> rep.reported@.len() == 0
            && rep.remaining@.len() == 0),
        r matches Ok(rep) ==> sorted_by_modified(rep.reported@ + rep.remaining@),
        r matches Ok(rep) ==> (rep.scanned ==> exists|entries: Seq<ScanEntry>| rep.reported@
            + rep.remaining@ == sort_by_modified(
            #[trigger] matched(entries, views_of(filter_extensions@)),
        )),
        r matches Ok(rep) ==> (rep.remaining@.len() > 0 ==> exists|us: Seq<u8>|
            (forall|k: int| 0 <= k < us.len() ==> #[trigger] us[k] <= 100) && us.len()
                == rep.reported@.len() + 1 && rep.reported@.len() == #[trigger] consumed_len(
                us,
                target,
                (rep.reported@.len() + rep.remaining@.len()) as nat,
            )),
        r matches Ok(rep) ==> forall|i: int|
            0 <= i < rep.reported@.len() ==> ext_in_filters(
                extension_of(#[trigger] rep.reported@[i].path@),
                views_of(filter_extensions@),
            ),
        r matches Ok(rep) ==> forall|i: int|
            0 <= i < rep.remaining@.len() ==> ext_in_filters(
                extension_of(#[trigger] rep.remaining@[i].path@),
                views_of(filter_extensions@),
            ),
        r matches Ok(rep) ==> forall|i: int|
            0 <= i < rep.reported@.len() ==> has_prefix(
                #[trigger] rep.reported@[i].path@,
                rep.root@,
            ),
        r matches Ok(rep) ==> forall|i: int|
            0 <= i < rep.remaining@.len() ==> has_prefix(
                #[trigger] rep.remaining@[i].path@,
                rep.root@,
            ),
        r matches Err(f) ==> (f.error is Deletion ==> commit),
        r matches Err(f) ==> (f.initial_usage matches Some(u) ==> u <= 100),
        r matches Err(f) ==> sorted_by_modified(f.reported@ + f.remaining@),
        r matches Err(f) ==> (f.error is PathResolution ==> f.initial_usage is None
            && f.reported@.len() == 0 && f.remaining@.len() == 0),
{
    let canon = match canonicalize_dir(root) {
        Some(c) => c,
        None => {
            return Err(
                CleanupFailure {
                    error: CleanupError::PathResolution,
                    initial_usage: None,
                    reported: Vec::new(),
                    remaining: Vec::new(),
                },
            );
        },
    };
    let initial_usage = match read_use_percentage(&canon) {
        Ok(u) => u,
        Err(qe) => {
            return Err(
                CleanupFailure {
                    error: CleanupError::Query(qe),
                    initial_usage: None,
                    reported: Vec::new(),
                    remaining: Vec::new(),
                },
            );
        },
    };
    if initial_usage < target {
        return Ok(
            CleanupReport {
                root: canon,
                initial_usage,
                scanned: false,
                reported: Vec::new(),
                remaining: Vec::new(),
            },
        );
    }
    let queue = find_matching_files(&canon, filter_extensions);
    let ghost q = queue@;
    let summary = consume_queue(&canon, queue, target, commit);
    proof {
        assert(summary.reported@ + summary.remaining@ == q);
        assert forall|i: int| 0 <= i < summary.reported@.len() implies ext_in_filters(
            extension_of(#[trigger] summary.reported@[i].path@),
            views_of(filter_extensions@),
        ) && has_prefix(summary.reported@[i].path@, canon@) by {
            assert(summary.reported@[i] == q[i]);
            assert(has_prefix(q[i].path@, utf8_lossy_bytes(canon@)));
        }
        assert forall|i: int| 0 <= i < summary.remaining@.len() implies ext_in_filters(
            extension_of(#[trigger] summary.remaining@[i].path@),
            views_of(filter_extensions@),
        ) && has_prefix(summary.remaining@[i].path@, canon@) by {
            assert(summary.remaining@[i] == q[summary.reported@.len() + i]);
            assert(has_prefix(q[summary.reported@.len() + i].path@, utf8_lossy_bytes(canon@)));
        }
        let es = choose|es: Seq<ScanEntry>|
            q == sort_by_modified(#[trigger] matched(es, views_of(filter_extensions@)));
        assert(summary.reported@ + summary.remaining@ == sort_by_modified(
            matched(es, views_of(filter_extensions@)),
        ));
        if summary.failure is None && summary.remaining@.len() > 0 {
            let us = choose|us: Seq<u8>|
                (forall|k: int| 0 <= k < us.len() ==> #[trigger] us[k] <= 100) && us.len()
                    == summary.reported@.len() + 1 && summary.reported@.len() == consumed_len(
                    us,
                    target,
                    q.len(),
                );
            assert(q.len() == (summary.reported@.len() + summary.remaining@.len()) as nat);
            assert(summary.reported@.len() == consumed_len(
                us,
                target,
                (summary.reported@.len() + summary.remaining@.len()) as nat,
            ));
        }
    }
    match summary.failure {
        None => Ok(
            CleanupReport {
                root: canon,
                initial_usage,
                scanned: true,
                reported: summary.reported,
                remaining: summary.remaining,
            },
        ),
        Some(ConsumeFailure::Query(qe)) => Err(
            CleanupFailure {
                error: CleanupError::Query(qe),
                initial_usage: Some(initial_usage),
                reported: summary.reported,
                remaining: summary.remaining,
            },
        ),
        Some(ConsumeFailure::Deletion(e)) => Err(
            CleanupFailure {
                error: CleanupError::Deletion(e),
                initial_usage: Some(initial_usage),
                reported: summary.reported,
                remaining: summary.remaining,
            },
        ),
    }
}

} // verus!
