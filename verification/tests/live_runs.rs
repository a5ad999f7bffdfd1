//! Tests of whole cleanup runs against a real directory tree. The live
//! filesystem usage cannot be steered from a test, so the runs use a target
//! of 101 (every reading is below it: the run short-circuits) or 0 (no
//! reading is below it: the run consumes the whole queue).

use violent_cleanup::cleanup::CleanupError;
use violent_cleanup::cleanup::ConsumeFailure;
use violent_cleanup::cleanup::consume_queue;
use violent_cleanup::cleanup::run_cleanup;
use violent_cleanup::scan::Candidate;
use violent_cleanup::scan::find_matching_files;
use violent_cleanup::usage::read_use_percentage;

use std::path::Path;
use std::path::PathBuf;

fn bytes(p: &Path) -> Vec<u8> {
    p.to_string_lossy().into_owned().into_bytes()
}

/// Creates an empty file and sets its modified time, in seconds since the
/// Unix epoch.
fn touch(path: &Path, mtime: i64) {
    let fd = nix::fcntl::open(
        path,
        nix::fcntl::OFlag::O_CREAT | nix::fcntl::OFlag::O_WRONLY,
        nix::sys::stat::Mode::from_bits_truncate(0o644),
    )
    .unwrap();
    nix::unistd::close(fd).unwrap();
    let tv = nix::sys::time::TimeVal::new(mtime, 0);
    nix::sys::stat::utimes(path, &tv, &tv).unwrap();
}

fn is_present(path: &Path) -> bool {
    nix::sys::stat::stat(path).is_ok()
}

fn mp4(dir: &Path, name: &str, mtime: i64) -> PathBuf {
    let p = dir.join(name);
    touch(&p, mtime);
    p
}

#[test]
fn usage_reading_is_a_percentage() {
    let dir = tempfile::tempdir().unwrap();
    let p = read_use_percentage(&bytes(dir.path())).unwrap();
    assert!(p <= 100);
}

#[test]
fn scan_finds_only_matching_files_oldest_first() {
    let dir = tempfile::tempdir().unwrap();
    let old = mp4(dir.path(), "old.mp4", 1000);
    let newer = mp4(dir.path(), "newer.mp4", 3000);
    touch(&dir.path().join("skip.txt"), 500);
    touch(&dir.path().join("noext"), 500);
    nix::unistd::mkdir(&dir.path().join("sub"), nix::sys::stat::Mode::from_bits_truncate(0o755))
        .unwrap();
    let mid = mp4(&dir.path().join("sub"), "mid.mp4", 2000);

    let queue = find_matching_files(&bytes(dir.path()), &vec![b"mp4".to_vec()]);
    let paths: Vec<Vec<u8>> = queue.iter().map(|c| c.path.clone()).collect();
    assert_eq!(paths, vec![bytes(&old), bytes(&mid), bytes(&newer)]);
    let times: Vec<u64> = queue.iter().map(|c| c.modified).collect();
    assert_eq!(times, vec![1000, 2000, 3000]);
    let root = bytes(dir.path());
    assert!(queue.iter().all(|c| c.path.starts_with(&root)));
}

#[test]
fn scan_with_empty_filter_finds_nothing() {
    let dir = tempfile::tempdir().unwrap();
    mp4(dir.path(), "a.mp4", 1000);
    let queue = find_matching_files(&bytes(dir.path()), &Vec::new());
    assert_eq!(queue.len(), 0);
}

#[test]
fn below_target_short_circuits_without_scanning() {
    let dir = tempfile::tempdir().unwrap();
    let f = mp4(dir.path(), "keep.mp4", 1000);
    let report = run_cleanup(&bytes(dir.path()), &vec![b"mp4".to_vec()], 101, true).unwrap();
    assert!(report.initial_usage <= 100);
    assert!(!report.scanned);
    assert_eq!(report.reported.len(), 0);
    assert_eq!(report.remaining.len(), 0);
    assert!(is_present(&f));
}

#[test]
fn rerun_after_meeting_target_is_a_noop() {
    let dir = tempfile::tempdir().unwrap();
    let f = mp4(dir.path(), "keep.mp4", 1000);
    let first = run_cleanup(&bytes(dir.path()), &vec![b"mp4".to_vec()], 101, true).unwrap();
    assert!(!first.scanned);
    let second = run_cleanup(&bytes(dir.path()), &vec![b"mp4".to_vec()], 101, true).unwrap();
    assert!(!second.scanned);
    assert_eq!(second.reported.len(), 0);
    assert!(is_present(&f));
}

#[test]
fn dry_run_reports_but_deletes_nothing() {
    let dir = tempfile::tempdir().unwrap();
    let a = mp4(dir.path(), "a.mp4", 1000);
    let b = mp4(dir.path(), "b.mp4", 2000);
    let c = mp4(dir.path(), "c.mp4", 3000);
    let report = run_cleanup(&bytes(dir.path()), &vec![b"mp4".to_vec()], 0, false).unwrap();
    assert!(report.scanned);
    assert_eq!(report.reported.len(), 3);
    assert_eq!(report.remaining.len(), 0);
    assert!(is_present(&a));
    assert!(is_present(&b));
    assert!(is_present(&c));
}

#[test]
fn commit_deletes_exactly_the_reported_candidates() {
    let dir = tempfile::tempdir().unwrap();
    let a = mp4(dir.path(), "a.mp4", 3000);
    let b = mp4(dir.path(), "b.mp4", 1000);
    let c = mp4(dir.path(), "c.mp4", 2000);
    let keep = dir.path().join("keep.txt");
    touch(&keep, 500);
    let report = run_cleanup(&bytes(dir.path()), &vec![b"mp4".to_vec()], 0, true).unwrap();
    assert!(report.scanned);
    let paths: Vec<Vec<u8>> = report.reported.iter().map(|x| x.path.clone()).collect();
    assert_eq!(paths, vec![bytes(&b), bytes(&c), bytes(&a)]);
    assert!(report.reported.iter().all(|x| x.path.starts_with(&report.root)));
    assert!(!is_present(&a));
    assert!(!is_present(&b));
    assert!(!is_present(&c));
    assert!(is_present(&keep));
}

#[test]
fn deletion_failure_aborts_before_later_candidates() {
    let dir = tempfile::tempdir().unwrap();
    let first = mp4(dir.path(), "first.mp4", 1000);
    let third = mp4(dir.path(), "third.mp4", 3000);
    let missing = dir.path().join("vanished.mp4");
    let queue = vec![
        Candidate { path: bytes(&first), modified: 1000 },
        Candidate { path: bytes(&missing), modified: 2000 },
        Candidate { path: bytes(&third), modified: 3000 },
    ];
    let summary = consume_queue(&bytes(dir.path()), queue, 0, true);
    match summary.failure {
        Some(ConsumeFailure::Deletion(errno)) => assert_eq!(errno, 2),
        other => panic!("expected a deletion failure, got {:?}", other),
    }
    assert_eq!(summary.reported.len(), 2);
    assert_eq!(summary.reported[0].path, bytes(&first));
    assert_eq!(summary.reported[1].path, bytes(&missing));
    assert_eq!(summary.remaining.len(), 1);
    assert_eq!(summary.remaining[0].path, bytes(&third));
    assert!(!is_present(&first));
    assert!(is_present(&third));
}

#[test]
fn dry_run_never_reports_a_deletion_failure() {
    let dir = tempfile::tempdir().unwrap();
    let missing = dir.path().join("vanished.mp4");
    let queue = vec![Candidate { path: bytes(&missing), modified: 1000 }];
    let summary = consume_queue(&bytes(dir.path()), queue, 0, false);
    assert!(summary.failure.is_none());
    assert_eq!(summary.reported.len(), 1);
}

#[test]
fn usage_of_missing_path_reports_the_errno() {
    let r = read_use_percentage(&b"/no/such/path/anywhere".to_vec());
    assert_eq!(r, Err(violent_cleanup::usage::QueryError::StatFailed(2)));
}

#[test]
fn unresolvable_root_is_an_error() {
    let r = run_cleanup(&b"/no/such/directory/anywhere".to_vec(), &vec![b"mp4".to_vec()], 0, false);
    match r {
        Err(f) => {
            assert!(matches!(f.error, CleanupError::PathResolution));
            assert!(f.initial_usage.is_none());
            assert_eq!(f.reported.len(), 0);
            assert_eq!(f.remaining.len(), 0);
        }
        Ok(rep) => panic!("expected a path resolution failure, got {:?}", rep),
    }
}
