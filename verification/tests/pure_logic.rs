//! Tests of the pure decision logic: the usage computation, extension
//! extraction and matching, candidate filtering, and the stable sort.

use violent_cleanup::scan::Candidate;
use violent_cleanup::scan::ScanEntry;
use violent_cleanup::scan::bytes_equal;
use violent_cleanup::scan::extension_matches;
use violent_cleanup::scan::extension_of_path;
use violent_cleanup::scan::filter_candidates;
use violent_cleanup::scan::sort_candidates;
use violent_cleanup::usage::QueryError;
use violent_cleanup::usage::compute_use_percentage;

fn b(s: &str) -> Vec<u8> {
    s.as_bytes().to_vec()
}

#[test]
fn usage_exact_values() {
    assert_eq!(compute_use_percentage(50, 100), Ok(50));
    assert_eq!(compute_use_percentage(0, 100), Ok(100));
    assert_eq!(compute_use_percentage(100, 100), Ok(0));
    assert_eq!(compute_use_percentage(1, 3), Ok(67));
    assert_eq!(compute_use_percentage(u64::MAX, u64::MAX), Ok(0));
}

#[test]
fn usage_zero_total_is_an_error() {
    assert_eq!(compute_use_percentage(0, 0), Err(QueryError::NoBlocks));
    assert_eq!(compute_use_percentage(7, 0), Err(QueryError::NoBlocks));
}

#[test]
fn usage_out_of_range_is_an_error() {
    assert_eq!(compute_use_percentage(200, 100), Err(QueryError::OutOfRange));
    assert_eq!(compute_use_percentage(u64::MAX, 1), Err(QueryError::OutOfRange));
}

#[test]
fn extension_of_simple_names() {
    assert_eq!(extension_of_path(&b("foo.mp4")), Some(b("mp4")));
    assert_eq!(extension_of_path(&b("/a/b/c.jpg")), Some(b("jpg")));
    assert_eq!(extension_of_path(&b("archive.tar.gz")), Some(b("gz")));
}

#[test]
fn extension_of_names_without_one() {
    assert_eq!(extension_of_path(&b("noext")), None);
    assert_eq!(extension_of_path(&b("")), None);
    assert_eq!(extension_of_path(&b(".bashrc")), None);
    assert_eq!(extension_of_path(&b("a/.hidden")), None);
    assert_eq!(extension_of_path(&b("dir.d/file")), None);
}

#[test]
fn extension_of_trailing_dot_is_empty() {
    assert_eq!(extension_of_path(&b("trailing.")), Some(b("")));
}

#[test]
fn matching_is_exact_and_case_sensitive() {
    let filters = vec![b("mp4"), b("jpg")];
    assert!(extension_matches(&b("x.mp4"), &filters));
    assert!(extension_matches(&b("/d/y.jpg"), &filters));
    assert!(!extension_matches(&b("x.MP4"), &filters));
    assert!(!extension_matches(&b("x.jpeg"), &filters));
    assert!(!extension_matches(&b("noext"), &filters));
}

#[test]
fn empty_filter_set_matches_nothing() {
    let none: Vec<Vec<u8>> = Vec::new();
    assert!(!extension_matches(&b("x.mp4"), &none));
    assert!(!extension_matches(&b("x"), &none));
}

#[test]
fn bytes_equal_compares_contents() {
    assert!(bytes_equal(&b("mp4"), &b("mp4")));
    assert!(!bytes_equal(&b("mp4"), &b("mp3")));
    assert!(!bytes_equal(&b("mp4"), &b("mp44")));
}

#[test]
fn filter_discards_nonmatching_entries() {
    let entries = vec![
        ScanEntry { path: b("/r"), is_file: false, modified: Some(1) },
        ScanEntry { path: b("/r/dir.mp4"), is_file: false, modified: Some(2) },
        ScanEntry { path: b("/r/a.mp4"), is_file: true, modified: Some(3) },
        ScanEntry { path: b("/r/b.txt"), is_file: true, modified: Some(4) },
        ScanEntry { path: b("/r/c"), is_file: true, modified: Some(5) },
        ScanEntry { path: b("/r/broken.mp4"), is_file: true, modified: None },
        ScanEntry { path: b("/r/d.jpg"), is_file: true, modified: Some(6) },
    ];
    let filters = vec![b("mp4"), b("jpg")];
    let out = filter_candidates(entries, &filters);
    assert_eq!(out.len(), 2);
    assert_eq!(out[0].path, b("/r/a.mp4"));
    assert_eq!(out[0].modified, 3);
    assert_eq!(out[1].path, b("/r/d.jpg"));
    assert_eq!(out[1].modified, 6);
}

#[test]
fn filter_with_empty_set_keeps_nothing() {
    let entries = vec![
        ScanEntry { path: b("/r/a.mp4"), is_file: true, modified: Some(3) },
        ScanEntry { path: b("/r/d.jpg"), is_file: true, modified: Some(6) },
    ];
    let none: Vec<Vec<u8>> = Vec::new();
    let out = filter_candidates(entries, &none);
    assert_eq!(out.len(), 0);
}

#[test]
fn sort_orders_by_modified_time() {
    let input = vec![
        Candidate { path: b("five"), modified: 5 },
        Candidate { path: b("one"), modified: 1 },
        Candidate { path: b("three"), modified: 3 },
    ];
    let out = sort_candidates(input);
    let times: Vec<u64> = out.iter().map(|c| c.modified).collect();
    assert_eq!(times, vec![1, 3, 5]);
    assert_eq!(out[0].path, b("one"));
    assert_eq!(out[1].path, b("three"));
    assert_eq!(out[2].path, b("five"));
}

#[test]
fn sort_is_stable_on_equal_times() {
    let input = vec![
        Candidate { path: b("a"), modified: 2 },
        Candidate { path: b("b"), modified: 1 },
        Candidate { path: b("c"), modified: 2 },
        Candidate { path: b("d"), modified: 2 },
    ];
    let out = sort_candidates(input);
    let paths: Vec<Vec<u8>> = out.iter().map(|c| c.path.clone()).collect();
    assert_eq!(paths, vec![b("b"), b("a"), b("c"), b("d")]);
}

#[test]
fn sort_of_empty_is_empty() {
    let out = sort_candidates(Vec::new());
    assert_eq!(out.len(), 0);
}
