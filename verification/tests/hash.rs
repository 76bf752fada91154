//! Hashes and comparisons of contents.

use piko_txn::error::{IoAction, Limit};
use piko_txn::hash::{
    file_md5, readable, same_contents, Comparison, Opened, Side, MAX_BACKUP_BYTES,
};
use piko_txn::Error;

fn hash_of(contents: &[u8]) -> String {
    file_md5("f", contents, MAX_BACKUP_BYTES).unwrap()
}

fn is_over_the_limit(error: &Error) -> bool {
    matches!(error, Error::PackageLimitExceeded { limit: Limit::BackupSize, .. })
}

#[test]
fn computes_the_standard_md5() {
    assert_eq!(hash_of(b"abc"), "900150983cd24fb0d6963f7d28e17f72");
}

#[test]
fn hashes_an_empty_file() {
    assert_eq!(hash_of(b""), "d41d8cd98f00b204e9800998ecf8427e");
}

#[test]
fn a_missing_file_is_none_not_an_error() {
    assert!(readable("absent", Opened::Missing, MAX_BACKUP_BYTES).unwrap().is_none());
}

#[test]
fn refuses_a_file_over_the_limit() {
    let err = readable("f", Opened::Regular(100), 10).unwrap_err();
    assert!(is_over_the_limit(&err), "got {err:?}");
    let err = file_md5("f", &[b'x'; 100], 10).unwrap_err();
    assert!(is_over_the_limit(&err), "got {err:?}");
}

#[test]
fn accepts_a_file_exactly_at_the_limit() {
    assert_eq!(readable("f", Opened::Regular(10), 10).unwrap(), Some(10));
    assert!(file_md5("f", &[b'x'; 10], 10).is_ok());
}

#[test]
fn refuses_to_follow_a_symlink() {
    let refused = Opened::Failed { action: IoAction::Open, source: "a symbolic link".to_owned() };
    let err = readable("f", refused, MAX_BACKUP_BYTES).unwrap_err();
    assert_eq!(err.message(), "failed to open f");
}

#[test]
fn refuses_a_non_regular_file() {
    let err = readable("f", Opened::Special, MAX_BACKUP_BYTES).unwrap_err();
    assert!(matches!(err, Error::UnusableSource { .. }), "got {err:?}");
}

fn side(name: &str, contents: &[u8]) -> Side {
    Side {
        name: name.to_owned(),
        opened: Opened::Regular(contents.len() as u64),
        contents: contents.to_vec(),
    }
}

fn absent() -> Side {
    Side { name: "absent".to_owned(), opened: Opened::Missing, contents: Vec::new() }
}

fn same(left: &[u8], right: &[u8]) -> Option<bool> {
    same_contents(side("a", left), side("b", right), MAX_BACKUP_BYTES).unwrap()
}

#[test]
fn two_files_with_the_same_bytes_are_the_same() {
    assert_eq!(same(b"hello", b"hello"), Some(true));
}

#[test]
fn two_empty_files_are_the_same() {
    assert_eq!(same(b"", b""), Some(true));
}

#[test]
fn two_files_of_one_size_that_differ_are_not_the_same() {
    assert_eq!(same(b"hello", b"world"), Some(false));
}

#[test]
fn two_files_of_different_sizes_are_not_the_same() {
    assert_eq!(same(b"hello", b"hello there"), Some(false));
}

#[test]
fn compares_a_pair_larger_than_one_block() {
    let left = vec![b'x'; 200 * 1024];
    let mut right = left.clone();
    assert_eq!(same(&left, &right), Some(true));

    let last = right.len().saturating_sub(1);
    *right.get_mut(last).unwrap() = b'y';
    assert_eq!(same(&left, &right), Some(false));
}

#[test]
fn refuses_a_pair_over_the_limit() {
    let (left, right) = (side("a", &[b'x'; 100]), side("b", &[b'x'; 100]));
    let err = same_contents(left, right, 10).unwrap_err();
    assert!(is_over_the_limit(&err), "got {err:?}");
}

#[test]
fn a_missing_side_is_none_not_an_error() {
    let compared = |left: Side, right: Side| same_contents(left, right, MAX_BACKUP_BYTES).unwrap();
    assert!(compared(side("a", b"hello"), absent()).is_none());
    assert!(compared(absent(), side("a", b"hello")).is_none());
}

#[test]
fn a_symlinked_side_is_an_error_not_a_match() {
    let link = Side {
        opened: Opened::Failed { action: IoAction::Open, source: "a symbolic link".to_owned() },
        ..absent()
    };
    assert!(same_contents(side("a", b"hello"), link, MAX_BACKUP_BYTES).is_err());
}

#[test]
fn a_file_that_grows_while_it_is_compared_is_refused() {
    let mut comparison = Comparison::start(5, 5, 5).unwrap();
    assert_eq!(comparison.block("a", b"12345", b"12345").unwrap(), None);
    let err = comparison.block("a", b"6", b"6").unwrap_err();
    assert!(is_over_the_limit(&err), "got {err:?}");
    assert!(Comparison::start(5, 6, 10).is_none());
    let mut comparison = Comparison::start(5, 5, 5).unwrap();
    assert_eq!(comparison.block("a", b"", b"").unwrap(), Some(true));
    assert_eq!(comparison.block("a", b"1", b"").unwrap(), Some(false));
}

#[test]
fn a_file_that_changes_while_it_is_compared_is_judged_by_what_was_read() {
    let grown = |contents: &[u8]| Side {
        name: "grown".to_owned(),
        opened: Opened::Regular(3),
        contents: contents.to_vec(),
    };
    assert_eq!(same_contents(grown(b"abc"), grown(b"abcd"), 3).unwrap(), Some(false));
    assert_eq!(same_contents(grown(b"ab"), grown(b"ab"), 3).unwrap(), Some(true));
    assert!(matches!(
        same_contents(grown(b"abcd"), grown(b"abcd"), 3).unwrap_err(),
        Error::PackageLimitExceeded { .. }
    ));
}
