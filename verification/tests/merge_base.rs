//! The version a merge starts from.

use piko_txn::error::Limit;
use piko_txn::extract::archive::{describe, Flow, Header};
use piko_txn::merge::base::{
    extract_member, find_base, flow, look, taken, BaseLimits, CacheDirectory, CacheEntry, Content,
    Look,
};
use piko_txn::Error;

fn cache(path: &str, names: &[&str]) -> CacheDirectory {
    CacheDirectory {
        path: path.to_owned(),
        entries: Some(
            names
                .iter()
                .map(|name| CacheEntry { name: Some((*name).to_owned()), is_file: true })
                .collect(),
        ),
    }
}

fn base(dirs: Vec<CacheDirectory>, package: &str, installed: &str) -> Option<String> {
    find_base(&dirs, package, installed, &BaseLimits::default())
        .map(|candidate| candidate.file_name.rendered)
}

fn content(path: &str, bytes: &[u8], directory: bool) -> Content {
    let member = describe(Header {
        path: path.to_owned(),
        is_regular: !directory,
        is_dir: directory,
        is_symlink: false,
        is_hard_link: false,
        link_name: None,
        mode: 0o644,
        uid: 0,
        gid: 0,
        mtime: 0,
        size: bytes.len() as u64,
    });
    Content { member, bytes: bytes.to_vec() }
}

#[test]
fn picks_the_newest_build_below_the_installed_version() {
    let dir = cache("/cache", &[
        "foo-1.0.0-1-x86_64.pkg.tar.zst",
        "foo-2.0.0-1-x86_64.pkg.tar.zst",
        "foo-3.0.0-1-x86_64.pkg.tar.zst",
    ]);
    let dirs = vec![dir];
    assert_eq!(
        base(dirs, "foo", "3.0.0-1").as_deref(),
        Some("foo-2.0.0-1-x86_64.pkg.tar.zst")
    );
}

#[test]
fn never_picks_a_build_newer_than_the_installed_one() {
    let dir = cache("/cache", &[
        "foo-1.0.0-1-x86_64.pkg.tar.zst",
        "foo-2.0.0-1-x86_64.pkg.tar.zst",
        "foo-3.0.0-1-x86_64.pkg.tar.zst",
    ]);
    let dirs = vec![dir];
    assert_eq!(
        base(dirs, "foo", "2.0.0-1").as_deref(),
        Some("foo-1.0.0-1-x86_64.pkg.tar.zst")
    );
}

#[test]
fn never_picks_the_installed_version() {
    let dir = cache("/cache", &["foo-2.0.0-1-x86_64.pkg.tar.zst"]);
    assert_eq!(base(vec![dir], "foo", "2.0.0-1"), None);
}

#[test]
fn nothing_older_is_none() {
    let dir = cache("/cache", &["foo-9.0.0-1-x86_64.pkg.tar.zst"]);
    assert_eq!(base(vec![dir], "foo", "1.0.0-1"), None);
}

#[test]
fn orders_versions_the_way_pacman_does() {
    let dir = cache("/cache", &["foo-1.9-1-x86_64.pkg.tar.zst", "foo-1.10-1-x86_64.pkg.tar.zst"]);
    assert_eq!(
        base(vec![dir], "foo", "2.0-1").as_deref(),
        Some("foo-1.10-1-x86_64.pkg.tar.zst")
    );
}

#[test]
fn ignores_signatures_and_unparsable_names() {
    let dir = cache("/cache", &[
        "foo-1.0.0-1-x86_64.pkg.tar.zst",
        "foo-9.0.0-1-x86_64.pkg.tar.zst.sig",
        "foo-partial.part",
        "not a package at all",
    ]);
    assert_eq!(
        base(vec![dir], "foo", "2.0.0-1").as_deref(),
        Some("foo-1.0.0-1-x86_64.pkg.tar.zst")
    );
}

#[test]
fn ignores_another_package_of_the_same_version() {
    let dir = cache("/cache", &["bar-1.0.0-1-x86_64.pkg.tar.zst"]);
    assert_eq!(base(vec![dir], "foo", "2.0.0-1"), None);
}

#[test]
fn the_first_directory_keeps_a_version_both_hold() {
    let first = cache("/first", &["foo-1.0.0-1-x86_64.pkg.tar.zst"]);
    let second = cache("/second", &["foo-1.0.0-1-x86_64.pkg.tar.zst"]);
    let picked =
        find_base(&vec![first, second], "foo", "2.0.0-1", &BaseLimits::default()).unwrap();
    assert_eq!(picked.path, "/first/foo-1.0.0-1-x86_64.pkg.tar.zst");
}

#[test]
fn a_directory_that_cannot_be_read_contributes_nothing() {
    let unreadable = CacheDirectory { path: "/nonexistent".to_owned(), entries: None };
    let dirs = vec![unreadable, cache("/cache", &["foo-1.0.0-1-x86_64.pkg.tar.zst"])];
    assert_eq!(
        base(dirs, "foo", "2.0.0-1").as_deref(),
        Some("foo-1.0.0-1-x86_64.pkg.tar.zst")
    );
}

#[test]
fn the_cache_bound_stops_the_walk() {
    let limits = BaseLimits { max_cache_entries: 0, ..BaseLimits::default() };
    let dir = cache("/cache", &["foo-1.0.0-1-x86_64.pkg.tar.zst"]);
    assert!(find_base(&vec![dir], "foo", "2.0-1", &limits).is_none());
}

#[test]
fn only_a_file_is_a_base() {
    let dir = CacheDirectory {
        path: "/cache".to_owned(),
        entries: Some(vec![
            CacheEntry { name: None, is_file: true },
            CacheEntry {
                name: Some("foo-1.0.0-1-x86_64.pkg.tar.zst".to_owned()),
                is_file: false,
            },
        ]),
    };
    assert_eq!(base(vec![dir], "foo", "2.0.0-1"), None);
}

#[test]
fn finds_a_member_however_the_archive_spells_it() {
    for spelling in ["etc/foo.conf", "./etc/foo.conf"] {
        let found = extract_member(
            vec![content("etc/other", b"x", false), content(spelling, b"contents", false)],
            "etc/foo.conf",
            &BaseLimits::default(),
        )
        .unwrap();
        assert_eq!(found.as_deref(), Some(b"contents".as_slice()), "{spelling}");
    }
}

#[test]
fn a_member_the_archive_does_not_hold_is_none() {
    let members = vec![content("etc/other.conf", b"contents", false)];
    assert!(extract_member(members, "etc/foo.conf", &BaseLimits::default()).unwrap().is_none());
    let members = vec![content("etc/foo.conf", b"", true)];
    assert!(extract_member(members, "etc/foo.conf", &BaseLimits::default()).unwrap().is_none());
}

#[test]
fn refuses_a_member_over_the_bound() {
    let limits = BaseLimits { max_member_bytes: 10, ..BaseLimits::default() };
    let members = vec![content("etc/foo.conf", &[b'x'; 200], false)];
    let error = extract_member(members, "etc/foo.conf", &limits).unwrap_err();
    assert!(
        matches!(error, Error::PackageLimitExceeded { limit: Limit::MergeBaseSize, .. }),
        "got {error:?}"
    );
    assert!(taken("etc/foo.conf", vec![0; 11], &limits).is_err());
    assert_eq!(taken("etc/foo.conf", vec![0; 10], &limits).unwrap().len(), 10);
}

#[test]
fn stops_at_the_member_and_never_reads_the_tail() {
    let wanted = content("etc/foo.conf", b"contents", false).member;
    let looked = look(&wanted, "etc/foo.conf", &BaseLimits::default()).unwrap();
    assert_eq!(looked, Look::Contents);
    assert_eq!(flow(looked), Flow::Stop);
    assert_eq!(flow(Look::Other), Flow::Continue);
}

#[test]
fn a_device_in_place_of_a_file_has_no_contents() {
    let mut device = content("etc/foo.conf", b"x", false);
    device.member.is_regular = false;
    let found = extract_member(vec![device], "etc/foo.conf", &BaseLimits::default()).unwrap();
    assert_eq!(found, None);
}

#[test]
fn a_version_that_cannot_be_compared_is_passed_over() {
    let large = format!("foo-{}-1-x86_64.pkg.tar.zst", "9".repeat(40));
    let other = format!("bar-{}-1-x86_64.pkg.tar.zst", "9".repeat(40));
    let dirs = || vec![cache("/cache", &[&large, &other, "foo-1.0-1-x86_64.pkg.tar.zst"])];
    assert_eq!(base(dirs(), "foo", "2.0-1").as_deref(), Some("foo-1.0-1-x86_64.pkg.tar.zst"));
    assert_eq!(base(dirs(), "foo", &format!("{}-1", "9".repeat(41))), None);
}
