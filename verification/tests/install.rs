//! Installing a package.

use std::collections::BTreeMap;

use piko_txn::extract::archive::{describe, Header, Member, MemberKind};
use piko_txn::extract::backup::{resolve, BackupOutcome, Hashed};
use piko_txn::extract::decision::{BackupAction, Disposition, Existing, SkipReason};
use piko_txn::hash::{file_md5, MAX_BACKUP_BYTES};
use piko_txn::install::{
    install, parent_to_create, plan, probed, Answers, Compared, Extraction, Filters, Installer,
    Outcome, Visit, MAX_METADATA_BYTES,
};
use piko_txn::Error;

struct Archive {
    members: Vec<(Member, Vec<u8>)>,
}

fn member(path: &str, directory: bool, size: usize) -> Member {
    describe(Header {
        path: path.to_owned(),
        is_regular: !directory,
        is_dir: directory,
        is_symlink: false,
        is_hard_link: false,
        link_name: None,
        mode: 0o644,
        uid: 0,
        gid: 0,
        mtime: 0,
        size: size as u64,
    })
}

fn package(members: &[(&str, &str)]) -> Archive {
    Archive {
        members: members
            .iter()
            .map(|(path, contents)| {
                let directory = path.ends_with('/');
                (member(path, directory, contents.len()), contents.as_bytes().to_vec())
            })
            .collect(),
    }
}

type Root = BTreeMap<String, String>;

fn root(files: &[(&str, &str)]) -> Root {
    files.iter().map(|(path, contents)| ((*path).to_owned(), (*contents).to_owned())).collect()
}

fn md5(text: &str) -> String {
    file_md5("f", text.as_bytes(), MAX_BACKUP_BYTES).unwrap()
}

fn existing(root: &Root, path: &str) -> Existing {
    let bare = path.trim_end_matches('/');
    if root.contains_key(&format!("{bare}/")) {
        probed(Some(true))
    } else if root.contains_key(bare) {
        probed(Some(false))
    } else {
        probed(None)
    }
}

fn hashed(root: &Root, path: &str) -> Hashed {
    match root.get(path) {
        Some(contents) => Hashed::Known(md5(contents)),
        None => Hashed::Missing,
    }
}

fn try_install(archive: Archive, root: &mut Root, filters: &Filters) -> Result<Extraction, Error> {
    let mut visits = Vec::new();
    let mut walk = Installer::new();
    for (member, contents) in archive.members {
        let found = existing(root, &member.path);
        let pacnew = format!("{}.pacnew", member.path);
        let is_new = !root.contains_key(&pacnew);
        let text = String::from_utf8(contents.clone()).unwrap();
        if member.kind == MemberKind::Payload {
            let disposition = plan(&member, found, filters);
            walk.payload(&member, &disposition, is_new, filters);
            match disposition {
                Disposition::ExtractAsPacnew(_) => {
                    root.insert(pacnew, text);
                },
                Disposition::Extract => {
                    root.insert(member.path.clone(), text);
                },
                _ => {},
            }
        }
        visits.push(Visit {
            member,
            existing: found,
            pacnew_is_new: is_new,
            contents: Some(contents),
        });
    }
    let mut answers = Answers { backups: Vec::new(), hashes: Vec::new() };
    for pending in walk.backups() {
        let pacnew = format!("{}.pacnew", pending.path);
        let local = hashed(root, &pending.path);
        let packaged = hashed(root, &pacnew);
        let resolution = resolve(
            &pending.path,
            local.clone(),
            packaged.clone(),
            pending.old_hash.as_deref(),
            pending.is_new,
        );
        match resolution.action {
            BackupAction::InstallNew => {
                let contents = root.remove(&pacnew).unwrap();
                root.insert(pending.path.clone(), contents);
            },
            BackupAction::KeepExisting { remove_pacnew: true } => {
                root.remove(&pacnew);
            },
            _ => {},
        }
        answers.backups.push(Compared { local, packaged });
    }
    for pending in walk.hashes() {
        answers.hashes.push(hashed(root, &pending.on_disk));
    }
    install(visits, filters, &answers)
}

fn run(archive: Archive, root: &mut Root, filters: &Filters) -> Extraction {
    try_install(archive, root, filters).unwrap()
}

fn hash_in(extraction: &Extraction, path: &str) -> Option<String> {
    extraction
        .backup_hashes
        .iter()
        .find(|recorded| recorded.path == path)
        .map(|recorded| recorded.hash.clone())
}

#[test]
fn installs_a_payload_and_records_what_it_owns() {
    let pkg = package(&[
        (".PKGINFO", "pkgname = foo"),
        ("usr/bin/foo", "binary"),
        ("etc/foo.conf", "setting = 1"),
    ]);
    let result = run(pkg, &mut root(&[]), &Filters::default());
    assert_eq!(result.owned, ["usr/bin/foo", "etc/foo.conf"]);
    assert_eq!(result.metadata.get(".PKGINFO").unwrap(), b"pkgname = foo");
    assert!(result.outcomes.iter().all(|(_, outcome)| *outcome == Outcome::Written));
}

#[test]
fn a_member_listed_twice_is_owned_once() {
    let pkg = package(&[
        ("usr/", ""),
        ("usr/bin/", ""),
        ("usr/bin/foo", "first"),
        ("usr/", ""),
        ("usr/bin/foo", "second"),
    ]);
    let result = run(pkg, &mut root(&[]), &Filters::default());
    assert_eq!(result.owned, ["usr/", "usr/bin/", "usr/bin/foo"]);
    assert_eq!(result.outcomes.len(), 5, "{:?}", result.outcomes);
}

#[test]
fn a_path_spelled_two_ways_is_owned_once() {
    let pkg = package(&[("usr/bin/foo", "first"), ("usr//bin/./foo", "second")]);
    assert_eq!(run(pkg, &mut root(&[]), &Filters::default()).owned, ["usr/bin/foo"]);
}

#[test]
fn a_no_extract_path_is_neither_written_nor_owned() {
    let pkg = package(&[("usr/bin/foo", "binary"), ("usr/share/locale/de.mo", "translation")]);
    let mut filters = Filters::default();
    filters.no_extract.insert("usr/share/locale/de.mo".to_owned());
    let result = run(pkg, &mut root(&[]), &filters);
    assert_eq!(result.owned, ["usr/bin/foo"]);
    assert!(matches!(
        result.outcomes.get(1),
        Some((_, Outcome::Skipped(SkipReason::NoExtract)))
    ));
}

#[test]
fn a_directory_that_already_exists_is_still_owned() {
    let pkg = package(&[("usr/", ""), ("usr/bin/", ""), ("usr/bin/second", "binary")]);
    let result = run(pkg, &mut root(&[("usr/", ""), ("usr/bin/", "")]), &Filters::default());
    assert_eq!(
        result.owned,
        ["usr/", "usr/bin/", "usr/bin/second"],
        "a pre-existing directory the package ships must stay in its file list"
    );
    assert!(matches!(
        result.outcomes.first(),
        Some((_, Outcome::Skipped(SkipReason::DirectoryExists)))
    ));
}

#[test]
fn a_no_extract_directory_is_not_owned() {
    let pkg = package(&[("usr/", ""), ("usr/share/locale/", "")]);
    let mut filters = Filters::default();
    filters.no_extract.insert("usr/share/locale/".to_owned());
    let result = run(pkg, &mut root(&[("usr/share/locale/", "")]), &filters);
    assert_eq!(result.owned, ["usr/"]);
}

#[test]
fn creates_parent_directories_a_package_did_not_list() {
    let readme = member("usr/share/doc/foo/README", false, 4);
    let disposition = plan(&readme, Existing::Absent, &Filters::default());
    assert_eq!(parent_to_create(&readme, &disposition).as_deref(), Some("usr/share/doc/foo"));

    let bare = member("README", false, 4);
    let disposition = plan(&bare, Existing::Absent, &Filters::default());
    assert_eq!(parent_to_create(&bare, &disposition), None);

    let skipped = member("usr/bin/", true, 0);
    let disposition = plan(&skipped, Existing::Directory, &Filters::default());
    assert_eq!(parent_to_create(&skipped, &disposition), None);
}

#[test]
fn a_backup_file_with_nothing_installed_is_written_directly() {
    let pkg = package(&[("etc/foo.conf", "packaged")]);
    let mut filters = Filters::default();
    filters.is_backup.insert("etc/foo.conf".to_owned());
    let result = run(pkg, &mut root(&[]), &filters);
    assert_eq!(result.owned, ["etc/foo.conf"]);
    assert_eq!(result.outcomes, [("etc/foo.conf".to_owned(), Outcome::Written)]);
    assert_eq!(hash_in(&result, "etc/foo.conf"), Some(md5("packaged")));
}

fn upgrading(original: &str) -> Filters {
    let mut filters = Filters::default();
    filters.old_backup_hash.insert("etc/foo.conf".to_owned(), md5(original));
    filters.is_backup.insert("etc/foo.conf".to_owned());
    filters
}

#[test]
fn an_edited_backup_file_keeps_the_users_copy() {
    let pkg = package(&[("etc/foo.conf", "new packaged")]);
    let mut here = root(&[("etc/foo.conf", "user edited")]);
    let result = run(pkg, &mut here, &upgrading("original shipped"));
    assert_eq!(here["etc/foo.conf"], "user edited");
    assert_eq!(here["etc/foo.conf.pacnew"], "new packaged");
    assert_eq!(hash_in(&result, "etc/foo.conf"), Some(md5("new packaged")));
    assert!(matches!(
        result.outcomes.last(),
        Some((_, Outcome::Backup(BackupOutcome::KeptBoth { .. })))
    ));
}

#[test]
fn an_untouched_backup_file_is_upgraded_in_place() {
    let pkg = package(&[("etc/foo.conf", "new packaged")]);
    let mut here = root(&[("etc/foo.conf", "original shipped")]);
    let result = run(pkg, &mut here, &upgrading("original shipped"));
    assert_eq!(
        result.outcomes,
        [("etc/foo.conf".to_owned(), Outcome::Backup(BackupOutcome::InstalledNew))]
    );
    assert_eq!(here["etc/foo.conf"], "new packaged");
    assert!(!here.contains_key("etc/foo.conf.pacnew"));
}

#[test]
fn a_no_upgrade_path_always_lands_as_pacnew() {
    let pkg = package(&[("etc/foo.conf", "packaged")]);
    let mut filters = Filters::default();
    filters.no_upgrade.insert("etc/foo.conf".to_owned());
    filters.is_backup.insert("etc/foo.conf".to_owned());
    let mut here = root(&[("etc/foo.conf", "local")]);
    let result = run(pkg, &mut here, &filters);
    assert_eq!(here["etc/foo.conf"], "local");
    assert_eq!(here["etc/foo.conf.pacnew"], "packaged");
    assert_eq!(
        result.outcomes,
        [(
            "etc/foo.conf".to_owned(),
            Outcome::Backup(BackupOutcome::KeptBoth { pacnew: "etc/foo.conf.pacnew".to_owned() })
        )]
    );
    assert_eq!(hash_in(&result, "etc/foo.conf"), Some(md5("packaged")));
}

#[test]
fn a_directory_in_the_way_fails_the_install() {
    let pkg = package(&[("usr/thing", "payload")]);
    let err =
        try_install(pkg, &mut root(&[("usr/thing/", "")]), &Filters::default()).unwrap_err();
    assert!(matches!(err, Error::ExtractionRefused { .. }), "got {err:?}");
    assert_eq!(err.message(), "cannot extract usr/thing: DirectoryInTheWay");
}

#[test]
fn a_hash_that_cannot_be_computed_is_reported() {
    let conf = member("etc/foo.conf", false, 1);
    let mut filters = Filters::default();
    filters.is_backup.insert("etc/foo.conf".to_owned());
    let visits = vec![Visit {
        member: conf,
        existing: Existing::Absent,
        pacnew_is_new: true,
        contents: None,
    }];
    let none = Answers { backups: Vec::new(), hashes: Vec::new() };
    let result = install(visits, &filters, &none).unwrap();
    assert_eq!(result.unreadable, ["etc/foo.conf"]);
    assert!(result.backup_hashes.is_empty());
}

#[test]
fn metadata_too_large_to_hold_is_dropped() {
    let mut installer = Installer::new();
    installer.metadata(".CHANGELOG".to_owned(), Some(vec![0; MAX_METADATA_BYTES + 1]));
    installer.metadata(".MTREE".to_owned(), None);
    installer.metadata(".PKGINFO".to_owned(), Some(b"a".to_vec()));
    installer.metadata(".PKGINFO".to_owned(), Some(b"b".to_vec()));
    let result = installer.finish();
    assert!(result.metadata.get(".CHANGELOG").is_none());
    assert!(result.metadata.get(".MTREE").is_none());
    assert_eq!(result.metadata.get(".PKGINFO").unwrap(), b"b");
}

#[test]
fn hashes_are_recorded_in_the_order_of_their_paths() {
    let mut extraction = Extraction::new();
    for path in ["etc/foo-bar", "etc/foo/bar", "etc/a", "etc//a"] {
        extraction.record_hash(path.to_owned(), md5(path));
    }
    let paths: Vec<&str> =
        extraction.backup_hashes.iter().map(|recorded| recorded.path.as_str()).collect();
    assert_eq!(paths, ["etc/a", "etc/foo/bar", "etc/foo-bar"]);
    assert_eq!(hash_in(&extraction, "etc/a"), Some(md5("etc//a")));
}

#[test]
fn outcomes_stay_in_archive_order() {
    let pkg = package(&[("etc/foo.conf", "new"), ("usr/bin/foo", "x")]);
    let mut filters = Filters::default();
    filters.is_backup.insert("etc/foo.conf".to_owned());
    let result = run(pkg, &mut root(&[("etc/foo.conf", "edited")]), &filters);
    assert_eq!(
        result.outcomes,
        [
            (
                "etc/foo.conf".to_owned(),
                Outcome::Backup(BackupOutcome::KeptBoth {
                    pacnew: "etc/foo.conf.pacnew".to_owned(),
                }),
            ),
            ("usr/bin/foo".to_owned(), Outcome::Written),
        ]
    );
}

#[test]
fn a_backup_file_listed_twice_is_resolved_twice() {
    let pkg =
        package(&[("etc/foo.conf", "new"), ("usr/bin/foo", "x"), ("etc/foo.conf", "new")]);
    let mut here = root(&[("etc/foo.conf", "shipped")]);
    let result = run(pkg, &mut here, &upgrading("shipped"));
    let paths: Vec<&str> = result.outcomes.iter().map(|(path, _)| path.as_str()).collect();
    assert_eq!(paths, ["etc/foo.conf", "usr/bin/foo", "etc/foo.conf"]);
    assert_eq!(result.outcomes[0].1, Outcome::Backup(BackupOutcome::InstalledNew));
    assert_ne!(result.outcomes[2].1, Outcome::Backup(BackupOutcome::InstalledNew));
    assert_eq!(here["etc/foo.conf"], "new");
    assert_eq!(hash_in(&result, "etc/foo.conf"), Some(md5("new")));
}
