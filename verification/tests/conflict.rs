//! File conflicts.

use std::collections::BTreeMap;

use piko_txn::conflict::filelist::FileList;
use piko_txn::conflict::filesystem::{handovers, Filesystem, Listed, Probe};
use piko_txn::conflict::load::{load_package, Read};
use piko_txn::conflict::{
    check, check_targets, installed_file_lists, target_from_installed, Blocker, Check,
    FileConflict, Overwrite, Target, WalkLimits,
};
use piko_txn::extract::archive::{describe, Header, Member};
use piko_txn::extract::decision::Existing;
use piko_txn::owner::{Owners, Package};
use piko_txn::package::EntryName;
use piko_txn::table::TextSet;
use piko_txn::Error;

enum Entry {
    File,
    Dir,
    SymlinkToDir,
}

fn owned(paths: &[&str]) -> Vec<String> {
    paths.iter().map(|path| (*path).to_owned()).collect()
}

fn database(packages: &[(&str, &[&str])]) -> Owners {
    let packages = packages
        .iter()
        .map(|(entry, files)| Package {
            name: EntryName::parse(entry).unwrap().name,
            files: FileList::new(owned(files)),
        })
        .collect();
    Owners::new(packages)
}

fn filesystem(entries: &[(&str, Entry)]) -> Filesystem {
    let mut fs = Filesystem::new();
    let mut listings: BTreeMap<String, Vec<Listed>> = BTreeMap::new();
    let mut seen: Vec<String> = Vec::new();
    for (path, kind) in entries {
        let pieces: Vec<&str> = path.split('/').collect();
        for depth in 1..=pieces.len() {
            let here = pieces[..depth].join("/");
            if seen.contains(&here) {
                continue;
            }
            seen.push(here.clone());
            let last = depth == pieces.len();
            let is_directory = !last || matches!(kind, Entry::Dir);
            let probe = Probe {
                existing: if is_directory { Existing::Directory } else { Existing::Other },
                resolves_to_directory: is_directory || matches!(kind, Entry::SymlinkToDir),
            };
            fs.record(here.clone(), probe);
            let mut parent = pieces[..depth - 1].join("/");
            parent.push('/');
            listings
                .entry(parent)
                .or_default()
                .push(Listed { name: pieces[depth - 1].to_owned(), is_directory });
            if is_directory {
                listings.entry(format!("{here}/")).or_default();
            }
        }
    }
    for (directory, entries) in listings {
        fs.list(directory, entries);
    }
    fs
}

fn target(name: &str, files: &[&str]) -> Target {
    Target {
        name: name.to_owned(),
        version: "1.0.0-1".to_owned(),
        files: FileList::new(owned(files)),
        backups: TextSet::new(),
        install_script: None,
    }
}

fn released(targets: &[Target], wanted: fn(&str) -> bool) -> Overwrite {
    let mut paths = TextSet::new();
    for target in targets {
        for path in target.files.iter() {
            if wanted(path) {
                paths.insert(path.to_owned());
            }
        }
    }
    Overwrite::new(paths)
}

fn run(fs: &Filesystem, owners: &Owners, targets: Vec<Target>, removals: &[String]) -> Check {
    check(
        fs,
        owners,
        &targets,
        &removals.to_vec(),
        &Overwrite::default(),
        &WalkLimits::default(),
    )
}

fn run_overwriting(fs: &Filesystem, owners: &Owners, targets: Vec<Target>) -> Check {
    let all = released(&targets, |_| true);
    check(fs, owners, &targets, &Vec::new(), &all, &WalkLimits::default())
}

fn scan_previous_owner<'a>(
    owners: &Owners,
    targets: &'a [Target],
    target: &Target,
    stripped: &str,
) -> Option<&'a str> {
    for other in targets {
        if other.name == target.name {
            continue;
        }
        if owners.files_of(&other.name).is_some_and(|files| files.contains(stripped)) {
            return Some(&other.name);
        }
    }
    None
}

fn assert_handovers_agree(packages: &[(&str, &[&str])], targets: Vec<Target>, probes: &[&str]) {
    let owners = database(packages);
    let index = handovers(&owners, &targets);

    for target in &targets {
        for path in probes {
            let indexed = index
                .iter()
                .find(|held| held.path == *path)
                .and_then(|held| held.handover.other_than(&target.name, &targets));
            let scanned = scan_previous_owner(&owners, &targets, target, path);
            assert_eq!(
                indexed, scanned,
                "target {} path {path}: index said {indexed:?}, scan said {scanned:?}",
                target.name
            );
        }
    }
}

#[test]
fn the_handover_index_agrees_with_the_per_target_scan() {
    assert_handovers_agree(
        &[("foo-1.0.0-1", &["usr/", "usr/bin/", "usr/bin/only-foo"])],
        vec![target("foo", &["usr/bin/only-foo"])],
        &["usr/bin/only-foo", "usr/bin/absent"],
    );

    assert_handovers_agree(
        &[
            ("foo-1.0.0-1", &["usr/", "usr/bin/", "usr/bin/shared"]),
            ("bar-1.0.0-1", &["usr/", "usr/bin/", "usr/bin/shared"]),
        ],
        vec![target("foo", &["usr/bin/shared"]), target("bar", &["usr/bin/shared"])],
        &["usr/bin/shared"],
    );

    assert_handovers_agree(
        &[
            ("foo-1.0.0-1", &["usr/", "usr/bin/", "usr/bin/shared"]),
            ("baz-1.0.0-1", &["usr/", "usr/bin/", "usr/bin/shared"]),
        ],
        vec![
            target("foo", &["usr/bin/shared"]),
            target("foo", &["usr/bin/shared"]),
            target("baz", &["usr/bin/shared"]),
        ],
        &["usr/bin/shared"],
    );

    assert_handovers_agree(
        &[("bar-1.0.0-1", &["usr/", "usr/bin/", "usr/bin/shared"])],
        vec![
            target("new", &["usr/bin/shared"]),
            target("bar", &["usr/bin/shared"]),
            target("other", &["usr/bin/shared"]),
        ],
        &["usr/bin/shared"],
    );

    assert_handovers_agree(
        &[("dirs-1.0.0-1", &["usr/", "usr/lib/", "usr/lib/thing"])],
        vec![target("other", &["usr/lib/thing"]), target("dirs", &["usr/lib/thing"])],
        &["usr/lib", "usr/lib/", "usr/", "usr", "usr/lib/thing"],
    );

    for targets in [
        vec![
            target("a", &["usr/bin/shared"]),
            target("b", &["usr/bin/shared"]),
            target("c", &["usr/bin/shared"]),
        ],
        vec![
            target("c", &["usr/bin/shared"]),
            target("b", &["usr/bin/shared"]),
            target("a", &["usr/bin/shared"]),
        ],
    ] {
        assert_handovers_agree(
            &[
                ("a-1.0.0-1", &["usr/", "usr/bin/", "usr/bin/shared"]),
                ("b-1.0.0-1", &["usr/", "usr/bin/", "usr/bin/shared"]),
                ("c-1.0.0-1", &["usr/", "usr/bin/", "usr/bin/shared"]),
            ],
            targets,
            &["usr/bin/shared"],
        );
    }
}

fn paired_check_targets(targets: &[Target], overwrite: &Overwrite, into: &mut Check) {
    for (index, first) in targets.iter().enumerate() {
        for second in targets.iter().skip(index.saturating_add(1)) {
            for path in first.files.intersection(&second.files) {
                if overwrite.matches(path) && second.files.contains(path) {
                    continue;
                }
                into.conflicts.push(FileConflict {
                    package: first.name.clone(),
                    path: path.to_owned(),
                    blocker: Blocker::Target { other: second.name.clone() },
                });
            }
        }
    }
}

fn assert_agrees(targets: &Vec<Target>, overwrite: &Overwrite) {
    let (mut fast, mut paired) = (Check::default(), Check::default());
    check_targets(targets, overwrite, &mut fast);
    paired_check_targets(targets, overwrite, &mut paired);
    assert_eq!(fast.conflicts, paired.conflicts);
}

#[test]
fn the_indexed_check_agrees_with_the_pairwise_loop() {
    let cases: Vec<Vec<Target>> = vec![
        vec![],
        vec![target("solo", &["usr/bin/a", "usr/"])],
        vec![
            target("a", &["usr/", "usr/bin/", "usr/bin/a"]),
            target("b", &["usr/", "usr/bin/", "usr/bin/b"]),
        ],
        vec![target("a", &["usr/lib/foo"]), target("b", &["usr/lib/foo/", "usr/lib/foo/x"])],
        vec![target("a", &["usr/lib/foo/", "usr/lib/foo/x"]), target("b", &["usr/lib/foo"])],
        vec![
            target("a", &["usr/bin/tool"]),
            target("b", &["usr/bin/tool"]),
            target("c", &["usr/bin/tool"]),
        ],
        vec![target("a", &["usr/lib/foo", "usr/lib/foo/"]), target("b", &["usr/lib/foo"])],
        vec![target("a", &["usr/lib/foo"]), target("b", &["usr/lib/foo", "usr/lib/foo/"])],
        vec![target("a", &["usr/lib/foo"]), target("b", &["usr/lib/foo!", "usr/lib/foo/"])],
        vec![
            target("a", &["etc/x", "usr/", "usr/bin/", "usr/bin/a", "usr/share/"]),
            target("b", &["etc/x", "usr/", "usr/bin/", "usr/bin/a", "usr/share"]),
            target("c", &["etc/y", "usr/", "usr/bin/"]),
        ],
        vec![target("same", &["usr/bin/tool"]), target("same", &["usr/bin/tool"])],
        vec![
            target("a", &["usr/lib/foo/", "usr/lib/foo/x"]),
            target("b", &["usr/lib/foo/", "usr/lib/foo/y"]),
            target("c", &["usr/lib/foo"]),
        ],
        vec![
            target("p0", &["usr/bin/a", "usr/bin/z"]),
            target("p1", &["usr/bin/z"]),
            target("p2", &["usr/bin/a"]),
        ],
    ];

    for targets in &cases {
        assert_agrees(targets, &Overwrite::default());
        assert_agrees(targets, &released(targets, |path| path.starts_with("usr/lib/") || path == "usr/lib"));
        assert_agrees(targets, &released(targets, |_| true));
    }
}

#[test]
fn a_clean_install_has_no_conflicts() {
    let owners = database(&[]);
    let fs = filesystem(&[]);
    let result =
        run(&fs, &owners, vec![target("foo", &["usr/", "usr/bin/", "usr/bin/foo"])], &[]);
    assert!(result.is_clear(), "{:?}", result.conflicts);
}

#[test]
fn two_targets_shipping_one_file_conflict() {
    let owners = database(&[]);
    let fs = filesystem(&[]);
    let result = run(
        &fs,
        &owners,
        vec![target("foo", &["usr/bin/tool"]), target("bar", &["usr/bin/tool"])],
        &[],
    );
    assert_eq!(result.conflicts.len(), 1, "{:?}", result.conflicts);
    let conflict = result.conflicts.first().unwrap();
    assert_eq!(conflict.package, "foo");
    assert_eq!(conflict.path, String::from("usr/bin/tool"));
    assert_eq!(conflict.blocker, Blocker::Target { other: "bar".to_owned() });
}

#[test]
fn two_targets_sharing_directories_do_not_conflict() {
    let owners = database(&[]);
    let fs = filesystem(&[]);
    let result = run(
        &fs,
        &owners,
        vec![
            target("foo", &["usr/", "usr/bin/", "usr/bin/foo"]),
            target("bar", &["usr/", "usr/bin/", "usr/bin/bar"]),
        ],
        &[],
    );
    assert!(result.is_clear(), "{:?}", result.conflicts);
}

#[test]
fn a_file_owned_by_an_installed_package_conflicts_and_names_the_owner() {
    let owners = database(&[("other-1.0.0-1", &["usr/", "usr/bin/", "usr/bin/tool"])]);
    let fs = filesystem(&[("usr/bin/tool", Entry::File)]);

    let result = run(&fs, &owners, vec![target("foo", &["usr/bin/tool"])], &[]);
    assert_eq!(result.conflicts.len(), 1, "{:?}", result.conflicts);
    assert_eq!(
        result.conflicts.first().unwrap().blocker,
        Blocker::Filesystem { owner: Some("other".to_owned()) }
    );
}

#[test]
fn an_unowned_file_conflicts_without_an_owner() {
    let owners = database(&[]);
    let fs = filesystem(&[("usr/bin/tool", Entry::File)]);

    let result = run(&fs, &owners, vec![target("foo", &["usr/bin/tool"])], &[]);
    assert_eq!(result.conflicts.first().unwrap().blocker, Blocker::Filesystem { owner: None });
}

#[test]
fn upgrading_a_package_over_its_own_files_is_not_a_conflict() {
    let owners = database(&[("foo-1.0.0-1", &["usr/", "usr/bin/", "usr/bin/foo"])]);
    let fs = filesystem(&[("usr/bin/foo", Entry::File)]);

    let result =
        run(&fs, &owners, vec![target("foo", &["usr/", "usr/bin/", "usr/bin/foo"])], &[]);
    assert!(result.is_clear(), "{:?}", result.conflicts);
}

#[test]
fn a_path_vacated_by_a_removal_is_not_a_conflict() {
    let owners = database(&[("old-1.0.0-1", &["usr/", "usr/bin/", "usr/bin/tool"])]);
    let fs = filesystem(&[("usr/bin/tool", Entry::File)]);

    let result = run(&fs, &owners, vec![target("foo", &["usr/bin/tool"])], &["old".to_owned()]);
    assert!(result.is_clear(), "{:?}", result.conflicts);
}

#[test]
fn a_file_changing_owner_is_recorded_in_skip_remove() {
    let owners = database(&[("bar-1.0.0-1", &["usr/", "usr/bin/", "usr/bin/tool"])]);
    let fs = filesystem(&[("usr/bin/tool", Entry::File)]);

    let result = run(
        &fs,
        &owners,
        vec![target("foo", &["usr/bin/tool"]), target("bar", &["usr/bin/other"])],
        &[],
    );
    assert!(result.is_clear(), "{:?}", result.conflicts);
    assert!(result.skip_remove.contains("usr/bin/tool"), "{:?}", result.skip_remove);
}

#[test]
fn an_unowned_backup_file_is_adopted_rather_than_refused() {
    let owners = database(&[]);
    let fs = filesystem(&[("etc/foo.conf", Entry::File)]);

    let mut foo = target("foo", &["etc/", "etc/foo.conf"]);
    foo.backups.insert("etc/foo.conf".to_owned());
    let result = run(&fs, &owners, vec![foo], &[]);
    assert!(result.is_clear(), "{:?}", result.conflicts);
}

#[test]
fn a_backup_file_owned_by_another_package_still_conflicts() {
    let owners = database(&[("other-1.0.0-1", &["etc/", "etc/foo.conf"])]);
    let fs = filesystem(&[("etc/foo.conf", Entry::File)]);

    let mut foo = target("foo", &["etc/", "etc/foo.conf"]);
    foo.backups.insert("etc/foo.conf".to_owned());
    let result = run(&fs, &owners, vec![foo], &[]);
    assert_eq!(result.conflicts.len(), 1, "{:?}", result.conflicts);
}

#[test]
fn a_packaged_directory_over_a_plain_file_conflicts() {
    let owners = database(&[("other-1.0.0-1", &["usr/", "usr/lib/", "usr/lib/foo"])]);
    let fs = filesystem(&[("usr/lib/foo", Entry::File)]);

    let result =
        run(&fs, &owners, vec![target("pkg", &["usr/", "usr/lib/", "usr/lib/foo/"])], &[]);
    assert_eq!(result.conflicts.len(), 1, "{:?}", result.conflicts);
    assert_eq!(result.conflicts.first().unwrap().path, String::from("usr/lib/foo"));
}

#[test]
fn a_directory_emptied_by_the_transaction_is_not_a_conflict() {
    let owners = database(&[(
        "old-1.0.0-1",
        &["usr/", "usr/share/", "usr/share/thing/", "usr/share/thing/inner"],
    )]);
    let fs = filesystem(&[("usr/share/thing/inner", Entry::File)]);

    let result = run(
        &fs,
        &owners,
        vec![target("pkg", &["usr/", "usr/share/", "usr/share/thing"])],
        &["old".to_owned()],
    );
    assert!(result.is_clear(), "{:?}", result.conflicts);
}

#[test]
fn a_directory_with_a_surviving_file_is_a_conflict() {
    let owners = database(&[(
        "old-1.0.0-1",
        &["usr/", "usr/share/", "usr/share/thing/", "usr/share/thing/inner"],
    )]);
    let fs = filesystem(&[
        ("usr/share/thing/inner", Entry::File),
        ("usr/share/thing/stray", Entry::File),
    ]);

    let result = run(
        &fs,
        &owners,
        vec![target("pkg", &["usr/", "usr/share/", "usr/share/thing"])],
        &["old".to_owned()],
    );
    assert_eq!(result.conflicts.len(), 1, "{:?}", result.conflicts);
}

#[test]
fn a_packaged_directory_over_a_symlink_to_a_directory_is_not_a_conflict() {
    let owners = database(&[]);
    let fs =
        filesystem(&[("usr/lib/bar", Entry::Dir), ("usr/lib/foo", Entry::SymlinkToDir)]);

    let result =
        run(&fs, &owners, vec![target("pkg", &["usr/", "usr/lib/", "usr/lib/foo/"])], &[]);
    assert!(result.is_clear(), "{:?}", result.conflicts);
}

#[test]
fn overwrite_releases_a_filesystem_conflict() {
    let owners = database(&[("other-1.0.0-1", &["usr/", "usr/bin/", "usr/bin/tool"])]);
    let fs = filesystem(&[("usr/bin/tool", Entry::File)]);

    let result = run_overwriting(&fs, &owners, vec![target("foo", &["usr/bin/tool"])]);
    assert!(result.is_clear(), "{:?}", result.conflicts);
}

#[test]
fn overwrite_releases_a_target_conflict() {
    let result = run_overwriting(
        &filesystem(&[]),
        &database(&[]),
        vec![target("foo", &["usr/bin/tool"]), target("bar", &["usr/bin/tool"])],
    );
    assert!(result.is_clear(), "{:?}", result.conflicts);
}

#[test]
fn overwrite_does_not_release_a_file_against_directory_pair() {
    let result = run_overwriting(
        &filesystem(&[]),
        &database(&[]),
        vec![
            target("foo", &["usr/lib/thing"]),
            target("bar", &["usr/lib/thing/", "usr/lib/thing/inner"]),
        ],
    );
    assert_eq!(result.conflicts.len(), 1, "{:?}", result.conflicts);
}

#[test]
fn an_exhausted_walk_budget_reports_a_conflict() {
    let owners = database(&[(
        "old-1.0.0-1",
        &["usr/", "usr/share/", "usr/share/thing/", "usr/share/thing/inner"],
    )]);
    let fs = filesystem(&[("usr/share/thing/inner", Entry::File)]);

    let result = check(
        &fs,
        &owners,
        &vec![target("pkg", &["usr/", "usr/share/", "usr/share/thing"])],
        &vec!["old".to_owned()],
        &Overwrite::default(),
        &WalkLimits { max_depth: 64, max_entries: 0 },
    );
    assert_eq!(result.conflicts.len(), 1, "{:?}", result.conflicts);
}

#[test]
fn a_conflict_says_who_is_in_the_way() {
    let conflict = |blocker: Blocker| FileConflict {
        package: "foo".to_owned(),
        path: "usr/bin/tool".to_owned(),
        blocker,
    };
    assert_eq!(
        conflict(Blocker::Target { other: "bar".to_owned() }).message(),
        "foo: usr/bin/tool (also in bar)"
    );
    assert_eq!(
        conflict(Blocker::Filesystem { owner: Some("bar".to_owned()) }).message(),
        "foo: usr/bin/tool (owned by bar)"
    );
    assert_eq!(
        conflict(Blocker::Filesystem { owner: None }).message(),
        "foo: usr/bin/tool (exists in filesystem)"
    );
}

#[test]
fn an_installed_package_becomes_a_target_with_its_files() {
    let built = target_from_installed("foo", owned(&["usr/bin/foo", "usr/"]));
    assert_eq!(built.name, "foo");
    assert_eq!(built.version, "");
    assert_eq!(built.files.iter(), ["usr/", "usr/bin/foo"]);

    let lists = installed_file_lists(&database(&[("foo-1-1", &["usr/"]), ("bar-1-1", &["etc/"])]));
    assert_eq!(lists.get("bar").unwrap().iter(), ["etc/"]);
    assert!(lists.get("baz").is_none());
}

const PKGINFO: &str = "\
pkgname = foo
pkgbase = foo
pkgver = 1.0.0-1
pkgdesc = An example package
url = https://example.org/
builddate = 1733737242
packager = Foobar McFooface <foobar@mcfooface.org>
size = 123
arch = x86_64
license = MIT
backup = etc/foo.conf
";

fn member(path: &str, directory: bool) -> Member {
    describe(Header {
        path: path.to_owned(),
        is_regular: !directory,
        is_dir: directory,
        is_symlink: false,
        is_hard_link: false,
        link_name: None,
        mode: 0o644,
        uid: 0,
        gid: 0,
        mtime: 0,
        size: 0,
    })
}

fn read(path: &str, contents: &[u8], directory: bool) -> Read {
    Read { member: member(path, directory), contents: Some(contents.to_vec()) }
}

#[test]
fn a_target_is_built_from_a_package_archive() {
    let loaded = load_package(
        "/cache/foo-1.0.0-1-x86_64.pkg.tar",
        vec![
            read(".PKGINFO", PKGINFO.as_bytes(), false),
            read(".INSTALL", b"post_install() { :; }", false),
            read("usr", b"", true),
            read("usr/bin/foo", b"binary", false),
            read("etc/foo.conf", b"setting", false),
        ],
    )
    .unwrap();
    let built = loaded.target;

    assert_eq!(built.name, "foo");
    assert_eq!(built.version, "1.0.0-1");
    assert_eq!(built.files.iter(), ["etc/foo.conf", "usr/", "usr/bin/foo"]);
    assert!(built.files.contains("usr/"));
    assert!(built.backups.contains("etc/foo.conf"));
    assert_eq!(built.install_script.as_deref(), Some(b"post_install() { :; }".as_slice()));
    assert_eq!(loaded.raw, PKGINFO);
    assert_eq!(loaded.info.pkgname, "foo");
    assert!(loaded.info.xdata.is_empty());
}

#[test]
fn an_unparseable_pkginfo_fails_the_load() {
    let pkginfo =
        PKGINFO.replace("packager = Foobar McFooface <foobar@mcfooface.org>", "packager = test");
    let error =
        load_package("/cache/foo.pkg.tar", vec![read(".PKGINFO", pkginfo.as_bytes(), false)])
            .unwrap_err();
    assert!(
        matches!(&error, Error::UnusableSource { reason, .. }
                 if reason.contains(".PKGINFO is unreadable")),
        "got {error:?}"
    );
}

#[test]
fn a_package_without_a_pkginfo_fails_the_load() {
    let error =
        load_package("/cache/foo.pkg.tar", vec![read("usr/bin/foo", b"binary", false)])
            .unwrap_err();
    assert!(
        matches!(&error, Error::UnusableSource { reason, .. }
                 if reason.contains("no readable .PKGINFO")),
        "got {error:?}"
    );
    assert_eq!(
        load_package("/p", vec![read(".PKGINFO", b"\xff", false)]).unwrap_err().message(),
        "/p is not a usable package source: the package has no readable .PKGINFO"
    );
}

#[test]
fn conflicts_are_in_target_order_then_path_order() {
    let fs = filesystem(&[("usr/aaa", Entry::File), ("usr/zzz", Entry::File)]);
    let targets = vec![
        target("A", &["usr/aaa", "usr/bin/t", "usr/zzz"]),
        target("B", &["usr/bin/t", "usr/zzz"]),
    ];
    let result = run(&fs, &database(&[]), targets, &[]);
    let filesystem = |package: &str, path: &str| FileConflict {
        package: package.to_owned(),
        path: path.to_owned(),
        blocker: Blocker::Filesystem { owner: None },
    };
    let other = |path: &str| FileConflict {
        package: "A".to_owned(),
        path: path.to_owned(),
        blocker: Blocker::Target { other: "B".to_owned() },
    };
    assert_eq!(
        result.conflicts,
        [
            filesystem("A", "usr/aaa"),
            other("usr/bin/t"),
            other("usr/zzz"),
            filesystem("A", "usr/zzz"),
            filesystem("B", "usr/zzz"),
        ]
    );
}

#[test]
fn only_the_paths_that_targets_ship_are_asked_about() {
    let fs = filesystem(&[("usr/aaa", Entry::File)]);
    let targets = || vec![target("A", &["usr/aaa"])];
    let with = |paths: &[&str]| {
        let mut released = TextSet::new();
        for path in paths {
            released.insert((*path).to_owned());
        }
        let overwrite = Overwrite::new(released);
        let limits = WalkLimits::default();
        check(&fs, &database(&[]), &targets(), &Vec::new(), &overwrite, &limits).conflicts
    };
    assert_eq!(with(&["usr/aaa"]), with(&["usr/aaa", "usr/other", "etc"]));
    assert_eq!(with(&["usr/aaa"]), []);
    assert_eq!(with(&[]), with(&["usr/other"]));
    assert_eq!(with(&[]).len(), 1);
    assert!(!Overwrite::default().matches("usr/aaa"));
}

#[test]
fn an_owned_directory_in_the_way_names_its_owner() {
    let fs = filesystem(&[("usr/thing/kept", Entry::File)]);
    let owners = database(&[("other-1.0-1", &["usr/", "usr/thing/", "usr/thing/kept"])]);
    let result = run(&fs, &owners, vec![target("A", &["usr/thing"])], &[]);
    assert_eq!(
        result.conflicts.first().unwrap().blocker,
        Blocker::Filesystem { owner: Some("other".to_owned()) }
    );
}
