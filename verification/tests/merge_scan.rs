//! Finding pending files.

use std::collections::BTreeMap;

use piko_txn::merge::scan::{
    copies_of, list_directory, parse_number, scan, Backup, Compared, Installed, Listing, Place, Scan,
    ScanLimits,
};
use piko_txn::merge::{PendingKind, Problem, Verdict};
use piko_txn::package::EntryName;

type Files = BTreeMap<String, String>;

fn filled(files: &[(&str, &str)]) -> Files {
    files.iter().map(|(path, contents)| ((*path).to_owned(), (*contents).to_owned())).collect()
}

fn split(path: &str) -> (String, String) {
    match path.rsplit_once('/') {
        Some((parent, name)) => (parent.to_owned(), name.to_owned()),
        None => (String::new(), path.to_owned()),
    }
}

fn names_in(files: &Files, parent: &str) -> Vec<String> {
    let mut names = vec![".".to_owned(), "..".to_owned()];
    for path in files.keys() {
        let (above, name) = split(path);
        if above == parent {
            names.push(name);
        }
    }
    names
}

fn place(files: &Files, target: &str, special: &[&str]) -> Place {
    let (parent, name) = split(target);
    let present = names_in(files, &parent);
    let mut compared = Vec::new();
    for other in &present {
        let copy = format!("{parent}/{other}");
        let answer = if special.contains(&target) || special.contains(&copy.as_str()) {
            Compared::Failed("not a regular file".to_owned())
        } else {
            match (files.get(target), files.get(&copy)) {
                (Some(mine), Some(theirs)) if mine == theirs => Compared::Same,
                (Some(_), Some(_)) => Compared::Different,
                _ => Compared::Missing,
            }
        };
        compared.push((other.clone(), answer));
    }
    Place { name, present, compared }
}

fn package(entry: &str, backups: Vec<Backup>) -> Installed {
    let parsed = EntryName::parse(entry).unwrap();
    Installed {
        entry: entry.to_owned(),
        name: parsed.name,
        version: parsed.version,
        backups: Ok(backups),
    }
}

fn backups(files: &Files, targets: &[&str], special: &[&str]) -> Vec<Backup> {
    targets
        .iter()
        .map(|target| Backup {
            path: (*target).to_owned(),
            place: Ok(place(files, target, special)),
        })
        .collect()
}

fn listings(files: &Files, limits: &ScanLimits) -> Vec<Listing> {
    let mut parents: Vec<String> = files.keys().map(|path| split(path).0).collect();
    parents.dedup();
    parents
        .into_iter()
        .map(|parent| Listing {
            names: list_directory(
                &names_in(files, &parent).into_iter().map(Some).collect(),
                None,
                limits.max_dir_entries,
            ),
            parent,
        })
        .collect()
}

fn run_limited(files: &[(&str, &str)], targets: &[&str], limits: &ScanLimits) -> Scan {
    let files = filled(files);
    let packages = vec![package("foo-1.0.0-1", backups(&files, targets, &[]))];
    scan(&packages, &listings(&files, limits), limits)
}

fn run(files: &[(&str, &str)]) -> Scan {
    run_limited(files, &["etc/foo.conf"], &ScanLimits::default())
}

fn run_special(files: &[(&str, &str)], special: &[&str]) -> Scan {
    let files = filled(files);
    let packages = vec![package("foo-1.0.0-1", backups(&files, &["etc/foo.conf"], special))];
    scan(&packages, &listings(&files, &ScanLimits::default()), &ScanLimits::default())
}

#[test]
fn finds_a_pacnew_with_its_target_package_and_version() {
    let found = run(&[("etc/foo.conf", "mine"), ("etc/foo.conf.pacnew", "theirs")]);
    assert_eq!(found.pending().len(), 1, "{:?}", found.pending());
    let pending = found.pending().first().unwrap();
    assert_eq!(pending.pacfile, "etc/foo.conf.pacnew");
    assert_eq!(pending.target, "etc/foo.conf");
    assert_eq!(pending.kind, PendingKind::Pacnew);
    assert_eq!(pending.package, "foo");
    assert_eq!(pending.installed_version, "1.0.0-1");
    assert_eq!(pending.verdict, Verdict::Differs);
    assert!(found.problems().is_empty(), "{:?}", found.problems());
}

#[test]
fn a_backup_entry_with_nothing_beside_it_yields_nothing() {
    assert!(run(&[("etc/foo.conf", "mine")]).pending().is_empty());
}

#[test]
fn a_pacnew_holding_the_same_bytes_is_identical() {
    let found = run(&[("etc/foo.conf", "same"), ("etc/foo.conf.pacnew", "same")]);
    assert_eq!(found.pending().first().unwrap().verdict, Verdict::Identical);
}

#[test]
fn a_pacsave_whose_target_is_gone_says_so() {
    let found = run(&[("etc/foo.conf.pacsave", "mine")]);
    let pending = found.pending().first().unwrap();
    assert_eq!(pending.kind, PendingKind::Pacsave);
    assert_eq!(pending.verdict, Verdict::TargetMissing);
}

#[test]
fn a_symlinked_pacnew_is_unreadable_and_is_not_followed() {
    let found = run_special(
        &[("etc/foo.conf", "mine"), ("etc/foo.conf.pacnew", "mine")],
        &["etc/foo.conf.pacnew"],
    );
    assert_eq!(found.pending().first().unwrap().verdict, Verdict::Unreadable);
    assert!(
        matches!(found.problems().first(), Some(Problem::Uncomparable { .. })),
        "{:?}",
        found.problems()
    );
    assert_eq!(
        found.problems().first().unwrap().message(),
        "etc/foo.conf.pacnew cannot be compared: not a regular file"
    );
}

#[test]
fn a_symlinked_parent_lists_nothing_and_is_reported() {
    let escaping = Backup {
        path: "etc/foo.conf".to_owned(),
        place: Err("etc is a symbolic link".to_owned()),
    };
    let packages = vec![package("foo-1.0.0-1", vec![escaping])];
    let found = scan(&packages, &Vec::new(), &ScanLimits::default());
    assert!(found.pending().is_empty(), "{:?}", found.pending());
    assert!(
        matches!(found.problems().first(), Some(Problem::OutsideRoot { .. })),
        "{:?}",
        found.problems()
    );
    assert_eq!(
        found.problems().first().unwrap().message(),
        "etc/foo.conf cannot be resolved inside the root: etc is a symbolic link"
    );
}

#[test]
fn a_fifo_target_is_unreadable_and_never_blocks() {
    let found = run_special(
        &[("etc/foo.conf", ""), ("etc/foo.conf.pacnew", "theirs")],
        &["etc/foo.conf"],
    );
    assert_eq!(found.pending().first().unwrap().verdict, Verdict::Unreadable);
}

#[test]
fn numbered_pacsaves_are_listed_and_are_not_mergeable() {
    let found = run(&[
        ("etc/foo.conf", "mine"),
        ("etc/foo.conf.pacsave", "older"),
        ("etc/foo.conf.pacsave.1", "older still"),
        ("etc/foo.conf.pacsave.10", "ancient"),
        ("etc/foo.conf.pacsave.2", "oldest"),
    ]);
    let kinds: Vec<PendingKind> = found.pending().iter().map(|p| p.kind).collect();
    assert_eq!(
        kinds,
        vec![
            PendingKind::Pacsave,
            PendingKind::NumberedPacsave(1),
            PendingKind::NumberedPacsave(2),
            PendingKind::NumberedPacsave(10)
        ]
    );
    assert!(!PendingKind::NumberedPacsave(1).is_mergeable());
    assert!(PendingKind::Pacsave.is_mergeable());
}

#[test]
fn a_number_too_large_for_a_u32_is_reported_and_not_listed() {
    let found = run(&[("etc/foo.conf", "mine"), ("etc/foo.conf.pacsave.99999999999999", "huge")]);
    assert!(found.pending().is_empty(), "{:?}", found.pending());
    assert!(
        matches!(found.problems().first(), Some(Problem::UnusableNumber { .. })),
        "{:?}",
        found.problems()
    );
}

#[test]
fn a_number_that_does_not_round_trip_is_reported_and_not_listed() {
    let found = run(&[("etc/foo.conf", "mine"), ("etc/foo.conf.pacsave.01", "padded")]);
    assert!(found.pending().is_empty(), "{:?}", found.pending());
    assert!(
        matches!(found.problems().first(), Some(Problem::UnusableNumber { .. })),
        "{:?}",
        found.problems()
    );
    assert_eq!(
        found.problems().first().unwrap().message(),
        "etc/foo.conf.pacsave.01 does not carry a usable .pacsave number"
    );
}

#[test]
fn a_directory_over_the_listing_bound_still_yields_its_pacnew() {
    let mut files = filled(&[("etc/foo.conf", "mine"), ("etc/foo.conf.pacnew", "theirs")]);
    for index in 0..20 {
        files.insert(format!("etc/filler{index}"), "x".to_owned());
    }
    let limits = ScanLimits { max_dir_entries: 3, ..ScanLimits::default() };
    let packages =
        vec![package("foo-1.0.0-1", backups(&files, &["etc/foo.conf", "etc/bar.conf"], &[]))];
    let found = scan(&packages, &listings(&files, &limits), &limits);

    assert_eq!(found.pending().len(), 1);
    assert_eq!(found.pending().first().unwrap().kind, PendingKind::Pacnew);
    assert_eq!(found.problems().len(), 1, "one problem for the directory");
    assert!(
        matches!(found.problems().first(), Some(Problem::UnlistableDirectory { .. })),
        "{:?}",
        found.problems()
    );
    assert_eq!(
        found.problems().first().unwrap().message(),
        "etc cannot be listed: it holds more than 3 entries"
    );
}

#[test]
fn the_pending_bound_truncates_and_counts_what_it_withheld() {
    let limits = ScanLimits { max_pending: 2, ..ScanLimits::default() };
    let found = run_limited(
        &[
            ("etc/a.conf", "mine"),
            ("etc/a.conf.pacnew", "theirs"),
            ("etc/b.conf", "mine"),
            ("etc/b.conf.pacnew", "theirs"),
            ("etc/c.conf", "mine"),
            ("etc/c.conf.pacnew", "theirs"),
        ],
        &["etc/a.conf", "etc/b.conf", "etc/c.conf"],
        &limits,
    );
    assert_eq!(found.pending().len(), 2);
    assert_eq!(found.pending_dropped(), 1);
}

#[test]
fn the_problem_bound_counts_what_it_withheld() {
    let limits = ScanLimits { max_problems: 1, ..ScanLimits::default() };
    let found = run_limited(
        &[("etc/foo.conf.pacsave.01", "a"), ("etc/foo.conf.pacsave.x", "b")],
        &["etc/foo.conf"],
        &limits,
    );
    assert_eq!(found.problems().len(), 1);
    assert_eq!(found.problems_dropped(), 1);
}

#[test]
fn an_unreadable_entry_is_reported_and_the_scan_continues() {
    let files = filled(&[("etc/foo.conf", "mine"), ("etc/foo.conf.pacnew", "theirs")]);
    let broken = Installed {
        entry: "broken-1.0.0-1".to_owned(),
        name: "broken".to_owned(),
        version: "1.0.0-1".to_owned(),
        backups: Err("not a backup line".to_owned()),
    };
    let packages =
        vec![broken, package("foo-1.0.0-1", backups(&files, &["etc/foo.conf"], &[]))];
    let limits = ScanLimits::default();
    let found = scan(&packages, &listings(&files, &limits), &limits);
    assert_eq!(found.pending().len(), 1, "{:?}", found.pending());
    assert!(
        matches!(found.problems().first(), Some(Problem::UnreadableEntry { .. })),
        "{:?}",
        found.problems()
    );
    assert_eq!(
        found.problems().first().unwrap().message(),
        "broken-1.0.0-1's backup list cannot be read: not a backup line"
    );
}

#[test]
fn a_listing_leaves_out_the_two_dots() {
    let entries =
        [".", "..", "b", "a"].iter().map(|name| Some((*name).to_owned())).collect::<Vec<_>>();
    assert_eq!(list_directory(&entries, None, 4).unwrap().iter(), &["a", "b"]);
    assert_eq!(
        list_directory(&entries, Some("input/output error".to_owned()), 4).unwrap_err(),
        "input/output error"
    );
}

#[test]
fn the_copies_of_a_target_are_told_by_their_names() {
    let entries = ["a.pacsave.1", "a.pacnew", "ab.pacsave.1", "a.pacsave.x"]
        .iter()
        .map(|name| (*name).to_owned())
        .collect::<Vec<_>>();
    assert_eq!(
        copies_of("a", &entries),
        ["a.pacnew", "a.pacsave", "a.pacsave.1", "a.pacsave.x"]
    );
}

#[test]
fn a_number_is_read_only_as_it_is_written() {
    let number = |digits: &str| parse_number(&digits.chars().collect::<Vec<char>>());
    assert_eq!(number("0"), Some(0));
    assert_eq!(number("4294967295"), Some(u32::MAX));
    assert_eq!(number("4294967296"), None);
    assert_eq!(number("+1"), None);
    assert_eq!(number("01"), None);
    assert_eq!(number(""), None);
}

#[test]
fn an_entry_whose_name_is_no_text_counts_and_is_passed_over() {
    let entries = vec![Some("a".to_owned()), None];
    assert_eq!(list_directory(&entries, None, 2).unwrap().iter(), &["a"]);
    assert_eq!(
        list_directory(&entries, None, 1).unwrap_err(),
        "it holds more than 1 entries"
    );
}
