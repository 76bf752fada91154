//! The journal of a transaction.

use piko_txn::journal::{
    begin_text, completed_line, parse, parse_bytes, path, read, FileRead, Intent, ReadError, Record,
    Reinstall, Unreadable, JOURNAL_FILE, MAX_VERSION_CHARS,
};
use piko_txn::package::{EntryName, InstallReason};

fn steps() -> Vec<Intent> {
    vec![
        Intent::Install {
            package: "foo-1.0.0-1-x86_64.pkg.tar.zst".to_owned(),
            reason: Some(InstallReason::Depend),
        },
        Intent::Remove { entry: "bar-2.0-1".to_owned() },
    ]
}

fn install(package: &str, reason: InstallReason) -> Intent {
    Intent::Install { package: package.to_owned(), reason: Some(reason) }
}

fn remove(entry: &str) -> Intent {
    Intent::Remove { entry: entry.to_owned() }
}

fn record(steps: Vec<Intent>, completed: Vec<usize>) -> Record {
    Record {
        root: "/".to_owned(),
        dbpath: "/var/lib/pacman".to_owned(),
        steps,
        begun: true,
        completed,
    }
}

fn local(entries: &[&str]) -> Vec<EntryName> {
    entries.iter().map(|entry| EntryName::parse(entry).unwrap()).collect()
}

fn reinstall(text: &str, reason: InstallReason) -> Reinstall {
    Reinstall { name: text.to_owned(), reason: Some(reason) }
}

#[test]
fn the_cut_install_is_set_apart_from_the_unstarted_ones() {
    let record = record(
        vec![
            remove("old-1.0-1"),
            install("foo-1.0.0-1-x86_64.pkg.tar.zst", InstallReason::Explicit),
            install("bar-2.0-1-any.pkg.tar.zst", InstallReason::Depend),
        ],
        vec![0],
    );
    let local = local(&[]);

    let recovery = record.recovery(&local);
    assert_eq!(recovery.interrupted, Some(reinstall("foo", InstallReason::Explicit)));
    assert!(recovery.remove.is_empty());
    assert_eq!(recovery.install, [reinstall("bar", InstallReason::Depend)]);
    assert!(recovery.unreadable.is_empty());
}

#[test]
fn a_removal_whose_entry_is_gone_is_complete() {
    let record = record(vec![remove("gone-1.0-1"), remove("kept-2.0-1")], vec![]);
    let local = local(&["kept-2.0-1"]);

    let recovery = record.recovery(&local);
    assert_eq!(recovery.remove, ["kept"]);
    assert!(recovery.interrupted.is_none());
    assert!(recovery.install.is_empty());
}

#[test]
fn a_removal_matches_the_recorded_version_only() {
    let record = record(vec![remove("foo-1.0-1")], vec![]);
    let local = local(&["foo-2.0-1"]);

    assert!(record.recovery(&local).remove.is_empty());
}

#[test]
fn a_completed_transaction_needs_no_recovery() {
    let record = record(
        vec![install("foo-1.0.0-1-x86_64.pkg.tar.zst", InstallReason::Explicit)],
        vec![0],
    );
    let local = local(&["foo-1.0.0-1"]);

    assert!(record.recovery(&local).is_empty());
}

#[test]
fn an_unreadable_step_is_reported() {
    let record = record(
        vec![
            Intent::Install { package: "not a package file".to_owned(), reason: None },
            remove("no-version"),
        ],
        vec![],
    );
    let local = local(&[]);

    let recovery = record.recovery(&local);
    assert_eq!(recovery.unreadable, ["not a package file", "no-version"]);
    assert!(!recovery.is_empty());
}

#[test]
fn the_install_reason_survives() {
    let record = parse(&begin_text("/db", "/", &steps())).unwrap();
    assert_eq!(record.steps, steps());
}

#[test]
fn a_journal_without_reasons_is_still_read() {
    let record = parse(
        "piko-journal 1\nroot /\ndbpath /var/lib/pacman\n\
         step 0 install foo-1.0.0-1-x86_64.pkg.tar.zst\nbegin\n",
    )
    .unwrap();
    assert_eq!(
        record.steps,
        [Intent::Install {
            package: "foo-1.0.0-1-x86_64.pkg.tar.zst".to_owned(),
            reason: None
        }]
    );
}

#[test]
fn an_interrupted_transaction_is_detectable_and_says_how_far_it_got() {
    let mut text = begin_text("/db", "/", &steps());
    text.push_str(&completed_line(0));

    let record = parse(&text).unwrap();
    assert!(record.begun);
    assert_eq!(record.steps, steps());
    assert_eq!(record.completed, [0]);
    assert_eq!(record.outstanding(), [&Intent::Remove { entry: "bar-2.0-1".to_owned() }]);
}

#[test]
fn the_recorded_root_and_dbpath_survive() {
    let record = parse(&begin_text("/some/db", "/some/root", &steps())).unwrap();
    assert_eq!(record.root, "/some/root");
    assert_eq!(record.dbpath, "/some/db");
}

#[test]
fn a_truncated_journal_still_reports_what_it_can() {
    let mut text = begin_text("/db", "/", &steps());
    text.push_str("done 0\ndone ");

    let record = parse(&text).unwrap();
    assert_eq!(record.completed, [0], "the complete line survived, the partial one did not");
    assert_eq!(record.steps.len(), 2);
}

#[test]
fn an_unknown_version_is_not_guessed_at() {
    let reason = parse("piko-journal 99\nbegin\n").unwrap_err();
    assert_eq!(reason, Unreadable::UnknownVersion("99".to_owned()));
    assert_eq!(
        reason.message(),
        "it uses format version \"99\", and this build reads only 1"
    );
}

#[test]
fn a_file_that_is_not_a_journal_is_reported_as_unreadable() {
    for text in ["hello\n", "", "piko-journal\nbegin\n"] {
        assert_eq!(parse(text).unwrap_err(), Unreadable::NoHeader, "{text:?} was not refused");
    }
    assert_eq!(Unreadable::NoHeader.message(), "it has no `piko-journal` header");
}

#[test]
fn a_journal_that_is_not_text_is_reported_as_unreadable() {
    assert_eq!(
        parse_bytes(b"piko-journal 1\n\xff\n".to_vec()).unwrap_err(),
        Unreadable::NotText
    );
    assert_eq!(Unreadable::NotText.message(), "it is not text");
}

#[test]
fn an_unknown_version_is_bounded() {
    let header = format!("piko-journal {}\n", "9".repeat(10_000));
    match parse(&header) {
        Err(Unreadable::UnknownVersion(version)) => {
            assert_eq!(version.len(), MAX_VERSION_CHARS);
        }
        other => panic!("the header was not refused: {other:?}"),
    }
}

#[test]
fn beginning_again_replaces_an_abandoned_journal() {
    let second = begin_text("/db", "/", &vec![remove("only-1-1")]);
    let record = parse_bytes(second.into_bytes()).unwrap();
    assert_eq!(record.steps, [Intent::Remove { entry: "only-1-1".to_owned() }]);
}

#[test]
fn a_finished_transaction_leaves_nothing_behind() {
    assert!(read("/db", FileRead::Missing).unwrap().is_none());
}

#[test]
fn a_journal_that_is_not_understood_is_never_an_absent_one() {
    let text = begin_text("/db", "/", &steps());
    let record = read("/db", FileRead::Contents(text.into_bytes())).unwrap().unwrap();
    assert_eq!(record.steps, steps());
    match read("/db", FileRead::Contents(b"hello".to_vec())) {
        Err(ReadError::JournalUnreadable { path, reason }) => {
            assert_eq!(path, "/db/piko-journal");
            assert_eq!(reason, Unreadable::NoHeader);
        }
        other => panic!("{other:?}"),
    }
    match read("/db", FileRead::Failed("permission denied".to_owned())) {
        Err(ReadError::Io(error)) => {
            assert_eq!(error.message(), "failed to read /db/piko-journal");
        }
        other => panic!("{other:?}"),
    }
}

#[test]
fn the_journal_sits_beside_the_database() {
    assert_eq!(path("/var/lib/pacman/"), format!("/var/lib/pacman/{JOURNAL_FILE}"));
}

#[test]
fn intents_round_trip() {
    for intent in [
        install("foo-1.0.0-1-x86_64.pkg.tar.zst", InstallReason::Explicit),
        remove("bar-2.0-1"),
    ] {
        let parsed = Intent::parse(&intent.render());
        match (&intent, parsed) {
            (
                Intent::Install { package, .. },
                Some(Intent::Install { package: read, reason }),
            ) => {
                assert_eq!(&read, package);
                assert_eq!(reason, None);
            }
            (intent, parsed) => assert_eq!(parsed.as_ref(), Some(intent)),
        }
    }
}
