//! Recording a transaction, and reading its history.

use piko_txn::exec::{Outcome as CommandOutcome, Status};
use piko_txn::extract::backup::BackupOutcome;
use piko_txn::history::pacman_log::{line_at, sessions, Line};
use piko_txn::history::recorder::{pacnew_paths, LogLine, Recorder};
use piko_txn::history::{
    merge, note, read, store, Outcome, Problem, Query, Record, Recording, Source,
};
use piko_txn::install::{Extraction, Outcome as MemberOutcome};
use piko_txn::package::EntryName;
use piko_txn::plan::Step;
use piko_txn::progress::{Event, ScriptletKind, StepOutcome};
use piko_txn::LocalOffset;

fn recording() -> Recording {
    Recording::new("/db", Some("/log".to_owned()), LocalOffset::utc())
        .command("piko install foo".to_owned())
}

fn messages(lines: &[LogLine]) -> Vec<&str> {
    lines.iter().map(|line| line.message.as_str()).collect()
}

fn extraction() -> Extraction {
    let mut extraction = Extraction::new();
    extraction.outcomes.push(("usr/bin/foo".to_owned(), MemberOutcome::Written));
    extraction.outcomes.push((
        "etc/foo.conf".to_owned(),
        MemberOutcome::Backup(BackupOutcome::KeptBoth {
            pacnew: "etc/foo.conf.pacnew".to_owned(),
        }),
    ));
    extraction
}

fn removal() -> Step {
    Step::Remove { entry: EntryName::parse("bar-2.0-1").unwrap(), no_save: false }
}

#[test]
fn an_install_is_logged_after_what_it_left_behind() {
    let mut recorder = Recorder::open(&recording(), "/", "/db", 1_757_000_000, 42, Ok(()));
    assert_eq!(messages(&recorder.started()), ["transaction started (id 1757000000-42)"]);

    let entry = EntryName::parse("foo-1.1.0-1").unwrap();
    let previous = EntryName::parse("foo-1.0.0-1").unwrap();
    let done = extraction();
    assert_eq!(pacnew_paths(&done), ["etc/foo.conf.pacnew"]);
    let pacsaves = vec!["etc/foo.conf.pacsave.1".to_owned()];
    let lines = recorder.observe(&Event::StepFinished {
        step: &removal(),
        outcome: StepOutcome::Installed {
            entry: &entry,
            replaced: Some(&previous),
            extraction: &done,
            pacsaves: &pacsaves,
        },
    });
    assert_eq!(
        messages(&lines),
        [
            "warning: etc/foo.conf installed as etc/foo.conf.pacnew",
            "warning: etc/foo.conf saved as etc/foo.conf.pacsave.1",
            "upgraded foo (1.0.0-1 -> 1.1.0-1)",
        ]
    );
    assert!(lines.iter().all(|line| line.caller() == "PIKO"));

    let lines = recorder.observe(&Event::StepFinished {
        step: &removal(),
        outcome: StepOutcome::Removed { pacsaves: &Vec::new() },
    });
    assert_eq!(messages(&lines), ["removed bar (2.0-1)"]);

    let lines = recorder.observe(&Event::HookStarted {
        index: 0,
        total: 1,
        name: "30-foo.hook",
        description: None,
    });
    assert_eq!(messages(&lines), ["running '30-foo.hook'..."]);

    let lines = recorder.observe(&Event::ScriptletOutputLine {
        package: "foo",
        kind: ScriptletKind::PostInstall,
        line: "creating a user",
    });
    assert_eq!(messages(&lines), ["creating a user"]);
    assert_eq!(lines[0].caller(), "PIKO-SCRIPTLET");

    let quiet = CommandOutcome {
        status: Status::Exited(0),
        output: Vec::new(),
        truncated: false,
    };
    assert!(recorder
        .observe(&Event::ScriptletFinished {
            package: "foo",
            kind: ScriptletKind::PostInstall,
            outcome: &quiet,
        })
        .is_empty());

    assert_eq!(
        messages(&recorder.finish(Outcome::Completed, 1_757_000_007)),
        ["transaction completed"]
    );
    let (path, block) = recorder.block().unwrap();
    assert_eq!(path, "/db/piko-history");
    let entries = store::parse(&block);
    assert_eq!(entries.len(), 1);
    assert_eq!(entries[0].id, "1757000000-42");
    assert_eq!(entries[0].command.as_deref(), Some("piko install foo"));
    assert_eq!(entries[0].finished, Some(1_757_000_007));
    assert_eq!(entries[0].actions.len(), 2);
    assert_eq!(entries[0].hooks, ["30-foo.hook"]);
    assert_eq!(entries[0].pacnew, ["etc/foo.conf.pacnew"]);
    assert_eq!(entries[0].pacsave, ["etc/foo.conf.pacsave.1"]);
    assert_eq!(entries[0].outcome, Outcome::Completed);
    assert!(recorder.abandon().is_empty());
}

#[test]
fn a_broken_log_is_one_problem() {
    let mut recorder = Recorder::open(&recording(), "/", "/db", 1, 2, Ok(()));
    recorder.note_log_failure("no space left".to_owned());
    assert!(recorder.started().is_empty());
    let removed = Event::StepFinished {
        step: &removal(),
        outcome: StepOutcome::Removed { pacsaves: &Vec::new() },
    };
    assert!(recorder.observe(&removed).is_empty());
    assert!(recorder.finish(Outcome::Interrupted, 3).is_empty());
    assert_eq!(store::parse(&recorder.block().unwrap().1)[0].actions.len(), 1);
    recorder.note_store_failure("read-only".to_owned());
    let messages: Vec<String> =
        recorder.abandon().iter().map(|problem| problem.message()).collect();
    assert_eq!(messages.len(), 2);
    assert!(messages[0].contains("/log") && messages[0].contains("no space left"));
    assert!(messages[1].contains("/db/piko-history") && messages[1].contains("read-only"));
}

#[test]
fn a_log_that_cannot_be_opened_is_dropped() {
    let recorder =
        Recorder::open(&recording(), "/", "/db", 1, 2, Err("permission denied".to_owned()));
    assert!(recorder.started().is_empty());
    assert_eq!(recorder.abandon().len(), 1);
    let silent = Recording { log_file: None, store: None, ..recording() };
    let mut recorder = Recorder::open(&silent, "/", "/db", 1, 2, Ok(()));
    assert!(recorder.block().is_none());
    assert_eq!(recorder.finish(Outcome::Cancelled, 3).len(), 0);
    assert!(recorder.abandon().is_empty());
}

#[test]
fn only_a_completed_transaction_is_logged_as_one() {
    let mut recorder = Recorder::open(&recording(), "/", "/db", 1, 2, Ok(()));
    let failed = Outcome::Failed { reason: "no".to_owned() };
    assert_eq!(messages(&recorder.finish(failed, 3)), ["transaction failed"]);
}

#[test]
fn a_note_goes_to_the_log_alone() {
    assert_eq!(
        note(&recording(), 0, "synchronizing package lists"),
        Some((
            "/log".to_owned(),
            "[1970-01-01T00:00:00+0000] [PIKO] synchronizing package lists\n".to_owned()
        ))
    );
    let silent = Recording { log_file: None, ..recording() };
    assert_eq!(note(&silent, 0, "x"), None);
}

fn logged(recorder: &Recorder, epoch: i64, more: Vec<LogLine>) -> String {
    let mut text = String::new();
    for line in recorder.started().iter().chain(more.iter()) {
        text.push_str(&line_at(epoch, LocalOffset::utc(), line.caller(), &line.message));
    }
    text
}

fn ids(records: &[Record]) -> Vec<Option<&str>> {
    records.iter().map(|record| record.id.as_deref()).collect()
}

#[test]
fn both_records_of_a_transaction_become_one() {
    let mut log = String::from(
        "[1970-01-01T00:00:00+0000] [ALPM] transaction started\n\
         [1970-01-01T00:00:01+0000] [ALPM] installed old (1-1)\n\
         [1970-01-01T00:00:02+0000] [ALPM] transaction completed\n",
    );
    let mut stored = String::new();
    for started in [100, 50] {
        let mut recorder = Recorder::open(&recording(), "/", "/db", started, 7, Ok(()));
        let mut lines = recorder.observe(&Event::StepFinished {
            step: &removal(),
            outcome: StepOutcome::Removed { pacsaves: &Vec::new() },
        });
        lines.extend(recorder.finish(Outcome::Completed, started + 1));
        log.push_str(&logged(&recorder, started, lines));
        stored.push_str(&recorder.block().unwrap().1);
    }
    let lines: Vec<Line> = log.lines().filter_map(Line::parse).collect();
    let everything = Query::default();
    let records = merge(sessions(&lines), store::parse(&stored), &everything);
    assert_eq!(ids(&records), [None, Some("50-7"), Some("100-7")]);
    assert_eq!(records[1].actions.len(), 1);

    let newest = Query { last: Some(1), ..Query::default() };
    let records = merge(sessions(&lines), store::parse(&stored), &newest);
    assert_eq!(ids(&records), [Some("100-7")]);
}

#[test]
fn a_history_is_read_out_of_both_files() {
    let mut recorder = Recorder::open(&recording(), "/", "/db", 100, 7, Ok(()));
    let lines = recorder.finish(Outcome::Completed, 101);
    let log = Source::Contents {
        bytes: logged(&recorder, 100, lines).into_bytes(),
        partial: false,
    };
    let stored = Source::Contents {
        bytes: recorder.block().unwrap().1.into_bytes(),
        partial: false,
    };
    let records = read(log.clone(), stored.clone(), &Query::default()).unwrap();
    assert_eq!(ids(&records), [Some("100-7")]);
    assert!(records[0].detailed);
    assert!(read(Source::Nothing, Source::Nothing, &Query::default()).unwrap().is_empty());

    let broken =
        || Source::Unreadable { path: "/f".to_owned(), reason: "input/output error".to_owned() };
    let problem = read(broken(), stored, &Query::default()).unwrap_err();
    assert!(matches!(problem, Problem::Log { .. }));
    let problem = read(log, broken(), &Query::default()).unwrap_err();
    assert!(matches!(problem, Problem::Store { .. }));
}
