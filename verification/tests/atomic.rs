//! Replacing a file.

use piko_txn::atomic::{Action, AtomicWrite, Event, Turn};
use piko_txn::Error;

fn act(turn: Turn) -> Action {
    match turn {
        Turn::Act(action) => action,
        Turn::Finished(result) => panic!("it is over: {result:?}"),
    }
}

fn failure(turn: Turn) -> String {
    match turn {
        Turn::Finished(Err(error)) => error.message(),
        other => panic!("{other:?}"),
    }
}

fn failed() -> Event {
    Event::Failed("no space left".to_owned())
}

fn there() -> Event {
    Event::AlreadyThere("File exists (os error 17)".to_owned())
}

#[test]
fn a_file_is_replaced_by_one_that_is_on_disk() {
    let (mut write, first) = AtomicWrite::begin("/db/piko-journal".to_owned());
    assert_eq!(first, Action::Create);
    assert_eq!(write.temporary(), "/db/piko-journal.new");
    assert_eq!(write.directory(), "/db");
    assert_eq!(act(write.advance(Event::Done)), Action::WriteAndSync);
    assert_eq!(act(write.advance(Event::Done)), Action::Rename);
    assert_eq!(act(write.advance(Event::Done)), Action::SyncDirectory);
    assert!(matches!(write.advance(Event::Done), Turn::Finished(Ok(()))));
}

#[test]
fn a_leftover_is_removed_once() {
    let (mut write, _) = AtomicWrite::begin("journal".to_owned());
    assert_eq!(write.directory(), ".");
    assert_eq!(act(write.advance(there())), Action::Remove);
    assert_eq!(act(write.advance(Event::Done)), Action::Create);
    assert_eq!(failure(write.advance(there())), "failed to create journal.new");

    let (mut write, _) = AtomicWrite::begin("journal".to_owned());
    assert_eq!(act(write.advance(there())), Action::Remove);
    assert_eq!(failure(write.advance(failed())), "failed to remove journal.new");
}

#[test]
fn a_failure_discards_what_was_written() {
    let (mut write, _) = AtomicWrite::begin("/j".to_owned());
    assert_eq!(failure(write.advance(failed())), "failed to create /j.new");

    let (mut write, _) = AtomicWrite::begin("/j".to_owned());
    write.advance(Event::Done);
    assert_eq!(act(write.advance(failed())), Action::Remove);
    assert_eq!(failure(write.advance(failed())), "failed to write /j.new");

    let (mut write, _) = AtomicWrite::begin("/j".to_owned());
    write.advance(Event::Done);
    write.advance(Event::Done);
    assert_eq!(act(write.advance(failed())), Action::Remove);
    assert_eq!(failure(write.advance(Event::Done)), "failed to rename onto /j");

    let (mut write, _) = AtomicWrite::begin("/d/j".to_owned());
    write.advance(Event::Done);
    write.advance(Event::Done);
    write.advance(Event::Done);
    assert_eq!(failure(write.advance(failed())), "failed to flush to disk /d");
}

#[test]
fn a_later_refusal_keeps_the_words_of_the_system() {
    let source = |turn: Turn| match turn {
        Turn::Finished(Err(Error::Io { source, .. })) => source,
        other => panic!("{other:?}"),
    };
    let (mut write, _) = AtomicWrite::begin("/j".to_owned());
    write.advance(there());
    write.advance(Event::Done);
    assert_eq!(source(write.advance(there())), "File exists (os error 17)");

    let (mut write, _) = AtomicWrite::begin("/j".to_owned());
    write.advance(Event::Done);
    write.advance(Event::Done);
    write.advance(there());
    assert_eq!(source(write.advance(Event::Done)), "File exists (os error 17)");

    let (mut write, _) = AtomicWrite::begin("/j".to_owned());
    assert_eq!(source(write.advance(failed())), "no space left");
}
