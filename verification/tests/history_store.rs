//! The history store.

use piko_txn::history::store::{
    self, parse, path, read_last, render, tail_window, DEFAULT_TAIL_BYTES, HISTORY_FILE,
};
use piko_txn::history::{Action, Entry, Outcome};
use piko_txn::LocalOffset;

fn sample() -> Entry {
    Entry {
        id: "1757000000-42".to_owned(),
        started: 1_757_000_000,
        finished: Some(1_757_000_007),
        root: "/".to_owned(),
        dbpath: "/var/lib/pacman".to_owned(),
        command: Some("piko install foo".to_owned()),
        actions: vec![
            Action::Installed { name: "foo".to_owned(), version: "1.0.0-1".to_owned() },
            Action::Upgraded {
                name: "bar".to_owned(),
                from: "2.0-1".to_owned(),
                to: "3.0-1".to_owned(),
            },
            Action::Removed { name: "baz".to_owned(), version: "1.2-1".to_owned() },
        ],
        pacnew: vec!["/etc/foo.conf.pacnew".to_owned()],
        pacsave: vec!["/etc/baz.conf.pacsave".to_owned()],
        hooks: vec!["30-foo.hook".to_owned()],
        outcome: Outcome::Completed,
    }
}

#[test]
fn an_entry_round_trips() {
    let entry = sample();
    let text = render(&entry, LocalOffset::utc());
    assert_eq!(parse(&text), vec![entry]);
}

#[test]
fn a_failed_entry_keeps_its_reason() {
    let entry = Entry {
        outcome: Outcome::Failed { reason: "the hook 30-foo.hook refused it".to_owned() },
        ..sample()
    };
    let text = render(&entry, LocalOffset::utc());
    assert_eq!(parse(&text), vec![entry]);
}

#[test]
fn a_cancelled_entry_round_trips() {
    let entry = Entry { outcome: Outcome::Cancelled, ..sample() };
    let text = render(&entry, LocalOffset::utc());
    assert!(text.contains("end cancelled "), "{text}");
    assert_eq!(parse(&text), vec![entry]);
}

#[test]
fn a_value_cannot_forge_a_block_line() {
    let entry = Entry {
        command: Some("piko install foo\nend completed 1970-01-01T00:00:00+0000".to_owned()),
        outcome: Outcome::Failed { reason: "it failed".to_owned() },
        ..sample()
    };
    let parsed = parse(&render(&entry, LocalOffset::utc()));
    assert!(matches!(parsed.first().map(|e| e.outcome.clone()), Some(Outcome::Failed { .. })));
}

fn ids(entries: &[Entry]) -> Vec<String> {
    entries.iter().map(|entry| entry.id.clone()).collect()
}

#[test]
fn a_truncated_block_does_not_swallow_the_next_one() {
    let text = format!(
        "txn 1 first 1970-01-01T00:00:00+0000\nroot /\ninstalled foo 1.0.0-1\n{}",
        render(&sample(), LocalOffset::utc())
    );
    let entries = parse(&text);
    assert_eq!(entries.len(), 2);
    assert_eq!(entries.first().map(|e| e.outcome.clone()), Some(Outcome::Interrupted));
    assert_eq!(entries.get(1).map(|e| e.outcome.clone()), Some(Outcome::Completed));
}

#[test]
fn a_block_of_an_unknown_version_is_skipped_whole() {
    let text = format!(
        "{}txn 99 future 1970-01-01T00:00:00+0000\ninstalled ghost 9.9-9\nend completed \
         1970-01-01T00:00:00+0000\n",
        render(&sample(), LocalOffset::utc())
    );
    let entries = parse(&text);
    assert_eq!(entries.len(), 1);
    let names: Vec<&str> =
        entries.first().expect("one entry").actions.iter().map(Action::name).collect();
    assert!(!names.contains(&"ghost"), "{names:?}");
}

#[test]
fn an_unknown_keyword_is_ignored() {
    let text = "txn 1 x 1970-01-01T00:00:00+0000\nroot /\nsomething new\nend completed \
                1970-01-01T00:00:00+0000\n";
    assert_eq!(parse(text).len(), 1);
}

fn read_tail(file: &str, limit: usize, tail_bytes: u64) -> Vec<Entry> {
    let window = tail_window(file.len() as u64, tail_bytes);
    let start = window.start as usize;
    let end = file.len().min(start + window.span as usize);
    let entries = store::read_tail(&file.as_bytes()[start..end], window.partial, limit);
    assert_eq!(entries, read_last(file.as_bytes(), limit, tail_bytes));
    entries
}

#[test]
fn appending_keeps_every_block() {
    let mut file = String::new();
    for index in 0..3_i64 {
        let entry = Entry { started: 1_757_000_000 + index, ..sample() };
        file.push_str(&render(&entry, LocalOffset::utc()));
    }
    assert_eq!(read_tail(&file, 10, DEFAULT_TAIL_BYTES).len(), 3);
}

#[test]
fn reading_a_missing_file_is_an_empty_history() {
    assert!(read_tail("", 10, DEFAULT_TAIL_BYTES).is_empty());
}

#[test]
fn a_limit_keeps_the_newest() {
    let mut file = String::new();
    for index in 0..5_i64 {
        let entry = Entry { id: format!("id-{index}"), started: 1_757_000_000 + index, ..sample() };
        file.push_str(&render(&entry, LocalOffset::utc()));
    }
    let entries = read_tail(&file, 2, DEFAULT_TAIL_BYTES);
    assert_eq!(ids(&entries), vec!["id-3".to_owned(), "id-4".to_owned()]);
}

fn four_blocks() -> (String, u64) {
    let mut file = String::new();
    for index in 0..4_i64 {
        let started = 1_757_000_000_i64.saturating_add(index);
        let entry = Entry { id: format!("id-{index}"), started, ..sample() };
        file.push_str(&render(&entry, LocalOffset::utc()));
    }
    let whole = file.len() as u64;
    assert_eq!(whole % 4, 0, "the four blocks are not of equal width");
    (file, whole / 4)
}

#[test]
fn a_partial_leading_block_is_dropped_and_no_whole_block_with_it() {
    let (file, block) = four_blocks();
    let entries = read_tail(&file, 10, block * 2 + 7);

    assert_eq!(ids(&entries), vec!["id-2".to_owned(), "id-3".to_owned()]);
    for entry in &entries {
        assert_eq!(entry.root, "/", "a partial block reached the reader");
    }
}

#[test]
fn a_window_landing_on_a_boundary_loses_nothing() {
    let (file, block) = four_blocks();
    let entries = read_tail(&file, 10, block * 2);

    assert_eq!(ids(&entries), vec!["id-2".to_owned(), "id-3".to_owned()]);
}

#[test]
fn the_store_sits_beside_the_database() {
    assert_eq!(path("/var/lib/pacman"), format!("/var/lib/pacman/{HISTORY_FILE}"));
}

#[test]
fn a_window_that_starts_inside_a_character_loses_only_that_block() {
    let mut file = String::new();
    for index in 0..3_i64 {
        let id = format!("id-{index}");
        let entry = Entry { id, command: Some("\u{fc}".repeat(20)), ..sample() };
        file.push_str(&render(&entry, LocalOffset::utc()));
    }
    let block = (file.len() / 3) as u64;
    for extra in 0..block {
        let entries = read_tail(&file, 10, block + extra);
        assert_eq!(ids(&entries), vec!["id-2".to_owned()], "{extra}");
    }
}

#[test]
fn no_value_can_forge_a_line() {
    let forged = "x\nend completed 1970-01-01T00:00:00+0000\r\ntxn 1 2-2 1970-01-01T00:00:00Z";
    let entry = Entry {
        id: forged.to_owned(),
        root: forged.to_owned(),
        dbpath: forged.to_owned(),
        command: Some(forged.to_owned()),
        actions: vec![Action::Removed { name: forged.to_owned(), version: forged.to_owned() }],
        pacnew: vec![forged.to_owned()],
        pacsave: vec![forged.to_owned()],
        hooks: vec![forged.to_owned()],
        started: 0,
        finished: Some(0),
        outcome: Outcome::Failed { reason: forged.to_owned() },
    };
    let block = render(&entry, LocalOffset::utc());
    assert_eq!(block.lines().filter(|line| line.starts_with("end ")).count(), 1);
    assert_eq!(block.lines().filter(|line| line.starts_with("txn ")).count(), 1);
    assert_eq!(block.lines().count(), 9);
}

#[test]
fn a_line_feed_in_the_root_is_flattened() {
    let entry = Entry {
        id: "1-1".to_owned(),
        started: 0,
        finished: Some(0),
        root: "/x\nend completed 1970-01-01T00:00:00+0000".to_owned(),
        dbpath: "/d".to_owned(),
        command: None,
        actions: Vec::new(),
        pacnew: Vec::new(),
        pacsave: Vec::new(),
        hooks: Vec::new(),
        outcome: Outcome::Failed { reason: "r".to_owned() },
    };
    let block = render(&entry, LocalOffset::utc());
    let ends: Vec<&str> = block.lines().filter(|line| line.starts_with("end ")).collect();
    assert_eq!(ends, ["end failed 1970-01-01T00:00:00+0000 r"]);
}
