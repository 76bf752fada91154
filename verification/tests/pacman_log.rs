//! The shared log.

use piko_txn::history::pacman_log::{line_at, read, sessions, Line, CALLER, SCRIPTLET_CALLER};
use piko_txn::history::{Action, Outcome};
use piko_txn::LocalOffset;

#[test]
fn a_leader_parses_back() {
    let line = Line::parse("[2026-09-03T16:19:47+0200] [ALPM] installed foo (1.0.0-1)")
        .expect("a parseable line");
    assert_eq!(line.caller, "ALPM");
    assert_eq!(line.message, "installed foo (1.0.0-1)");
    assert!(line.timestamp.is_some());
}

#[test]
fn a_line_with_no_leader_is_skipped() {
    assert_eq!(Line::parse(""), None);
    assert_eq!(Line::parse("installed foo (1.0.0-1)"), None);
    assert_eq!(Line::parse("[2026-09-03T16:19:47+0200] no caller"), None);
}

#[test]
fn every_verb_parses_from_a_message() {
    let cases = [
        ("installed foo (1.0.0-1)", "installed"),
        ("reinstalled foo (1.0.0-1)", "reinstalled"),
        ("removed foo (1.0.0-1)", "removed"),
        ("upgraded foo (1.0.0-1 -> 1.1.0-1)", "upgraded"),
        ("downgraded foo (1.1.0-1 -> 1.0.0-1)", "downgraded"),
    ];
    for (message, verb) in cases {
        let line =
            Line { timestamp: Some(0), caller: "ALPM".to_owned(), message: message.to_owned() };
        assert_eq!(line.action().expect(message).verb(), verb, "{message}");
    }
}

#[test]
fn an_action_round_trips_through_a_message() {
    let action = Action::Upgraded {
        name: "foo".to_owned(),
        from: "1.0.0-1".to_owned(),
        to: "1.1.0-1".to_owned(),
    };
    let line =
        Line { timestamp: Some(0), caller: CALLER.to_owned(), message: action.log_message() };
    assert_eq!(line.action(), Some(action));
}

#[test]
fn a_warning_is_not_an_action() {
    let line = Line {
        timestamp: Some(0),
        caller: "ALPM".to_owned(),
        message: "warning: /etc/foo.conf installed as /etc/foo.conf.pacnew".to_owned(),
    };
    assert_eq!(line.action(), None);
}

fn parse_all(text: &str) -> Vec<Line> {
    text.lines().filter_map(Line::parse).collect()
}

#[test]
fn a_pacman_transaction_groups_into_one_session() {
    let lines = parse_all(
        "[2026-09-03T16:19:47+0200] [PACMAN] Running 'pacman -Syu'\n\
         [2026-09-03T16:19:47+0200] [PACMAN] synchronizing package lists\n\
         [2026-09-03T16:19:48+0200] [ALPM] transaction started\n\
         [2026-09-03T16:19:49+0200] [ALPM] upgraded foo (1.0.0-1 -> 1.1.0-1)\n\
         [2026-09-03T16:19:50+0200] [ALPM] transaction completed\n\
         [2026-09-03T16:19:51+0200] [ALPM] running '35-systemd-update.hook'...\n",
    );
    let sessions = sessions(&lines);
    assert_eq!(sessions.len(), 1);
    let session = sessions.first().expect("one session");
    assert_eq!(session.caller, "ALPM");
    assert_eq!(session.command.as_deref(), Some("pacman -Syu"));
    assert_eq!(session.actions.len(), 1);
    assert_eq!(session.outcome, Outcome::Completed);
}

#[test]
fn a_piko_transaction_carries_its_id() {
    let lines = parse_all(
        "[2026-09-03T16:19:47+0200] [PIKO] Running 'piko install foo'\n\
         [2026-09-03T16:19:48+0200] [PIKO] transaction started (id 1757000000-42)\n\
         [2026-09-03T16:19:49+0200] [PIKO] installed foo (1.0.0-1)\n\
         [2026-09-03T16:19:50+0200] [PIKO] transaction completed\n",
    );
    let sessions = sessions(&lines);
    let session = sessions.first().expect("one session");
    assert_eq!(session.id.as_deref(), Some("1757000000-42"));
    assert_eq!(session.caller, CALLER);
    assert_eq!(session.command.as_deref(), Some("piko install foo"));
}

#[test]
fn a_session_with_no_ending_is_interrupted() {
    let lines = parse_all(
        "[2026-09-03T16:19:48+0200] [ALPM] transaction started\n\
         [2026-09-03T16:19:49+0200] [ALPM] installed foo (1.0.0-1)\n",
    );
    let sessions = sessions(&lines);
    assert_eq!(sessions.len(), 1);
    assert_eq!(sessions.first().map(|s| s.outcome.clone()), Some(Outcome::Interrupted));
}

#[test]
fn a_failed_session_is_reported_as_failed() {
    let lines = parse_all(
        "[2026-09-03T16:19:48+0200] [PIKO] transaction started (id 1-1)\n\
         [2026-09-03T16:19:50+0200] [PIKO] transaction failed\n",
    );
    let sessions = sessions(&lines);
    assert!(matches!(
        sessions.first().map(|s| s.outcome.clone()),
        Some(Outcome::Failed { .. })
    ));
}

#[test]
fn hooks_inside_a_session_are_collected() {
    let lines = parse_all(
        "[2026-09-03T16:19:48+0200] [PIKO] transaction started (id 1-1)\n\
         [2026-09-03T16:19:49+0200] [PIKO] running '30-foo.hook'...\n\
         [2026-09-03T16:19:50+0200] [PIKO] transaction completed\n",
    );
    let sessions = sessions(&lines);
    assert_eq!(sessions.first().map(|s| s.hooks.clone()), Some(vec!["30-foo.hook".to_owned()]));
}

#[test]
fn two_transactions_do_not_merge() {
    let lines = parse_all(
        "[2026-09-03T16:19:48+0200] [PIKO] transaction started (id 1-1)\n\
         [2026-09-03T16:19:49+0200] [PIKO] installed foo (1.0.0-1)\n\
         [2026-09-03T16:19:50+0200] [PIKO] transaction completed\n\
         [2026-09-03T16:20:48+0200] [PIKO] transaction started (id 2-1)\n\
         [2026-09-03T16:20:49+0200] [PIKO] removed foo (1.0.0-1)\n\
         [2026-09-03T16:20:50+0200] [PIKO] transaction completed\n",
    );
    assert_eq!(sessions(&lines).len(), 2);
}

#[test]
fn a_line_matches_the_libalpm_leader() {
    assert_eq!(
        line_at(0, LocalOffset::from_seconds(7200), CALLER, "installed foo (1.0.0-1)"),
        "[1970-01-01T02:00:00+0200] [PIKO] installed foo (1.0.0-1)\n"
    );
}

#[test]
fn a_trailing_newline_is_not_doubled() {
    assert_eq!(
        line_at(0, LocalOffset::utc(), SCRIPTLET_CALLER, "creating a user\n"),
        "[1970-01-01T00:00:00+0000] [PIKO-SCRIPTLET] creating a user\n"
    );
}

#[test]
fn reading_a_file_skips_what_it_cannot_parse() {
    let lines = read(
        b"not a log line\n\
          [2026-09-03T16:19:48+0200] [PIKO] transaction started (id 1-1)\n\
          \n",
    );
    assert_eq!(lines.len(), 1);
    let lines = read(b"[2026-09-03T16:19:48+0200] [ALPM] a\xff\n[x] [ALPM] b\r\n[x] [ALPM] c");
    let messages: Vec<&str> = lines.iter().map(|line| line.message.as_str()).collect();
    assert_eq!(messages, ["b", "c"]);
}

#[test]
fn a_written_line_reads_back() {
    let written = line_at(1_757_000_000, LocalOffset::from_seconds(-18000), CALLER, "removed a (1-1)");
    let line = Line::parse(written.trim_end_matches('\n')).unwrap();
    assert_eq!(line.timestamp, Some(1_757_000_000));
    assert_eq!(line.caller, CALLER);
    assert_eq!(line.message, "removed a (1-1)");
}

#[test]
fn a_carriage_return_belongs_to_the_end_of_a_terminated_line_alone() {
    let start = "[2026-09-03T16:19:47+0200] [ALPM] transaction started\r\n";
    let end = "[2026-09-03T16:19:48+0200] [ALPM] transaction completed\r";
    let ended = read(format!("{start}{end}\n").as_bytes());
    assert_eq!(ended[1].message, "transaction completed");
    assert_eq!(sessions(&ended)[0].outcome, Outcome::Completed);
    let cut = read(format!("{start}{end}").as_bytes());
    assert_eq!(cut[1].message, "transaction completed\r");
    assert_eq!(sessions(&cut)[0].outcome, Outcome::Interrupted);
}

#[test]
fn a_message_with_spaces_in_it_reads_back() {
    let reads_back = |from: &str, to: &str| {
        let action = Action::Upgraded {
            name: "foo bar ".to_owned(),
            from: from.to_owned(),
            to: to.to_owned(),
        };
        let line =
            Line { timestamp: None, caller: CALLER.to_owned(), message: action.log_message() };
        line.action() == Some(action)
    };
    assert!(reads_back("1 -", "2 -> 3)"));
    assert!(reads_back("1 ", " (2"));
    assert!(!reads_back("1 ->", "2"));
}
