//! What a step did, and the identity of a transaction.

use piko_txn::history::{strip_pacnew, strip_pacsave, transaction_id, Action};
use piko_txn::package::EntryName;

fn entry(raw: &str) -> EntryName {
    EntryName::parse(raw).unwrap()
}

#[test]
fn a_fresh_install_is_installed() {
    let action = Action::installed(&entry("foo-1.0.0-1"), None);
    assert_eq!(
        action,
        Action::Installed { name: "foo".to_owned(), version: "1.0.0-1".to_owned() }
    );
    assert_eq!(action.log_message(), "installed foo (1.0.0-1)");
}

#[test]
fn a_higher_version_is_an_upgrade() {
    let action = Action::installed(&entry("foo-1.1.0-1"), Some(&entry("foo-1.0.0-1")));
    assert_eq!(action.log_message(), "upgraded foo (1.0.0-1 -> 1.1.0-1)");
}

#[test]
fn a_lower_version_is_a_downgrade() {
    let action = Action::installed(&entry("foo-1.0.0-1"), Some(&entry("foo-1.1.0-1")));
    assert_eq!(action.log_message(), "downgraded foo (1.1.0-1 -> 1.0.0-1)");
}

#[test]
fn the_same_version_is_a_reinstall() {
    let action = Action::installed(&entry("foo-1.0.0-1"), Some(&entry("foo-1.0.0-1")));
    assert_eq!(action.log_message(), "reinstalled foo (1.0.0-1)");
}

#[test]
fn the_direction_is_a_version_comparison_not_a_string_comparison() {
    let action = Action::installed(&entry("foo-1.10-1"), Some(&entry("foo-1.9-1")));
    assert_eq!(action.verb(), "upgraded");
}

#[test]
fn an_epoch_bump_is_an_upgrade() {
    let action = Action::installed(&entry("foo-1:0.1-1"), Some(&entry("foo-9.9-1")));
    assert_eq!(action.verb(), "upgraded");
}

#[test]
fn a_removal_names_what_went() {
    let action = Action::removed(&entry("foo-1.0.0-1"));
    assert_eq!(action.log_message(), "removed foo (1.0.0-1)");
}

#[test]
fn store_lines_round_trip() {
    let actions = [
        Action::installed(&entry("foo-1.0.0-1"), None),
        Action::installed(&entry("foo-1.1.0-1"), Some(&entry("foo-1.0.0-1"))),
        Action::installed(&entry("foo-1.0.0-1"), Some(&entry("foo-1.1.0-1"))),
        Action::installed(&entry("foo-1.0.0-1"), Some(&entry("foo-1.0.0-1"))),
        Action::removed(&entry("bar-2.0-1")),
    ];
    for action in actions {
        let line = action.store_line();
        assert_eq!(Action::parse_store_line(&line), Some(action.clone()), "{line}");
    }
}

#[test]
fn a_malformed_store_line_is_refused() {
    assert_eq!(Action::parse_store_line(""), None);
    assert_eq!(Action::parse_store_line("installed"), None);
    assert_eq!(Action::parse_store_line("exploded foo 1.0.0-1"), None);
    assert_eq!(Action::parse_store_line("installed foo 1.0.0-1 2.0.0-1"), None);
}

#[test]
fn a_pacsave_names_the_file_it_came_from() {
    assert_eq!(strip_pacsave("/etc/foo.conf.pacsave"), "/etc/foo.conf");
    assert_eq!(strip_pacsave("/etc/foo.conf.pacsave.3"), "/etc/foo.conf");
    assert_eq!(strip_pacnew("/etc/foo.conf.pacnew"), "/etc/foo.conf");
}

#[test]
fn an_id_names_the_second_and_the_process() {
    let id = transaction_id(1_757_000_000, 42);
    assert!(id.starts_with("1757000000-"), "{id}");
    assert_eq!(id, transaction_id(1_757_000_000, 42));
}

#[test]
fn versions_that_cannot_be_compared_are_reported_as_a_reinstallation() {
    let large = |digit: &str| entry(&format!("foo-{}-1", digit.repeat(40)));
    let action = Action::installed(&large("9"), Some(&large("8")));
    assert_eq!(action.log_message(), format!("reinstalled foo ({}-1)", "9".repeat(40)));
    let newer = entry(&format!("foo-{}-2", "9".repeat(40)));
    assert_eq!(Action::installed(&newer, Some(&large("9"))).verb(), "upgraded");
    let action = Action::installed(&large("9"), Some(&large("9")));
    assert_eq!(action.log_message(), format!("reinstalled foo ({}-1)", "9".repeat(40)));
}
