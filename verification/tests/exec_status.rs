//! How a command ended.

use piko_txn::exec::{Outcome, Status};

#[test]
fn a_zero_exit_is_the_only_success() {
    let ok = Outcome { status: Status::Exited(0), output: Vec::new(), truncated: false };
    assert!(ok.succeeded());

    for status in
        [Status::Exited(1), Status::Signalled(9), Status::NotStarted("no such file".to_owned())]
    {
        let outcome = Outcome { status, output: Vec::new(), truncated: false };
        assert!(!outcome.succeeded(), "{outcome:?}");
    }
}

#[test]
fn a_command_that_never_started_says_so() {
    let outcome = Outcome {
        status: Status::NotStarted("No such file or directory".to_owned()),
        output: Vec::new(),
        truncated: false,
    };
    let text = outcome.describe();
    assert!(text.contains("could not be started"), "{text}");
    assert!(text.contains("No such file"), "{text}");
}

#[test]
fn a_signal_is_reported_as_a_signal() {
    let outcome = Outcome { status: Status::Signalled(9), output: Vec::new(), truncated: false };
    assert_eq!(outcome.describe(), "was killed by signal 9");
}
