//! Running a command.

use piko_txn::exec::{
    classify, drain, enters_root, helper_call, is_helper_argument, shell_level, Command, Drain,
    HelperFailure, Outcome, Runner, Status, HELPER_ARG, MAX_OUTPUT_BYTES,
};

fn drained(chunks: &[&[u8]]) -> (Vec<String>, Outcome) {
    let chunks = chunks.iter().map(|chunk| chunk.to_vec()).collect();
    drain(&chunks, Status::Exited(0))
}

#[test]
fn the_helper_needs_a_root_and_a_program() {
    assert_eq!(
        helper_call(&Vec::new()).unwrap_err(),
        "no root was given to the exec helper"
    );
    assert_eq!(
        helper_call(&vec!["/".to_owned()]).unwrap_err(),
        "no program was given to the exec helper"
    );
    let call = helper_call(&vec!["/".to_owned(), "/bin/sh".to_owned(), "-c".to_owned()]).unwrap();
    assert_eq!(call.root, "/");
    assert_eq!(call.program, "/bin/sh");
    assert_eq!(call.args, ["-c"]);
}

#[test]
fn the_helper_refuses_a_root_that_is_not_there() {
    let failure = HelperFailure::Unresolved { root: "/nonexistent-root-for-a-test".to_owned() };
    let error = failure.message("No such file or directory");
    assert!(error.contains("could not resolve the root"), "{error}");
    assert_eq!(
        HelperFailure::NotEntered { root: "/r".to_owned() }.message("x"),
        "could not enter the root /r: x"
    );
    assert_eq!(
        HelperFailure::NoDirectory.message("x"),
        "could not change directory inside the root: x"
    );
    assert_eq!(
        HelperFailure::NotRun { program: "/bin/p".to_owned() }.message("x"),
        "could not run /bin/p: x"
    );
    assert!(!enters_root("/"));
    assert!(enters_root("/mnt"));
}

#[test]
fn output_is_line_split_and_the_cap_is_reported() {
    let payload = vec![b'x'; MAX_OUTPUT_BYTES + 4096];
    let (streamed, outcome) = drained(&[b"first\nsecond\n", &payload, b"\nlost\n"]);
    let lines = outcome.output;

    assert_eq!(lines.first().map(String::as_str), Some("first"));
    assert_eq!(lines.get(1).map(String::as_str), Some("second"));
    assert!(outcome.truncated, "the cap was exceeded but not reported");
    let total: usize = lines.iter().map(String::len).sum();
    assert!(total <= MAX_OUTPUT_BYTES, "kept {total} bytes");
    assert_eq!(streamed, lines, "streamed lines diverged from the buffered ones");
}

#[test]
fn no_output_is_no_lines() {
    let (streamed, outcome) = drained(&[]);
    assert!(streamed.is_empty());
    assert!(outcome.output.is_empty(), "{:?}", outcome.output);
    assert!(!outcome.truncated);
}

#[test]
fn a_line_is_reported_once_it_is_complete() {
    let mut drain = Drain::new();
    assert!(drain.push(b"par").is_empty());
    assert_eq!(drain.push(b"tial\n\nnext"), ["partial", ""]);
    assert_eq!(drain.rest().as_deref(), Some("next"));
    let outcome = drain.finish(Status::Exited(3));
    assert_eq!(outcome.output, ["partial", "", "next"]);
    assert_eq!(outcome.describe(), "exited with status 3");
}

#[test]
fn output_that_is_no_text_is_still_shown() {
    let (streamed, outcome) = drained(&[b"a\xffb\n"]);
    assert_eq!(streamed, ["a\u{fffd}b"]);
    assert_eq!(outcome.output, ["a\u{fffd}b"]);
}

#[test]
fn an_ending_is_classified() {
    assert_eq!(classify(Some(0), None), Status::Exited(0));
    assert_eq!(classify(None, Some(9)), Status::Signalled(9));
    assert_eq!(
        classify(None, None),
        Status::NotStarted("it ended in an unrecognised way".to_owned())
    );
    let outcome = Outcome::not_started("no such file".to_owned());
    assert!(!outcome.succeeded());
    assert_eq!(outcome.describe(), "could not be started: no such file");
}

#[test]
fn the_helper_is_handed_the_root_and_the_command() {
    let runner = Runner::new("/mnt".to_owned(), "/usr/bin/piko".to_owned());
    assert_eq!(runner.root(), "/mnt");
    assert_eq!(runner.helper(), "/usr/bin/piko");
    let command = Command::new("/bin/echo".to_owned())
        .arg("a".to_owned())
        .arg("b c".to_owned())
        .stdin(b"in".to_vec());
    assert_eq!(command.stdin.as_deref(), Some(b"in".as_slice()));
    assert_eq!(runner.arguments(&command), [HELPER_ARG, "/mnt", "/bin/echo", "a", "b c"]);
    assert!(is_helper_argument(HELPER_ARG));
    assert!(!is_helper_argument("install"));
    assert_eq!(shell_level(false), Some(1));
    assert_eq!(shell_level(true), None);
}

#[test]
fn a_character_split_between_chunks_is_whole_in_its_line() {
    let (streamed, outcome) = drained(&["gr\u{fc}".as_bytes().split_at(3).0, b"\xbcn\n\n\xe2\x9c", b"\x93"]);
    assert_eq!(streamed, ["gr\u{fc}n", "", "\u{2713}"]);
    assert_eq!(outcome.output, streamed);
}

#[test]
fn a_carriage_return_before_a_newline_belongs_to_the_line_end() {
    let (streamed, outcome) = drained(&[b"one\r\ntwo\r\r\n\r\nlast\r"]);
    assert_eq!(streamed, ["one", "two\r", "", "last\r"]);
    assert_eq!(outcome.output, streamed);
}
