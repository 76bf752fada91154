//! Splitting a command line.

use piko_txn::hook::wordsplit::{split, SplitError};

fn words(value: &str) -> Vec<String> {
    split(value).unwrap().into_iter().collect()
}

#[test]
fn a_plain_command_splits_on_whitespace() {
    assert_eq!(words("/usr/bin/ldconfig -r ."), ["/usr/bin/ldconfig", "-r", "."]);
}

#[test]
fn leading_and_trailing_whitespace_is_ignored() {
    assert_eq!(words("   /bin/true   "), ["/bin/true"]);
    assert_eq!(words("/bin/echo \t a  \t b "), ["/bin/echo", "a", "b"]);
}

#[test]
fn a_quoted_argument_keeps_its_spaces() {
    assert_eq!(
        words("/bin/sh -c 'pkill --exact gvfsd || true'"),
        ["/bin/sh", "-c", "pkill --exact gvfsd || true"]
    );
}

#[test]
fn double_quotes_work_the_same_as_single_quotes() {
    assert_eq!(words(r#"/bin/echo "a b" c"#), ["/bin/echo", "a b", "c"]);
}

#[test]
fn quotes_are_word_internal() {
    assert_eq!(words(r#"a"b c"d"#), ["ab cd"]);
    assert_eq!(words("x'y z'"), ["xy z"]);
}

#[test]
fn the_other_quote_is_literal_inside_a_quoted_run() {
    assert_eq!(words(r#"/bin/echo "it's fine""#), ["/bin/echo", "it's fine"]);
}

#[test]
fn a_backslash_escapes_the_enclosing_quote() {
    assert_eq!(words(r#"/bin/echo "say \"hi\"""#), ["/bin/echo", r#"say "hi""#]);
}

#[test]
fn a_backslash_is_otherwise_literal() {
    assert_eq!(words(r"/bin/echo a\b"), ["/bin/echo", r"a\b"]);
    assert_eq!(words(r#"/bin/echo "a\b""#), ["/bin/echo", r"a\b"]);
}

#[test]
fn an_unbalanced_quote_is_refused() {
    assert_eq!(
        split("/bin/sh -c 'never closed"),
        Err(SplitError::UnbalancedQuote { position: 11 })
    );
    assert!(matches!(split(r#"a "b"#), Err(SplitError::UnbalancedQuote { .. })));
}

#[test]
fn an_empty_value_is_refused() {
    assert_eq!(split(""), Err(SplitError::Empty));
    assert_eq!(split("   \t "), Err(SplitError::Empty));
}

#[test]
fn an_empty_quoted_run_is_an_empty_argument() {
    assert_eq!(words("/bin/echo '' x"), ["/bin/echo", "", "x"]);
}

#[test]
fn a_value_carrying_more_equals_signs_survives() {
    assert_eq!(
        words("/usr/bin/systemctl --runtime set-property sshd.service Markers=needs-restart"),
        [
            "/usr/bin/systemctl",
            "--runtime",
            "set-property",
            "sshd.service",
            "Markers=needs-restart"
        ]
    );
}

#[test]
fn a_refusal_says_where_the_quote_was_opened() {
    assert_eq!(
        split("/bin/sh -c 'never closed").unwrap_err().message(),
        "the quote opened at character 11 is never closed"
    );
    assert_eq!(split("").unwrap_err().message(), "it is empty");
}
