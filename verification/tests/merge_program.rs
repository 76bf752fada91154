//! The commands that show and merge a pending file.

use piko_txn::merge::{
    parse_program, review_diff, three_way_diff, three_way_merge, two_way_diff, Invocation,
    DEFAULT_DIFFPROG, DEFAULT_MERGEPROG,
};

fn words(value: &str) -> Vec<String> {
    parse_program(value).unwrap()
}

fn rendered(invocation: &Invocation) -> Vec<String> {
    std::iter::once(invocation.program.clone())
        .chain(invocation.arguments.iter().cloned())
        .collect()
}

#[test]
fn splits_a_program_and_its_flags() {
    assert_eq!(words(DEFAULT_DIFFPROG), vec![String::from("diff"), String::from("-u")]);
    assert_eq!(words(DEFAULT_MERGEPROG), vec![String::from("diff3"), String::from("-m")]);
    assert_eq!(words("vim -d"), vec![String::from("vim"), String::from("-d")]);
}

#[test]
fn a_quoted_run_stays_one_word() {
    assert_eq!(
        words("meld '--diff mode'"),
        vec![String::from("meld"), String::from("--diff mode")]
    );
}

#[test]
fn refuses_an_unbalanced_quote() {
    assert!(parse_program("vim '-d").is_err());
    assert!(parse_program("   ").is_err());
}

#[test]
fn the_two_way_view_shows_the_pending_file_first() {
    let invocation =
        two_way_diff(&words("vim -d"), "/etc/f.pacnew", "/etc/f")
            .unwrap();
    assert_eq!(rendered(&invocation), ["vim", "-d", "/etc/f.pacnew", "/etc/f"]);
}

#[test]
fn the_three_way_view_puts_the_base_in_the_middle() {
    let invocation = three_way_diff(
        &words("vim -d"),
        "/etc/f.pacnew",
        "/tmp/base",
        "/etc/f",
    )
    .unwrap();
    assert_eq!(rendered(&invocation), ["vim", "-d", "/etc/f.pacnew", "/tmp/base", "/etc/f"]);
}

#[test]
fn the_merge_takes_mine_then_base_then_theirs() {
    let invocation = three_way_merge(
        &words(DEFAULT_MERGEPROG),
        "/etc/f",
        "/tmp/base",
        "/etc/f.pacnew",
    )
    .unwrap();
    assert_eq!(rendered(&invocation), ["diff3", "-m", "/etc/f", "/tmp/base", "/etc/f.pacnew"]);
}

#[test]
fn the_review_shows_the_installed_file_first() {
    let invocation =
        review_diff(&words("vim -d"), "/etc/f", "/tmp/merged").unwrap();
    assert_eq!(rendered(&invocation), ["vim", "-d", "/etc/f", "/tmp/merged"]);
}

#[test]
fn an_empty_word_list_builds_nothing() {
    assert!(two_way_diff(&Vec::new(), "a", "b").is_none());
}
