//! What lists of patterns match.

use piko_txn::pattern::{Answer, Answers};
use piko_txn::table::TextSet;

fn list(patterns: &[&str]) -> Vec<String> {
    patterns.iter().map(|pattern| (*pattern).to_owned()).collect()
}

fn answer(patterns: &[&str], matched: &[&str]) -> Answer {
    let mut texts = TextSet::new();
    for text in matched {
        texts.insert((*text).to_owned());
    }
    Answer { patterns: list(patterns), matched: texts }
}

#[test]
fn a_list_matches_what_its_answer_says() {
    let answers = Answers { lists: vec![answer(&["a*", "!ab"], &["a", "ac"])] };
    assert!(answers.matches_any(&list(&["a*", "!ab"]), "a"));
    assert!(answers.matches_any(&list(&["a*", "!ab"]), "ac"));
    assert!(!answers.matches_any(&list(&["a*", "!ab"]), "ab"));
}

#[test]
fn the_order_of_patterns_matters() {
    let answers = Answers { lists: vec![answer(&["a*", "!ab"], &["a"])] };
    assert!(!answers.matches_any(&list(&["!ab", "a*"]), "a"));
    assert!(!answers.matches_any(&list(&["a*"]), "a"));
    assert!(!answers.matches_any(&list(&["a*", "!ab", "b"]), "a"));
}

#[test]
fn a_list_without_an_answer_matches_nothing() {
    assert!(!Answers::default().matches_any(&list(&["*"]), "a"));
    assert!(!Answers::default().matches_any(&list(&[]), "a"));
}
