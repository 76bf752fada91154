//! Texts, paths, sets and versions.

use piko_txn::order::sort;
use piko_txn::package::EntryName;
use piko_txn::paths::{file_name, join, key, name_parts, parent, parts};
use piko_txn::table::{Table, TextSet};
use piko_txn::text::{
    decimal_signed, flattened, less, parse_signed, parse_unsigned, push_listing, split_each,
    split_lines, split_words, trimmed,
};

fn chars(text: &str) -> Vec<char> {
    text.chars().collect()
}

fn texts(pieces: Vec<&[char]>) -> Vec<String> {
    pieces.into_iter().map(|piece| piece.iter().collect()).collect()
}

#[test]
fn lines_and_words_are_those_of_std() {
    for text in ["", "a", "a\n", "a\r\nb\n\n c ", "\n", "\u{3000}x\u{a0}y ", "a\rb\r\n"] {
        let all = chars(text);
        assert_eq!(texts(split_lines(&all)), text.lines().collect::<Vec<_>>(), "{text:?}");
        assert_eq!(
            texts(split_words(&all)),
            text.split_whitespace().collect::<Vec<_>>(),
            "{text:?}"
        );
        assert_eq!(trimmed(&all).iter().collect::<String>(), text.trim(), "{text:?}");
        assert_eq!(
            texts(split_each(&all, 'a')),
            text.split('a').collect::<Vec<_>>(),
            "{text:?}"
        );
    }
}

#[test]
fn numbers_are_those_of_std() {
    for text in ["0", "7", "007", "+5", "-5", "-", "", "18446744073709551615", "1x", "18446744073709551616"] {
        let all = chars(text);
        assert_eq!(parse_unsigned(&all, u64::MAX), text.parse::<u64>().ok(), "{text:?}");
        assert_eq!(parse_signed(&all, i64::MAX), text.parse::<i64>().ok(), "{text:?}");
    }
    for number in [0, 7, -7, i64::MIN, i64::MAX] {
        assert_eq!(decimal_signed(number), number.to_string());
    }
}

#[test]
fn paths_are_those_of_std() {
    for text in ["usr/bin/foo", "/", "a/../b", "foo/..", "./x", "usr//bin/", "a/.", "", "/etc/"] {
        let all = chars(text);
        let path = std::path::Path::new(text);
        assert_eq!(
            file_name(&all).map(|name| name.iter().collect::<String>()),
            path.file_name().map(|name| name.to_str().unwrap().to_owned()),
            "{text:?}"
        );
        let above: String = parent(&all).iter().collect();
        let expected = path.parent().map_or(String::new(), |up| up.to_str().unwrap().to_owned());
        assert_eq!(std::path::Path::new(&above), std::path::Path::new(&expected), "{text:?}");
    }
    assert_eq!(texts(parts(&chars("a//./b/../c"))), ["a", "b", "..", "c"]);
    assert_eq!(texts(name_parts(&chars("a//./b/../c"))), ["a", "b", "c"]);
    assert_eq!(join("/a", "b"), "/a/b");
    assert_eq!(join("/a/", "b"), "/a/b");
    assert_eq!(join("", "b"), "b");
}

#[test]
fn keys_are_ordered_as_paths_are() {
    let all = ["a", "a/b", "a//b", "a-b", "a/", "/a", "./a", "a/./b", "..", "../a", "b", "."];
    for left in all {
        for right in all {
            let (x, y) = (std::path::Path::new(left), std::path::Path::new(right));
            assert_eq!(key(left) == key(right), x == y, "{left} {right}");
            assert_eq!(less(&key(left), &key(right)), x < y, "{left} {right}");
        }
    }
}

#[test]
fn a_sort_keeps_every_text() {
    let sorted = sort(vec!["b".to_owned(), "a".to_owned(), "b".to_owned(), String::new()]);
    assert_eq!(sorted, ["", "a", "b", "b"]);
}

#[test]
fn a_set_holds_each_text_once() {
    let mut set = TextSet::new();
    assert!(set.is_empty());
    for text in ["b", "a", "b"] {
        set.insert(text.to_owned());
    }
    assert_eq!(set.len(), 2);
    assert_eq!(set.iter(), &["a", "b"]);
    assert_eq!(set.get(1), "b");
    assert!(set.contains("a"));
    assert!(!set.contains("c"));
}

#[test]
fn a_table_keeps_the_last_value() {
    let mut table = Table::new();
    table.insert("b".to_owned(), 1);
    table.insert("a".to_owned(), 2);
    table.insert("b".to_owned(), 3);
    assert_eq!(table.get("b"), Some(&3));
    assert_eq!(table.get("c"), None);
    assert_eq!(table.keys(), &["a", "b"]);
}

#[test]
fn an_entry_is_a_name_and_a_full_version() {
    let entry = EntryName::parse("foo-bar-1:1.0-2").unwrap();
    assert_eq!(entry.name, "foo-bar");
    assert_eq!(entry.version, "1:1.0-2");
    assert_eq!(entry.directory(), "foo-bar-1:1.0-2");
    assert_eq!(EntryName::parse("foo-1.0"), None);
    assert_eq!(EntryName::parse("-1.0-1"), None);
    assert_eq!(EntryName::parse("foo-1.0-x"), None);
}

#[test]
fn a_list_is_spelled_with_its_separator() {
    let mut out = "(".to_owned();
    push_listing(&mut out, &vec!["a".to_owned(), "b".to_owned()], ", ");
    push_listing(&mut out, &Vec::new(), ", ");
    assert_eq!(out, "(a, b");
    assert_eq!(flattened("a\nb\rc"), "a b c");
}

#[test]
fn a_package_name_is_made_of_certain_characters() {
    let is_name = |name: &str| EntryName::parse(&format!("{name}-1.0-1")).is_some();
    for name in ["a", "Z", "0", "_a", "@", "+x", "a-b", "a.b", "a_@+-.", "libc++"] {
        assert!(is_name(name), "{name}");
    }
    for name in ["", ".a", "-a", "a b", "a/b", "a~", "\u{fc}", "a:b", "a\u{663}"] {
        assert!(!is_name(name), "{name}");
    }
}
