//! Timestamps.

use piko_txn::history::time_fmt::{now, parse, render};
use piko_txn::LocalOffset;

#[test]
fn renders_the_epoch_in_utc() {
    assert_eq!(render(0, LocalOffset::utc()), "1970-01-01T00:00:00+0000");
}

#[test]
fn renders_in_a_positive_offset() {
    assert_eq!(render(0, LocalOffset::from_seconds(7200)), "1970-01-01T02:00:00+0200");
}

#[test]
fn renders_in_a_negative_offset() {
    assert_eq!(render(0, LocalOffset::from_seconds(-18000)), "1969-12-31T19:00:00-0500");
}

#[test]
fn renders_a_half_hour_offset() {
    assert_eq!(render(0, LocalOffset::from_seconds(19800)), "1970-01-01T05:30:00+0530");
}

#[test]
fn round_trips_through_parse() {
    for offset in [0_i32, 7200, -18000, 19800] {
        let rendered = render(1_757_000_000, LocalOffset::from_seconds(offset));
        assert_eq!(parse(&rendered), Some(1_757_000_000), "{rendered}");
    }
}

#[test]
fn parses_a_real_pacman_log_timestamp() {
    assert!(parse("2026-09-03T16:19:47+0200").is_some());
    assert!(parse("2026-05-17T13:53:41+0000").is_some());
}

#[test]
fn parses_the_colon_and_zulu_spellings() {
    let plain = parse("2026-09-03T16:19:47+0200").unwrap();
    assert_eq!(parse("2026-09-03T16:19:47+02:00"), Some(plain));
    assert_eq!(parse("2026-09-03T14:19:47Z"), Some(plain));
}

#[test]
fn refuses_what_it_cannot_date() {
    assert_eq!(parse(""), None);
    assert_eq!(parse("1757000000"), None);
    assert_eq!(parse("2026-13-03T16:19:47+0200"), None);
    assert_eq!(parse("not a timestamp"), None);
}

#[test]
fn renders_an_impossible_timestamp_as_its_epoch() {
    assert_eq!(render(i64::MAX, LocalOffset::utc()), i64::MAX.to_string());
}

#[test]
fn a_source_date_stands_in_for_the_clock() {
    assert_eq!(now(Some("1700000000"), 5), 1_700_000_000);
    assert_eq!(now(Some("not a number"), 5), 5);
    assert_eq!(now(None, 5), 5);
}

#[test]
fn an_offset_that_no_clock_has_is_utc() {
    assert_eq!(LocalOffset::from_seconds(7200).seconds(), 7200);
    assert_eq!(LocalOffset::from_seconds(1_000_000_000), LocalOffset::utc());
    assert_eq!(LocalOffset::default().seconds(), 0);
}

#[test]
fn only_the_spelling_that_is_rendered_is_read() {
    assert!(parse("2026-09-03T16:19:47+0200").is_some());
    assert_eq!(parse("2026-09-03T16:19:47+02"), parse("2026-09-03T16:19:47+0200"));
    assert_eq!(parse("2026-09-03-99T16:19:47+0200"), None);
    assert_eq!(parse("2026-09-03T16:19:47:11+0200"), None);
    assert_eq!(parse("2026-09-03T16:19+0200"), None);
    assert_eq!(parse("2026-+9-03T16:19:47+0200"), None);
    assert_eq!(parse("+2026-09-03T16:19:47+0200"), None);
    assert_eq!(parse("2026-9-3T16:19:47Z"), None);
    assert_eq!(parse("2026-09-03T16:19:47+0:2:00"), None);
    assert_eq!(parse("2026-09-03T16:19:47+0290"), None);
    assert_eq!(parse("2026-09-03T16:19:47++200"), None);
}
