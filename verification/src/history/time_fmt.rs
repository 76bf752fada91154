//! Timestamps, in the one spelling `pacman.log` and the history store both use.
//!
//! `%FT%T%z` in the machine's own time zone: `2026-09-04T10:11:12+0200`. That is libalpm's
//! format, and keeping to it is what lets one file hold lines from pacman and from piko.
//!
//! The calendar is the `time` crate's. What the crate is trusted with is stated over
//! [`day_number`], the number of a day since the epoch.

use vstd::prelude::*;
use vstd::slice::slice_subrange;

use crate::text;

verus! {

broadcast use crate::text::group_lists;

/// The largest distance from UTC, in seconds: 25:59:59.
pub const MAX_OFFSET_SECONDS: i32 = 93_599;

/// The first second of the year -9999, in UTC.
pub const MIN_EPOCH: i64 = -377_705_116_800;

/// The last second of the year 9999, in UTC.
pub const MAX_EPOCH: i64 = 253_402_300_799;

/// The UTC offset timestamps are rendered in.
///
/// It is read once, while the process has one thread, and carried from there.
#[derive(Clone, Copy, Debug, Eq, PartialEq)]
pub struct LocalOffset {
    seconds: i32,
}

impl View for LocalOffset {
    type V = int;

    /// The offset east of UTC, in seconds.
    closed spec fn view(&self) -> int {
        self.seconds as int
    }
}

/// Whether an offset is one the calendar knows.
pub open spec fn offset_in_range(seconds: int) -> bool {
    -MAX_OFFSET_SECONDS <= seconds <= MAX_OFFSET_SECONDS
}

impl LocalOffset {
    /// The offset is one the calendar knows.
    #[verifier::type_invariant]
    pub open spec fn wf(self) -> bool {
        offset_in_range(self@)
    }

    /// UTC. The fallback when the local offset cannot be determined.
    pub fn utc() -> (r: Self)
        ensures
            r@ == 0,
    {
        LocalOffset { seconds: 0 }
    }

    /// The offset east of UTC, in seconds.
    pub fn seconds(self) -> (r: i32)
        ensures
            r == self@,
            offset_in_range(r as int),
    {
        proof {
            use_type_invariant(&self);
        }
        self.seconds
    }

    /// Builds an offset from a whole number of seconds east of UTC.
    ///
    /// Out-of-range values become UTC: a timestamp is better stamped UTC than not written at all.
    pub fn from_seconds(seconds: i32) -> (r: Self)
        ensures
            r@ == if offset_in_range(seconds as int) {
                seconds as int
            } else {
                0
            },
    {
        if known_offset(seconds) {
            LocalOffset { seconds }
        } else {
            LocalOffset::utc()
        }
    }
}

impl Default for LocalOffset {
    /// UTC.
    fn default() -> (r: Self)
        ensures
            r@ == 0,
    {
        LocalOffset::utc()
    }
}

// ---------------------------------------------------------------------------------------------
// The calendar

/// A date and a time of day.
#[derive(Clone, Copy, Debug, Eq, PartialEq, Structural)]
pub struct Civil {
    /// The year.
    pub year: i32,
    /// The month, 1 to 12.
    pub month: u8,
    /// The day of the month, from 1.
    pub day: u8,
    /// The hour.
    pub hour: u8,
    /// The minute.
    pub minute: u8,
    /// The second.
    pub second: u8,
}

/// Whether a year has a 29th of February.
pub open spec fn is_leap(year: int) -> bool {
    year % 4 == 0 && (year % 100 != 0 || year % 400 == 0)
}

/// How many leap years there are up to `year`, counted from the year 1.
pub open spec fn leaps(year: int) -> int {
    year / 4 - year / 100 + year / 400
}

/// How many days of a year come before a month.
pub open spec fn days_before_month(year: int, month: int) -> int {
    let common: int = if month == 1 {
        0
    } else if month == 2 {
        31
    } else if month == 3 {
        59
    } else if month == 4 {
        90
    } else if month == 5 {
        120
    } else if month == 6 {
        151
    } else if month == 7 {
        181
    } else if month == 8 {
        212
    } else if month == 9 {
        243
    } else if month == 10 {
        273
    } else if month == 11 {
        304
    } else if month == 12 {
        334
    } else {
        365
    };
    if month > 2 && is_leap(year) {
        common + 1
    } else {
        common
    }
}

/// The number of a day: 0 is the 1st of January 1970.
pub open spec fn day_number(year: int, month: int, day: int) -> int {
    365 * (year - 1970) + leaps(year - 1) - leaps(1969) + days_before_month(year, month) + day - 1
}

impl Civil {
    /// Whether the calendar has this date, and the day this time.
    pub open spec fn valid(self) -> bool {
        &&& -9999 <= self.year <= 9999
        &&& 1 <= self.month <= 12
        &&& 1 <= self.day <= days_before_month(self.year as int, self.month + 1)
            - days_before_month(self.year as int, self.month as int)
        &&& self.hour <= 23
        &&& self.minute <= 59
        &&& self.second <= 59
    }

    /// The seconds since the epoch, for a clock that shows UTC.
    pub open spec fn seconds(self) -> int {
        86400 * day_number(self.year as int, self.month as int, self.day as int) + 3600 * self.hour
            + 60 * self.minute + self.second
    }
}

/// Whether an instant, and the local time there, are inside the calendar.
pub open spec fn representable(epoch: int, offset: int) -> bool {
    &&& offset_in_range(offset)
    &&& MIN_EPOCH <= epoch <= MAX_EPOCH
    &&& MIN_EPOCH <= epoch + offset <= MAX_EPOCH
}

/// `time::UtcOffset::from_whole_seconds` accepts an offset of at most 25:59:59 either way.
#[verifier::external_body]
fn known_offset(seconds: i32) -> (r: bool)
    ensures
        r == offset_in_range(seconds as int),
{
    time::UtcOffset::from_whole_seconds(seconds).is_ok()
}

/// `time::OffsetDateTime::from_unix_timestamp` and `checked_to_offset` give the local date and
/// time of an instant.
///
/// They refuse an instant outside the years -9999 to 9999, in UTC or in local time. What they
/// give is a date of the calendar whose seconds, less the offset, are the instant.
#[verifier::external_body]
fn local_civil(epoch: i64, offset: i32) -> (r: Option<Civil>)
    ensures
        match r {
            Some(civil) => representable(epoch as int, offset as int) && civil.valid()
                && civil.seconds() == epoch + offset,
            None => !representable(epoch as int, offset as int),
        },
{
    let offset = time::UtcOffset::from_whole_seconds(offset).ok()?;
    let instant = time::OffsetDateTime::from_unix_timestamp(epoch).ok()?;
    let local = instant.checked_to_offset(offset)?;
    Some(Civil {
        year: local.year(),
        month: u8::from(local.month()),
        day: local.day(),
        hour: local.hour(),
        minute: local.minute(),
        second: local.second(),
    })
}

/// `time::Date::from_calendar_date`, `time::Time::from_hms` and
/// `time::OffsetDateTime::unix_timestamp` date a local time.
///
/// They refuse what is no date of the calendar, no time of the day, or no offset. What they give
/// is the seconds of the local time, less the offset.
#[verifier::external_body]
fn instant_of(civil: Civil, offset: i32) -> (r: Option<i64>)
    ensures
        match r {
            Some(epoch) => civil.valid() && offset_in_range(offset as int) && epoch
                == civil.seconds() - offset,
            None => !civil.valid() || !offset_in_range(offset as int),
        },
{
    let month = time::Month::try_from(civil.month).ok()?;
    let date = time::Date::from_calendar_date(civil.year, month, civil.day).ok()?;
    let clock = time::Time::from_hms(civil.hour, civil.minute, civil.second).ok()?;
    let offset = time::UtcOffset::from_whole_seconds(offset).ok()?;
    Some(date.with_time(clock).assume_offset(offset).unix_timestamp())
}

// ---------------------------------------------------------------------------------------------
// The spelling

/// A number in at least two digits.
pub open spec fn two(n: int) -> Seq<char> {
    text::zero_padded(text::dec(n as nat), 2)
}

/// A year in at least four characters.
pub open spec fn year_text(year: int) -> Seq<char> {
    if year < 0 {
        seq!['-'] + text::zero_padded(text::dec((-year) as nat), 3)
    } else {
        text::zero_padded(text::dec(year as nat), 4)
    }
}

/// `2026-09-04T10:11:12`.
pub open spec fn civil_text(c: Civil) -> Seq<char> {
    year_text(c.year as int).push('-') + two(c.month as int).push('-') + two(c.day as int).push('T')
        + two(c.hour as int).push(':') + two(c.minute as int).push(':') + two(c.second as int)
}

/// `+0200`: the sign, the hours and the minutes of an offset. Seconds are dropped.
pub open spec fn offset_text(offset: int) -> Seq<char> {
    let magnitude = if offset < 0 {
        -offset
    } else {
        offset
    };
    seq![if offset < 0 {
        '-'
    } else {
        '+'
    }] + two(magnitude / 3600) + two(magnitude % 3600 / 60)
}

/// The date and time a clock that shows UTC has at `seconds` since the epoch.
pub open spec fn civil_at(seconds: int) -> Civil {
    choose|c: Civil| c.valid() && #[trigger] c.seconds() == seconds
}

/// The spelling of the instant `epoch` in local time.
///
/// An instant the calendar does not hold is spelled as the plain number.
#[verifier::opaque]
pub open spec fn stamp(epoch: int, offset: int) -> Seq<char> {
    if representable(epoch, offset) {
        civil_text(civil_at(epoch + offset)) + offset_text(offset)
    } else {
        text::dec_int(epoch)
    }
}

/// Every 4 years a multiple of 4 is passed.
proof fn lemma_passes_4(y: int)
    ensures
        y / 4 - (y - 1) / 4 == if y % 4 == 0 {
            1
        } else {
            0int
        },
{
}

/// Every 100 years a multiple of 100 is passed.
proof fn lemma_passes_100(y: int)
    ensures
        y / 100 - (y - 1) / 100 == if y % 100 == 0 {
            1
        } else {
            0int
        },
{
}

/// Every 400 years a multiple of 400 is passed.
proof fn lemma_passes_400(y: int)
    ensures
        y / 400 - (y - 1) / 400 == if y % 400 == 0 {
            1
        } else {
            0int
        },
{
}

/// One more year adds a leap day where it is a leap year.
proof fn lemma_leaps_step(y: int)
    ensures
        leaps(y) - leaps(y - 1) == if is_leap(y) {
            1
        } else {
            0int
        },
{
    lemma_passes_4(y);
    lemma_passes_100(y);
    lemma_passes_400(y);
}

/// A year is as long as the calendar says.
proof fn lemma_year_length(y: int)
    ensures
        day_number(y + 1, 1, 1) - day_number(y, 1, 1) == if is_leap(y) {
            366
        } else {
            365int
        },
{
    lemma_leaps_step(y);
}

/// A later year starts later.
proof fn lemma_years_ascend(a: int, b: int)
    requires
        a <= b,
    ensures
        day_number(a, 1, 1) <= day_number(b, 1, 1),
    decreases b - a,
{
    if a < b {
        lemma_years_ascend(a, b - 1);
        lemma_year_length(b - 1);
    }
}

/// A day of an earlier year comes before every day of a later year.
proof fn lemma_year_orders_days(a: Civil, b: Civil)
    requires
        a.valid(),
        b.valid(),
        a.year < b.year,
    ensures
        day_number(a.year as int, a.month as int, a.day as int) < day_number(
            b.year as int,
            b.month as int,
            b.day as int,
        ),
{
    lemma_year_length(a.year as int);
    lemma_years_ascend(a.year + 1, b.year as int);
}

/// No two dates and times have the same seconds.
pub proof fn a_clock_shows_one_time(a: Civil, b: Civil)
    requires
        a.valid(),
        b.valid(),
        a.seconds() == b.seconds(),
    ensures
        a == b,
{
    let x = day_number(a.year as int, a.month as int, a.day as int);
    let y = day_number(b.year as int, b.month as int, b.day as int);
    assert(x == y && a.hour == b.hour && a.minute == b.minute && a.second == b.second);
    if a.year < b.year {
        lemma_year_orders_days(a, b);
    } else if b.year < a.year {
        lemma_year_orders_days(b, a);
    }
    assert(a.month == b.month);
}

/// Renders `epoch` in `offset` as `2026-09-04T10:11:12+0200`.
///
/// A timestamp the calendar cannot represent renders as the raw epoch seconds.
pub fn render(epoch: i64, offset: LocalOffset) -> (r: String)
    ensures
        r@ == stamp(epoch as int, offset@),
{
    proof {
        reveal(stamp);
    }
    let total = offset.seconds();
    let civil = match local_civil(epoch, total) {
        Some(civil) => civil,
        None => {
            return text::decimal_signed(epoch);
        },
    };
    let mut out = String::new();
    if civil.year < 0 {
        out.push('-');
        text::push_padded(&mut out, (-civil.year) as u64, 3);
        assert(out@ =~= year_text(civil.year as int));
    } else {
        text::push_padded(&mut out, civil.year as u64, 4);
        assert(out@ =~= year_text(civil.year as int));
    }
    out.push('-');
    text::push_padded(&mut out, civil.month as u64, 2);
    out.push('-');
    text::push_padded(&mut out, civil.day as u64, 2);
    out.push('T');
    text::push_padded(&mut out, civil.hour as u64, 2);
    out.push(':');
    text::push_padded(&mut out, civil.minute as u64, 2);
    out.push(':');
    text::push_padded(&mut out, civil.second as u64, 2);
    assert(out@ =~= civil_text(civil));
    let magnitude: u64 = if total < 0 {
        out.push('-');
        (-total) as u64
    } else {
        out.push('+');
        total as u64
    };
    text::push_padded(&mut out, magnitude / 3600, 2);
    text::push_padded(&mut out, magnitude % 3600 / 60, 2);
    assert(out@ =~= civil_text(civil) + offset_text(offset@));
    proof {
        a_clock_shows_one_time(civil, civil_at(epoch + offset@));
    }
    out
}

/// The number that `width` digits spell, and nothing else.
pub open spec fn field(s: Seq<char>, width: nat) -> Option<int> {
    if s.len() == width && text::all_digits(s) {
        Some(text::digits_value(s))
    } else {
        None
    }
}

/// The seconds that the hours and minutes of an offset are.
pub open spec fn offset_value(sign: char, hours: Option<int>, minutes: Option<int>) -> Option<int> {
    match (hours, minutes) {
        (Some(h), Some(m)) => if m >= 60 {
            None
        } else if sign == '-' {
            Some(-(3600 * h + 60 * m))
        } else {
            Some(3600 * h + 60 * m)
        },
        _ => None,
    }
}

/// What `+0200`, `-05:00` or `+02` says, in seconds.
pub open spec fn offset_of(s: Seq<char>) -> Option<int> {
    if s.len() == 0 || (s[0] != '+' && s[0] != '-') {
        None
    } else if s.len() == 3 {
        offset_value(s[0], field(s.skip(1), 2), Some(0))
    } else if s.len() == 5 {
        offset_value(s[0], field(s.subrange(1, 3), 2), field(s.skip(3), 2))
    } else if s.len() == 6 && s[3] == ':' {
        offset_value(s[0], field(s.subrange(1, 3), 2), field(s.skip(4), 2))
    } else {
        None
    }
}

/// The clock and the offset of what follows the date: `Z`, or a sign and an offset.
pub open spec fn clock_and_offset(rest: Seq<char>) -> Option<(Seq<char>, int)> {
    if rest.len() > 0 && rest.last() == 'Z' {
        Some((rest.drop_last(), 0))
    } else {
        match text::last_of(rest, '+', '-') {
            Some(at) => match offset_of(rest.skip(at)) {
                Some(offset) => Some((rest.take(at), offset)),
                None => None,
            },
            None => None,
        }
    }
}

/// The fields of a date and a clock, spelled `2026-09-04` and `10:11:12`.
pub open spec fn fields(date: Seq<char>, clock: Seq<char>) -> Option<Civil> {
    let d = text::split(date, '-');
    let c = text::split(clock, ':');
    if d.len() != 3 || c.len() != 3 {
        None
    } else {
        match (
            field(d[0], 4),
            field(d[1], 2),
            field(d[2], 2),
            field(c[0], 2),
            field(c[1], 2),
            field(c[2], 2),
        ) {
            (Some(y), Some(mo), Some(da), Some(h), Some(mi), Some(s)) => Some(
                Civil {
                    year: y as i32,
                    month: mo as u8,
                    day: da as u8,
                    hour: h as u8,
                    minute: mi as u8,
                    second: s as u8,
                },
            ),
            _ => None,
        }
    }
}

/// What [`parse`] reads.
#[verifier::opaque]
pub open spec fn instant(s: Seq<char>) -> Option<int> {
    match text::split_once(text::trim(s), 'T') {
        Some((date, rest)) => match clock_and_offset(rest) {
            Some((clock, offset)) => match fields(date, clock) {
                Some(civil) => if civil.valid() && offset_in_range(offset) {
                    Some(civil.seconds() - offset)
                } else {
                    None
                },
                None => None,
            },
            None => None,
        },
        None => None,
    }
}

/// Two digits spell a number below a hundred, and four one below ten thousand.
proof fn lemma_field(s: Seq<char>)
    requires
        text::all_digits(s),
    ensures
        s.len() == 2 ==> 0 <= text::digits_value(s) < 100,
        s.len() == 4 ==> 0 <= text::digits_value(s) < 10000,
{
    reveal_with_fuel(text::digits_value, 5);
    if s.len() == 2 {
        assert(text::is_digit(s[0]) && text::is_digit(s[1]));
        assert(s.drop_last().last() == s[0]);
    } else if s.len() == 4 {
        assert(text::is_digit(s[0]) && text::is_digit(s[1]));
        assert(text::is_digit(s[2]) && text::is_digit(s[3]));
        let three = s.drop_last();
        assert(three.last() == s[2]);
        assert(three.drop_last().last() == s[1]);
        assert(three.drop_last().drop_last().last() == s[0]);
    }
}

/// Reads a field of two digits.
fn parse_two(s: &[char]) -> (r: Option<u8>)
    ensures
        match r {
            Some(n) => field(s@, 2) == Some(n as int) && n < 100,
            None => field(s@, 2) is None,
        },
{
    if s.len() != 2 {
        return None;
    }
    proof {
        if text::all_digits(s@) {
            lemma_field(s@);
        }
    }
    match text::digits_up_to(s, 99) {
        Some(n) => Some(n as u8),
        None => None,
    }
}

/// Reads a field of four digits.
fn parse_four(s: &[char]) -> (r: Option<i32>)
    ensures
        match r {
            Some(n) => field(s@, 4) == Some(n as int),
            None => field(s@, 4) is None,
        },
{
    if s.len() != 4 {
        return None;
    }
    proof {
        if text::all_digits(s@) {
            lemma_field(s@);
        }
    }
    match text::digits_up_to(s, 9999) {
        Some(n) => Some(n as i32),
        None => None,
    }
}

/// Reads `+0200`, `-05:00` or `+02`.
fn parse_offset(s: &[char]) -> (r: Option<i32>)
    ensures
        match r {
            Some(n) => offset_of(s@) == Some(n as int),
            None => offset_of(s@) is None,
        },
{
    if s.len() == 0 || (s[0] != '+' && s[0] != '-') {
        return None;
    }
    let n = s.len();
    if n != 3 && n != 5 && !(n == 6 && s[3] == ':') {
        return None;
    }
    let a = slice_subrange(s, 1, 3);
    let hours = parse_two(a);
    let minutes = if n == 3 {
        assert(a@ =~= s@.skip(1));
        Some(0u8)
    } else {
        let b = slice_subrange(s, n - 2, n);
        assert(b@ =~= s@.skip(n - 2));
        parse_two(b)
    };
    match (hours, minutes) {
        (Some(h), Some(m)) => {
            if m >= 60 {
                return None;
            }
            let magnitude: i32 = h as i32 * 3600 + m as i32 * 60;
            if s[0] == '-' {
                Some(-magnitude)
            } else {
                Some(magnitude)
            }
        },
        _ => None,
    }
}

/// Reads the fields of a date and a clock.
fn parse_fields(date: &[char], clock: &[char]) -> (r: Option<Civil>)
    ensures
        r == fields(date@, clock@),
{
    let d = text::split_each(date, '-');
    let c = text::split_each(clock, ':');
    let ghost dates = text::pieces(d@);
    let ghost clocks = text::pieces(c@);
    if d.len() != 3 || c.len() != 3 {
        return None;
    }
    assert(dates[0] == d@[0]@ && dates[1] == d@[1]@ && dates[2] == d@[2]@);
    assert(clocks[0] == c@[0]@ && clocks[1] == c@[1]@ && clocks[2] == c@[2]@);
    match (
        parse_four(d[0]),
        parse_two(d[1]),
        parse_two(d[2]),
        parse_two(c[0]),
        parse_two(c[1]),
        parse_two(c[2]),
    ) {
        (Some(year), Some(month), Some(day), Some(hour), Some(minute), Some(second)) => Some(
            Civil { year, month, day, hour, minute, second },
        ),
        _ => None,
    }
}

/// Parses what [`render`] wrote, back to epoch seconds.
///
/// Accepts the offset spelled `+0200` or `+02:00`, in whole hours as `+02`, and a trailing `Z`.
/// Returns `None` for anything else, including a bare epoch [`render`] fell back to.
pub fn parse(s: &str) -> (r: Option<i64>)
    ensures
        match r {
            Some(epoch) => instant(s@) == Some(epoch as int),
            None => instant(s@) is None,
        },
{
    let all = text::chars(s);
    parse_chars(all.as_slice())
}

/// As [`parse`], of characters.
pub fn parse_chars(s: &[char]) -> (r: Option<i64>)
    ensures
        match r {
            Some(epoch) => instant(s@) == Some(epoch as int),
            None => instant(s@) is None,
        },
{
    proof {
        reveal(instant);
    }
    let trimmed = text::trimmed(s);
    let (date, rest) = match text::cut_once(trimmed, 'T') {
        Some(parts) => parts,
        None => {
            return None;
        },
    };
    let (clock, offset) = if rest.len() > 0 && rest[rest.len() - 1] == 'Z' {
        let clock = slice_subrange(rest, 0, rest.len() - 1);
        assert(clock@ =~= rest@.drop_last());
        (clock, 0i32)
    } else {
        let at = match text::rfind_either(rest, '+', '-') {
            Some(at) => at,
            None => {
                return None;
            },
        };
        let clock = slice_subrange(rest, 0, at);
        let tail = slice_subrange(rest, at, rest.len());
        assert(clock@ =~= rest@.take(at as int));
        assert(tail@ =~= rest@.skip(at as int));
        match parse_offset(tail) {
            Some(offset) => (clock, offset),
            None => {
                return None;
            },
        }
    };
    match parse_fields(date, clock) {
        Some(civil) => instant_of(civil, offset),
        None => None,
    }
}

/// Seconds since the epoch, honouring `SOURCE_DATE_EPOCH`.
///
/// `source_date_epoch` is the variable's value, where it is set, and `clock` what the system's
/// clock says. A value that is no number is passed over.
pub fn now(source_date_epoch: Option<&str>, clock: i64) -> (r: i64)
    ensures
        r == match source_date_epoch {
            Some(value) => match text::signed(text::trim(value@)) {
                Some(n) => if i64::MIN <= n <= i64::MAX {
                    n
                } else {
                    clock as int
                },
                None => clock as int,
            },
            None => clock as int,
        },
{
    match source_date_epoch {
        Some(value) => {
            let all = text::chars(value);
            match text::parse_signed(text::trimmed(all.as_slice()), i64::MAX) {
                Some(n) => n,
                None => clock,
            }
        },
        None => clock,
    }
}

// ---------------------------------------------------------------------------------------------
// What is written reads back

/// The first second of the year 0, in UTC.
pub const YEAR_ZERO: i64 = -62_167_219_200;

/// Two digits for a number below a hundred, and they read back.
proof fn lemma_two(n: int)
    requires
        0 <= n < 100,
    ensures
        two(n).len() == 2,
        text::all_digits(two(n)),
        field(two(n), 2) == Some(n),
{
    reveal_with_fuel(text::dec, 3);
    text::lemma_zero_padded(n as nat, 2);
}

/// A date of year 0 or later is not before the first second of year 0, and an earlier one is.
proof fn lemma_year_zero(c: Civil)
    requires
        c.valid(),
        c.seconds() >= YEAR_ZERO,
    ensures
        c.year >= 0,
{
    if c.year < 0 {
        let y = c.year as int;
        assert(days_before_month(y, c.month as int) + c.day <= 366);
        if y == -1 {
            assert(!is_leap(-1));
            assert(days_before_month(y, c.month as int) + c.day <= 365);
        }
        assert(day_number(y, c.month as int, c.day as int) < day_number(0, 1, 1));
    }
}

/// A sign and two pairs of digits are read pair by pair.
proof fn lemma_pairs_of_digits(sign: char, a: Seq<char>, b: Seq<char>)
    requires
        a.len() == 2,
        b.len() == 2,
        text::all_digits(a),
        text::all_digits(b),
        sign == '+' || sign == '-',
    ensures
        offset_of(seq![sign] + a + b) == offset_value(sign, field(a, 2), field(b, 2)),
        forall|i: int| 1 <= i < 5 ==> text::is_digit(#[trigger] (seq![sign] + a + b)[i]),
{
    let s = seq![sign] + a + b;
    assert(text::is_digit(a[0]) && text::is_digit(a[1]));
    assert(text::is_digit(b[0]) && text::is_digit(b[1]));
    assert(s[1] == a[0] && s[2] == a[1] && s[3] == b[0] && s[4] == b[1]);
    assert(s.subrange(1, 3) =~= a);
    assert(s.skip(3) =~= b);
}

/// The offset of a whole number of minutes reads back.
proof fn lemma_offset_reads_back(offset: int)
    requires
        offset_in_range(offset),
        offset % 60 == 0,
    ensures
        offset_of(offset_text(offset)) == Some(offset),
        offset_text(offset).len() == 5,
        offset_text(offset)[0] == '+' || offset_text(offset)[0] == '-',
        forall|i: int| 1 <= i < 5 ==> text::is_digit(#[trigger] offset_text(offset)[i]),
{
    let magnitude = if offset < 0 {
        -offset
    } else {
        offset
    };
    let h = magnitude / 3600;
    let m = magnitude % 3600 / 60;
    let sign = if offset < 0 {
        '-'
    } else {
        '+'
    };
    assert(3600 * h + 60 * m == magnitude);
    lemma_two(h);
    lemma_two(m);
    lemma_pairs_of_digits(sign, two(h), two(m));
}

/// The fields of a date from the year 0 on read back.
proof fn lemma_fields_read_back(c: Civil)
    requires
        c.valid(),
        c.year >= 0,
    ensures
        ({
            let date = year_text(c.year as int).push('-') + two(c.month as int).push('-') + two(
                c.day as int,
            );
            let clock = two(c.hour as int).push(':') + two(c.minute as int).push(':') + two(
                c.second as int,
            );
            &&& fields(date, clock) == Some(c)
            &&& !date.contains('T')
            &&& date.len() > 0
            &&& text::is_digit(date[0])
        }),
{
    let y = year_text(c.year as int);
    let mo = two(c.month as int);
    let da = two(c.day as int);
    let h = two(c.hour as int);
    let mi = two(c.minute as int);
    let s = two(c.second as int);
    text::lemma_zero_padded(c.year as nat, 4);
    reveal_with_fuel(text::dec, 5);
    assert(text::dec(c.year as nat).len() <= 4);
    assert(field(y, 4) == Some(c.year as int));
    lemma_two(c.month as int);
    lemma_two(c.day as int);
    lemma_two(c.hour as int);
    lemma_two(c.minute as int);
    lemma_two(c.second as int);
    text::lemma_digits_lack(y, '-');
    text::lemma_digits_lack(mo, '-');
    text::lemma_digits_lack(da, '-');
    text::lemma_digits_lack(y, 'T');
    text::lemma_digits_lack(mo, 'T');
    text::lemma_digits_lack(da, 'T');
    text::lemma_digits_lack(h, ':');
    text::lemma_digits_lack(mi, ':');
    text::lemma_digits_lack(s, ':');
    let date = y.push('-') + mo.push('-') + da;
    let clock = h.push(':') + mi.push(':') + s;
    assert(date =~= y.push('-') + (mo.push('-') + da));
    assert(clock =~= h.push(':') + (mi.push(':') + s));
    text::lemma_split_head(y, '-', mo.push('-') + da);
    text::lemma_split_head(mo, '-', da);
    text::lemma_split_whole(da, '-');
    text::lemma_split_head(h, ':', mi.push(':') + s);
    text::lemma_split_head(mi, ':', s);
    text::lemma_split_whole(s, ':');
    assert(text::split(date, '-') =~= seq![y, mo, da]);
    assert(text::split(clock, ':') =~= seq![h, mi, s]);
    if date.contains('T') {
        let i = choose|i: int| 0 <= i < date.len() && date[i] == 'T';
        if i < y.len() {
            assert(date[i] == y[i]);
        } else if i == y.len() {
            assert(date[i] == '-');
        } else if i < y.len() + 3 {
            assert(date[i] == mo.push('-')[i - y.len() - 1]);
            if i < y.len() + 1 + mo.len() {
                assert(date[i] == mo[i - y.len() - 1]);
            }
        } else {
            assert(date[i] == da[i - y.len() - 4]);
        }
    }
    assert(date[0] == y[0]);
    assert(text::is_digit(y[0]));
}

/// The year that a day falls into, looked for from `y` on.
proof fn lemma_year_of(n: int, y: int) -> (r: int)
    requires
        day_number(y, 1, 1) <= n < day_number(10000, 1, 1),
        y < 10000,
    ensures
        y <= r < 10000,
        day_number(r, 1, 1) <= n < day_number(r + 1, 1, 1),
    decreases 10000 - y,
{
    if n < day_number(y + 1, 1, 1) {
        y
    } else {
        lemma_year_of(n, y + 1)
    }
}

/// The month that the day `d` of a year falls into.
proof fn lemma_month_of(y: int, d: int) -> (m: int)
    requires
        0 <= d < days_before_month(y, 13),
    ensures
        1 <= m <= 12,
        days_before_month(y, m) <= d < days_before_month(y, m + 1),
{
    if d < days_before_month(y, 2) {
        1
    } else if d < days_before_month(y, 3) {
        2
    } else if d < days_before_month(y, 4) {
        3
    } else if d < days_before_month(y, 5) {
        4
    } else if d < days_before_month(y, 6) {
        5
    } else if d < days_before_month(y, 7) {
        6
    } else if d < days_before_month(y, 8) {
        7
    } else if d < days_before_month(y, 9) {
        8
    } else if d < days_before_month(y, 10) {
        9
    } else if d < days_before_month(y, 11) {
        10
    } else if d < days_before_month(y, 12) {
        11
    } else {
        12
    }
}

/// Every second inside the calendar has a date and a time.
proof fn lemma_civil_exists(seconds: int)
    requires
        MIN_EPOCH <= seconds <= MAX_EPOCH,
    ensures
        civil_at(seconds).valid(),
        civil_at(seconds).seconds() == seconds,
{
    let n = seconds / 86400;
    let t = seconds % 86400;
    assert(86400 * day_number(-9999, 1, 1) == MIN_EPOCH);
    assert(86400 * day_number(10000, 1, 1) == MAX_EPOCH + 1);
    let y = lemma_year_of(n, -9999);
    lemma_year_length(y);
    let d = n - day_number(y, 1, 1);
    let m = lemma_month_of(y, d);
    let day = d - days_before_month(y, m) + 1;
    let c = Civil {
        year: y as i32,
        month: m as u8,
        day: day as u8,
        hour: (t / 3600) as u8,
        minute: (t % 3600 / 60) as u8,
        second: (t % 60) as u8,
    };
    assert(day <= 31);
    assert(c.valid());
    assert(c.seconds() == seconds);
}

/// A rendered timestamp reads back as the instant it was rendered from.
///
/// It holds of every instant inside the calendar whose local year is not negative, seen from an
/// offset of whole minutes.
pub proof fn a_rendered_timestamp_reads_back(epoch: int, offset: int)
    requires
        representable(epoch, offset),
        epoch + offset >= YEAR_ZERO,
        offset % 60 == 0,
    ensures
        instant(stamp(epoch, offset)) == Some(epoch),
{
    reveal(stamp);
    reveal(instant);
    lemma_civil_exists(epoch + offset);
    let s = stamp(epoch, offset);
    let c = civil_at(epoch + offset);
    lemma_year_zero(c);
    lemma_fields_read_back(c);
    lemma_offset_reads_back(offset);
    let date = year_text(c.year as int).push('-') + two(c.month as int).push('-') + two(
        c.day as int,
    );
    let clock = two(c.hour as int).push(':') + two(c.minute as int).push(':') + two(
        c.second as int,
    );
    let tail = offset_text(offset);
    let rest = clock + tail;
    assert(s =~= date.push('T') + rest);
    assert(s[0] == date[0]);
    assert(s.last() == tail[4]);
    text::lemma_trim_bare(s);
    text::lemma_split_head(date, 'T', rest);
    assert(rest.last() == tail[4]);
    assert forall|i: int| 1 <= i < tail.len() implies #[trigger] tail[i] != '+' && tail[i]
        != '-' by {
        assert(text::is_digit(tail[i]));
    }
    text::lemma_last_of(clock, tail, '+', '-');
    assert(rest.take(clock.len() as int) =~= clock);
    assert(rest.skip(clock.len() as int) =~= tail);
}

/// The characters a timestamp is made of.
pub open spec fn is_stamp_char(c: char) -> bool {
    text::is_digit(c) || c == '-' || c == '+' || c == ':' || c == 'T'
}

/// Whether `s` is made of the characters of a timestamp.
pub open spec fn stamp_chars(s: Seq<char>) -> bool {
    forall|i: int| 0 <= i < s.len() ==> is_stamp_char(#[trigger] s[i])
}

proof fn lemma_stamp_chars_add(a: Seq<char>, b: Seq<char>)
    requires
        stamp_chars(a),
        stamp_chars(b),
    ensures
        stamp_chars(a + b),
{
    assert forall|i: int| 0 <= i < (a + b).len() implies is_stamp_char(#[trigger] (a + b)[i]) by {
        if i < a.len() {
            assert((a + b)[i] == a[i]);
        } else {
            assert((a + b)[i] == b[i - a.len()]);
        }
    }
}

/// A padded number, and the mark after it.
proof fn lemma_stamp_field(n: int, width: nat, mark: char)
    requires
        n >= 0,
        is_stamp_char(mark),
    ensures
        stamp_chars(text::zero_padded(text::dec(n as nat), width).push(mark)),
        stamp_chars(text::zero_padded(text::dec(n as nat), width)),
{
    text::lemma_zero_padded(n as nat, width);
}

/// A timestamp is one word of digits, signs, colons and a `T`.
pub proof fn a_timestamp_is_one_word(epoch: int, offset: int)
    ensures
        stamp_chars(stamp(epoch, offset)),
        text::is_word(stamp(epoch, offset)),
{
    reveal(stamp);
    let s = stamp(epoch, offset);
    if representable(epoch, offset) {
        lemma_civil_exists(epoch + offset);
        let c = civil_at(epoch + offset);
        let y = year_text(c.year as int).push('-');
        assert(stamp_chars(y)) by {
            if c.year < 0 {
                lemma_stamp_field(-(c.year as int), 3, '-');
                lemma_stamp_chars_add(
                    seq!['-'],
                    text::zero_padded(text::dec((-(c.year as int)) as nat), 3),
                );
            } else {
                lemma_stamp_field(c.year as int, 4, '-');
            }
        }
        let mo = two(c.month as int).push('-');
        let da = two(c.day as int).push('T');
        let h = two(c.hour as int).push(':');
        let mi = two(c.minute as int).push(':');
        let se = two(c.second as int);
        lemma_stamp_field(c.month as int, 2, '-');
        lemma_stamp_field(c.day as int, 2, 'T');
        lemma_stamp_field(c.hour as int, 2, ':');
        lemma_stamp_field(c.minute as int, 2, ':');
        lemma_stamp_field(c.second as int, 2, ':');
        lemma_stamp_chars_add(y, mo);
        lemma_stamp_chars_add(y + mo, da);
        lemma_stamp_chars_add(y + mo + da, h);
        lemma_stamp_chars_add(y + mo + da + h, mi);
        lemma_stamp_chars_add(y + mo + da + h + mi, se);
        let magnitude = if offset < 0 {
            -offset
        } else {
            offset
        };
        let sign = seq![if offset < 0 {
            '-'
        } else {
            '+'
        }];
        lemma_stamp_field(magnitude / 3600, 2, '-');
        lemma_stamp_field(magnitude % 3600 / 60, 2, '-');
        lemma_stamp_chars_add(sign, two(magnitude / 3600));
        lemma_stamp_chars_add(sign + two(magnitude / 3600), two(magnitude % 3600 / 60));
        lemma_stamp_chars_add(civil_text(c), offset_text(offset));
        assert(y.len() > 0);
    } else {
        text::lemma_dec_int_chars(epoch);
    }
    assert forall|i: int| 0 <= i < s.len() implies !text::is_space(#[trigger] s[i]) by {
        assert(is_stamp_char(s[i]));
    }
}

/// Whether an instant is rendered so that it reads back: it and its local time are inside the
/// calendar, from the year 0 on, and the offset is in whole minutes.
pub open spec fn readable(epoch: int, offset: int) -> bool {
    representable(epoch, offset) && epoch + offset >= YEAR_ZERO && offset % 60 == 0
}

} // verus!
