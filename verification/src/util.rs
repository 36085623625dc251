//! Dates and timestamps.
//!
//! Calendar arithmetic is done by `chrono`; the contracts here say which text
//! belongs to which timestamp in the proleptic Gregorian calendar.
use crate::text::digits;
use vstd::prelude::*;

verus! {

/// Seconds in a day.
pub const DAY_SECS: i64 = 86_400;

/// Day number of the first day the calendar reaches, 1 January of year -262143.
pub const MIN_DAY: i64 = -96_465_292;

/// Day number of the last day the calendar reaches, 31 December of year 262142.
pub const MAX_DAY: i64 = 95_026_236;

/// Whether `y` is a leap year.
pub open spec fn is_leap(y: int) -> bool {
    y % 4 == 0 && (y % 100 != 0 || y % 400 == 0)
}

/// The number of days of month `m` of year `y`.
pub open spec fn days_in_month(y: int, m: int) -> int {
    if m == 2 {
        if is_leap(y) {
            29
        } else {
            28
        }
    } else if m == 4 || m == 6 || m == 9 || m == 11 {
        30
    } else {
        31
    }
}

/// Whether `y`-`m`-`d` names a day.
pub open spec fn is_date(y: int, m: int, d: int) -> bool {
    1 <= m <= 12 && 1 <= d <= days_in_month(y, m)
}

/// The number of days from 1 January of year 0 to 1 January of year `y`.
pub open spec fn days_before_year(y: int) -> int {
    365 * y + (y + 3) / 4 - (y + 99) / 100 + (y + 399) / 400
}

/// The number of days from 1 January to the first of month `m` of year `y`.
pub open spec fn days_before_month(y: int, m: int) -> int
    decreases m,
{
    if m <= 1 {
        0
    } else {
        days_before_month(y, m - 1) + days_in_month(y, m - 1)
    }
}

/// The number of days from 1 January 1970 to the day `y`-`m`-`d`.
pub open spec fn day_number(y: int, m: int, d: int) -> int {
    days_before_year(y) + days_before_month(y, m) + d - 1 - 719_528
}

/// The decimal digits of `n` with leading zeros up to `width` digits.
pub open spec fn padded(n: nat, width: nat) -> Seq<char> {
    let s = digits(n);
    if s.len() >= width {
        s
    } else {
        Seq::new((width - s.len()) as nat, |i: int| '0') + s
    }
}

/// A year: four digits, with a sign in front outside 0 to 9999.
pub open spec fn year_text(y: int) -> Seq<char> {
    if y < 0 {
        seq!['-'] + padded((-y) as nat, 4)
    } else if y > 9999 {
        seq!['+'] + padded(y as nat, 4)
    } else {
        padded(y as nat, 4)
    }
}

/// A day as `YYYY-MM-DD`.
pub open spec fn date_text(y: int, m: int, d: int) -> Seq<char> {
    year_text(y) + seq!['-'] + padded(m as nat, 2) + seq!['-'] + padded(d as nat, 2)
}

/// The second `s` of a day as `hh:mm:ss`.
pub open spec fn clock_text(s: int) -> Seq<char> {
    padded((s / 3600) as nat, 2) + seq![':'] + padded((s / 60 % 60) as nat, 2) + seq![':'] + padded((s % 60) as nat, 2)
}

/// Whether the calendar reaches the timestamp `ts`.
pub open spec fn in_calendar(ts: int) -> bool {
    MIN_DAY * DAY_SECS <= ts < (MAX_DAY + 1) * DAY_SECS
}

/// Whether the timestamp `ts` falls in one of the years 0 to 9999.
pub open spec fn in_four_digit_years(ts: int) -> bool {
    -719_528 * DAY_SECS <= ts < 2_932_897 * DAY_SECS
}

/// `text` is the day of the timestamp `ts`, in UTC, as `YYYY-MM-DD`.
pub open spec fn is_date_of(ts: int, text: Seq<char>) -> bool {
    exists|y: int, m: int, d: int| #[trigger]
        is_date(y, m, d) && day_number(y, m, d) == ts / (DAY_SECS as int) && text == date_text(y, m, d)
}

/// `text` is the timestamp `ts`, in UTC, as `YYYY-MM-DDThh:mm:ss+00:00`.
pub open spec fn is_rfc3339_of(ts: int, text: Seq<char>) -> bool {
    exists|y: int, m: int, d: int| #[trigger]
        is_date(y, m, d) && day_number(y, m, d) == ts / (DAY_SECS as int) && text == date_text(y, m, d) + seq!['T']
            + clock_text(ts % (DAY_SECS as int)) + seq!['+', '0', '0', ':', '0', '0']
}

/// Calls `chrono::DateTime::from_timestamp` and formats its result with
/// `%Y-%m-%d`. There is a result exactly when the calendar reaches the
/// timestamp, and it is the day of that timestamp in UTC.
#[verifier::external_body]
fn chrono_date(ts: i64) -> (r: Option<String>)
    ensures
        r is Some <==> in_calendar(ts as int),
        r matches Some(text) ==> is_date_of(ts as int, text@),
{
    match chrono::DateTime::from_timestamp(ts, 0) {
        Some(time) => Some(time.format("%Y-%m-%d").to_string()),
        None => None,
    }
}

/// Calls `chrono::TimeZone::timestamp_opt` for UTC and renders its result with
/// `to_rfc3339`. There is a result exactly when the calendar reaches the
/// timestamp, and it is that timestamp in UTC.
#[verifier::external_body]
pub(crate) fn chrono_rfc3339(ts: i64) -> (r: Option<String>)
    ensures
        r is Some <==> in_calendar(ts as int),
        r matches Some(text) ==> is_rfc3339_of(ts as int, text@),
{
    match chrono::TimeZone::timestamp_opt(&chrono::Utc, ts, 0).single() {
        Some(time) => Some(time.to_rfc3339()),
        None => None,
    }
}

/// The timestamp of midnight, in UTC, of the day that
/// `chrono::NaiveDate::parse_from_str` reads from a text with `%Y-%m-%d`.
pub uninterp spec fn parsed_date(text: Seq<char>) -> Option<i64>;

/// Calls `chrono::NaiveDate::parse_from_str` with `%Y-%m-%d` and takes midnight
/// UTC of the day it reads. A day of the years 0 to 9999 written as
/// `YYYY-MM-DD` is read as that day; which other texts are read is left to that
/// function.
#[verifier::external_body]
pub(crate) fn chrono_parse_date(date: &str) -> (r: Option<i64>)
    ensures
        r == parsed_date(date@),
        reads_dates(date@, r),
        r matches Some(ts) ==> ts % DAY_SECS == 0 && in_calendar(ts as int),
{
    match chrono::NaiveDate::parse_from_str(date, "%Y-%m-%d") {
        Ok(day) => Some(day.and_time(chrono::NaiveTime::MIN).and_utc().timestamp()),
        Err(_) => None,
    }
}

/// If `text` is a day of the years 0 to 9999 as `YYYY-MM-DD`, then `r` is
/// midnight of that day.
pub open spec fn reads_dates(text: Seq<char>, r: Option<i64>) -> bool {
    forall|y: int, m: int, d: int|
        0 <= y <= 9999 && #[trigger] is_date(y, m, d) && text == date_text(y, m, d) ==> r is Some && r->0
            == day_number(y, m, d) * DAY_SECS
}

/// The timestamp that `chrono::DateTime::parse_from_rfc3339` reads from a text,
/// in whole seconds.
pub uninterp spec fn parsed_rfc3339(text: Seq<char>) -> Option<i64>;

/// If `text` is a timestamp of the years 0 to 9999 in UTC, then `r` is that
/// timestamp.
pub open spec fn reads_timestamps(text: Seq<char>, r: Option<i64>) -> bool {
    forall|ts: int| in_four_digit_years(ts) && #[trigger] is_rfc3339_of(ts, text) ==> r is Some && r->0 == ts
}

/// Calls `chrono::DateTime::parse_from_rfc3339` and takes the timestamp of its
/// result. A timestamp of the years 0 to 9999 written in UTC is read as itself;
/// which other texts are read is left to that function.
#[verifier::external_body]
pub(crate) fn chrono_parse_rfc3339(text: &str) -> (r: Option<i64>)
    ensures
        r == parsed_rfc3339(text@),
        reads_timestamps(text@, r),
{
    match chrono::DateTime::parse_from_rfc3339(text) {
        Ok(time) => Some(time.timestamp()),
        Err(_) => None,
    }
}

proof fn lemma_epoch_text()
    ensures
        "1970-01-01"@ == date_text(1970, 1, 1),
        is_date(1970, 1, 1),
        day_number(1970, 1, 1) == 0,
{
    reveal_strlit("1970-01-01");
    reveal_with_fuel(digits, 5);
    assert(digits(1970) =~= seq!['1', '9', '7', '0']);
    assert(digits(1) =~= seq!['1']);
    assert("1970-01-01"@ =~= date_text(1970, 1, 1));
}

/// Formats a unix timestamp as a `YYYY-MM-DD` date (UTC), or `1970-01-01` for a
/// timestamp that the calendar does not reach.
pub fn unix_to_date_str(ts: i64) -> (r: String)
    ensures
        is_date_of(
            if in_calendar(ts as int) {
                ts as int
            } else {
                0
            },
            r@,
        ),
{
    proof {
        lemma_epoch_text();
    }
    match chrono_date(ts) {
        Some(text) => text,
        None => "1970-01-01".to_owned(),
    }
}

/// Reads a `YYYY-MM-DD` date as the unix timestamp of its midnight (UTC), or 0
/// for a text that is no date.
pub fn date_str_to_unix(date: &str) -> (r: i64)
    ensures
        r == (match parsed_date(date@) {
            Some(ts) => ts,
            None => 0,
        }),
        reads_dates(date@, Some(r)),
        r % DAY_SECS == 0,
        in_calendar(r as int),
{
    match chrono_parse_date(date) {
        Some(ts) => ts,
        None => 0,
    }
}

proof fn lemma_next_year(y: int)
    ensures
        days_before_year(y + 1) == days_before_year(y) + (if is_leap(y) {
            366int
        } else {
            365int
        }),
{
    assert((y + 4) / 4 == (y + 3) / 4 + (if y % 4 == 0 {
        1int
    } else {
        0int
    }));
    assert((y + 100) / 100 == (y + 99) / 100 + (if y % 100 == 0 {
        1int
    } else {
        0int
    }));
    assert((y + 400) / 400 == (y + 399) / 400 + (if y % 400 == 0 {
        1int
    } else {
        0int
    }));
}

proof fn lemma_years_grow(a: int, b: int)
    requires
        a <= b,
    ensures
        days_before_year(a) <= days_before_year(b),
    decreases b - a,
{
    if a < b {
        lemma_next_year(a);
        lemma_years_grow(a + 1, b);
    }
}

proof fn lemma_months_grow(y: int, a: int, b: int)
    requires
        1 <= a < b,
    ensures
        days_before_month(y, a) + days_in_month(y, a) <= days_before_month(y, b),
    decreases b - a,
{
    if a + 1 < b {
        lemma_months_grow(y, a, b - 1);
    }
}

/// Later days have greater numbers.
proof fn lemma_day_order(y: int, m: int, d: int, y2: int, m2: int, d2: int)
    requires
        is_date(y, m, d),
        is_date(y2, m2, d2),
        y < y2 || (y == y2 && (m < m2 || (m == m2 && d < d2))),
    ensures
        day_number(y, m, d) < day_number(y2, m2, d2),
{
    if y == y2 {
        if m < m2 {
            lemma_months_grow(y, m, m2);
        }
    } else {
        lemma_years_grow(y + 1, y2);
        lemma_next_year(y);
        assert(days_before_month(y, 12) + 31 == (if is_leap(y) {
            366int
        } else {
            365int
        })) by {
            reveal_with_fuel(days_before_month, 13);
        }
        if m < 12 {
            lemma_months_grow(y, m, 12);
        }
        assert(days_before_month(y2, m2) >= 0) by {
            if m2 > 1 {
                lemma_months_grow(y2, 1, m2);
            }
        }
    }
}

/// No two days have the same number.
pub proof fn lemma_day_number_unique(y: int, m: int, d: int, y2: int, m2: int, d2: int)
    requires
        is_date(y, m, d),
        is_date(y2, m2, d2),
        day_number(y, m, d) == day_number(y2, m2, d2),
    ensures
        y == y2 && m == m2 && d == d2,
{
    if y < y2 || (y == y2 && (m < m2 || (m == m2 && d < d2))) {
        lemma_day_order(y, m, d, y2, m2, d2);
    } else if y2 < y || (y == y2 && (m2 < m || (m == m2 && d2 < d))) {
        lemma_day_order(y2, m2, d2, y, m, d);
    }
}

/// A timestamp has one date text and one RFC 3339 text.
pub proof fn lemma_timestamp_text_unique(ts: int, a: Seq<char>, b: Seq<char>)
    ensures
        is_date_of(ts, a) && is_date_of(ts, b) ==> a == b,
        is_rfc3339_of(ts, a) && is_rfc3339_of(ts, b) ==> a == b,
{
    let n = ts / (DAY_SECS as int);
    assert forall|y: int, m: int, d: int, y2: int, m2: int, d2: int|
        #[trigger] is_date(y, m, d) && #[trigger] is_date(y2, m2, d2) && day_number(y, m, d) == n && day_number(
            y2,
            m2,
            d2,
        ) == n implies y == y2 && m == m2 && d == d2 by {
        lemma_day_number_unique(y, m, d, y2, m2, d2);
    }
}

proof fn lemma_four_digit_year(y: int, m: int, d: int, ts: int)
    requires
        is_date(y, m, d),
        day_number(y, m, d) == ts / (DAY_SECS as int),
        in_four_digit_years(ts),
    ensures
        0 <= y <= 9999,
{
    reveal_with_fuel(days_before_month, 13);
    assert(day_number(0, 1, 1) == -719_528);
    assert(day_number(9999, 12, 31) == 2_932_896);
    assert(is_date(0, 1, 1) && is_date(9999, 12, 31));
    if y < 0 {
        lemma_day_order(y, m, d, 0, 1, 1);
    }
    if y > 9999 {
        lemma_day_order(9999, 12, 31, y, m, d);
    }
}

/// Formatting a timestamp of the years 0 to 9999 as a date and reading the date
/// back gives midnight of its day: `text` is what `unix_to_date_str` gives for
/// `ts`, and `back` what `date_str_to_unix` gives for `text`.
pub proof fn lemma_date_read_back(ts: int, text: Seq<char>, back: i64)
    requires
        in_four_digit_years(ts),
        is_date_of(ts, text),
        reads_dates(text, Some(back)),
    ensures
        back == ts / (DAY_SECS as int) * DAY_SECS,
        back <= ts < back + DAY_SECS,
{
    let (y, m, d) = choose|y: int, m: int, d: int| #[trigger]
        is_date(y, m, d) && day_number(y, m, d) == ts / (DAY_SECS as int) && text == date_text(y, m, d);
    lemma_four_digit_year(y, m, d, ts);
}

} // verus!
