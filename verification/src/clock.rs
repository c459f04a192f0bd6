//! Dates and times in UTC.

use crate::decimal;
use crate::text::same_text;
use chrono::{Datelike, TimeZone};
use vstd::prelude::*;
use vstd::string::*;

verus! {

pub open spec fn is_leap(year: int) -> bool {
    year % 4 == 0 && (year % 100 != 0 || year % 400 == 0)
}

pub open spec fn days_in_month(year: int, month: int) -> int {
    if month == 2 {
        if is_leap(year) {
            29
        } else {
            28
        }
    } else if month == 4 || month == 6 || month == 9 || month == 11 {
        30
    } else {
        31
    }
}

/// Whether a day exists in the calendar, within the years that `chrono` knows.
pub open spec fn is_date(year: int, month: int, day: int) -> bool {
    &&& -262143 <= year <= 262142
    &&& 1 <= month <= 12
    &&& 1 <= day <= days_in_month(year, month)
}

/// The days of a year before a month.
pub open spec fn days_before_month(year: int, month: int) -> int
    decreases month,
{
    if month <= 1 {
        0
    } else {
        days_before_month(year, month - 1) + days_in_month(year, month - 1)
    }
}

/// The leap days before a year, counted from the year 1.
pub open spec fn leap_days(year: int) -> int {
    (year - 1) / 4 - (year - 1) / 100 + (year - 1) / 400
}

/// The days from 1970-01-01 to a day.
pub open spec fn day_number(year: int, month: int, day: int) -> int {
    365 * (year - 1970) + leap_days(year) - leap_days(1970) + days_before_month(year, month) + day
        - 1
}

/// The milliseconds from 1970-01-01 00:00:00 to the midnight that begins a day.
pub open spec fn midnight(year: int, month: int, day: int) -> int {
    86_400_000 * day_number(year, month, day)
}

/// A day of the years 0 to 9999 as `YYYY-MM-DD`.
pub open spec fn date_text(year: int, month: int, day: int) -> Seq<char> {
    decimal::last_digits(year as nat, 4) + seq!['-'] + decimal::last_digits(month as nat, 2) + seq![
        '-',
    ] + decimal::last_digits(day as nat, 2)
}

/// The time of day as `HH:MM:SS`.
pub open spec fn time_text(millis: int) -> Seq<char> {
    let seconds = (millis % 86_400_000) / 1000;
    decimal::last_digits((seconds / 3600) as nat, 2) + seq![':'] + decimal::last_digits(
        (seconds / 60 % 60) as nat,
        2,
    ) + seq![':'] + decimal::last_digits((seconds % 60) as nat, 2)
}

/// Whether a moment falls on a day of the years 0 to 9999.
pub open spec fn falls_on(millis: int, year: int, month: int, day: int) -> bool {
    &&& 0 <= year <= 9999
    &&& is_date(year, month, day)
    &&& day_number(year, month, day) == millis / 86_400_000
}

/// A moment as its day alone, or as its day and its time.
pub open spec fn moment_text(day_alone: bool, date: Seq<char>, millis: int) -> Seq<char> {
    if day_alone {
        date
    } else {
        date + seq![' '] + time_text(millis)
    }
}

/// The year, month and day that `chrono::NaiveDate::parse_from_str` reads with `%Y-%m-%d`.
pub uninterp spec fn date_of_text(text: Seq<char>) -> Option<(i32, u32, u32)>;

/// `chrono::NaiveDate::parse_from_str` with `%Y-%m-%d`: what it reads depends on the text alone, is
/// a day of the calendar, and is the day itself for a text `YYYY-MM-DD`.
#[verifier::external_body]
fn parse_date(text: &str) -> (r: Option<(i32, u32, u32)>)
    ensures
        r == date_of_text(text@),
        r matches Some(d) ==> is_date(d.0 as int, d.1 as int, d.2 as int),
        forall|year: i32, month: u32, day: u32|
            0 <= year <= 9999 && is_date(year as int, month as int, day as int) && text@
                == #[trigger] date_text(year as int, month as int, day as int) ==> r == Some(
                (year, month, day),
            ),
{
    let read = chrono::NaiveDate::parse_from_str(text, "%Y-%m-%d");
    read.ok().map(|d| (d.year(), d.month(), d.day()))
}

/// `chrono::NaiveDate::from_ymd_opt`, taken to midnight in UTC with `and_time`, `and_utc` and
/// `timestamp_millis`: the milliseconds since 1970, nothing for a day that does not exist.
#[verifier::external_body]
fn midnight_millis(year: i32, month: u32, day: u32) -> (r: Option<i64>)
    ensures
        match r {
            Some(t) => is_date(year as int, month as int, day as int) && t == midnight(
                year as int,
                month as int,
                day as int,
            ),
            None => !is_date(year as int, month as int, day as int),
        },
{
    let date = chrono::NaiveDate::from_ymd_opt(year, month, day);
    date.map(|d| d.and_time(chrono::NaiveTime::MIN).and_utc().timestamp_millis())
}

/// A moment as `chrono` writes it with a pattern.
pub uninterp spec fn utc_text(millis: int, pattern: Seq<char>) -> Seq<char>;

/// Whether a moment lies within the years that `chrono` knows.
pub open spec fn in_calendar(millis: int) -> bool {
    midnight(-262143, 1, 1) <= millis < midnight(262143, 1, 1)
}

/// `chrono::Utc.timestamp_millis_opt` and `format`: the moment in UTC, by the moment and the
/// pattern alone, nothing outside the years that `chrono` knows. In the years 0 to 9999 the day is
/// written `YYYY-MM-DD` and the time `HH:MM:SS`.
#[verifier::external_body]
fn format_utc(millis: i64, pattern: &str) -> (r: Option<String>)
    requires
        pattern@ == "%Y-%m-%d"@ || pattern@ == "%Y-%m-%d %H:%M:%S"@,
    ensures
        match r {
            Some(s) => in_calendar(millis as int) && s@ == utc_text(millis as int, pattern@),
            None => !in_calendar(millis as int),
        },
        forall|year: int, month: int, day: int|
            #[trigger] falls_on(millis as int, year, month, day) ==> r is Some && r->Some_0@ == moment_text(
                pattern@ == "%Y-%m-%d"@,
                date_text(year, month, day),
                millis as int,
            ),
{
    let moment = chrono::Utc.timestamp_millis_opt(millis).single();
    moment.map(|t| t.format(pattern).to_string())
}

/// The pattern for the times of a timeframe: the day alone where a candle lasts a day.
pub open spec fn pattern(timeframe: Seq<char>) -> Seq<char> {
    if timeframe == "1d"@ {
        "%Y-%m-%d"@
    } else {
        "%Y-%m-%d %H:%M:%S"@
    }
}

/// The time of a candle as it is shown for a timeframe; none outside the calendar.
pub fn candle_time(timeframe: &str, millis: i64) -> (r: Option<String>)
    ensures
        match r {
            Some(s) => in_calendar(millis as int) && s@ == utc_text(
                millis as int,
                pattern(timeframe@),
            ),
            None => !in_calendar(millis as int),
        },
        forall|year: int, month: int, day: int|
            #[trigger] falls_on(millis as int, year, month, day) ==> r is Some && r->Some_0@ == moment_text(
                timeframe@ == "1d"@,
                date_text(year, month, day),
                millis as int,
            ),
{
    if same_text(timeframe, "1d") {
        format_utc(millis, "%Y-%m-%d")
    } else {
        proof {
            reveal_strlit("%Y-%m-%d");
            reveal_strlit("%Y-%m-%d %H:%M:%S");
            assert("%Y-%m-%d"@.len() != "%Y-%m-%d %H:%M:%S"@.len());
        }
        format_utc(millis, "%Y-%m-%d %H:%M:%S")
    }
}

/// The midnight of a day that was read, or the beginning of time where none was.
pub open spec fn midnight_of(date: Option<(i32, u32, u32)>) -> int {
    match date {
        Some(d) => if is_date(d.0 as int, d.1 as int, d.2 as int) {
            midnight(d.0 as int, d.1 as int, d.2 as int)
        } else {
            0
        },
        None => 0,
    }
}

/// The midnight of a day that was read.
pub fn midnight_or_zero(date: Option<(i32, u32, u32)>) -> (r: i64)
    ensures
        r == midnight_of(date),
{
    match date {
        Some(d) => match midnight_millis(d.0, d.1, d.2) {
            Some(t) => t,
            None => 0,
        },
        None => 0,
    }
}

/// The moment at which trading starts: the midnight of the day, or the beginning of time where no
/// day is given or it is unreadable.
pub open spec fn start_of(date: Option<Seq<char>>) -> int {
    match date {
        Some(text) => midnight_of(date_of_text(text)),
        None => 0,
    }
}

/// The moment at which trading starts on a day.
pub fn start_timestamp(date: Option<&str>) -> (r: i64)
    ensures
        r == start_of(
            match date {
                Some(s) => Some(s@),
                None => None,
            },
        ),
        forall|year: i32, month: u32, day: u32|
            0 <= year <= 9999 && is_date(year as int, month as int, day as int) && date is Some
                && date->Some_0@ == #[trigger] date_text(year as int, month as int, day as int)
                ==> r == midnight(year as int, month as int, day as int),
{
    match date {
        Some(text) => midnight_or_zero(parse_date(text)),
        None => 0,
    }
}

/// The midnight of 2020-04-20, from which candles are downloaded.
pub fn first_download() -> (r: i64)
    ensures
        r == midnight(2020, 4, 20),
        r == 1_587_340_800_000,
{
    proof {
        reveal_with_fuel(days_before_month, 5);
        assert(day_number(2020, 4, 20) == 18372);
    }
    match midnight_millis(2020, 4, 20) {
        Some(t) => t,
        None => 1_587_340_800_000,
    }
}

/// A day is read back from its midnight: the moment at which trading starts on it falls on it.
pub proof fn midnight_falls_on_its_day(year: int, month: int, day: int)
    requires
        0 <= year <= 9999,
        is_date(year, month, day),
    ensures
        falls_on(midnight(year, month, day), year, month, day),
{
}

/// The days follow one another: the day behind the last of a month is the first of the next month,
/// and the day behind the last of a year is the first of the next year.
pub proof fn days_follow_one_another(year: int, month: int)
    requires
        1 <= month <= 12,
    ensures
        month < 12 ==> day_number(year, month + 1, 1) == day_number(
            year,
            month,
            days_in_month(year, month),
        ) + 1,
        day_number(year + 1, 1, 1) == day_number(year, 12, 31) + 1,
{
    reveal_with_fuel(days_before_month, 13);
    assert(days_before_month(year, 12) == if is_leap(year) {
        335int
    } else {
        334
    });
    assert(leap_days(year + 1) - leap_days(year) == if is_leap(year) {
        1int
    } else {
        0
    });
}

} // verus!
