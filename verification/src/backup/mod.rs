//! The `.flatbak` backup format: container framing, manifest, writer and reader.

pub mod confine;
pub mod container;
pub mod create;
pub mod extract;
pub mod links;
pub mod manifest;
pub mod reader;
pub mod restore;
pub mod tree;
pub mod writer;

use vstd::prelude::*;
use crate::text::{cat3, cat4, decimal, decimal_text};

verus! {

/// Top-level directory inside the payload holding application data.
pub const PAYLOAD_DATA_DIR: &'static str = "data";

// ------------------------------------------------------------ dates and times

/// `n` in decimal digits, with zeros in front up to `width` of them.
pub open spec fn padded(n: nat, width: nat) -> Seq<char> {
    let digits = decimal(n);
    if digits.len() < width {
        Seq::new((width - digits.len()) as nat, |i: int| '0') + digits
    } else {
        digits
    }
}

/// A year in at least four digits, with a sign where four do not suffice.
pub open spec fn year_text(year: int) -> Seq<char> {
    if 0 <= year <= 9999 {
        padded(year as nat, 4)
    } else if year < 0 {
        "-"@ + padded((-year) as nat, 4)
    } else {
        "+"@ + padded(year as nat, 4)
    }
}

/// A date: `2026-09-08`.
pub open spec fn date_text(year: int, month: nat, day: nat) -> Seq<char> {
    year_text(year) + "-"@ + padded(month, 2) + "-"@ + padded(day, 2)
}

/// What a month is called.
pub open spec fn month_name(month: nat) -> Seq<char> {
    if month == 1 {
        "January"@
    } else if month == 2 {
        "February"@
    } else if month == 3 {
        "March"@
    } else if month == 4 {
        "April"@
    } else if month == 5 {
        "May"@
    } else if month == 6 {
        "June"@
    } else if month == 7 {
        "July"@
    } else if month == 8 {
        "August"@
    } else if month == 9 {
        "September"@
    } else if month == 10 {
        "October"@
    } else if month == 11 {
        "November"@
    } else {
        "December"@
    }
}

/// A time as it is shown: `8 September 2026 at 12:00`.
pub open spec fn time_text(year: int, month: nat, day: nat, hour: nat, minute: nat) -> Seq<char> {
    decimal(day) + " "@ + month_name(month) + " "@ + year_text(year) + " at "@ + padded(hour, 2)
        + ":"@ + padded(minute, 2)
}

/// A time to the second, in UTC: `2026-09-08T12:00:00Z`.
pub open spec fn utc_text(
    year: int,
    month: nat,
    day: nat,
    hour: nat,
    minute: nat,
    second: nat,
) -> Seq<char> {
    date_text(year, month, day) + "T"@ + padded(hour, 2) + ":"@ + padded(minute, 2) + ":"@ + padded(
        second,
        2,
    ) + "Z"@
}

pub open spec fn is_leap(year: int) -> bool {
    year % 4 == 0 && (year % 100 != 0 || year % 400 == 0)
}

/// How many days a month has.
pub open spec fn month_days(year: int, month: nat) -> nat {
    if month == 2 {
        if is_leap(year) {
            29
        } else {
            28
        }
    } else if month == 4 || month == 6 || month == 9 || month == 11 {
        30
    } else {
        31
    }
}

/// How many days of a year lie before a month.
pub open spec fn days_before_month(year: int, month: nat) -> nat
    decreases month,
{
    if month <= 1 {
        0
    } else {
        days_before_month(year, (month - 1) as nat) + month_days(year, (month - 1) as nat)
    }
}

/// How many days of the Gregorian calendar lie between the start of the year 0 and
/// that of `year`: one in four years has one more, but not those that 100 divides
/// and 400 does not.
pub open spec fn days_before_year(year: int) -> int {
    365 * year + (year + 3) / 4 - (year + 99) / 100 + (year + 399) / 400
}

/// The second, counted from the start of 1970, at which a minute starts.
pub open spec fn minute_start(year: int, month: nat, day: nat, hour: nat, minute: nat) -> int {
    let days = days_before_year(year) + days_before_month(year, month) + day - 1 - days_before_year(
        1970,
    );
    86400 * days + 3600 * hour + 60 * minute
}

/// True for a minute that there is.
pub open spec fn is_minute(year: int, month: nat, day: nat, hour: nat, minute: nat) -> bool {
    &&& 1 <= month <= 12
    &&& 1 <= day <= month_days(year, month)
    &&& hour < 24
    &&& minute < 60
}

/// True if `text` shows the minute that `second` lies in, counted from the start of
/// 1970.
pub open spec fn tells_time(text: Seq<char>, second: int) -> bool {
    exists|year: int, month: nat, day: nat, hour: nat, minute: nat|
        {
            &&& is_minute(year, month, day, hour, minute)
            &&& minute_start(year, month, day, hour, minute) <= second < minute_start(
                year,
                month,
                day,
                hour,
                minute,
            ) + 60
            &&& text == #[trigger] time_text(year, month, day, hour, minute)
        }
}

/// True for the text of some second since 1970 as it is recorded, which is read back
/// as that second while years have four digits.
pub open spec fn is_recorded_time(text: Seq<char>) -> bool {
    exists|year: int, month: nat, day: nat, hour: nat, minute: nat, second: nat|
        {
            &&& 1970 <= year
            &&& is_minute(year, month, day, hour, minute)
            &&& second < 60
            &&& text == #[trigger] utc_text(year, month, day, hour, minute, second)
            &&& year <= 9999 ==> instant_of(text) == Some(
                (minute_start(year, month, day, hour, minute) + second) as i64,
            )
        }
}

// ------------------------------------------------------------- trusted items

/// `chrono::Utc::now` and `chrono::DateTime::to_rfc3339_opts`: the current time
/// as an RFC 3339 timestamp in UTC, to the second, which
/// `chrono::DateTime::parse_from_rfc3339` reads as that second while years have four
/// digits. Which time it is depends on the clock, so no more is claimed.
#[verifier::external_body]
pub fn now_rfc3339() -> (text: String)
    ensures
        is_recorded_time(text@),
{
    chrono::Utc::now().to_rfc3339_opts(chrono::SecondsFormat::Secs, true)
}

/// How a timestamp is shown: `8 September 2026 at 12:00`.
pub open spec fn timestamp_pattern() -> Seq<char> {
    "%-d %B %Y at %H:%M"@
}

/// The second, counted from the start of 1970 in UTC, that
/// `chrono::DateTime::parse_from_rfc3339` reads `raw` as, if it accepts it.
pub uninterp spec fn instant_of(raw: Seq<char>) -> Option<i64>;

/// How `chrono::DateTime::format` shows a second, counted from the start of 1970, by
/// a pattern.
pub uninterp spec fn shown_at(second: int, pattern: Seq<char>) -> Seq<char>;

/// True for a second that a timestamp can name: its year has four digits, and its
/// offset from UTC is less than a day.
pub open spec fn can_be_named(second: int) -> bool {
    -62_167_305_600 < second < 253_402_387_200
}

/// `chrono::DateTime::parse_from_rfc3339` and `chrono::DateTime::timestamp`: the
/// second that `raw` names, if it is a timestamp. Which one that is follows from
/// `raw` alone.
#[verifier::external_body]
fn instant(raw: &str) -> (second: Option<i64>)
    ensures
        second == instant_of(raw@),
        second matches Some(n) ==> can_be_named(n as int),
{
    let parsed = chrono::DateTime::parse_from_rfc3339(raw).ok()?;
    Some(parsed.timestamp())
}

/// `chrono::DateTime::with_timezone` for `chrono::Local` and
/// `chrono::FixedOffset::local_minus_utc`: how many seconds the machine's clocks are
/// ahead of UTC at `second`. The number depends on the machine's time zone; it is
/// less than a day. `chrono::DateTime::from_timestamp` gives none for a second some
/// 262,000 years away, so only those that a timestamp can name are admitted.
#[verifier::external_body]
fn local_offset(second: i64) -> (offset: i64)
    requires
        can_be_named(second as int),
    ensures
        -86_400 < offset < 86_400,
{
    let moment = chrono::DateTime::from_timestamp(second, 0).unwrap();
    i64::from(moment.with_timezone(&chrono::Local).offset().local_minus_utc())
}

/// `offset` is what a look at the machine's time zone finds for `second`.
pub closed spec fn zone_offset(second: i64, offset: i64) -> bool {
    call_ensures(local_offset, (second,), offset)
}

/// `chrono::DateTime::from_timestamp` and `chrono::DateTime::format`: `second` as the
/// pattern shows it. The pattern that is in use gives the day without padding, the
/// English name of the month, the year, and the hour and minute in two digits, by the
/// Gregorian calendar. `format` panics on a malformed pattern, so only that one is
/// admitted, and `from_timestamp` gives nothing for a second some 262,000 years away.
#[verifier::external_body]
fn shown(second: i64, pattern: &str) -> (text: String)
    requires
        pattern@ == timestamp_pattern(),
        -62_167_392_000 < second < 253_402_473_600,
    ensures
        text@ == shown_at(second as int, pattern@),
        tells_time(text@, second as int),
{
    let moment = chrono::DateTime::from_timestamp(second, 0).unwrap();
    moment.format(pattern).to_string()
}

/// `chrono::DateTime::parse_from_rfc3339` and
/// `chrono::DateTime::signed_duration_since`: how many whole seconds ago `raw`
/// was, if it is a timestamp. The number depends on the clock, which never stands
/// before 1970.
#[verifier::external_body]
fn seconds_since(raw: &str) -> (seconds: Option<i64>)
    ensures
        seconds is Some <==> instant_of(raw@) is Some,
        seconds matches Some(n) ==> n + instant_of(raw@)->0 >= -2,
{
    let parsed = chrono::DateTime::parse_from_rfc3339(raw).ok()?;
    let then = parsed.with_timezone(&chrono::Utc);
    Some(chrono::Utc::now().signed_duration_since(then).num_seconds())
}

/// `seconds` is what a look at the clock finds for how long ago `raw` was.
pub closed spec fn aged(raw: Seq<char>, seconds: Option<i64>) -> bool {
    exists|text: &str| #[trigger] text@ == raw && call_ensures(seconds_since, (text,), seconds)
}

// -------------------------------------------------------------------- times

/// What is shown for `raw` when the local time is `local`.
pub fn timestamp_text(raw: &str, local: Option<String>) -> (out: String)
    ensures
        out@ == match local {
            Some(text) => text@,
            None => raw@,
        },
{
    match local {
        Some(text) => text,
        None => raw.to_owned(),
    }
}

/// How a second is shown where clocks are `offset` seconds ahead of UTC.
pub fn local_time(second: i64, offset: i64) -> (out: String)
    requires
        can_be_named(second as int),
        -86_400 < offset < 86_400,
    ensures
        out@ == shown_at(second + offset, timestamp_pattern()),
        tells_time(out@, second + offset),
{
    shown(second + offset, "%-d %B %Y at %H:%M")
}

/// Formats an RFC 3339 timestamp for display in the user's local time.
///
/// Falls back to the raw string if it cannot be parsed, so a timestamp written
/// by a future version is shown rather than hidden. How far the time that is shown
/// is from UTC depends on the machine's time zone.
pub fn format_timestamp(raw: &str) -> (out: String)
    ensures
        match instant_of(raw@) {
            None => out@ == raw@,
            Some(second) => exists|offset: i64|
                {
                    &&& #[trigger] zone_offset(second, offset)
                    &&& -86_400 < offset < 86_400
                    &&& out@ == shown_at(second + offset, timestamp_pattern())
                    &&& tells_time(out@, second + offset)
                },
        },
{
    match instant(raw) {
        None => timestamp_text(raw, None),
        Some(second) => {
            let offset: i64 = local_offset(second);
            assert(zone_offset(second, offset));
            timestamp_text(raw, Some(local_time(second, offset)))
        },
    }
}

/// `count` of `unit`, ago.
pub open spec fn ago(count: nat, unit: Seq<char>) -> Seq<char> {
    if count == 1 {
        "1 "@ + unit + " ago"@
    } else {
        decimal(count) + " "@ + unit + "s ago"@
    }
}

/// How long ago something was that happened `seconds` ago.
pub open spec fn elapsed_text(seconds: int) -> Seq<char> {
    if seconds < 60 {
        "just now"@
    } else if seconds < 60 * 60 {
        ago((seconds / 60) as nat, "minute"@)
    } else if seconds < 24 * 3600 {
        ago((seconds / 3600) as nat, "hour"@)
    } else if seconds < 30 * 86400 {
        ago((seconds / 86400) as nat, "day"@)
    } else if seconds < 365 * 86400 {
        ago((seconds / 86400 / 30) as nat, "month"@)
    } else {
        ago((seconds / 86400 / 365) as nat, "year"@)
    }
}

/// What is shown for `raw` when that was `elapsed` seconds ago, if it is a timestamp.
pub open spec fn relative_to(raw: Seq<char>, elapsed: Option<i64>) -> Seq<char> {
    match elapsed {
        Some(seconds) => elapsed_text(seconds as int),
        None => raw,
    }
}

fn plural(count: u64, unit: &str) -> (out: String)
    ensures
        out@ == ago(count as nat, unit@),
{
    if count == 1 {
        cat3("1 ", unit, " ago")
    } else {
        cat4(&decimal_text(count), " ", unit, "s ago")
    }
}

/// What is shown for `raw` when that was `elapsed` seconds ago.
pub fn relative_text(raw: &str, elapsed: Option<i64>) -> (out: String)
    ensures
        out@ == relative_to(raw@, elapsed),
{
    match elapsed {
        None => raw.to_owned(),
        Some(seconds) => {
            if seconds < 60 {
                return "just now".to_owned();
            }
            let n: u64 = seconds as u64;
            let days: u64 = n / 86400;
            if n < 60 * 60 {
                plural(n / 60, "minute")
            } else if n < 24 * 3600 {
                plural(n / 3600, "hour")
            } else if days < 30 {
                plural(days, "day")
            } else if days < 365 {
                plural(days / 30, "month")
            } else {
                plural(days / 365, "year")
            }
        },
    }
}

/// A short relative description such as "2 days ago", for recent backup rows.
/// How long ago a timestamp was depends on the clock.
pub fn format_relative(raw: &str) -> (out: String)
    ensures
        instant_of(raw@) is None ==> out@ == raw@,
        exists|seconds: Option<i64>|
            {
                &&& #[trigger] aged(raw@, seconds)
                &&& seconds is Some <==> instant_of(raw@) is Some
                &&& seconds matches Some(n) ==> n + instant_of(raw@)->0 >= -2
                &&& out@ == relative_to(raw@, seconds)
            },
{
    let seconds = seconds_since(raw);
    assert(aged(raw@, seconds));
    relative_text(raw, seconds)
}

/// Elapsed time is told in the largest unit of which at least one went by, rounded
/// down.
pub proof fn lemma_elapsed_time_is_told(seconds: int, n: nat)
    requires
        n > 0,
    ensures
        seconds < 60 ==> elapsed_text(seconds) == "just now"@,
        60 * n <= seconds < 60 * (n + 1) && seconds < 3600 ==> elapsed_text(seconds) == decimal(n)
            + " "@ + "minute"@ + if n == 1 {
            " ago"@
        } else {
            "s ago"@
        },
        3600 * n <= seconds < 3600 * (n + 1) && seconds < 86400 ==> elapsed_text(seconds)
            == decimal(n) + " "@ + "hour"@ + if n == 1 {
            " ago"@
        } else {
            "s ago"@
        },
        86400 * n <= seconds < 86400 * (n + 1) && seconds < 30 * 86400 ==> elapsed_text(seconds)
            == decimal(n) + " "@ + "day"@ + if n == 1 {
            " ago"@
        } else {
            "s ago"@
        },
        30 * 86400 * n <= seconds < 30 * 86400 * (n + 1) && seconds < 365 * 86400 ==> elapsed_text(
            seconds,
        ) == decimal(n) + " "@ + "month"@ + if n == 1 {
            " ago"@
        } else {
            "s ago"@
        },
        365 * 86400 * n <= seconds < 365 * 86400 * (n + 1) ==> elapsed_text(seconds) == decimal(n)
            + " "@ + "year"@ + if n == 1 {
            " ago"@
        } else {
            "s ago"@
        },
{
    reveal_strlit("1 ");
    reveal_strlit(" ");
    assert(decimal(1) =~= seq!['1']);
    assert("1 "@ =~= decimal(1) + " "@);
    let days = seconds / 86400;
    if 30 * 86400 * n <= seconds < 30 * 86400 * (n + 1) {
        assert(days / 30 == n) by (nonlinear_arith)
            requires
                days == seconds / 86400,
                30 * 86400 * n <= seconds < 30 * 86400 * (n + 1),
        ;
    }
    if 365 * 86400 * n <= seconds < 365 * 86400 * (n + 1) {
        assert(days / 365 == n) by (nonlinear_arith)
            requires
                days == seconds / 86400,
                365 * 86400 * n <= seconds < 365 * 86400 * (n + 1),
        ;
    }
}

/// The calendar: a minute has sixty seconds, an hour sixty minutes and a day 24 hours;
/// time begins with the year 1970; after the last day of a month comes the first of the
/// next, and after December January.
pub proof fn lemma_calendar(year: int, month: nat, day: nat, hour: nat, minute: nat)
    requires
        1 <= month <= 12,
    ensures
        minute_start(1970, 1, 1, 0, 0) == 0,
        minute_start(year, month, day, hour, minute + 1) == minute_start(
            year,
            month,
            day,
            hour,
            minute,
        ) + 60,
        minute_start(year, month, day, hour + 1, 0) == minute_start(year, month, day, hour, 59)
            + 60,
        minute_start(year, month, day + 1, 0, 0) == minute_start(year, month, day, 23, 59) + 60,
        month < 12 ==> minute_start(year, month + 1, 1, 0, 0) == minute_start(
            year,
            month,
            month_days(year, month),
            23,
            59,
        ) + 60,
        minute_start(year + 1, 1, 1, 0, 0) == minute_start(year, 12, 31, 23, 59) + 60,
{
    lemma_days_before_december(year);
    lemma_days_of_a_year(year);
    assert(days_before_month(year, month + 1) == days_before_month(year, month) + month_days(
        year,
        month,
    ));
    assert(days_before_month(1970, 1) == 0);
    assert(days_before_month(year + 1, 1) == 0);
}

proof fn lemma_days_before_december(year: int)
    ensures
        days_before_month(year, 12) == if is_leap(year) {
            335nat
        } else {
            334nat
        },
{
    reveal_with_fuel(days_before_month, 13);
}

proof fn lemma_days_of_a_year(year: int)
    ensures
        days_before_year(year + 1) - days_before_year(year) == if is_leap(year) {
            366int
        } else {
            365
        },
{
    assert((year + 4) / 4 - (year + 3) / 4 == if year % 4 == 0 {
        1int
    } else {
        0
    });
    assert((year + 100) / 100 - (year + 99) / 100 == if year % 100 == 0 {
        1int
    } else {
        0
    });
    assert((year + 400) / 400 - (year + 399) / 400 == if year % 400 == 0 {
        1int
    } else {
        0
    });
    assert(year % 400 == 0 ==> year % 100 == 0);
    assert(year % 100 == 0 ==> year % 4 == 0);
}

/// A year is a leap year every fourth, but not every hundredth, but every four
/// hundredth time. February has a day more in one.
pub proof fn lemma_leap_years(year: int)
    ensures
        year % 4 != 0 ==> month_days(year, 2) == 28,
        year % 4 == 0 && year % 100 != 0 ==> month_days(year, 2) == 29,
        year % 100 == 0 && year % 400 != 0 ==> month_days(year, 2) == 28,
        year % 400 == 0 ==> month_days(year, 2) == 29,
        month_days(year, 1) == 31,
        month_days(year, 4) == 30,
{
}

/// Padded numbers have at least their width, and only zeros are put in front.
pub proof fn lemma_padded(n: nat, width: nat)
    ensures
        padded(n, width).len() >= width,
        decimal(n).len() >= width ==> padded(n, width) == decimal(n),
        decimal(n).len() < width ==> {
            &&& padded(n, width).len() == width
            &&& padded(n, width).skip((width - decimal(n).len()) as int) == decimal(n)
            &&& forall|i: int|
                0 <= i < width - decimal(n).len() ==> #[trigger] padded(n, width)[i] == '0'
        },
{
    if decimal(n).len() < width {
        assert(padded(n, width).skip((width - decimal(n).len()) as int) =~= decimal(n));
    }
}

} // verus!
