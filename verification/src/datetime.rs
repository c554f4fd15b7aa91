//! Calendar dates, times of day, and their ordering.

use vstd::prelude::*;
use chrono::Datelike;
use chrono::Timelike;

verus! {

/// A calendar date in the proleptic Gregorian calendar, held as plain fields.
#[derive(Clone, Copy, PartialEq, Eq, Structural, Debug)]
pub struct Date {
    pub year: i32,
    pub month: u32,
    pub day: u32,
}

/// A time of day with one-second resolution.
#[derive(Clone, Copy, PartialEq, Eq, Structural, Debug)]
pub struct Time {
    pub hour: u32,
    pub minute: u32,
    pub second: u32,
}

/// A date together with a time of day: one moment, to the second.
#[derive(Clone, Copy, PartialEq, Eq, Structural, Debug)]
pub struct DateTime {
    pub date: Date,
    pub time: Time,
}

pub open spec fn is_leap_year(year: int) -> bool {
    year % 4 == 0 && (year % 100 != 0 || year % 400 == 0)
}

pub open spec fn days_in_month(year: int, month: int) -> int {
    if month == 2 {
        if is_leap_year(year) {
            29
        } else {
            28
        }
    } else if month == 4 || month == 6 || month == 9 || month == 11 {
        30
    } else {
        31
    }
}

pub open spec fn date_valid(d: Date) -> bool {
    &&& 1 <= d.month <= 12
    &&& 1 <= d.day <= days_in_month(d.year as int, d.month as int)
}

pub open spec fn time_valid(t: Time) -> bool {
    t.hour < 24 && t.minute < 60 && t.second < 60
}

pub open spec fn datetime_valid(dt: DateTime) -> bool {
    date_valid(dt.date) && time_valid(dt.time)
}

/// Strict lexicographic order on (year, month, day, hour, minute, second):
/// `a` comes strictly earlier than `b`.
pub open spec fn dt_lt(a: DateTime, b: DateTime) -> bool {
    if a.date.year != b.date.year {
        a.date.year < b.date.year
    } else if a.date.month != b.date.month {
        a.date.month < b.date.month
    } else if a.date.day != b.date.day {
        a.date.day < b.date.day
    } else if a.time.hour != b.time.hour {
        a.time.hour < b.time.hour
    } else if a.time.minute != b.time.minute {
        a.time.minute < b.time.minute
    } else {
        a.time.second < b.time.second
    }
}

/// `a` comes no later than `b`.
pub open spec fn dt_le(a: DateTime, b: DateTime) -> bool {
    !dt_lt(b, a)
}

/// The lexicographic order is total: of two moments, one comes no later
/// than the other.
pub proof fn lemma_dt_le_total(a: DateTime, b: DateTime)
    ensures
        dt_le(a, b) || dt_le(b, a),
{
}

/// The lexicographic order is transitive.
pub proof fn lemma_dt_le_trans(a: DateTime, b: DateTime, c: DateTime)
    requires
        dt_le(a, b),
        dt_le(b, c),
    ensures
        dt_le(a, c),
{
}

pub fn dt_lt_exec(a: &DateTime, b: &DateTime) -> (r: bool)
    ensures
        r == dt_lt(*a, *b),
{
    if a.date.year != b.date.year {
        a.date.year < b.date.year
    } else if a.date.month != b.date.month {
        a.date.month < b.date.month
    } else if a.date.day != b.date.day {
        a.date.day < b.date.day
    } else if a.time.hour != b.time.hour {
        a.time.hour < b.time.hour
    } else if a.time.minute != b.time.minute {
        a.time.minute < b.time.minute
    } else {
        a.time.second < b.time.second
    }
}

pub fn days_in_month_exec(year: i32, month: u32) -> (r: u32)
    ensures
        r == days_in_month(year as int, month as int),
{
    if month == 2 {
        if year % 4 == 0 && (year % 100 != 0 || year % 400 == 0) {
            29
        } else {
            28
        }
    } else if month == 4 || month == 6 || month == 9 || month == 11 {
        30
    } else {
        31
    }
}

pub fn date_valid_exec(d: &Date) -> (r: bool)
    ensures
        r == date_valid(*d),
{
    1 <= d.month && d.month <= 12 && 1 <= d.day && d.day <= days_in_month_exec(d.year, d.month)
}

pub fn time_valid_exec(t: &Time) -> (r: bool)
    ensures
        r == time_valid(*t),
{
    t.hour < 24 && t.minute < 60 && t.second < 60
}

/// Relies on chrono's `Local::now` and the `Datelike` / `Timelike`
/// accessors: the clock yields a real calendar date (month 1 to 12, day
/// valid for that month and year) and a time of day in range.  Nothing
/// is promised about which moment comes back.  chrono itself panics on
/// a system clock before the Unix epoch or beyond its calendar range;
/// it offers no fallible form of this call.
#[verifier::external_body]
pub fn now_local() -> (r: DateTime)
    ensures
        datetime_valid(r),
{
    let now = chrono::Local::now();
    DateTime {
        date: Date { year: now.year(), month: now.month(), day: now.day() },
        time: Time { hour: now.hour(), minute: now.minute(), second: now.second() },
    }
}

} // verus!
