//! Days and civil periods of UTC timestamps.
//!
//! A day is counted from 1970-01-01, which is day 0. The civil year, the month
//! and the ISO week of a day come from `chrono`.

use chrono::{DateTime, Datelike, Months, NaiveDate};
use vstd::prelude::*;

verus! {

/// Seconds in one day.
pub const SECONDS_PER_DAY: i64 = 86_400;

/// The first day that `chrono` can represent: 1 January of the year -262143.
pub const MIN_DAY: i64 = -96_465_292;

/// The last day that `chrono` can represent: 31 December of the year 262142.
pub const MAX_DAY: i64 = 95_026_236;

/// The first second of `MIN_DAY`.
pub const MIN_TIMESTAMP: i64 = -8_334_601_228_800;

/// The last second of `MAX_DAY`.
pub const MAX_TIMESTAMP: i64 = 8_210_266_876_799;

/// Whether `timestamp` lies within the span of representable days.
pub open spec fn timestamp_in_range(timestamp: int) -> bool {
    MIN_TIMESTAMP <= timestamp <= MAX_TIMESTAMP
}

/// Whether `day` is a representable day.
pub open spec fn day_in_range(day: int) -> bool {
    MIN_DAY <= day <= MAX_DAY
}

/// The day on which `timestamp` falls.
pub open spec fn day_of_timestamp(timestamp: int) -> int {
    timestamp / 86_400
}

/// The civil year of a day, as `chrono` computes it.
pub uninterp spec fn civil_year(day: int) -> int;

/// The month (1 to 12) of a day, as `chrono` computes it.
pub uninterp spec fn civil_month(day: int) -> int;

/// The ISO 8601 week of a day, as `chrono` computes it: the week's year, then
/// its number.
pub uninterp spec fn iso_week(day: int) -> (int, int);

/// Every timestamp in range falls on a day in range.
pub proof fn lemma_day_of_timestamp_in_range(timestamp: int)
    requires
        timestamp_in_range(timestamp),
    ensures
        day_in_range(day_of_timestamp(timestamp)),
{
}

/// The day on which `timestamp` falls.
pub fn day_of(timestamp: i64) -> (day: i64)
    requires
        timestamp_in_range(timestamp as int),
    ensures
        day == day_of_timestamp(timestamp as int),
        day_in_range(day as int),
{
    let since_first: i64 = timestamp - MIN_TIMESTAMP;
    let whole: i64 = since_first / SECONDS_PER_DAY;
    assert(timestamp as int == since_first as int + MIN_DAY as int * 86_400);
    assert(timestamp as int / 86_400 == since_first as int / 86_400 + MIN_DAY as int) by {
        vstd::arithmetic::div_mod::lemma_div_multiples_vanish_fancy(
            MIN_DAY as int,
            0,
            86_400,
        );
        vstd::arithmetic::div_mod::lemma_fundamental_div_mod(since_first as int, 86_400);
        vstd::arithmetic::div_mod::lemma_fundamental_div_mod_converse(
            timestamp as int,
            86_400,
            since_first as int / 86_400 + MIN_DAY as int,
            since_first as int % 86_400,
        );
    }
    whole + MIN_DAY
}

/// Calls `chrono::NaiveDate::from_epoch_days` and `Datelike::year` on the
/// date it gives. The year is a function of the day alone; the contract names
/// it `civil_year` and says nothing else of it. Outside the range of days
/// `from_epoch_days` gives `None`, so those days are excluded.
#[verifier::external_body]
pub(crate) fn year_of_day(day: i32) -> (year: i32)
    requires
        day_in_range(day as int),
    ensures
        year as int == civil_year(day as int),
{
    NaiveDate::from_epoch_days(day).unwrap().year()
}

/// Calls `chrono::NaiveDate::from_epoch_days` and `Datelike::month` on the
/// date it gives. The month is a function of the day alone; the contract names
/// it `civil_month` and says nothing else of it.
#[verifier::external_body]
pub(crate) fn month_of_day(day: i32) -> (month: u32)
    requires
        day_in_range(day as int),
    ensures
        month as int == civil_month(day as int),
{
    NaiveDate::from_epoch_days(day).unwrap().month()
}

/// Calls `chrono::NaiveDate::from_epoch_days` and `Datelike::iso_week` on the
/// date it gives, and hands out the week's year and number. Both are functions
/// of the day alone; the contract names the pair `iso_week` and says nothing
/// else of it.
#[verifier::external_body]
pub(crate) fn iso_week_of_day(day: i32) -> (week: (i32, u32))
    requires
        day_in_range(day as int),
    ensures
        (week.0 as int, week.1 as int) == iso_week(day as int),
{
    let week = NaiveDate::from_epoch_days(day).unwrap().iso_week();
    (week.year(), week.week())
}

/// The moment `months` calendar months after `millis`, both in milliseconds
/// since 1970-01-01T00:00:00 UTC, as `chrono` computes it; `None` where either
/// cannot be represented.
pub uninterp spec fn months_later(millis: int, months: int) -> Option<int>;

/// Calls `chrono::DateTime::from_timestamp_millis`, then
/// `DateTime::checked_add_months` and `DateTime::timestamp_millis` on what
/// they give. The result is a function of the two numbers alone; the contract
/// names it `months_later` and says nothing else of it.
#[verifier::external_body]
pub(crate) fn add_months(millis: i64, months: u32) -> (out: Option<i64>)
    ensures
        match out {
            Some(later) => months_later(millis as int, months as int) == Some(later as int),
            None => months_later(millis as int, months as int) is None,
        },
{
    DateTime::from_timestamp_millis(millis).and_then(
        |moment| moment.checked_add_months(Months::new(months)),
    ).map(|moment| moment.timestamp_millis())
}

} // verus!
