//! UTC calendar dates and times, and their conversion to Unix seconds.

use vstd::prelude::*;
use chrono::{Datelike, TimeZone, Timelike};
use crate::model::in_time_range;

verus! {

/// A UTC date and time in the proleptic Gregorian calendar.
#[derive(PartialEq, Eq, Structural, Clone, Copy, Debug)]
pub struct Civil {
    pub year: i32,
    pub month: u32,
    pub day: u32,
    pub hour: u32,
    pub minute: u32,
    pub second: u32,
}

pub open spec fn is_leap_year(y: int) -> bool {
    (y % 4 == 0 && y % 100 != 0) || y % 400 == 0
}

pub open spec fn days_in_month(y: int, m: int) -> int {
    if m == 2 {
        if is_leap_year(y) { 29 } else { 28 }
    } else if m == 4 || m == 6 || m == 9 || m == 11 {
        30
    } else {
        31
    }
}

/// A date that exists and a time of day without leap second.
pub open spec fn civil_valid(c: Civil) -> bool {
    &&& 1 <= c.month <= 12
    &&& 1 <= c.day <= days_in_month(c.year as int, c.month as int)
    &&& c.hour < 24
    &&& c.minute < 60
    &&& c.second < 60
}

/// The number of days from 1970-01-01 to the given date (counting years
/// from March, so that the leap day ends a year).
pub open spec fn days_from_civil(y: int, m: int, d: int) -> int {
    let yy = if m <= 2 { y - 1 } else { y };
    let mp = if m > 2 { m - 3 } else { m + 9 };
    365 * yy + yy / 4 - yy / 100 + yy / 400 + (153 * mp + 2) / 5 + d - 1 - 719468
}

/// The Unix seconds of a UTC date and time.
pub open spec fn civil_seconds(c: Civil) -> int {
    days_from_civil(c.year as int, c.month as int, c.day as int) * 86400 + c.hour * 3600 + c.minute
        * 60 + c.second
}

/// The UTC date and time of the instant `ts` (Unix seconds).
pub uninterp spec fn utc_civil_of(ts: int) -> Civil;

/// Relies on chrono's `DateTime::from_timestamp`: the UTC date and time of a
/// Unix timestamp, which round-trips with `timestamp` and is given for every
/// instant of years 0 to 9999.
#[verifier::external_body]
pub(crate) fn utc_civil(ts: i64) -> (r: Option<Civil>)
    ensures
        r matches Some(c) ==> c == utc_civil_of(ts as int) && civil_valid(c) && civil_seconds(c)
            == ts,
        in_time_range(ts as int) ==> r is Some,
{
    match chrono::DateTime::from_timestamp(ts, 0) {
        Some(d) => Some(
            Civil {
                year: d.year(),
                month: d.month(),
                day: d.day(),
                hour: d.hour(),
                minute: d.minute(),
                second: d.second(),
            },
        ),
        None => None,
    }
}

/// Relies on chrono's `NaiveDate::from_ymd_opt`, `NaiveDate::and_hms_opt` and
/// `NaiveDateTime::and_utc().timestamp()`: the Unix seconds of a UTC date and
/// time, `None` for a date or time that does not exist.
#[verifier::external_body]
pub(crate) fn utc_seconds(c: &Civil) -> (r: Option<i64>)
    ensures
        civil_valid(*c) && 0 <= c.year <= 9999 ==> r == Some(civil_seconds(*c) as i64),
        r matches Some(t) ==> civil_valid(*c) && t == civil_seconds(*c),
{
    match chrono::NaiveDate::from_ymd_opt(c.year, c.month, c.day) {
        Some(d) => match d.and_hms_opt(c.hour, c.minute, c.second) {
            Some(dt) => Some(dt.and_utc().timestamp()),
            None => None,
        },
        None => None,
    }
}

/// Relies on chrono's `Local` time zone (`TimeZone::offset_from_utc_datetime`
/// and `FixedOffset::local_minus_utc`): the machine's offset east of UTC at
/// the instant `ts`, which a `FixedOffset` keeps strictly within a day. It
/// depends on the machine's time zone, so nothing more is stated.
#[verifier::external_body]
pub(crate) fn local_offset_at(ts: i64) -> (r: Option<i64>)
    ensures
        r matches Some(o) ==> -86400 < o < 86400,
{
    match chrono::DateTime::from_timestamp(ts, 0) {
        Some(d) => Some(chrono::Local.offset_from_utc_datetime(&d.naive_utc()).local_minus_utc() as i64),
        None => None,
    }
}

/// The instants of years 0 to 9999 are exactly those in the handled range.
pub proof fn lemma_year_in_range(c: Civil)
    requires
        civil_valid(c),
    ensures
        in_time_range(civil_seconds(c)) <==> 0 <= c.year <= 9999,
{
    let y = c.year as int;
    let m = c.month as int;
    let d = c.day as int;
    let day = days_from_civil(y, m, d);
    let rest = c.hour * 3600 + c.minute * 60 + c.second;
    assert(0 <= rest < 86400);
    if y < 0 {
        // The latest such day is -0001-12-31, one before 0000-01-01.
        assert(day <= -719529);
        assert(day * 86400 <= -719529 * 86400) by (nonlinear_arith)
            requires
                day <= -719529,
        ;
    } else if y > 9999 {
        // The earliest such day is 10000-01-01.
        assert(day >= 2932897);
        assert(day * 86400 >= 2932897 * 86400) by (nonlinear_arith)
            requires
                day >= 2932897,
        ;
    } else {
        assert(-719528 <= day <= 2932896);
        assert(-719528 * 86400 <= day * 86400 <= 2932896 * 86400) by (nonlinear_arith)
            requires
                -719528 <= day <= 2932896,
        ;
    }
}

} // verus!
