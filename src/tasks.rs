//! Tasks as the task source exports them: ISO 8601 due dates and estimates.

use vstd::prelude::*;
use crate::civil::{civil_seconds, civil_valid, utc_seconds, Civil};
use crate::model::{in_time_range, max_estimate, task_wf, Task, TaskStatus, MAX_TIMESTAMP, MIN_TIMESTAMP};

verus! {

/// The date part of an ISO 8601 date and time.
#[derive(PartialEq, Eq, Structural, Clone, Copy, Debug)]
pub enum IsoDate {
    /// Calendar date.
    Ymd { year: i32, month: u32, day: u32 },
    /// Week date: week `ww` of the ISO week-numbering year, day `d` (Monday is 1).
    Week { year: i32, ww: u32, d: u32 },
    /// Ordinal date: day `ddd` of the year.
    Ordinal { year: i32, ddd: u32 },
}

/// An ISO 8601 date and time, with the offset from UTC it was written in.
#[derive(PartialEq, Eq, Structural, Clone, Copy, Debug)]
pub struct IsoDateTime {
    pub date: IsoDate,
    pub hour: u32,
    pub minute: u32,
    pub second: u32,
    pub tz_offset_hours: i32,
    pub tz_offset_minutes: i32,
}

/// An ISO 8601 duration.
#[derive(PartialEq, Eq, Structural, Clone, Copy, Debug)]
pub enum IsoDuration {
    Ymdhms { year: u32, month: u32, day: u32, hour: u32, minute: u32, second: u32 },
    Weeks(u32),
}

/// The date and time that `s` denotes in ISO 8601, if any.
pub uninterp spec fn iso_datetime_of(s: Seq<char>) -> Option<IsoDateTime>;

/// The duration that `s` denotes in ISO 8601, if any.
pub uninterp spec fn iso_duration_of(s: Seq<char>) -> Option<IsoDuration>;

/// Relies on `iso8601::datetime`: the parsed ISO 8601 date and time, which
/// depends on the text alone.
#[verifier::external_body]
fn parse_iso_datetime(s: &str) -> (r: Option<IsoDateTime>)
    ensures
        r == iso_datetime_of(s@),
{
    match iso8601::datetime(s) {
        Ok(dt) => Some(IsoDateTime {
            date: match dt.date {
                iso8601::Date::YMD { year, month, day } => IsoDate::Ymd { year, month, day },
                iso8601::Date::Week { year, ww, d } => IsoDate::Week { year, ww, d },
                iso8601::Date::Ordinal { year, ddd } => IsoDate::Ordinal { year, ddd },
            },
            hour: dt.time.hour, minute: dt.time.minute, second: dt.time.second,
            tz_offset_hours: dt.time.tz_offset_hours, tz_offset_minutes: dt.time.tz_offset_minutes,
        }),
        Err(_) => None,
    }
}

/// Relies on `iso8601::duration`: the parsed ISO 8601 duration, which
/// depends on the text alone.
#[verifier::external_body]
fn parse_iso_duration(s: &str) -> (r: Option<IsoDuration>)
    ensures
        r == iso_duration_of(s@),
{
    match iso8601::duration(s) {
        Ok(iso8601::Duration::YMDHMS { year, month, day, hour, minute, second, .. }) => Some(
            IsoDuration::Ymdhms { year, month, day, hour, minute, second },
        ),
        Ok(iso8601::Duration::Weeks(w)) => Some(IsoDuration::Weeks(w)),
        Err(_) => None,
    }
}

pub open spec fn midnight(year: i32, month: u32, day: u32) -> Civil {
    Civil { year, month, day, hour: 0, minute: 0, second: 0 }
}

pub open spec fn days_in_year(y: int) -> int {
    if crate::civil::is_leap_year(y) { 366 } else { 365 }
}

/// The seconds east of UTC of an offset; `None` when it is not a real one.
pub open spec fn offset_seconds(h: i32, m: i32) -> Option<int> {
    if -24 <= h <= 24 && -59 <= m <= 59 {
        Some(h * 3600 + m * 60)
    } else {
        None
    }
}

/// The midnight (UTC) of day `ddd` of `year`, for years 0 to 9999.
pub open spec fn ordinal_start(year: i32, ddd: u32) -> Option<int> {
    if 0 <= year <= 9999 && 1 <= ddd <= days_in_year(year as int) {
        Some(civil_seconds(midnight(year, 1, 1)) + (ddd - 1) * 86400)
    } else {
        None
    }
}

/// The midnight (UTC) of day `d` (Monday is 1) of ISO week `ww` of `year`:
/// week 1 is the week holding January 4th.
pub open spec fn week_start(year: i32, ww: u32, d: u32) -> Option<int> {
    if 0 <= year <= 9999 && 1 <= ww <= 53 && 1 <= d <= 7 {
        let jan4 = civil_seconds(midnight(year, 1, 4));
        let weekday = (jan4 / 86400 + 3) % 7;
        Some(jan4 + (((ww - 1) * 7 + (d - 1)) - weekday) * 86400)
    } else {
        None
    }
}

/// The Unix seconds of an ISO 8601 date and time, for years 0 to 9999; `None`
/// for a date or time that does not exist. Week dates count from the Monday
/// of the week holding January 4th.
pub open spec fn iso_instant(dt: IsoDateTime) -> Option<int> {
    let time = dt.hour * 3600 + dt.minute * 60 + dt.second;
    let day_start: Option<int> = match dt.date {
        IsoDate::Ymd { year, month, day } => if civil_valid(midnight(year, month, day)) && 0 <= year
            <= 9999 {
            Some(civil_seconds(midnight(year, month, day)))
        } else {
            None
        },
        IsoDate::Ordinal { year, ddd } => ordinal_start(year, ddd),
        IsoDate::Week { year, ww, d } => week_start(year, ww, d),
    };
    match (day_start, offset_seconds(dt.tz_offset_hours, dt.tz_offset_minutes)) {
        (Some(s), Some(off)) => if dt.hour < 24 && dt.minute < 60 && dt.second < 60 {
            Some(s + time - off)
        } else {
            None
        },
        _ => None,
    }
}

/// The midnight of an ordinal date (see `ordinal_start`).
pub fn ordinal(year: i32, ddd: u32) -> (r: Option<i64>)
    ensures
        crate::wire::opt_i64(r) == ordinal_start(year, ddd),
{
    if !(0 <= year && year <= 9999) {
        return None;
    }
    let leap = (year % 4 == 0 && year % 100 != 0) || year % 400 == 0;
    let len: u32 = if leap { 366 } else { 365 };
    if !(1 <= ddd && ddd <= len) {
        return None;
    }
    let jan1 = match utc_seconds(&Civil { year, month: 1, day: 1, hour: 0, minute: 0, second: 0 }) {
        Some(t) => t,
        None => {
            return None;
        },
    };
    Some(jan1 + (ddd as i64 - 1) * 86400)
}

/// The midnight of an ISO week date (see `week_start`).
pub fn week_and_day(ww: u32, d: u32, year: i32) -> (r: Option<i64>)
    ensures
        crate::wire::opt_i64(r) == week_start(year, ww, d),
{
    if !(0 <= year && year <= 9999 && 1 <= ww && ww <= 53 && 1 <= d && d <= 7) {
        return None;
    }
    let jan4 = match utc_seconds(&Civil { year, month: 1, day: 4, hour: 0, minute: 0, second: 0 }) {
        Some(t) => t,
        None => {
            return None;
        },
    };
    proof {
        crate::civil::lemma_year_in_range(midnight(year, 1, 4));
    }
    let shifted = (jan4 - MIN_TIMESTAMP) / 86400;
    let weekday = (shifted + 5) % 7;
    proof {
        let days = crate::civil::days_from_civil(year as int, 1, 4);
        assert(jan4 == days * 86400);
        assert(shifted == days + 719528) by (nonlinear_arith)
            requires
                jan4 == days * 86400,
                shifted == (jan4 - MIN_TIMESTAMP) / 86400,
                MIN_TIMESTAMP == -719528 * 86400,
        ;
        assert(jan4 / 86400 == days) by (nonlinear_arith)
            requires
                jan4 == days * 86400,
        ;
        assert(weekday == (days + 3) % 7) by (nonlinear_arith)
            requires
                weekday == (days + 719528 + 5) % 7,
                days + 719528 >= 0,
        {
            vstd::arithmetic::div_mod::lemma_mod_add_multiples_vanish(days + 3, 7);
            assert(days + 719528 + 5 == days + 3 + 7 * 102790);
            vstd::arithmetic::div_mod::lemma_mod_multiples_vanish(102790, days + 3, 7);
        }
    }
    Some(jan4 + (((ww as i64 - 1) * 7 + (d as i64 - 1)) - weekday) * 86400)
}

/// The Unix seconds of an ISO 8601 date and time (see `iso_instant`).
pub fn convert_iso8601_to_timestamp(dt: &IsoDateTime) -> (r: Option<i64>)
    ensures
        crate::wire::opt_i64(r) == iso_instant(*dt),
{
    if !(-24 <= dt.tz_offset_hours && dt.tz_offset_hours <= 24 && -59 <= dt.tz_offset_minutes
        && dt.tz_offset_minutes <= 59) {
        return None;
    }
    if !(dt.hour < 24 && dt.minute < 60 && dt.second < 60) {
        return None;
    }
    let off = dt.tz_offset_hours as i64 * 3600 + dt.tz_offset_minutes as i64 * 60;
    let time = dt.hour as i64 * 3600 + dt.minute as i64 * 60 + dt.second as i64;
    let start: i64 = match dt.date {
        IsoDate::Ymd { year, month, day } => {
            if !(0 <= year && year <= 9999) {
                return None;
            }
            match utc_seconds(&Civil { year, month, day, hour: 0, minute: 0, second: 0 }) {
                Some(t) => t,
                None => {
                    return None;
                },
            }
        },
        IsoDate::Ordinal { year, ddd } => match ordinal(year, ddd) {
            Some(t) => t,
            None => {
                return None;
            },
        },
        IsoDate::Week { year, ww, d } => match week_and_day(ww, d, year) {
            Some(t) => t,
            None => {
                return None;
            },
        },
    };
    Some(start + time - off)
}

/// The nominal seconds of a duration: a year is 365 days, a month the mean
/// Gregorian month.
pub open spec fn iso_seconds(d: IsoDuration) -> int {
    match d {
        IsoDuration::Ymdhms { year, month, day, hour, minute, second } => year * 31536000 + month
            * 2629746 + day * 86400 + hour * 3600 + minute * 60 + second,
        IsoDuration::Weeks(w) => w * 604800,
    }
}

/// The nominal seconds of a duration (see `iso_seconds`).
pub fn iso8601_dur_to_timestamp(d: &IsoDuration) -> (r: i64)
    ensures
        r == iso_seconds(*d),
{
    match *d {
        IsoDuration::Ymdhms { year, month, day, hour, minute, second } => {
            assert(year * 31536000 + month * 2629746 + day * 86400 + hour * 3600 + minute * 60 + second
                <= 4294967295 * 40000000) by (nonlinear_arith)
                requires
                    year <= 4294967295,
                    month <= 4294967295,
                    day <= 4294967295,
                    hour <= 4294967295,
                    minute <= 4294967295,
                    second <= 4294967295,
            ;
            year as i64 * 31536000 + month as i64 * 2629746 + day as i64 * 86400 + hour as i64 * 3600
                + minute as i64 * 60 + second as i64
        },
        IsoDuration::Weeks(w) => w as i64 * 604800,
    }
}

/// Why a task from the source cannot be scheduled.
#[derive(PartialEq, Eq, Structural, Clone, Copy, Debug)]
pub enum TaskError {
    /// No due date, or one that is not a real instant of years 0 to 9999.
    BadDue,
    /// No estimate, or one that is not a positive duration within the
    /// handled range.
    BadEstimate,
}

/// The due instant given, when it is usable.
pub open spec fn usable_due(due: Option<IsoDateTime>) -> Option<int> {
    match due {
        Some(dt) => match iso_instant(dt) {
            Some(t) => if in_time_range(t) { Some(t) } else { None },
            None => None,
        },
        None => None,
    }
}

/// The estimate given, when it is usable.
pub open spec fn usable_estimate(est: Option<IsoDuration>) -> Option<int> {
    match est {
        Some(d) => if 0 < iso_seconds(d) <= max_estimate() { Some(iso_seconds(d)) } else { None },
        None => None,
    }
}

/// Builds a pending task from its parsed due date and estimate.
pub fn task_from_parts(
    id: usize,
    uuid: String,
    description: String,
    due: Option<IsoDateTime>,
    estimate: Option<IsoDuration>,
) -> (r: Result<Task, TaskError>)
    ensures
        r == Err::<Task, TaskError>(TaskError::BadDue) <==> usable_due(due) is None,
        r == Err::<Task, TaskError>(TaskError::BadEstimate) <==> usable_due(due) is Some
            && usable_estimate(estimate) is None,
        r matches Ok(t) ==> task_wf(t) && t == (Task {
            id,
            uuid,
            description,
            due: usable_due(due)->0 as i64,
            estimated: usable_estimate(estimate)->0 as i64,
            status: TaskStatus::Pending,
            start: None,
        }),
{
    let due_at = match due {
        Some(dt) => match convert_iso8601_to_timestamp(&dt) {
            Some(t) => t,
            None => {
                return Err(TaskError::BadDue);
            },
        },
        None => {
            return Err(TaskError::BadDue);
        },
    };
    if due_at < MIN_TIMESTAMP || due_at > MAX_TIMESTAMP {
        return Err(TaskError::BadDue);
    }
    let estimated = match estimate {
        Some(d) => iso8601_dur_to_timestamp(&d),
        None => {
            return Err(TaskError::BadEstimate);
        },
    };
    if estimated <= 0 || estimated > MAX_TIMESTAMP - MIN_TIMESTAMP {
        return Err(TaskError::BadEstimate);
    }
    Ok(Task {
        id,
        uuid,
        description,
        due: due_at,
        estimated,
        status: TaskStatus::Pending,
        start: None,
    })
}

/// Builds a pending task from the text of its due date and estimate, both
/// in ISO 8601.
pub fn parse_task(id: usize, uuid: String, description: String, due: &str, estimated: &str) -> (r:
    Result<Task, TaskError>)
    ensures
        r == Err::<Task, TaskError>(TaskError::BadDue) <==> usable_due(iso_datetime_of(due@)) is None,
        r == Err::<Task, TaskError>(TaskError::BadEstimate) <==> usable_due(iso_datetime_of(due@)) is Some
            && usable_estimate(iso_duration_of(estimated@)) is None,
        r matches Ok(t) ==> task_wf(t) && t == (Task {
            id,
            uuid,
            description,
            due: usable_due(iso_datetime_of(due@))->0 as i64,
            estimated: usable_estimate(iso_duration_of(estimated@))->0 as i64,
            status: TaskStatus::Pending,
            start: None,
        }),
{
    let d = parse_iso_datetime(due);
    let e = parse_iso_duration(estimated);
    task_from_parts(id, uuid, description, d, e)
}

/// The tasks that were built, in order; the failures are left out.
pub open spec fn parsed_ok(rs: Seq<Result<Task, TaskError>>) -> Seq<Task>
    decreases rs.len(),
{
    if rs.len() == 0 {
        Seq::empty()
    } else {
        let prev = parsed_ok(rs.drop_last());
        match rs.last() {
            Ok(t) => prev.push(t),
            Err(_) => prev,
        }
    }
}

/// Keeps the tasks that could be built from the source, in order, so that
/// one bad task does not stop the others.
pub fn keep_parsed(rs: &Vec<Result<Task, TaskError>>) -> (r: Vec<Task>)
    ensures
        r@ == parsed_ok(rs@),
{
    let mut out: Vec<Task> = Vec::new();
    let mut i: usize = 0;
    while i < rs.len()
        invariant
            i <= rs@.len(),
            out@ == parsed_ok(rs@.subrange(0, i as int)),
        decreases rs@.len() - i,
    {
        let ghost pre = rs@.subrange(0, i as int + 1);
        assert(pre.drop_last() =~= rs@.subrange(0, i as int));
        match &rs[i] {
            Ok(t) => {
                out.push(t.clone());
            },
            Err(_) => {},
        }
        i = i + 1;
    }
    assert(rs@.subrange(0, rs@.len() as int) =~= rs@);
    out
}

} // verus!
