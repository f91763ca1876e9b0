//! Tasks, calendar blocks, free gaps and the interval arithmetic on them.

use vstd::prelude::*;

verus! {

/// Earliest instant handled by the library: 0000-01-01T00:00:00Z.
pub const MIN_TIMESTAMP: i64 = -62167219200;

/// Latest instant handled by the library: 9999-12-31T23:59:59Z.
pub const MAX_TIMESTAMP: i64 = 253402300799;

pub const SECONDS_PER_DAY: i64 = 86400;

pub const SECONDS_PER_WEEK: i64 = 604800;

/// Nominal month: the mean Gregorian month.
pub const SECONDS_PER_MONTH: i64 = 2629746;

/// Nominal year: 365 days.
pub const SECONDS_PER_YEAR: i64 = 31536000;

pub open spec fn in_time_range(t: int) -> bool {
    MIN_TIMESTAMP <= t <= MAX_TIMESTAMP
}

/// How often a recurring block repeats.
#[derive(PartialEq, Eq, Structural, Clone, Copy, Debug)]
pub enum Frequency {
    Daily,
    Weekly,
    Monthly,
    Yearly,
}

impl Frequency {
    pub open spec fn spec_period(self) -> int {
        match self {
            Frequency::Daily => SECONDS_PER_DAY as int,
            Frequency::Weekly => SECONDS_PER_WEEK as int,
            Frequency::Monthly => SECONDS_PER_MONTH as int,
            Frequency::Yearly => SECONDS_PER_YEAR as int,
        }
    }

    /// The nominal length in seconds of one step of this frequency.
    pub fn period(&self) -> (r: i64)
        ensures
            r == self.spec_period(),
            SECONDS_PER_DAY <= r <= SECONDS_PER_YEAR,
    {
        match self {
            Frequency::Daily => SECONDS_PER_DAY,
            Frequency::Weekly => SECONDS_PER_WEEK,
            Frequency::Monthly => SECONDS_PER_MONTH,
            Frequency::Yearly => SECONDS_PER_YEAR,
        }
    }
}

/// A repeat rule: occurrences every `frequency` step, none starting after
/// `until` when it is given.
#[derive(PartialEq, Eq, Structural, Clone, Copy, Debug)]
pub struct RecurrenceRule {
    pub frequency: Frequency,
    pub until: Option<i64>,
}

/// A committed or newly placed interval on the calendar. Timestamps are Unix
/// seconds, `duration` is in seconds.
#[derive(Debug)]
pub struct TimeBlock {
    pub rrule: Option<RecurrenceRule>,
    pub dtstart: i64,
    pub duration: Option<i64>,
    pub dtend: Option<i64>,
    pub uid: String,
    pub summary: String,
    pub dtstamp: i64,
}

impl Clone for TimeBlock {
    fn clone(&self) -> (r: TimeBlock)
        ensures
            r == *self,
    {
        TimeBlock {
            rrule: self.rrule,
            dtstart: self.dtstart,
            duration: self.duration,
            dtend: self.dtend,
            uid: self.uid.clone(),
            summary: self.summary.clone(),
            dtstamp: self.dtstamp,
        }
    }
}

/// Where a block ends: `dtstart + duration` when a duration is given, else
/// `dtend`, else `dtstart` (a point event).
pub open spec fn end_of(b: TimeBlock) -> int {
    match b.duration {
        Some(d) => b.dtstart + d,
        None => match b.dtend {
            Some(e) => e as int,
            None => b.dtstart as int,
        },
    }
}

/// The timing of a block that interval arithmetic can work on: no negative
/// length, and every instant it names lies in the handled range.
pub open spec fn timing_wf(
    rrule: Option<RecurrenceRule>,
    dtstart: i64,
    duration: Option<i64>,
    dtend: Option<i64>,
    dtstamp: i64,
) -> bool {
    &&& in_time_range(dtstart as int)
    &&& in_time_range(dtstamp as int)
    &&& (duration matches Some(d) ==> 0 <= d && in_time_range(dtstart + d))
    &&& (dtend matches Some(e) ==> dtstart <= e && in_time_range(e as int))
    &&& (rrule matches Some(r) ==> (r.until matches Some(u) ==> in_time_range(u as int)))
}

pub open spec fn block_wf(b: TimeBlock) -> bool {
    timing_wf(b.rrule, b.dtstart, b.duration, b.dtend, b.dtstamp)
}

pub open spec fn blocks_wf(bs: Seq<TimeBlock>) -> bool {
    forall|i: int| 0 <= i < bs.len() ==> #[trigger] block_wf(bs[i])
}

/// The effective end of a well-formed block.
pub fn effective_end(b: &TimeBlock) -> (r: i64)
    requires
        block_wf(*b),
    ensures
        r == end_of(*b),
        b.duration matches Some(d) ==> r == b.dtstart + d,
        b.duration is None ==> (b.dtend matches Some(e) ==> r == e),
        b.duration is None && b.dtend is None ==> r == b.dtstart,
        b.dtstart <= r,
        in_time_range(r as int),
{
    match b.duration {
        Some(d) => b.dtstart + d,
        None => match b.dtend {
            Some(e) => e,
            None => b.dtstart,
        },
    }
}

pub open spec fn negative(duration: Option<i64>) -> bool {
    duration matches Some(d) && d < 0
}

pub open spec fn ends_before(dtstart: i64, dtend: Option<i64>) -> bool {
    dtend matches Some(e) && e < dtstart
}

/// The ways a block can be malformed.
#[derive(PartialEq, Eq, Structural, Clone, Copy, Debug)]
pub enum BlockError {
    /// A duration below zero.
    NegativeDuration,
    /// An end before the start.
    EndBeforeStart,
    /// An instant outside the handled range.
    OutOfRange,
}

impl TimeBlock {
    /// Builds a block, refusing a negative length and instants out of range.
    pub fn new(
        uid: String,
        summary: String,
        dtstart: i64,
        duration: Option<i64>,
        dtend: Option<i64>,
        rrule: Option<RecurrenceRule>,
        dtstamp: i64,
    ) -> (r: Result<TimeBlock, BlockError>)
        ensures
            r matches Ok(b) ==> block_wf(b) && b == (TimeBlock {
                rrule,
                dtstart,
                duration,
                dtend,
                uid,
                summary,
                dtstamp,
            }),
            r is Ok <==> block_wf(
                TimeBlock { rrule, dtstart, duration, dtend, uid, summary, dtstamp },
            ),
            r == Err::<TimeBlock, BlockError>(BlockError::NegativeDuration) <==> negative(duration),
            r == Err::<TimeBlock, BlockError>(BlockError::EndBeforeStart) <==> !negative(duration)
                && ends_before(dtstart, dtend),
    {
        if let Some(d) = duration {
            if d < 0 {
                return Err(BlockError::NegativeDuration);
            }
        }
        if let Some(e) = dtend {
            if e < dtstart {
                return Err(BlockError::EndBeforeStart);
            }
        }
        if dtstart < MIN_TIMESTAMP || dtstart > MAX_TIMESTAMP || dtstamp < MIN_TIMESTAMP
            || dtstamp > MAX_TIMESTAMP {
            return Err(BlockError::OutOfRange);
        }
        if let Some(d) = duration {
            if d > MAX_TIMESTAMP - dtstart {
                return Err(BlockError::OutOfRange);
            }
        }
        if let Some(e) = dtend {
            if e > MAX_TIMESTAMP {
                return Err(BlockError::OutOfRange);
            }
        }
        if let Some(rule) = rrule {
            if let Some(u) = rule.until {
                if u < MIN_TIMESTAMP || u > MAX_TIMESTAMP {
                    return Err(BlockError::OutOfRange);
                }
            }
        }
        Ok(TimeBlock { rrule, dtstart, duration, dtend, uid, summary, dtstamp })
    }
}

/// A free interval `[start, end)` between committed blocks.
#[derive(PartialEq, Eq, Structural, Clone, Copy, Debug)]
pub struct Gap {
    pub start: i64,
    pub end: i64,
}

impl Gap {
    /// The gap that follows the last block: from its end, `greatest_dur`
    /// seconds long.
    pub fn last(last_block: i64, greatest_dur: i64) -> (r: Gap)
        requires
            in_time_range(last_block as int),
            0 <= greatest_dur <= MAX_TIMESTAMP - last_block,
        ensures
            r.start == last_block,
            r.end == last_block + greatest_dur,
    {
        Gap { start: last_block, end: last_block + greatest_dur }
    }

}

/// Where a task stands in one scheduling pass.
#[derive(PartialEq, Eq, Structural, Clone, Copy, Debug)]
pub enum TaskStatus {
    /// Not placed yet.
    Pending,
    /// Placed on the calendar in this pass.
    Scheduled,
    /// The part of a split task that is still to be placed.
    Remainder,
}

/// A unit of work: `estimated` seconds of contiguous time, due at `due`.
/// `start`, when given, is the earliest instant at which it may be placed.
#[derive(Debug)]
pub struct Task {
    pub id: usize,
    pub uuid: String,
    pub description: String,
    pub due: i64,
    pub estimated: i64,
    pub status: TaskStatus,
    pub start: Option<i64>,
}

impl Clone for Task {
    fn clone(&self) -> (r: Task)
        ensures
            r == *self,
    {
        Task {
            id: self.id,
            uuid: self.uuid.clone(),
            description: self.description.clone(),
            due: self.due,
            estimated: self.estimated,
            status: self.status,
            start: self.start,
        }
    }
}

/// The longest estimate a task may carry: the whole handled range.
pub open spec fn max_estimate() -> int {
    MAX_TIMESTAMP - MIN_TIMESTAMP
}

pub open spec fn task_wf(t: Task) -> bool {
    &&& 0 < t.estimated <= max_estimate()
    &&& in_time_range(t.due as int)
    &&& (t.start matches Some(s) ==> in_time_range(s as int))
}

pub open spec fn tasks_wf(ts: Seq<Task>) -> bool {
    forall|i: int| 0 <= i < ts.len() ==> #[trigger] task_wf(ts[i])
}

} // verus!
