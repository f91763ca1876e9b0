//! Availability for a meeting poll: quarter-hour slots of the poll, marked
//! free when they lie inside a gap of the calendar.

use vstd::prelude::*;
use crate::gaps::{find_the_gaps, free_gaps};
use crate::model::{blocks_wf, in_time_range, Gap, TimeBlock, MAX_TIMESTAMP};
use crate::recurrence::{expand_all, expand_blocks};
use crate::text::string_of;

verus! {

/// The length of one poll slot.
pub const SLOT_SECONDS: i64 = 900;

/// The `k`-th slot of day `j` of a poll whose first slot starts at `first`.
pub open spec fn poll_slot(first: int, j: int, k: int) -> Gap {
    Gap { start: (first + j * 86400 + k * 900) as i64, end: (first + j * 86400 + k * 900 + 900) as i64 }
}

/// The number of poll days: days whose first slot starts before the slot
/// after `last` ends.
pub open spec fn poll_days(first: int, last: int) -> nat {
    if last + 900 <= first {
        0
    } else {
        ((last + 900 - first - 1) / 86400 + 1) as nat
    }
}

/// The slots of a poll: `blocks_per_day` quarter hours each day from the time
/// of day of `startday`, day after day while a day starts before `endday`'s
/// slot ends.
pub fn get_blocks(startday: i64, endday: i64, blocks_per_day: usize) -> (r: Vec<Gap>)
    requires
        in_time_range(startday as int),
        in_time_range(endday as int),
        blocks_per_day * 900 <= 86400,
    ensures
        r@.len() == poll_days(startday as int, endday as int) * blocks_per_day,
        forall|j: int, k: int|
            0 <= j < poll_days(startday as int, endday as int) && 0 <= k < blocks_per_day ==> r@[j
                * blocks_per_day + k] == poll_slot(startday as int, j, k),
{
    let mut out: Vec<Gap> = Vec::new();
    let stop = endday + SLOT_SECONDS;
    let mut day_start = startday;
    let mut j: usize = 0;
    let ghost days = poll_days(startday as int, endday as int);
    while day_start < stop
        invariant
            in_time_range(startday as int),
            stop == endday + 900,
            stop <= MAX_TIMESTAMP + 900,
            blocks_per_day * 900 <= 86400,
            days == poll_days(startday as int, endday as int),
            day_start == startday + j * 86400,
            j > 0 ==> day_start - 86400 < stop,
            j <= days,
            day_start < stop ==> j < days,
            out@.len() == j * blocks_per_day,
            forall|a: int, k: int|
                0 <= a < j && 0 <= k < blocks_per_day ==> out@[a * blocks_per_day + k] == poll_slot(
                    startday as int,
                    a,
                    k,
                ),
        decreases days - j,
    {
        let mut k: usize = 0;
        let mut t = day_start;
        while k < blocks_per_day
            invariant
                k <= blocks_per_day,
                blocks_per_day * 900 <= 86400,
                day_start < stop <= MAX_TIMESTAMP + 900,
                day_start == startday + j * 86400,
                t == day_start + k * 900,
                out@.len() == j * blocks_per_day + k,
                forall|a: int, kk: int|
                    0 <= a < j && 0 <= kk < blocks_per_day ==> out@[a * blocks_per_day + kk] == poll_slot(
                        startday as int,
                        a,
                        kk,
                    ),
                forall|kk: int| 0 <= kk < k ==> out@[j * blocks_per_day + kk] == poll_slot(startday as int, j as int, kk),
            decreases blocks_per_day - k,
        {
            proof {
                assert(k * 900 < 86400) by (nonlinear_arith)
                    requires
                        k < blocks_per_day,
                        blocks_per_day * 900 <= 86400,
                ;
            }
            out.push(Gap { start: t, end: t + SLOT_SECONDS });
            proof {
                assert forall|a: int, kk: int|
                    0 <= a < j && 0 <= kk < blocks_per_day implies out@[a * blocks_per_day + kk] == poll_slot(
                        startday as int,
                        a,
                        kk,
                    ) by {
                    assert(a * blocks_per_day + kk < j * blocks_per_day) by (nonlinear_arith)
                        requires
                            0 <= a < j,
                            0 <= kk < blocks_per_day,
                    ;
                }
            }
            t = t + SLOT_SECONDS;
            k = k + 1;
        }
        proof {
            assert((j + 1) * blocks_per_day == j * blocks_per_day + blocks_per_day) by (nonlinear_arith);
            assert forall|a: int, kk: int|
                0 <= a < j + 1 && 0 <= kk < blocks_per_day implies out@[a * blocks_per_day + kk] == poll_slot(
                    startday as int,
                    a,
                    kk,
                ) by {
                if a == j {
                }
            }
            assert(startday + (j + 1) * 86400 == day_start + 86400) by (nonlinear_arith)
                requires
                    day_start == startday + j * 86400,
            ;
            let d = stop - startday;
            assert(j < days);
            if day_start + 86400 < stop {
                assert(j + 1 < days) by (nonlinear_arith)
                    requires
                        day_start == startday + j * 86400,
                        day_start + 86400 < stop,
                        days == (stop - startday - 1) / 86400 + 1,
                        stop > startday,
                {
                    vstd::arithmetic::div_mod::lemma_fundamental_div_mod(stop - startday - 1, 86400);
                }
            }
        }
        day_start = day_start + 86400;
        j = j + 1;
    }
    proof {
        if j < days {
            assert(false) by (nonlinear_arith)
                requires
                    day_start == startday + j * 86400,
                    day_start >= stop,
                    j < days,
                    days == (if stop <= startday { 0 } else { (stop - startday - 1) / 86400 + 1 }),
            {
                if stop > startday {
                    vstd::arithmetic::div_mod::lemma_fundamental_div_mod(stop - startday - 1, 86400);
                }
            }
        }
    }
    out
}

/// A slot is free when it lies inside a gap that starts after `after`.
pub open spec fn slot_free(gaps: Seq<Gap>, s: Gap, after: int) -> bool {
    exists|g: int|
        0 <= g < gaps.len() && gaps[g].start > after && s.start >= gaps[g].start && s.end
            <= gaps[g].end
}

pub open spec fn mark(free: bool) -> char {
    if free { '1' } else { '0' }
}

/// One mark per slot: `1` for a free slot, `0` for a busy one.
pub fn mark_free_slots(gaps: &Vec<Gap>, slots: &Vec<Gap>, after: i64) -> (r: Vec<char>)
    ensures
        r@.len() == slots@.len(),
        forall|i: int| 0 <= i < slots@.len() ==> r@[i] == mark(slot_free(gaps@, slots@[i], after as int)),
{
    let mut out: Vec<char> = Vec::new();
    let mut i: usize = 0;
    while i < slots.len()
        invariant
            i <= slots@.len(),
            out@.len() == i,
            forall|x: int| 0 <= x < i ==> out@[x] == mark(slot_free(gaps@, slots@[x], after as int)),
        decreases slots@.len() - i,
    {
        let s = slots[i];
        let mut free = false;
        let mut g: usize = 0;
        while g < gaps.len()
            invariant
                g <= gaps@.len(),
                s == slots@[i as int],
                free ==> slot_free(gaps@, s, after as int),
                !free ==> forall|y: int|
                    0 <= y < g ==> !(gaps@[y].start > after && s.start >= gaps@[y].start && s.end
                        <= gaps@[y].end),
            decreases gaps@.len() - g,
        {
            let gap = gaps[g];
            if gap.start > after && s.start >= gap.start && s.end <= gap.end {
                free = true;
            }
            g = g + 1;
        }
        out.push(if free { '1' } else { '0' });
        i = i + 1;
    }
    out
}

/// The availability string of a poll: one mark per slot of `get_blocks`,
/// free when the slot lies inside a gap of the calendar (recurring blocks
/// expanded up to the end of the poll, no trailing gap) that starts after
/// `startday`.
pub fn find_times_availaible(
    blocks: &Vec<TimeBlock>,
    now: i64,
    startday: i64,
    endday: i64,
    blocks_per_day: usize,
) -> (r: String)
    requires
        blocks_wf(blocks@),
        in_time_range(now as int),
        in_time_range(startday as int),
        in_time_range(endday as int),
        blocks_per_day * 900 <= 86400,
    ensures
        r@.len() == poll_days(startday as int, endday as int) * blocks_per_day,
        forall|j: int, k: int|
            0 <= j < poll_days(startday as int, endday as int) && 0 <= k < blocks_per_day ==> r@[j
                * blocks_per_day + k] == mark(
                slot_free(
                    free_gaps(expand_all(blocks@, endday + 900), now as int, 0),
                    poll_slot(startday as int, j, k),
                    startday as int,
                ),
            ),
{
    let concrete = expand_blocks(blocks, endday + SLOT_SECONDS);
    let gaps = find_the_gaps(&concrete, now, 0);
    let slots = get_blocks(startday, endday, blocks_per_day);
    let marks = mark_free_slots(&gaps, &slots, startday);
    proof {
        assert forall|j: int, k: int|
            0 <= j < poll_days(startday as int, endday as int) && 0 <= k < blocks_per_day implies
            #[trigger] poll_slot(startday as int, j, k) == slots@[j * blocks_per_day + k] && j
            * blocks_per_day + k < marks@.len() by {
            assert(0 <= j * blocks_per_day + k < poll_days(startday as int, endday as int) * blocks_per_day) by (nonlinear_arith)
                requires
                    0 <= j < poll_days(startday as int, endday as int),
                    0 <= k < blocks_per_day,
            ;
        }
    }
    string_of(&marks)
}

} // verus!
