//! Expansion of recurring blocks into concrete occurrences.

use vstd::prelude::*;
use crate::model::{
    block_wf, blocks_wf, effective_end, end_of, Frequency, TimeBlock, MAX_TIMESTAMP,
    RecurrenceRule, SECONDS_PER_DAY, SECONDS_PER_WEEK, SECONDS_PER_YEAR,
};

verus! {

pub open spec fn min_int(a: int, b: int) -> int {
    if a <= b { a } else { b }
}

/// The length in seconds of a block.
pub open spec fn block_length(b: TimeBlock) -> int {
    end_of(b) - b.dtstart
}

/// The latest start an occurrence of `b` may have: none at or after the
/// horizon, none after the rule's `until`, and none ending past the handled
/// range.
pub open spec fn last_start(b: TimeBlock, freq_until: Option<i64>, horizon: int) -> int {
    let lim = min_int(horizon - 1, MAX_TIMESTAMP - block_length(b));
    match freq_until {
        Some(u) => min_int(lim, u as int),
        None => lim,
    }
}

/// How many occurrences a recurring block has below the horizon.
pub open spec fn occurrence_count(b: TimeBlock, freq: Frequency, until: Option<i64>, horizon: int) -> nat {
    let last = last_start(b, until, horizon);
    if last < b.dtstart {
        0
    } else {
        ((last - b.dtstart) / freq.spec_period() + 1) as nat
    }
}

/// The `k`-th occurrence: shifted by `k` nominal periods, no longer recurring,
/// with its end moved along.
pub open spec fn occurrence(b: TimeBlock, freq: Frequency, k: int) -> TimeBlock {
    let shift = k * freq.spec_period();
    let s = b.dtstart + shift;
    TimeBlock {
        rrule: None,
        dtstart: s as i64,
        duration: b.duration,
        dtend: match b.duration {
            Some(d) => Some((s + d) as i64),
            None => match b.dtend {
                Some(e) => Some((e + shift) as i64),
                None => None,
            },
        },
        uid: b.uid,
        summary: b.summary,
        dtstamp: b.dtstamp,
    }
}

/// The concrete blocks that `b` stands for below `horizon`: `b` itself when
/// it does not recur.
pub open spec fn expansion(b: TimeBlock, horizon: int) -> Seq<TimeBlock> {
    match b.rrule {
        None => seq![b],
        Some(r) => Seq::new(
            occurrence_count(b, r.frequency, r.until, horizon),
            |k: int| occurrence(b, r.frequency, k),
        ),
    }
}

/// The expansions of all blocks, in order.
pub open spec fn expand_all(bs: Seq<TimeBlock>, horizon: int) -> Seq<TimeBlock>
    decreases bs.len(),
{
    if bs.len() == 0 {
        Seq::empty()
    } else {
        expand_all(bs.drop_last(), horizon) + expansion(bs.last(), horizon)
    }
}

/// Expands one block below `horizon`.
pub fn expand_block(b: &TimeBlock, horizon: i64) -> (r: Vec<TimeBlock>)
    requires
        block_wf(*b),
    ensures
        r@ == expansion(*b, horizon as int),
        blocks_wf(r@),
{
    let rule = match b.rrule {
        None => {
            return vec![b.clone()];
        },
        Some(rule) => rule,
    };
    let mut out: Vec<TimeBlock> = Vec::new();
    if horizon <= b.dtstart {
        assert(out@ =~= expansion(*b, horizon as int));
        return out;
    }
    let period = rule.frequency.period();
    let len = effective_end(b) - b.dtstart;
    let mut last: i64 = MAX_TIMESTAMP - len;
    if horizon - 1 < last {
        last = horizon - 1;
    }
    if let Some(u) = rule.until {
        if u < last {
            last = u;
        }
    }
    assert(last == last_start(*b, rule.until, horizon as int));
    let ghost count = occurrence_count(*b, rule.frequency, rule.until, horizon as int);
    let mut s: i64 = b.dtstart;
    let mut k: i64 = 0;
    while s <= last
        invariant
            block_wf(*b),
            b.rrule == Some(rule),
            period == rule.frequency.spec_period(),
            len == block_length(*b),
            last == last_start(*b, rule.until, horizon as int),
            count == occurrence_count(*b, rule.frequency, rule.until, horizon as int),
            s == b.dtstart + k * period,
            k == 0 || s - period <= last,
            b.dtstart <= s,
            k > 0 ==> s <= last + period,
            k > 0 ==> b.dtstart <= last,
            s <= MAX_TIMESTAMP + SECONDS_PER_YEAR,
            period >= SECONDS_PER_DAY,
            last <= MAX_TIMESTAMP,
            0 <= k <= s - b.dtstart,
            out@ == Seq::new(k as nat, |j: int| occurrence(*b, rule.frequency, j)),
            blocks_wf(out@),
        decreases last + period - s,
    {
        let dtend = match b.duration {
            Some(d) => Some(s + d),
            None => match b.dtend {
                Some(e) => Some(e - b.dtstart + s),
                None => None,
            },
        };
        let occ = TimeBlock {
            rrule: None,
            dtstart: s,
            duration: b.duration,
            dtend,
            uid: b.uid.clone(),
            summary: b.summary.clone(),
            dtstamp: b.dtstamp,
        };
        assert(occ == occurrence(*b, rule.frequency, k as int));
        assert(block_wf(occ));
        out.push(occ);
        assert(out@ =~= Seq::new((k + 1) as nat, |j: int| occurrence(*b, rule.frequency, j)));
        proof {
            assert(b.dtstart + (k + 1) * period == s + period) by (nonlinear_arith)
                requires
                    s == b.dtstart + k * period;
        }
        s = s + period;
        k = k + 1;
    }
    proof {
        let p = period as int;
        let d = last - b.dtstart;
        if k == 0 {
            assert(last < b.dtstart);
        } else {
            assert(d / p == k - 1) by (nonlinear_arith)
                requires
                    s == b.dtstart + k * p,
                    s - p <= last,
                    s > last,
                    d == last - b.dtstart,
                    p > 0,
                    k > 0,
            {
                vstd::arithmetic::div_mod::lemma_fundamental_div_mod(d, p);
            }
            assert(last >= b.dtstart);
            assert(count == (d / p + 1) as nat);
        }
        assert(k == count);
        assert(out@ =~= expansion(*b, horizon as int));
    }
    out
}

/// Expands every block below `horizon`, keeping the order of the input.
pub fn expand_blocks(blocks: &Vec<TimeBlock>, horizon: i64) -> (r: Vec<TimeBlock>)
    requires
        blocks_wf(blocks@),
    ensures
        r@ == expand_all(blocks@, horizon as int),
        blocks_wf(r@),
{
    let mut out: Vec<TimeBlock> = Vec::new();
    let mut i: usize = 0;
    while i < blocks.len()
        invariant
            i <= blocks.len(),
            blocks_wf(blocks@),
            out@ == expand_all(blocks@.subrange(0, i as int), horizon as int),
            blocks_wf(out@),
        decreases blocks.len() - i,
    {
        let mut more = expand_block(&blocks[i], horizon);
        let ghost before = out@;
        out.append(&mut more);
        proof {
            let pre = blocks@.subrange(0, i as int + 1);
            assert(pre.drop_last() =~= blocks@.subrange(0, i as int));
            assert(pre.last() == blocks@[i as int]);
            assert(blocks_wf(out@)) by {
                assert forall|j: int| 0 <= j < out@.len() implies #[trigger] block_wf(out@[j]) by {
                    if j >= before.len() {
                        assert(out@[j] == expansion(blocks@[i as int], horizon as int)[j - before.len()]);
                    }
                }
            }
        }
        i = i + 1;
    }
    assert(blocks@.subrange(0, blocks.len() as int) =~= blocks@);
    out
}

/// Weekly stepping is exact: a weekly block expanded below a horizon three
/// weeks after its start has exactly three occurrences, one week apart,
/// the first at its own start.
pub proof fn lemma_weekly_three_weeks(b: TimeBlock, until: Option<i64>)
    requires
        block_wf(b),
        b.rrule == Some(RecurrenceRule { frequency: Frequency::Weekly, until }),
        until matches Some(u) ==> u >= b.dtstart + 2 * SECONDS_PER_WEEK,
        b.dtstart + 2 * SECONDS_PER_WEEK + block_length(b) <= MAX_TIMESTAMP,
    ensures
        ({
            let occ = expansion(b, b.dtstart + 3 * SECONDS_PER_WEEK);
            &&& occ.len() == 3
            &&& occ[0].dtstart == b.dtstart
            &&& occ[1].dtstart == b.dtstart + SECONDS_PER_WEEK
            &&& occ[2].dtstart == b.dtstart + 2 * SECONDS_PER_WEEK
            &&& forall|i: int| 0 <= i < 3 ==> (#[trigger] occ[i]).rrule is None
        }),
{
    let h = b.dtstart + 3 * SECONDS_PER_WEEK;
    let last = last_start(b, until, h);
    assert(b.dtstart + 2 * SECONDS_PER_WEEK <= last < b.dtstart + 3 * SECONDS_PER_WEEK);
    assert((last - b.dtstart) / SECONDS_PER_WEEK as int == 2);
}

} // verus!
