//! The free time between committed blocks, from a "now" cursor on.

use vstd::prelude::*;
use crate::model::{
    block_wf, blocks_wf, effective_end, end_of, in_time_range, Gap, TimeBlock, MAX_TIMESTAMP,
};
use crate::order::{lemma_stable_order_indices, sort_order, stable_order};

verus! {

pub open spec fn max_int(a: int, b: int) -> int {
    if a >= b { a } else { b }
}

/// The blocks that end after `now`, in input order.
pub open spec fn live_blocks(bs: Seq<TimeBlock>, now: int) -> Seq<TimeBlock>
    decreases bs.len(),
{
    if bs.len() == 0 {
        Seq::empty()
    } else {
        let prev = live_blocks(bs.drop_last(), now);
        if end_of(bs.last()) > now {
            prev.push(bs.last())
        } else {
            prev
        }
    }
}

pub open spec fn start_keys(bs: Seq<TimeBlock>) -> Seq<i64> {
    bs.map_values(|b: TimeBlock| b.dtstart)
}

/// The blocks ordered by start; blocks with equal starts keep their order.
pub open spec fn by_start(bs: Seq<TimeBlock>) -> Seq<TimeBlock> {
    stable_order(start_keys(bs), bs.len()).map_values(|i: int| bs[i])
}

/// The instant up to which `now` and the blocks of `s` cover the timeline.
pub open spec fn cover_end(s: Seq<TimeBlock>, now: int) -> int
    decreases s.len(),
{
    if s.len() == 0 {
        now
    } else {
        max_int(cover_end(s.drop_last(), now), end_of(s.last()))
    }
}

/// The free intervals before and between the blocks of `s` (ordered by
/// start): a block that starts after everything before it has ended opens a
/// gap from that end to its start. Overlapping and nested blocks are merged.
pub open spec fn inner_gaps(s: Seq<TimeBlock>, now: int) -> Seq<Gap>
    decreases s.len(),
{
    if s.len() == 0 {
        Seq::empty()
    } else {
        let prev = inner_gaps(s.drop_last(), now);
        let c = cover_end(s.drop_last(), now);
        if c < s.last().dtstart {
            prev.push(Gap { start: c as i64, end: s.last().dtstart })
        } else {
            prev
        }
    }
}

/// The gap after everything: `margin` seconds long, cut at the end of the
/// handled range, and left out when empty.
pub open spec fn trailing_gap(c: int, margin: int) -> Seq<Gap> {
    let e = if c + margin <= MAX_TIMESTAMP { c + margin } else { MAX_TIMESTAMP as int };
    if c < e {
        seq![Gap { start: c as i64, end: e as i64 }]
    } else {
        Seq::empty()
    }
}

/// The free time from `now` on around the concrete blocks `bs`: past blocks
/// are dropped, the rest ordered by start, and a trailing gap of `margin`
/// seconds follows the last of them.
pub open spec fn free_gaps(bs: Seq<TimeBlock>, now: int, margin: int) -> Seq<Gap> {
    let s = by_start(live_blocks(bs, now));
    inner_gaps(s, now) + trailing_gap(cover_end(s, now), margin)
}

/// Computes the free gaps around concrete blocks (see `free_gaps`). Every gap
/// is non-empty and starts no earlier than `now`, and the gaps come in order
/// without overlapping.
pub fn find_the_gaps(blocks: &Vec<TimeBlock>, now: i64, margin: i64) -> (r: Vec<Gap>)
    requires
        blocks_wf(blocks@),
        in_time_range(now as int),
        margin >= 0,
    ensures
        r@ == free_gaps(blocks@, now as int, margin as int),
        forall|i: int| 0 <= i < r@.len() ==> now <= (#[trigger] r@[i]).start < r@[i].end <= MAX_TIMESTAMP,
        forall|i: int, j: int| 0 <= i < j < r@.len() ==> r@[i].end <= r@[j].start,
{
    let mut live: Vec<TimeBlock> = Vec::new();
    let mut i: usize = 0;
    while i < blocks.len()
        invariant
            i <= blocks.len(),
            blocks_wf(blocks@),
            live@ == live_blocks(blocks@.subrange(0, i as int), now as int),
            blocks_wf(live@),
        decreases blocks.len() - i,
    {
        let ghost pre = blocks@.subrange(0, i as int + 1);
        assert(pre.drop_last() =~= blocks@.subrange(0, i as int));
        if effective_end(&blocks[i]) > now {
            live.push(blocks[i].clone());
        }
        i = i + 1;
    }
    assert(blocks@.subrange(0, blocks.len() as int) =~= blocks@);
    let mut keys: Vec<i64> = Vec::new();
    let mut i: usize = 0;
    while i < live.len()
        invariant
            i <= live.len(),
            keys@ =~= start_keys(live@.subrange(0, i as int)),
        decreases live.len() - i,
    {
        keys.push(live[i].dtstart);
        i = i + 1;
    }
    assert(live@.subrange(0, live.len() as int) =~= live@);
    let order = sort_order(&keys);
    let ghost sorted = by_start(live@);
    proof {
        assert(keys@ =~= start_keys(live@));
        lemma_stable_order_indices(start_keys(live@), live@.len());
    }
    assert(sorted.len() == order@.len());
    assert forall|j: int| 0 <= j < order@.len() implies sorted[j] == live@[order@[j] as int] by {}
    let mut gaps: Vec<Gap> = Vec::new();
    let mut cursor: i64 = now;
    let mut j: usize = 0;
    while j < order.len()
        invariant
            j <= order@.len(),
            order@.len() == live@.len(),
            sorted.len() == order@.len(),
            blocks_wf(live@),
            in_time_range(now as int),
            forall|k: int| 0 <= k < order@.len() ==> #[trigger] order@[k] < live@.len(),
            forall|k: int| 0 <= k < order@.len() ==> sorted[k] == live@[#[trigger] order@[k] as int],
            gaps@ == inner_gaps(sorted.subrange(0, j as int), now as int),
            cursor == cover_end(sorted.subrange(0, j as int), now as int),
            now <= cursor <= MAX_TIMESTAMP,
            forall|k: int| 0 <= k < gaps@.len() ==> now <= (#[trigger] gaps@[k]).start < gaps@[k].end
                <= cursor,
            forall|a: int, b: int| 0 <= a < b < gaps@.len() ==> gaps@[a].end <= gaps@[b].start,
        decreases order@.len() - j,
    {
        let ghost pre = sorted.subrange(0, j as int + 1);
        assert(pre.drop_last() =~= sorted.subrange(0, j as int));
        let b = &live[order[j]];
        assert(block_wf(*b));
        if cursor < b.dtstart {
            gaps.push(Gap { start: cursor, end: b.dtstart });
        }
        let e = effective_end(b);
        if e > cursor {
            cursor = e;
        }
        j = j + 1;
    }
    assert(sorted.subrange(0, order@.len() as int) =~= sorted);
    let mut room: i64 = MAX_TIMESTAMP - cursor;
    if margin <= room {
        room = margin;
    }
    if room > 0 {
        gaps.push(Gap::last(cursor, room));
    }
    assert(gaps@ =~= free_gaps(blocks@, now as int, margin as int));
    gaps
}

/// Blocks ordered by start that do not overlap: each ends before any later
/// one starts.
pub open spec fn disjoint_in_order(s: Seq<TimeBlock>) -> bool {
    forall|j: int, k: int| 0 <= j < k < s.len() ==> end_of(s[j]) <= s[k].dtstart
}

proof fn lemma_cover_end_disjoint(s: Seq<TimeBlock>, now: int)
    requires
        s.len() > 0,
        blocks_wf(s),
        disjoint_in_order(s),
    ensures
        cover_end(s, now) == max_int(now, end_of(s.last())),
    decreases s.len(),
{
    if s.len() > 1 {
        let pre = s.drop_last();
        assert(disjoint_in_order(pre)) by {
            assert forall|j: int, k: int| 0 <= j < k < pre.len() implies end_of(pre[j]) <= pre[k].dtstart by {
                assert(pre[j] == s[j] && pre[k] == s[k]);
            }
        }
        assert(blocks_wf(pre)) by {
            assert forall|j: int| 0 <= j < pre.len() implies #[trigger] block_wf(pre[j]) by {
                assert(pre[j] == s[j]);
            }
        }
        lemma_cover_end_disjoint(pre, now);
        assert(pre.last() == s[s.len() - 2]);
        assert(block_wf(s.last()));
        assert(end_of(s[s.len() - 2]) <= s.last().dtstart);
    } else {
        assert(s.drop_last().len() == 0);
        assert(cover_end(s.drop_last(), now) == now);
    }
    assert(block_wf(s[s.len() - 1]));
    assert(s[s.len() - 1].dtstart <= end_of(s.last()));
}

/// Between two neighbouring blocks that do not overlap, the free time from
/// the first one's effective end (its start plus its duration when it has
/// one, else its end) to the next one's start is a gap, when that end lies
/// after `now`.
pub proof fn lemma_gap_after_block(s: Seq<TimeBlock>, now: int, i: int)
    requires
        blocks_wf(s),
        disjoint_in_order(s),
        0 <= i && i + 1 < s.len(),
        now < end_of(s[i]) < s[i + 1].dtstart,
    ensures
        exists|g: int|
            0 <= g < inner_gaps(s, now).len() && #[trigger] inner_gaps(s, now)[g] == (Gap {
                start: end_of(s[i]) as i64,
                end: s[i + 1].dtstart,
            }),
    decreases s.len(),
{
    let pre = s.drop_last();
    assert(disjoint_in_order(pre)) by {
        assert forall|j: int, k: int| 0 <= j < k < pre.len() implies end_of(pre[j]) <= pre[k].dtstart by {
            assert(pre[j] == s[j] && pre[k] == s[k]);
        }
    }
    assert(blocks_wf(pre)) by {
        assert forall|j: int| 0 <= j < pre.len() implies #[trigger] block_wf(pre[j]) by {
            assert(pre[j] == s[j]);
        }
    }
    let target = Gap { start: end_of(s[i]) as i64, end: s[i + 1].dtstart };
    if i + 1 == s.len() - 1 {
        lemma_cover_end_disjoint(pre, now);
        assert(pre.last() == s[i]);
        let g = inner_gaps(pre, now).len() as int;
        assert(inner_gaps(s, now)[g] == target);
    } else {
        assert(pre[i] == s[i] && pre[i + 1] == s[i + 1]);
        lemma_gap_after_block(pre, now, i);
        let g = choose|g: int|
            0 <= g < inner_gaps(pre, now).len() && #[trigger] inner_gaps(pre, now)[g] == target;
        assert(inner_gaps(s, now)[g] == target);
    }
}

} // verus!
