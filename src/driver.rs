//! One scheduling pass, fresh or from an already annotated calendar.

use vstd::prelude::*;
use crate::fitter::{
    assigned_once, distinct_uuids, fit, fit_tasks, gap_wf, placements_wf, FitResult, Placement,
};
use crate::gaps::{find_the_gaps, free_gaps};
use crate::model::{
    block_wf, blocks_wf, effective_end, end_of, in_time_range, task_wf, tasks_wf, Task,
    TaskStatus, TimeBlock,
};
use crate::order::{lemma_stable_order_distinct, lemma_stable_order_indices, sort_order, stable_order};
use crate::recurrence::{expand_all, expand_blocks};

verus! {

pub open spec fn due_keys(ts: Seq<Task>) -> Seq<i64> {
    ts.map_values(|t: Task| t.due)
}

/// The tasks ordered by due time; tasks due at the same instant keep their
/// order.
pub open spec fn by_due(ts: Seq<Task>) -> Seq<Task> {
    stable_order(due_keys(ts), ts.len()).map_values(|i: int| ts[i])
}

/// Orders tasks by due time, stably.
pub fn sort_by_due(tasks: &Vec<Task>) -> (r: Vec<Task>)
    ensures
        r@ == by_due(tasks@),
        forall|a: int, b: int| 0 <= a < b < r@.len() ==> r@[a].due <= r@[b].due,
{
    let mut keys: Vec<i64> = Vec::new();
    let mut i: usize = 0;
    while i < tasks.len()
        invariant
            i <= tasks@.len(),
            keys@ =~= due_keys(tasks@.subrange(0, i as int)),
        decreases tasks@.len() - i,
    {
        keys.push(tasks[i].due);
        i = i + 1;
    }
    assert(tasks@.subrange(0, tasks@.len() as int) =~= tasks@);
    assert(keys@ =~= due_keys(tasks@));
    let order = sort_order(&keys);
    proof {
        lemma_stable_order_indices(due_keys(tasks@), tasks@.len());
    }
    let ghost target = by_due(tasks@);
    let mut out: Vec<Task> = Vec::new();
    let mut j: usize = 0;
    while j < order.len()
        invariant
            j <= order@.len(),
            order@.len() == tasks@.len(),
            target == by_due(tasks@),
            target.len() == order@.len(),
            keys@ == due_keys(tasks@),
            forall|k: int| 0 <= k < order@.len() ==> #[trigger] order@[k] < tasks@.len(),
            forall|k: int| 0 <= k < order@.len() ==> target[k] == tasks@[#[trigger] order@[k] as int],
            forall|a: int, b: int| 0 <= a < b < order@.len() ==> keys@[order@[a] as int] <= keys@[order@[b] as int],
            out@ =~= target.subrange(0, j as int),
        decreases order@.len() - j,
    {
        out.push(tasks[order[j]].clone());
        j = j + 1;
    }
    assert forall|a: int, b: int| 0 <= a < b < out@.len() implies out@[a].due <= out@[b].due by {
        assert(keys@[order@[a] as int] <= keys@[order@[b] as int]);
    }
    out
}

/// The largest estimate among the tasks, 0 when there are none.
pub open spec fn max_estimate_of(ts: Seq<Task>) -> int
    decreases ts.len(),
{
    if ts.len() == 0 {
        0
    } else {
        let prev = max_estimate_of(ts.drop_last());
        if ts.last().estimated > prev { ts.last().estimated as int } else { prev }
    }
}

fn largest_estimate(tasks: &Vec<Task>) -> (r: i64)
    requires
        tasks_wf(tasks@),
    ensures
        r == max_estimate_of(tasks@),
        0 <= r <= crate::model::max_estimate(),
{
    let mut m: i64 = 0;
    let mut i: usize = 0;
    while i < tasks.len()
        invariant
            i <= tasks@.len(),
            tasks_wf(tasks@),
            m == max_estimate_of(tasks@.subrange(0, i as int)),
            0 <= m <= crate::model::max_estimate(),
        decreases tasks@.len() - i,
    {
        let ghost pre = tasks@.subrange(0, i as int + 1);
        assert(pre.drop_last() =~= tasks@.subrange(0, i as int));
        assert(task_wf(tasks@[i as int]));
        if tasks[i].estimated > m {
            m = tasks[i].estimated;
        }
        i = i + 1;
    }
    assert(tasks@.subrange(0, tasks@.len() as int) =~= tasks@);
    m
}

/// The later of `now` and the end of the last of the blocks.
pub open spec fn blocks_end(bs: Seq<TimeBlock>, now: int) -> int
    decreases bs.len(),
{
    if bs.len() == 0 {
        now
    } else {
        let prev = blocks_end(bs.drop_last(), now);
        if end_of(bs.last()) > prev { end_of(bs.last()) } else { prev }
    }
}

fn latest_block_end(blocks: &Vec<TimeBlock>, now: i64) -> (r: i64)
    requires
        blocks_wf(blocks@),
        in_time_range(now as int),
    ensures
        r == blocks_end(blocks@, now as int),
        in_time_range(r as int),
{
    let mut e: i64 = now;
    let mut i: usize = 0;
    while i < blocks.len()
        invariant
            i <= blocks@.len(),
            blocks_wf(blocks@),
            e == blocks_end(blocks@.subrange(0, i as int), now as int),
            in_time_range(e as int),
        decreases blocks@.len() - i,
    {
        let ghost pre = blocks@.subrange(0, i as int + 1);
        assert(pre.drop_last() =~= blocks@.subrange(0, i as int));
        let x = effective_end(&blocks[i]);
        if x > e {
            e = x;
        }
        i = i + 1;
    }
    assert(blocks@.subrange(0, blocks@.len() as int) =~= blocks@);
    e
}

pub open spec fn placed_blocks(ps: Seq<Placement>) -> Seq<TimeBlock> {
    ps.map_values(|p: Placement| p.block)
}

/// The fitting pass of a scheduling run at `now`: tasks in due order;
/// recurring blocks expanded up to `now` plus the largest estimate; the free
/// gaps around the concrete blocks, with a trailing gap as long as the largest
/// estimate; overflow after the last concrete block. New blocks carry `now`
/// as their stamp.
pub open spec fn plan(ts: Seq<Task>, bs: Seq<TimeBlock>, now: int, split: bool) -> (
    Seq<Task>,
    Seq<Placement>,
) {
    let m = max_estimate_of(ts);
    let concrete = expand_all(bs, now + m);
    fit(by_due(ts), free_gaps(concrete, now, m), blocks_end(concrete, now), split, now as i64)
}

/// The result of a scheduling run: the tasks (in due order, with statuses),
/// the placements made, and the calendar to publish.
#[derive(Debug)]
pub struct Plan {
    pub tasks: Vec<Task>,
    pub placements: Vec<Placement>,
    pub calendar: Vec<TimeBlock>,
}

/// The placement holds task `k` of `ts`: it carries the task's uuid and
/// starts no earlier than the task may.
pub open spec fn placed_from(ts: Seq<Task>, p: Placement, k: int) -> bool {
    &&& 0 <= k < ts.len()
    &&& p.block.uid == ts[k].uuid
    &&& (ts[k].start matches Some(h) ==> h <= p.block.dtstart)
}

/// A fresh scheduling run at `now`: every block is fixed; the published
/// calendar is the fixed blocks as given followed by the new blocks.
pub fn plan_schedule(tasks: Vec<Task>, blocks: Vec<TimeBlock>, now: i64, allow_split: bool) -> (r: Plan)
    requires
        tasks_wf(tasks@),
        blocks_wf(blocks@),
        in_time_range(now as int),
    ensures
        (r.tasks@, r.placements@) == plan(tasks@, blocks@, now as int, allow_split),
        r.calendar@ == blocks@ + placed_blocks(r.placements@),
        blocks_wf(r.calendar@),
        assigned_once(by_due(tasks@), r.tasks@, r.placements@),
        !allow_split ==> forall|a: int|
            0 <= a < r.placements@.len() ==> placed_from(
                tasks@,
                #[trigger] r.placements@[a],
                stable_order(due_keys(tasks@), tasks@.len())[r.placements@[a].task as int],
            ),
        !allow_split && distinct_uuids(tasks@) ==> forall|a: int, b: int|
            0 <= a < b < r.placements@.len() ==> r.placements@[a].block.uid@
                != r.placements@[b].block.uid@,
{
    let sorted = sort_by_due(&tasks);
    proof {
        lemma_stable_order_indices(due_keys(tasks@), tasks@.len());
        assert forall|k: int| 0 <= k < sorted@.len() implies #[trigger] task_wf(sorted@[k]) by {
            let i = stable_order(due_keys(tasks@), tasks@.len())[k];
            assert(sorted@[k] == tasks@[i]);
        }
    }
    let m = largest_estimate(&tasks);
    let concrete = expand_blocks(&blocks, now + m);
    let gaps = find_the_gaps(&concrete, now, m);
    let end = latest_block_end(&concrete, now);
    assert forall|k: int| 0 <= k < gaps@.len() implies gap_wf(#[trigger] gaps@[k]) by {
        assert(now <= gaps@[k].start < gaps@[k].end);
    }
    proof {
        lemma_stable_order_distinct(due_keys(tasks@), tasks@.len());
        let o = stable_order(due_keys(tasks@), tasks@.len());
        if distinct_uuids(tasks@) {
            assert forall|i: int, j: int| 0 <= i < j < sorted@.len() implies sorted@[i].uuid@
                != sorted@[j].uuid@ by {
                assert(sorted@[i] == tasks@[o[i]] && sorted@[j] == tasks@[o[j]]);
                if o[i] < o[j] {
                } else {
                }
            }
        }
    }
    let ghost sorted_view = sorted@;
    let FitResult { tasks: out_tasks, placements } = fit_tasks(sorted, &gaps, end, allow_split, now);
    proof {
        let o = stable_order(due_keys(tasks@), tasks@.len());
        if !allow_split {
            reveal(assigned_once);
            assert forall|a: int| 0 <= a < placements@.len() implies placed_from(
                tasks@,
                #[trigger] placements@[a],
                o[placements@[a].task as int],
            ) by {
                let t = placements@[a].task as int;
                assert(out_tasks@[t] == Task { status: out_tasks@[t].status, ..sorted_view[t] });
                assert(sorted_view[t] == tasks@[o[t]]);
            }
        }
    }
    let mut calendar = blocks;
    let ghost fixed = calendar@;
    let mut i: usize = 0;
    proof {
        reveal(placements_wf);
    }
    while i < placements.len()
        invariant
            i <= placements@.len(),
            fixed == blocks@,
            blocks_wf(fixed),
            forall|a: int| 0 <= a < placements@.len() ==> block_wf(#[trigger] placements@[a].block),
            calendar@ =~= fixed + placed_blocks(placements@.subrange(0, i as int)),
            blocks_wf(calendar@),
        decreases placements@.len() - i,
    {
        calendar.push(placements[i].block.clone());
        i = i + 1;
        proof {
            assert forall|k: int| 0 <= k < calendar@.len() implies #[trigger] block_wf(calendar@[k]) by {
                if k < fixed.len() {
                    assert(calendar@[k] == fixed[k]);
                }
            }
        }
    }
    assert(placements@.subrange(0, placements@.len() as int) =~= placements@);
    Plan { tasks: out_tasks, placements, calendar }
}

/// Some task has `uid` as its uuid: a block with that uid holds the task.
pub open spec fn known_uid(ts: Seq<Task>, uid: Seq<char>) -> bool {
    exists|k: int| 0 <= k < ts.len() && (#[trigger] ts[k]).uuid@ == uid
}

/// The blocks that hold no known task, in calendar order.
pub open spec fn fixed_blocks(bs: Seq<TimeBlock>, ts: Seq<Task>) -> Seq<TimeBlock>
    decreases bs.len(),
{
    if bs.len() == 0 {
        Seq::empty()
    } else {
        let prev = fixed_blocks(bs.drop_last(), ts);
        if known_uid(ts, bs.last().uid@) {
            prev
        } else {
            prev.push(bs.last())
        }
    }
}

/// The index of the first block whose uid is `uid`.
pub open spec fn first_block_of(bs: Seq<TimeBlock>, uid: Seq<char>) -> Option<int>
    decreases bs.len(),
{
    if bs.len() == 0 {
        None
    } else {
        let prev = first_block_of(bs.drop_last(), uid);
        if prev is Some {
            prev
        } else if bs.last().uid@ == uid {
            Some(bs.len() - 1)
        } else {
            None
        }
    }
}

/// A task offered again: pending, and, when a block holds it, not to be
/// placed before that block's start.
pub open spec fn with_hint(t: Task, bs: Seq<TimeBlock>) -> Task {
    match first_block_of(bs, t.uuid@) {
        Some(i) => Task { start: Some(bs[i].dtstart), status: TaskStatus::Pending, ..t },
        None => Task { status: TaskStatus::Pending, ..t },
    }
}

pub open spec fn rebuilt_tasks(ts: Seq<Task>, bs: Seq<TimeBlock>) -> Seq<Task> {
    ts.map_values(|t: Task| with_hint(t, bs))
}

proof fn lemma_first_block_of(bs: Seq<TimeBlock>, uid: Seq<char>)
    ensures
        first_block_of(bs, uid) matches Some(i) ==> 0 <= i < bs.len() && bs[i].uid@ == uid && (
        forall|j: int| 0 <= j < i ==> (#[trigger] bs[j]).uid@ != uid),
        first_block_of(bs, uid) is None ==> forall|j: int|
            0 <= j < bs.len() ==> (#[trigger] bs[j]).uid@ != uid,
    decreases bs.len(),
{
    if bs.len() > 0 {
        lemma_first_block_of(bs.drop_last(), uid);
        assert forall|j: int| 0 <= j < bs.len() - 1 implies bs.drop_last()[j] == bs[j] by {}
    }
}

fn has_task_uid(tasks: &Vec<Task>, uid: &String) -> (r: bool)
    ensures
        r == known_uid(tasks@, uid@),
{
    let mut i: usize = 0;
    while i < tasks.len()
        invariant
            i <= tasks@.len(),
            forall|k: int| 0 <= k < i ==> (#[trigger] tasks@[k]).uuid@ != uid@,
        decreases tasks@.len() - i,
    {
        if tasks[i].uuid == *uid {
            return true;
        }
        i = i + 1;
    }
    false
}

fn first_block_index(blocks: &Vec<TimeBlock>, uid: &String) -> (r: Option<usize>)
    ensures
        crate::fitter::as_int(r) == first_block_of(blocks@, uid@),
        r matches Some(j) ==> j < blocks@.len(),
{
    let mut i: usize = 0;
    while i < blocks.len()
        invariant
            i <= blocks@.len(),
            forall|k: int| 0 <= k < i ==> (#[trigger] blocks@[k]).uid@ != uid@,
        decreases blocks@.len() - i,
    {
        if blocks[i].uid == *uid {
            proof {
                lemma_first_block_of(blocks@, uid@);
            }
            return Some(i);
        }
        i = i + 1;
    }
    proof {
        lemma_first_block_of(blocks@, uid@);
    }
    None
}

/// Splits a calendar written by an earlier run: blocks whose uid is some
/// task's uuid hold that task and are left out of the fixed blocks; each task
/// comes back pending, with the start of the first block that held it as the
/// earliest instant at which it may be placed again.
pub fn split_calendar(tasks: &Vec<Task>, blocks: &Vec<TimeBlock>) -> (r: (Vec<Task>, Vec<TimeBlock>))
    ensures
        r.0@ == rebuilt_tasks(tasks@, blocks@),
        r.1@ == fixed_blocks(blocks@, tasks@),
        forall|j: int| 0 <= j < r.1@.len() ==> !known_uid(tasks@, (#[trigger] r.1@[j]).uid@),
        forall|k: int, j: int|
            0 <= k < tasks@.len() && 0 <= j < blocks@.len() && (#[trigger] blocks@[j]).uid@ == (
            #[trigger] tasks@[k]).uuid@ && (forall|i: int|
                0 <= i < j ==> (#[trigger] blocks@[i]).uid@ != tasks@[k].uuid@) ==> r.0@[k].start
                == Some(blocks@[j].dtstart),
        blocks_wf(blocks@) ==> blocks_wf(r.1@),
        tasks_wf(tasks@) && blocks_wf(blocks@) ==> tasks_wf(r.0@),
{
    let mut fixed: Vec<TimeBlock> = Vec::new();
    let mut i: usize = 0;
    while i < blocks.len()
        invariant
            i <= blocks@.len(),
            fixed@ == fixed_blocks(blocks@.subrange(0, i as int), tasks@),
            forall|j: int| 0 <= j < fixed@.len() ==> !known_uid(tasks@, (#[trigger] fixed@[j]).uid@),
            blocks_wf(blocks@) ==> blocks_wf(fixed@),
        decreases blocks@.len() - i,
    {
        let ghost pre = blocks@.subrange(0, i as int + 1);
        assert(pre.drop_last() =~= blocks@.subrange(0, i as int));
        if !has_task_uid(tasks, &blocks[i].uid) {
            fixed.push(blocks[i].clone());
        }
        i = i + 1;
    }
    assert(blocks@.subrange(0, blocks@.len() as int) =~= blocks@);
    let mut rebuilt: Vec<Task> = Vec::new();
    let mut k: usize = 0;
    while k < tasks.len()
        invariant
            k <= tasks@.len(),
            rebuilt@ =~= rebuilt_tasks(tasks@, blocks@).subrange(0, k as int),
        decreases tasks@.len() - k,
    {
        let mut t = tasks[k].clone();
        t.status = TaskStatus::Pending;
        match first_block_index(blocks, &tasks[k].uuid) {
            Some(j) => {
                t.start = Some(blocks[j].dtstart);
            },
            None => {},
        }
        rebuilt.push(t);
        k = k + 1;
    }
    proof {
        assert(rebuilt@ =~= rebuilt_tasks(tasks@, blocks@));
        assert forall|k: int, j: int|
            0 <= k < tasks@.len() && 0 <= j < blocks@.len() && (#[trigger] blocks@[j]).uid@ == (
            #[trigger] tasks@[k]).uuid@ && (forall|i: int|
                0 <= i < j ==> (#[trigger] blocks@[i]).uid@ != tasks@[k].uuid@) implies rebuilt@[k].start
                == Some(blocks@[j].dtstart) by {
            lemma_first_block_of(blocks@, tasks@[k].uuid@);
        }
        if tasks_wf(tasks@) && blocks_wf(blocks@) {
            assert forall|k: int| 0 <= k < rebuilt@.len() implies #[trigger] task_wf(rebuilt@[k]) by {
                assert(task_wf(tasks@[k]));
                lemma_first_block_of(blocks@, tasks@[k].uuid@);
                if let Some(j) = first_block_of(blocks@, tasks@[k].uuid@) {
                    assert(block_wf(blocks@[j]));
                }
            }
        }
    }
    (rebuilt, fixed)
}

/// A rescheduling run at `now` on a calendar written by an earlier run: the
/// blocks that hold known tasks are taken off, the tasks are offered again
/// no earlier than where they stood, and the fixed blocks go through a fresh
/// run.
pub fn plan_reschedule(tasks: &Vec<Task>, blocks: &Vec<TimeBlock>, now: i64, allow_split: bool) -> (r: Plan)
    requires
        tasks_wf(tasks@),
        blocks_wf(blocks@),
        in_time_range(now as int),
    ensures
        (r.tasks@, r.placements@) == plan(
            rebuilt_tasks(tasks@, blocks@),
            fixed_blocks(blocks@, tasks@),
            now as int,
            allow_split,
        ),
        r.calendar@ == fixed_blocks(blocks@, tasks@) + placed_blocks(r.placements@),
        blocks_wf(r.calendar@),
        forall|j: int|
            0 <= j < fixed_blocks(blocks@, tasks@).len() ==> !known_uid(
                tasks@,
                (#[trigger] fixed_blocks(blocks@, tasks@)[j]).uid@,
            ),
        !allow_split ==> forall|a: int|
            0 <= a < r.placements@.len() ==> replaces_some_task(tasks@, blocks@, #[trigger] r.placements@[a]),
{
    let (rebuilt, fixed) = split_calendar(tasks, blocks);
    let r = plan_schedule(rebuilt, fixed, now, allow_split);
    proof {
        if !allow_split {
            assert forall|a: int| 0 <= a < r.placements@.len() implies replaces_some_task(
                tasks@,
                blocks@,
                #[trigger] r.placements@[a],
            ) by {
                let k = stable_order(due_keys(rebuilt@), rebuilt@.len())[r.placements@[a].task as int];
                assert(placed_from(rebuilt@, r.placements@[a], k));
                lemma_first_block_of(blocks@, tasks@[k].uuid@);
                assert(replaces(tasks@, blocks@, r.placements@[a], k));
            }
        }
    }
    r
}

/// The placement is the new place of some task.
pub open spec fn replaces_some_task(ts: Seq<Task>, bs: Seq<TimeBlock>, p: Placement) -> bool {
    exists|k: int| #[trigger] replaces(ts, bs, p, k)
}

/// The placement is the new place of task `k`: it carries the task's uuid,
/// and starts no earlier than the first block that held the task before.
pub open spec fn replaces(ts: Seq<Task>, bs: Seq<TimeBlock>, p: Placement, k: int) -> bool {
    &&& 0 <= k < ts.len()
    &&& p.block.uid == ts[k].uuid
    &&& (first_block_of(bs, ts[k].uuid@) matches Some(j) ==> bs[j].dtstart <= p.block.dtstart)
}

/// The index of the first task whose number is `id`.
pub open spec fn task_index(ts: Seq<Task>, id: usize) -> Option<int>
    decreases ts.len(),
{
    if ts.len() == 0 {
        None
    } else {
        let prev = task_index(ts.drop_last(), id);
        if prev is Some {
            prev
        } else if ts.last().id == id {
            Some(ts.len() - 1)
        } else {
            None
        }
    }
}

/// The blocks whose uid is not `uid`, in order.
pub open spec fn without_uid(bs: Seq<TimeBlock>, uid: Seq<char>) -> Seq<TimeBlock>
    decreases bs.len(),
{
    if bs.len() == 0 {
        Seq::empty()
    } else {
        let prev = without_uid(bs.drop_last(), uid);
        if bs.last().uid@ == uid {
            prev
        } else {
            prev.push(bs.last())
        }
    }
}

proof fn lemma_task_index(ts: Seq<Task>, id: usize)
    ensures
        task_index(ts, id) matches Some(i) ==> 0 <= i < ts.len() && ts[i].id == id && (forall|j: int|
            0 <= j < i ==> (#[trigger] ts[j]).id != id),
        task_index(ts, id) is None ==> forall|j: int| 0 <= j < ts.len() ==> (#[trigger] ts[j]).id != id,
    decreases ts.len(),
{
    if ts.len() > 0 {
        lemma_task_index(ts.drop_last(), id);
        assert forall|j: int| 0 <= j < ts.len() - 1 implies ts.drop_last()[j] == ts[j] by {}
    }
}

fn find_task_index(tasks: &Vec<Task>, id: usize) -> (r: Option<usize>)
    ensures
        crate::fitter::as_int(r) == task_index(tasks@, id),
        r matches Some(j) ==> j < tasks@.len(),
{
    let mut i: usize = 0;
    while i < tasks.len()
        invariant
            i <= tasks@.len(),
            forall|k: int| 0 <= k < i ==> (#[trigger] tasks@[k]).id != id,
        decreases tasks@.len() - i,
    {
        if tasks[i].id == id {
            proof {
                lemma_task_index(tasks@, id);
            }
            return Some(i);
        }
        i = i + 1;
    }
    proof {
        lemma_task_index(tasks@, id);
    }
    None
}

/// Marks the task numbered `id` done: it leaves the task list and every
/// block that holds it leaves the calendar. `None` when no task has that
/// number.
pub fn remove_done(tasks: &Vec<Task>, blocks: &Vec<TimeBlock>, id: usize) -> (r: Option<(Vec<Task>, Vec<TimeBlock>)>)
    ensures
        r is None <==> task_index(tasks@, id) is None,
        r matches Some(p) ==> ({
            let i = task_index(tasks@, id)->0;
            &&& p.0@ == tasks@.remove(i)
            &&& p.1@ == without_uid(blocks@, tasks@[i].uuid@)
        }),
{
    let i = match find_task_index(tasks, id) {
        Some(i) => i,
        None => {
            return None;
        },
    };
    let uid = tasks[i].uuid.clone();
    let mut kept: Vec<Task> = Vec::new();
    let mut k: usize = 0;
    while k < tasks.len()
        invariant
            k <= tasks@.len(),
            i < tasks@.len(),
            k <= i ==> kept@ =~= tasks@.subrange(0, k as int),
            k > i ==> kept@ =~= tasks@.subrange(0, i as int) + tasks@.subrange(i as int + 1, k as int),
        decreases tasks@.len() - k,
    {
        if k != i {
            kept.push(tasks[k].clone());
        }
        k = k + 1;
    }
    assert(kept@ =~= tasks@.remove(i as int));
    let mut rest: Vec<TimeBlock> = Vec::new();
    let mut j: usize = 0;
    while j < blocks.len()
        invariant
            j <= blocks@.len(),
            rest@ == without_uid(blocks@.subrange(0, j as int), uid@),
        decreases blocks@.len() - j,
    {
        let ghost pre = blocks@.subrange(0, j as int + 1);
        assert(pre.drop_last() =~= blocks@.subrange(0, j as int));
        if blocks[j].uid != uid {
            rest.push(blocks[j].clone());
        }
        j = j + 1;
    }
    assert(blocks@.subrange(0, blocks@.len() as int) =~= blocks@);
    Some((kept, rest))
}

} // verus!
