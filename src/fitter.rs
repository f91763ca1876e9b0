//! Greedy packing of tasks into gaps, then overflow after the calendar.

use vstd::prelude::*;
use crate::model::{
    block_wf, in_time_range, task_wf, tasks_wf, Gap, Task, TaskStatus, TimeBlock, MAX_TIMESTAMP,
};

verus! {

/// A task placed on the calendar: the index of the task in the fitter's task
/// list, and the block that holds it.
#[derive(Debug)]
pub struct Placement {
    pub task: usize,
    pub block: TimeBlock,
}

/// The block that holds `len` seconds of task `t` from `at` on; its uid is the
/// task's uuid, so the task can be recovered from it later.
pub open spec fn placed_block(t: Task, at: int, len: int, stamp: i64) -> TimeBlock {
    TimeBlock {
        rrule: None,
        dtstart: at as i64,
        duration: Some(len as i64),
        dtend: None,
        uid: t.uuid,
        summary: t.description,
        dtstamp: stamp,
    }
}

pub open spec fn scheduled(t: Task) -> Task {
    Task { status: TaskStatus::Scheduled, ..t }
}

/// A task that may still be offered at instant `at`.
pub open spec fn open_at(t: Task, at: int) -> bool {
    t.status != TaskStatus::Scheduled && (t.start matches Some(s) ==> s <= at)
}

/// An open task that fits in `room` seconds.
pub open spec fn fits(t: Task, room: int, at: int) -> bool {
    open_at(t, at) && t.estimated <= room
}

/// Among the first `n` tasks, the one that fits with the largest estimate;
/// on equal estimates the earliest.
pub open spec fn best_fit(ts: Seq<Task>, room: int, at: int, n: nat) -> Option<int>
    decreases n,
{
    if n == 0 {
        None
    } else {
        let prev = best_fit(ts, room, at, (n - 1) as nat);
        let i = n - 1;
        if fits(ts[i], room, at) && (prev matches Some(p) ==> ts[i].estimated > ts[p].estimated) {
            Some(i)
        } else {
            prev
        }
    }
}

/// The earliest of the first `n` tasks that is open at `at`.
pub open spec fn first_open(ts: Seq<Task>, at: int, n: nat) -> Option<int>
    decreases n,
{
    if n == 0 {
        None
    } else {
        let prev = first_open(ts, at, (n - 1) as nat);
        if prev is Some {
            prev
        } else if open_at(ts[n - 1], at) {
            Some(n - 1)
        } else {
            None
        }
    }
}

/// Fills the gap `[at, end)`: while some task fits, the one with the largest
/// estimate is placed at the cursor. When none fits and splitting is allowed,
/// the earliest open task fills the rest of the gap and a remainder task with
/// the rest of its estimate is appended to the list.
pub open spec fn fill_gap(
    ts: Seq<Task>,
    ps: Seq<Placement>,
    at: int,
    end: int,
    split: bool,
    stamp: i64,
) -> (Seq<Task>, Seq<Placement>)
    decreases end - at,
{
    if at >= end {
        (ts, ps)
    } else {
        match best_fit(ts, end - at, at, ts.len()) {
            Some(i) => {
                let t = ts[i];
                if 0 < t.estimated <= end - at {
                    fill_gap(
                        ts.update(i, scheduled(t)),
                        ps.push(Placement { task: i as usize, block: placed_block(t, at, t.estimated as int, stamp) }),
                        at + t.estimated,
                        end,
                        split,
                        stamp,
                    )
                } else {
                    (ts, ps)
                }
            },
            None => {
                if split {
                    match first_open(ts, at, ts.len()) {
                        Some(i) => {
                            let t = ts[i];
                            let room = end - at;
                            (
                                ts.update(i, scheduled(t)).push(
                                    Task {
                                        estimated: (t.estimated - room) as i64,
                                        status: TaskStatus::Remainder,
                                        ..t
                                    },
                                ),
                                ps.push(Placement { task: i as usize, block: placed_block(t, at, room, stamp) }),
                            )
                        },
                        None => (ts, ps),
                    }
                } else {
                    (ts, ps)
                }
            },
        }
    }
}

/// Fills the gaps one after the other, in the given order.
pub open spec fn fill_gaps(ts: Seq<Task>, gaps: Seq<Gap>, split: bool, stamp: i64) -> (
    Seq<Task>,
    Seq<Placement>,
)
    decreases gaps.len(),
{
    if gaps.len() == 0 {
        (ts, Seq::empty())
    } else {
        let (ts1, ps1) = fill_gaps(ts, gaps.drop_last(), split, stamp);
        fill_gap(ts1, ps1, gaps.last().start as int, gaps.last().end as int, split, stamp)
    }
}

/// The latest end among `c` and the placed blocks.
pub open spec fn latest_end(ps: Seq<Placement>, c: int) -> int
    decreases ps.len(),
{
    if ps.len() == 0 {
        c
    } else {
        let prev = latest_end(ps.drop_last(), c);
        let e = ps.last().block.dtstart + ps.last().block.duration.unwrap_or(0);
        if e > prev { e } else { prev }
    }
}

/// Where overflow places a task when the cursor stands at `at`: not before
/// its earliest start.
pub open spec fn overflow_start(t: Task, at: int) -> int {
    match t.start {
        Some(h) => if h > at { h as int } else { at },
        None => at,
    }
}

/// Places every task from index `i` on that is still unplaced, in list
/// order, one after the other from `at` (a task with an earliest start waits
/// for it); a task that would end past the handled range is left unplaced.
pub open spec fn overflow(ts: Seq<Task>, ps: Seq<Placement>, at: int, i: int, stamp: i64) -> (
    Seq<Task>,
    Seq<Placement>,
)
    decreases ts.len() - i,
{
    if i >= ts.len() || i < 0 {
        (ts, ps)
    } else {
        let t = ts[i];
        let s = overflow_start(t, at);
        if t.status != TaskStatus::Scheduled && s + t.estimated <= MAX_TIMESTAMP {
            overflow(
                ts.update(i, scheduled(t)),
                ps.push(Placement { task: i as usize, block: placed_block(t, s, t.estimated as int, stamp) }),
                s + t.estimated,
                i + 1,
                stamp,
            )
        } else {
            overflow(ts, ps, at, i + 1, stamp)
        }
    }
}

/// One fitting pass: the gaps in order, then overflow from the later of
/// `calendar_end` and the end of the last placed block.
pub open spec fn fit(ts: Seq<Task>, gaps: Seq<Gap>, calendar_end: int, split: bool, stamp: i64) -> (
    Seq<Task>,
    Seq<Placement>,
) {
    let (ts1, ps1) = fill_gaps(ts, gaps, split, stamp);
    overflow(ts1, ps1, latest_end(ps1, calendar_end), 0, stamp)
}

/// No task is placed twice: each placement names a distinct task, which was
/// not scheduled before the pass and is scheduled after it; a task is
/// scheduled after the pass only if it was before or has a placement; the
/// tasks before the pass keep their place in the list.
#[verifier::opaque]
pub open spec fn assigned_once(orig: Seq<Task>, ts: Seq<Task>, ps: Seq<Placement>) -> bool {
    &&& orig.len() <= ts.len()
    &&& forall|a: int, b: int| 0 <= a < b < ps.len() ==> ps[a].task != ps[b].task
    &&& forall|a: int|
        0 <= a < ps.len() ==> (#[trigger] ps[a]).task < ts.len() && ts[ps[a].task as int].status
            == TaskStatus::Scheduled
    &&& forall|a: int|
        0 <= a < ps.len() && (#[trigger] ps[a]).task < orig.len() ==> orig[ps[a].task as int].status
            != TaskStatus::Scheduled
    &&& forall|k: int|
        0 <= k < orig.len() ==> (#[trigger] ts[k]) == Task { status: ts[k].status, ..orig[k] }
    &&& forall|k: int|
        0 <= k < orig.len() && (#[trigger] orig[k]).status == TaskStatus::Scheduled
            ==> ts[k].status == TaskStatus::Scheduled
    &&& forall|k: int|
        0 <= k < ts.len() && (#[trigger] ts[k]).status == TaskStatus::Scheduled ==> (k < orig.len()
            && orig[k].status == TaskStatus::Scheduled) || exists|a: int|
            0 <= a < ps.len() && (#[trigger] ps[a]).task == k
}

/// Every task is well formed, and every placed block is well formed, has
/// its task's uuid as uid and starts no earlier than the task may.
#[verifier::opaque]
pub open spec fn placements_wf(ts: Seq<Task>, ps: Seq<Placement>) -> bool {
    &&& tasks_wf(ts)
    &&& forall|a: int| 0 <= a < ps.len() ==> block_wf(#[trigger] ps[a].block)
    &&& forall|a: int|
        0 <= a < ps.len() && (#[trigger] ps[a]).task < ts.len() ==> ps[a].block.uid
            == ts[ps[a].task as int].uuid && (ts[ps[a].task as int].start matches Some(h) ==> h
            <= ps[a].block.dtstart)
}

/// The task chosen for a gap fits, and no task that fits has a larger
/// estimate; when none is chosen, none fits.
pub proof fn lemma_best_fit(ts: Seq<Task>, room: int, at: int, n: nat)
    requires
        n <= ts.len(),
    ensures
        best_fit(ts, room, at, n) matches Some(i) ==> 0 <= i < n && fits(ts[i], room, at) && (
        forall|j: int| 0 <= j < n && fits(#[trigger] ts[j], room, at) ==> ts[j].estimated
            <= ts[i].estimated),
        best_fit(ts, room, at, n) is None ==> forall|j: int|
            0 <= j < n ==> !fits(#[trigger] ts[j], room, at),
    decreases n,
{
    if n > 0 {
        lemma_best_fit(ts, room, at, (n - 1) as nat);
    }
}

proof fn lemma_first_open(ts: Seq<Task>, at: int, n: nat)
    requires
        n <= ts.len(),
    ensures
        first_open(ts, at, n) matches Some(i) ==> 0 <= i < n && open_at(ts[i], at),
        first_open(ts, at, n) is None ==> forall|j: int|
            0 <= j < n ==> !open_at(#[trigger] ts[j], at),
    decreases n,
{
    if n > 0 {
        lemma_first_open(ts, at, (n - 1) as nat);
    }
}

pub open spec fn as_int(o: Option<usize>) -> Option<int> {
    match o {
        Some(i) => Some(i as int),
        None => None,
    }
}

/// The index of the task that fits in `room` seconds at `at` with the
/// largest estimate (the earliest among equals), if any.
fn best_fit_index(tasks: &Vec<Task>, room: i64, at: i64) -> (r: Option<usize>)
    ensures
        as_int(r) == best_fit(tasks@, room as int, at as int, tasks@.len()),
{
    let mut best: Option<usize> = None;
    let mut i: usize = 0;
    while i < tasks.len()
        invariant
            i <= tasks@.len(),
            as_int(best) == best_fit(tasks@, room as int, at as int, i as nat),
            best matches Some(b) ==> b < i,
        decreases tasks@.len() - i,
    {
        let t = &tasks[i];
        let open = match t.status {
            TaskStatus::Scheduled => false,
            _ => match t.start {
                Some(s) => s <= at,
                None => true,
            },
        };
        if open && t.estimated <= room {
            match best {
                Some(b) => {
                    if t.estimated > tasks[b].estimated {
                        best = Some(i);
                    }
                },
                None => {
                    best = Some(i);
                },
            }
        }
        i = i + 1;
    }
    best
}

/// The index of the earliest task open at `at`, if any.
fn first_open_index(tasks: &Vec<Task>, at: i64) -> (r: Option<usize>)
    ensures
        as_int(r) == first_open(tasks@, at as int, tasks@.len()),
{
    let mut i: usize = 0;
    while i < tasks.len()
        invariant
            i <= tasks@.len(),
            first_open(tasks@, at as int, i as nat) is None,
        decreases tasks@.len() - i,
    {
        let t = &tasks[i];
        let open = match t.status {
            TaskStatus::Scheduled => false,
            _ => match t.start {
                Some(s) => s <= at,
                None => true,
            },
        };
        if open {
            proof {
                lemma_first_open_stable(tasks@, at as int, (i + 1) as nat, tasks@.len());
            }
            return Some(i);
        }
        i = i + 1;
    }
    None
}

fn block_for(t: &Task, at: i64, len: i64, stamp: i64) -> (r: TimeBlock)
    ensures
        r == placed_block(*t, at as int, len as int, stamp),
{
    TimeBlock {
        rrule: None,
        dtstart: at,
        duration: Some(len),
        dtend: None,
        uid: t.uuid.clone(),
        summary: t.description.clone(),
        dtstamp: stamp,
    }
}

pub open spec fn gap_wf(g: Gap) -> bool {
    in_time_range(g.start as int) && in_time_range(g.end as int)
}

proof fn lemma_first_open_stable(ts: Seq<Task>, at: int, n: nat, m: nat)
    requires
        n <= m,
        first_open(ts, at, n) is Some,
    ensures
        first_open(ts, at, m) == first_open(ts, at, n),
    decreases m,
{
    if m > n {
        lemma_first_open_stable(ts, at, n, (m - 1) as nat);
    }
}

/// Placing an unscheduled task keeps every task placed at most once.
proof fn lemma_place(
    orig: Seq<Task>,
    ts: Seq<Task>,
    ps: Seq<Placement>,
    i: usize,
    block: TimeBlock,
)
    requires
        assigned_once(orig, ts, ps),
        placements_wf(ts, ps),
        i < ts.len(),
        ts[i as int].status != TaskStatus::Scheduled,
        block_wf(block),
        block.uid == ts[i as int].uuid,
        ts[i as int].start matches Some(h) ==> h <= block.dtstart,
    ensures
        assigned_once(
            orig,
            ts.update(i as int, scheduled(ts[i as int])),
            ps.push(Placement { task: i, block }),
        ),
        placements_wf(
            ts.update(i as int, scheduled(ts[i as int])),
            ps.push(Placement { task: i, block }),
        ),
{
    reveal(assigned_once);
    reveal(placements_wf);
    let ts2 = ts.update(i as int, scheduled(ts[i as int]));
    let ps2 = ps.push(Placement { task: i, block });
    assert forall|a: int| 0 <= a < ps2.len() implies block_wf(#[trigger] ps2[a].block) by {
        if a < ps.len() {
            assert(ps2[a] == ps[a]);
        }
    }
    assert forall|k: int| 0 <= k < ts2.len() implies #[trigger] task_wf(ts2[k]) by {
        assert(task_wf(ts[k]));
    }
    assert forall|a: int| 0 <= a < ps.len() implies (#[trigger] ps[a]).task != i by {
        assert(ts[ps[a].task as int].status == TaskStatus::Scheduled);
    }
    assert forall|k: int|
        0 <= k < ts2.len() && (#[trigger] ts2[k]).status == TaskStatus::Scheduled implies (k
        < orig.len() && orig[k].status == TaskStatus::Scheduled) || exists|a: int|
        0 <= a < ps2.len() && (#[trigger] ps2[a]).task == k by {
        if k == i {
            assert(ps2[ps.len() as int].task == k);
        } else if !(k < orig.len() && orig[k].status == TaskStatus::Scheduled) {
            let a = choose|a: int| 0 <= a < ps.len() && (#[trigger] ps[a]).task == k;
            assert(ps2[a] == ps[a]);
        }
    }
    assert forall|a: int, b: int| 0 <= a < b < ps2.len() implies ps2[a].task != ps2[b].task by {
        if b == ps.len() {
            assert(ps2[a] == ps[a]);
        } else {
            assert(ps2[a] == ps[a] && ps2[b] == ps[b]);
        }
    }
    assert forall|a: int| 0 <= a < ps2.len() implies (#[trigger] ps2[a]).task < ts2.len()
        && ts2[ps2[a].task as int].status == TaskStatus::Scheduled by {
        if a < ps.len() {
            assert(ps2[a] == ps[a]);
        }
    }
    assert forall|a: int| 0 <= a < ps2.len() && (#[trigger] ps2[a]).task < orig.len() implies orig[ps2[a].task as int].status
        != TaskStatus::Scheduled by {
        if a < ps.len() {
            assert(ps2[a] == ps[a]);
        } else {
            assert(ts[i as int] == Task { status: ts[i as int].status, ..orig[i as int] });
        }
    }
    assert forall|k: int| 0 <= k < orig.len() implies (#[trigger] ts2[k]) == Task {
        status: ts2[k].status,
        ..orig[k]
    } by {
        assert(ts[k] == Task { status: ts[k].status, ..orig[k] });
    }
}

/// Appending an unscheduled task keeps every task placed at most once.
proof fn lemma_append_task(orig: Seq<Task>, ts: Seq<Task>, ps: Seq<Placement>, t: Task)
    requires
        assigned_once(orig, ts, ps),
        placements_wf(ts, ps),
        task_wf(t),
        t.status != TaskStatus::Scheduled,
    ensures
        assigned_once(orig, ts.push(t), ps),
        placements_wf(ts.push(t), ps),
{
    reveal(assigned_once);
    reveal(placements_wf);
    let ts2 = ts.push(t);
    assert forall|k: int| 0 <= k < ts2.len() implies #[trigger] task_wf(ts2[k]) by {
        if k < ts.len() {
            assert(task_wf(ts[k]));
        }
    }
    assert forall|k: int|
        0 <= k < ts2.len() && (#[trigger] ts2[k]).status == TaskStatus::Scheduled implies (k
        < orig.len() && orig[k].status == TaskStatus::Scheduled) || exists|a: int|
        0 <= a < ps.len() && (#[trigger] ps[a]).task == k by {
        assert(ts2[k] == ts[k]);
    }
    assert forall|a: int| 0 <= a < ps.len() implies (#[trigger] ps[a]).task < ts2.len()
        && ts2[ps[a].task as int].status == TaskStatus::Scheduled by {
        assert(ts2[ps[a].task as int] == ts[ps[a].task as int]);
    }
    assert forall|k: int| 0 <= k < orig.len() implies (#[trigger] ts2[k]) == Task {
        status: ts2[k].status,
        ..orig[k]
    } by {
        assert(ts2[k] == ts[k]);
    }
    assert forall|k: int| 0 <= k < orig.len() && (#[trigger] orig[k]).status == TaskStatus::Scheduled
        implies ts2[k].status == TaskStatus::Scheduled by {
        assert(ts2[k] == ts[k]);
    }
}

/// Fills one gap (see `fill_gap`).
fn fill_one_gap(
    tasks: &mut Vec<Task>,
    placed: &mut Vec<Placement>,
    gap: Gap,
    split: bool,
    stamp: i64,
    Ghost(orig): Ghost<Seq<Task>>,
)
    requires
        gap_wf(gap),
        in_time_range(stamp as int),
        assigned_once(orig, old(tasks)@, old(placed)@),
        placements_wf(old(tasks)@, old(placed)@),
    ensures
        (final(tasks)@, final(placed)@) == fill_gap(
            old(tasks)@,
            old(placed)@,
            gap.start as int,
            gap.end as int,
            split,
            stamp,
        ),
        assigned_once(orig, final(tasks)@, final(placed)@),
        placements_wf(final(tasks)@, final(placed)@),
        !split ==> final(tasks)@.len() == old(tasks)@.len(),
{
    let ghost target = fill_gap(old(tasks)@, old(placed)@, gap.start as int, gap.end as int, split, stamp);
    let mut at: i64 = gap.start;
    while at < gap.end
        invariant
            gap_wf(gap),
            in_time_range(stamp as int),
            in_time_range(at as int),
            fill_gap(tasks@, placed@, at as int, gap.end as int, split, stamp) == target,
            target == fill_gap(old(tasks)@, old(placed)@, gap.start as int, gap.end as int, split, stamp),
            assigned_once(orig, tasks@, placed@),
            placements_wf(tasks@, placed@),
            !split ==> tasks@.len() == old(tasks)@.len(),
        decreases gap.end - at,
    {
        let room = gap.end - at;
        let ghost ts = tasks@;
        let ghost ps = placed@;
        proof {
            lemma_best_fit(ts, room as int, at as int, ts.len());
        }
        match best_fit_index(tasks, room, at) {
            Some(i) => {
                let len = tasks[i].estimated;
                let block = block_for(&tasks[i], at, len, stamp);
                proof {
                    reveal(placements_wf);
                    assert(task_wf(ts[i as int]));
                    lemma_place(orig, ts, ps, i, block);
                }
                tasks[i].status = TaskStatus::Scheduled;
                placed.push(Placement { task: i, block });
                assert(tasks@ == ts.update(i as int, scheduled(ts[i as int])));
                at = at + len;
            },
            None => {
                if !split {
                    assert(fill_gap(ts, ps, at as int, gap.end as int, split, stamp) == (ts, ps));
                    return;
                }
                proof {
                    lemma_first_open(ts, at as int, ts.len());
                }
                match first_open_index(tasks, at) {
                    Some(i) => {
                        let block = block_for(&tasks[i], at, room, stamp);
                        let mut rest = tasks[i].clone();
                        rest.estimated = rest.estimated - room;
                        rest.status = TaskStatus::Remainder;
                        proof {
                            let t = ts[i as int];
                            reveal(placements_wf);
                            assert(!fits(t, room as int, at as int));
                            assert(task_wf(t));
                            lemma_place(orig, ts, ps, i, block);
                            lemma_append_task(
                                orig,
                                ts.update(i as int, scheduled(t)),
                                ps.push(Placement { task: i, block }),
                                rest,
                            );
                        }
                        tasks[i].status = TaskStatus::Scheduled;
                        tasks.push(rest);
                        placed.push(Placement { task: i, block });
                        assert(tasks@ == ts.update(i as int, scheduled(ts[i as int])).push(rest));
                        return;
                    },
                    None => {
                        return;
                    },
                }
            },
        }
    }
}

proof fn lemma_assigned_start(ts: Seq<Task>)
    requires
        tasks_wf(ts),
    ensures
        assigned_once(ts, ts, Seq::empty()),
        placements_wf(ts, Seq::empty()),
{
    reveal(assigned_once);
    reveal(placements_wf);
    assert forall|k: int| 0 <= k < ts.len() implies (#[trigger] ts[k]) == Task {
        status: ts[k].status,
        ..ts[k]
    } by {}
}

/// The latest end among `c` and the placed blocks.
fn latest_placed_end(placed: &Vec<Placement>, c: i64, Ghost(ts): Ghost<Seq<Task>>) -> (r: i64)
    requires
        in_time_range(c as int),
        placements_wf(ts, placed@),
    ensures
        r == latest_end(placed@, c as int),
        in_time_range(r as int),
{
    proof {
        reveal(placements_wf);
    }
    let mut e: i64 = c;
    let mut i: usize = 0;
    while i < placed.len()
        invariant
            i <= placed@.len(),
            forall|a: int| 0 <= a < placed@.len() ==> block_wf(#[trigger] placed@[a].block),
            e == latest_end(placed@.subrange(0, i as int), c as int),
            in_time_range(e as int),
        decreases placed@.len() - i,
    {
        let ghost pre = placed@.subrange(0, i as int + 1);
        assert(pre.drop_last() =~= placed@.subrange(0, i as int));
        let b = &placed[i].block;
        assert(block_wf(*b));
        let d = match b.duration {
            Some(d) => d,
            None => 0,
        };
        if b.dtstart + d > e {
            e = b.dtstart + d;
        }
        i = i + 1;
    }
    assert(placed@.subrange(0, placed@.len() as int) =~= placed@);
    e
}

/// The outcome of one fitting pass: the task list with updated statuses
/// (remainders of split tasks appended) and the placements made.
#[derive(Debug)]
pub struct FitResult {
    pub tasks: Vec<Task>,
    pub placements: Vec<Placement>,
}

/// One fitting pass (see `fit`). Gaps are filled in the given order; tasks
/// that fit nowhere follow, in list order, from the later of `calendar_end`
/// and the end of the last placement. No task is placed twice.
pub fn fit_tasks(
    tasks: Vec<Task>,
    gaps: &Vec<Gap>,
    calendar_end: i64,
    allow_split: bool,
    stamp: i64,
) -> (r: FitResult)
    requires
        tasks_wf(tasks@),
        forall|k: int| 0 <= k < gaps@.len() ==> gap_wf(#[trigger] gaps@[k]),
        in_time_range(calendar_end as int),
        in_time_range(stamp as int),
    ensures
        (r.tasks@, r.placements@) == fit(tasks@, gaps@, calendar_end as int, allow_split, stamp),
        assigned_once(tasks@, r.tasks@, r.placements@),
        placements_wf(r.tasks@, r.placements@),
        !allow_split ==> r.tasks@.len() == tasks@.len(),
        forall|a: int|
            0 <= a < r.placements@.len() ==> (#[trigger] r.placements@[a]).task < r.tasks@.len()
                && r.placements@[a].block.uid == r.tasks@[r.placements@[a].task as int].uuid && (
            r.tasks@[r.placements@[a].task as int].start matches Some(h) ==> h
                <= r.placements@[a].block.dtstart),
        !allow_split && distinct_uuids(tasks@) ==> forall|a: int, b: int|
            0 <= a < b < r.placements@.len() ==> r.placements@[a].block.uid@
                != r.placements@[b].block.uid@,
{
    let ghost orig = tasks@;
    let mut tasks = tasks;
    let mut placed: Vec<Placement> = Vec::new();
    proof {
        lemma_assigned_start(orig);
    }
    let mut k: usize = 0;
    while k < gaps.len()
        invariant
            k <= gaps@.len(),
            forall|j: int| 0 <= j < gaps@.len() ==> gap_wf(#[trigger] gaps@[j]),
            in_time_range(stamp as int),
            (tasks@, placed@) == fill_gaps(orig, gaps@.subrange(0, k as int), allow_split, stamp),
            assigned_once(orig, tasks@, placed@),
            placements_wf(tasks@, placed@),
            !allow_split ==> tasks@.len() == orig.len(),
        decreases gaps@.len() - k,
    {
        let ghost pre = gaps@.subrange(0, k as int + 1);
        assert(pre.drop_last() =~= gaps@.subrange(0, k as int));
        fill_one_gap(&mut tasks, &mut placed, gaps[k], allow_split, stamp, Ghost(orig));
        k = k + 1;
    }
    assert(gaps@.subrange(0, gaps@.len() as int) =~= gaps@);
    let mut at = latest_placed_end(&placed, calendar_end, Ghost(tasks@));
    let ghost target = overflow(tasks@, placed@, at as int, 0, stamp);
    let mut i: usize = 0;
    while i < tasks.len()
        invariant
            i <= tasks@.len(),
            in_time_range(stamp as int),
            in_time_range(at as int),
            overflow(tasks@, placed@, at as int, i as int, stamp) == target,
            assigned_once(orig, tasks@, placed@),
            placements_wf(tasks@, placed@),
            !allow_split ==> tasks@.len() == orig.len(),
        decreases tasks@.len() - i,
    {
        let ghost ts = tasks@;
        let ghost ps = placed@;
        let len = tasks[i].estimated;
        proof {
            reveal(placements_wf);
            assert(task_wf(ts[i as int]));
        }
        let open = match tasks[i].status {
            TaskStatus::Scheduled => false,
            _ => true,
        };
        let from = match tasks[i].start {
            Some(h) => if h > at { h } else { at },
            None => at,
        };
        if open && len <= MAX_TIMESTAMP - from {
            let block = block_for(&tasks[i], from, len, stamp);
            proof {
                lemma_place(orig, ts, ps, i, block);
            }
            tasks[i].status = TaskStatus::Scheduled;
            placed.push(Placement { task: i, block });
            assert(tasks@ == ts.update(i as int, scheduled(ts[i as int])));
            at = from + len;
        }
        i = i + 1;
    }
    proof {
        reveal(assigned_once);
        reveal(placements_wf);
        if !allow_split && distinct_uuids(orig) {
            assert forall|a: int, b: int| 0 <= a < b < placed@.len() implies placed@[a].block.uid@
                != placed@[b].block.uid@ by {
                let ka = placed@[a].task as int;
                let kb = placed@[b].task as int;
                assert(tasks@[ka] == Task { status: tasks@[ka].status, ..orig[ka] });
                assert(tasks@[kb] == Task { status: tasks@[kb].status, ..orig[kb] });
                if ka < kb {
                    assert(orig[ka].uuid@ != orig[kb].uuid@);
                } else {
                    assert(orig[kb].uuid@ != orig[ka].uuid@);
                }
            }
        }
    }
    FitResult { tasks, placements: placed }
}

/// No two tasks share a uuid.
pub open spec fn distinct_uuids(ts: Seq<Task>) -> bool {
    forall|i: int, j: int| 0 <= i < j < ts.len() ==> ts[i].uuid@ != ts[j].uuid@
}

/// Whether a placed block ends after the task's due time: a soft violation,
/// reported but not refused.
pub fn ends_after_due(block: &TimeBlock, due: i64) -> (r: bool)
    requires
        block_wf(*block),
    ensures
        r == (crate::model::end_of(*block) > due),
{
    crate::model::effective_end(block) > due
}

} // verus!
