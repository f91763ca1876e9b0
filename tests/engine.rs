use cronwave::driver::{plan_reschedule, plan_schedule, remove_done, sort_by_due, split_calendar};
use cronwave::fitter::fit_tasks;
use cronwave::gaps::find_the_gaps;
use cronwave::model::{
    effective_end, BlockError, Frequency, Gap, RecurrenceRule, Task, TaskStatus, TimeBlock,
};
use cronwave::recurrence::{expand_block, expand_blocks};

const DAY0: i64 = 1735689600; // 2025-01-01T00:00:00Z
const HOUR: i64 = 3600;
const DAY: i64 = 86400;
const WEEK: i64 = 604800;

fn block(uid: &str, start: i64, duration: Option<i64>, dtend: Option<i64>) -> TimeBlock {
    TimeBlock {
        rrule: None,
        dtstart: start,
        duration,
        dtend,
        uid: uid.to_string(),
        summary: format!("event {}", uid),
        dtstamp: DAY0,
    }
}

fn task(id: usize, uuid: &str, due: i64, estimated: i64) -> Task {
    Task {
        id,
        uuid: uuid.to_string(),
        description: format!("task {}", uuid),
        due,
        estimated,
        status: TaskStatus::Pending,
        start: None,
    }
}

#[test]
fn effective_end_uses_duration_then_dtend_then_start() {
    let b = block("a", DAY0, Some(1800), Some(DAY0 + 7200));
    assert_eq!(effective_end(&b), DAY0 + 1800);
    let b = block("b", DAY0, None, Some(DAY0 + 7200));
    assert_eq!(effective_end(&b), DAY0 + 7200);
    let b = block("c", DAY0, None, None);
    assert_eq!(effective_end(&b), DAY0);
}

#[test]
fn new_block_rejects_malformed_timing() {
    let ok = TimeBlock::new("u".to_string(), "s".to_string(), DAY0, Some(60), None, None, DAY0);
    assert!(ok.is_ok());
    let neg = TimeBlock::new("u".to_string(), "s".to_string(), DAY0, Some(-1), None, None, DAY0);
    assert_eq!(neg.unwrap_err(), BlockError::NegativeDuration);
    let before =
        TimeBlock::new("u".to_string(), "s".to_string(), DAY0, None, Some(DAY0 - 1), None, DAY0);
    assert_eq!(before.unwrap_err(), BlockError::EndBeforeStart);
    let far = TimeBlock::new("u".to_string(), "s".to_string(), i64::MAX - 5, None, None, None, DAY0);
    assert_eq!(far.unwrap_err(), BlockError::OutOfRange);
}

#[test]
fn gap_last_spans_given_bounds() {
    let g = Gap::last(100, 250);
    assert_eq!(g, Gap { start: 100, end: 350 });
}

#[test]
fn weekly_rule_over_three_weeks_has_three_occurrences() {
    let mut b = block("w", DAY0, Some(HOUR), None);
    b.rrule = Some(RecurrenceRule { frequency: Frequency::Weekly, until: None });
    let occ = expand_block(&b, DAY0 + 3 * WEEK);
    let starts: Vec<i64> = occ.iter().map(|o| o.dtstart).collect();
    assert_eq!(starts, vec![DAY0, DAY0 + 604800, DAY0 + 1209600]);
    assert!(occ.iter().all(|o| o.rrule.is_none()));
    assert!(occ.iter().all(|o| o.dtend == Some(o.dtstart + HOUR)));
}

#[test]
fn recurrence_stops_at_until() {
    let mut b = block("d", DAY0, None, Some(DAY0 + HOUR));
    b.rrule = Some(RecurrenceRule { frequency: Frequency::Daily, until: Some(DAY0 + DAY) });
    let occ = expand_block(&b, DAY0 + 10 * DAY);
    assert_eq!(occ.len(), 2);
    assert_eq!(occ[1].dtstart, DAY0 + DAY);
    assert_eq!(occ[1].dtend, Some(DAY0 + DAY + HOUR));
}

#[test]
fn monthly_and_yearly_use_nominal_periods() {
    let mut b = block("m", DAY0, Some(60), None);
    b.rrule = Some(RecurrenceRule { frequency: Frequency::Monthly, until: None });
    let occ = expand_block(&b, DAY0 + 2629746 + 1);
    assert_eq!(occ.len(), 2);
    assert_eq!(occ[1].dtstart, DAY0 + 2629746);
    b.rrule = Some(RecurrenceRule { frequency: Frequency::Yearly, until: None });
    let occ = expand_block(&b, DAY0 + 31536000);
    assert_eq!(occ.len(), 1);
}

#[test]
fn non_recurring_block_is_kept_unchanged() {
    let b = block("x", DAY0 + 100 * DAY, Some(60), None);
    let occ = expand_block(&b, DAY0);
    assert_eq!(occ.len(), 1);
    assert_eq!(occ[0].dtstart, b.dtstart);
    assert_eq!(occ[0].uid, "x");
}

#[test]
fn daily_block_over_three_days_leaves_two_day_gaps() {
    let nine = DAY0 + 9 * HOUR;
    let mut b = block("class", nine, Some(HOUR), None);
    b.rrule = Some(RecurrenceRule { frequency: Frequency::Daily, until: Some(nine + 2 * DAY) });
    let concrete = expand_blocks(&vec![b], DAY0 + 3 * DAY);
    assert_eq!(concrete.len(), 3);
    let gaps = find_the_gaps(&concrete, nine, HOUR);
    assert_eq!(
        gaps,
        vec![
            Gap { start: nine + HOUR, end: nine + DAY },
            Gap { start: nine + DAY + HOUR, end: nine + 2 * DAY },
            Gap { start: nine + 2 * DAY + HOUR, end: nine + 2 * DAY + 2 * HOUR },
        ]
    );
    assert_eq!(gaps[0].end - gaps[0].start, 23 * HOUR);
    assert_eq!(gaps[1].end - gaps[1].start, 23 * HOUR);
}

#[test]
fn gaps_are_never_empty_with_overlapping_blocks() {
    let now = DAY0;
    let blocks = vec![
        block("a", now + 2 * HOUR, Some(4 * HOUR), None),
        block("b", now + 3 * HOUR, Some(HOUR), None),
        block("c", now - 5 * HOUR, Some(HOUR), None),
        block("d", now + 6 * HOUR, None, Some(now + 6 * HOUR)),
        block("e", now + 8 * HOUR, None, None),
        block("f", now - HOUR, Some(2 * HOUR), None),
    ];
    let gaps = find_the_gaps(&blocks, now, 1800);
    assert!(gaps.iter().all(|g| g.end > g.start && g.start >= now));
    assert_eq!(
        gaps,
        vec![
            Gap { start: now + HOUR, end: now + 2 * HOUR },
            Gap { start: now + 6 * HOUR, end: now + 8 * HOUR },
            Gap { start: now + 8 * HOUR, end: now + 8 * HOUR + 1800 },
        ]
    );
}

#[test]
fn no_blocks_gives_one_gap_from_now() {
    let gaps = find_the_gaps(&vec![], DAY0, 600);
    assert_eq!(gaps, vec![Gap { start: DAY0, end: DAY0 + 600 }]);
    let gaps = find_the_gaps(&vec![], DAY0, 0);
    assert!(gaps.is_empty());
}

#[test]
fn best_fit_fills_gap_and_defers_rest_to_overflow() {
    let ten = DAY0 + 10 * HOUR;
    let tasks = vec![task(1, "A", DAY0 + 12 * HOUR, 1800), task(2, "B", ten + 1800, 3600)];
    let sorted = sort_by_due(&tasks);
    assert_eq!(sorted[0].uuid, "B");
    let gaps = vec![Gap { start: ten, end: ten + HOUR }];
    let r = fit_tasks(sorted, &gaps, ten, false, DAY0);
    assert_eq!(r.placements.len(), 2);
    assert_eq!(r.placements[0].block.uid, "B");
    assert_eq!(r.placements[0].block.dtstart, ten);
    assert_eq!(r.placements[0].block.duration, Some(3600));
    assert_eq!(r.placements[1].block.uid, "A");
    assert_eq!(r.placements[1].block.dtstart, ten + HOUR);
    assert_eq!(r.placements[1].block.duration, Some(1800));
    assert!(r.tasks.iter().all(|t| t.status == TaskStatus::Scheduled));
}

#[test]
fn largest_fitting_task_goes_first() {
    let tasks = vec![task(1, "s", DAY0, 600), task(2, "m", DAY0 + 1, 1200), task(3, "l", DAY0 + 2, 5000)];
    let gaps = vec![Gap { start: DAY0, end: DAY0 + 1800 }];
    let r = fit_tasks(tasks, &gaps, DAY0 + 1800, false, DAY0);
    let order: Vec<&str> = r.placements.iter().map(|p| p.block.uid.as_str()).collect();
    assert_eq!(order, vec!["m", "s", "l"]);
    assert_eq!(r.placements[1].block.dtstart, DAY0 + 1200);
    assert_eq!(r.placements[2].block.dtstart, DAY0 + 1800);
}

#[test]
fn no_task_is_placed_twice() {
    let mut tasks = vec![task(1, "a", DAY0, 900), task(2, "b", DAY0, 900), task(3, "c", DAY0, 900)];
    tasks[1].status = TaskStatus::Scheduled;
    let gaps = vec![Gap { start: DAY0, end: DAY0 + 3600 }, Gap { start: DAY0 + 7200, end: DAY0 + 9000 }];
    let r = fit_tasks(tasks, &gaps, DAY0, false, DAY0);
    let mut placed: Vec<usize> = r.placements.iter().map(|p| p.task).collect();
    assert_eq!(placed.len(), 2);
    placed.dedup();
    assert_eq!(placed.len(), 2);
    assert!(!placed.contains(&1));
    assert!(r.tasks.iter().all(|t| t.status == TaskStatus::Scheduled));
}

#[test]
fn split_policy_fills_gap_and_queues_remainder() {
    let tasks = vec![task(1, "big", DAY0 + DAY, 3 * HOUR)];
    let gaps = vec![Gap { start: DAY0, end: DAY0 + HOUR }];
    let r = fit_tasks(tasks, &gaps, DAY0 + 5 * HOUR, true, DAY0);
    assert_eq!(r.tasks.len(), 2);
    assert_eq!(r.tasks[1].status, TaskStatus::Scheduled);
    assert_eq!(r.tasks[1].estimated, 2 * HOUR);
    assert_eq!(r.placements.len(), 2);
    assert_eq!(r.placements[0].block.duration, Some(HOUR));
    assert_eq!(r.placements[1].task, 1);
    assert_eq!(r.placements[1].block.dtstart, DAY0 + 5 * HOUR);
    assert_eq!(r.placements[1].block.duration, Some(2 * HOUR));
}

#[test]
fn task_with_start_hint_waits_for_it() {
    let mut t = task(1, "h", DAY0 + DAY, 600);
    t.start = Some(DAY0 + 1000);
    let gaps = vec![Gap { start: DAY0, end: DAY0 + 900 }, Gap { start: DAY0 + 1000, end: DAY0 + 2000 }];
    let r = fit_tasks(vec![t], &gaps, DAY0, false, DAY0);
    assert_eq!(r.placements.len(), 1);
    assert_eq!(r.placements[0].block.dtstart, DAY0 + 1000);
}

#[test]
fn schedule_run_publishes_fixed_and_new_blocks() {
    let now = DAY0;
    let blocks = vec![block("meeting", now + HOUR, Some(HOUR), None)];
    let tasks = vec![task(1, "t1", now + DAY, 1800), task(2, "t2", now + 2 * HOUR, 3600)];
    let plan = plan_schedule(tasks, blocks, now, false);
    assert_eq!(plan.calendar.len(), 3);
    assert_eq!(plan.calendar[0].uid, "meeting");
    assert_eq!(plan.placements[0].block.uid, "t2");
    assert_eq!(plan.placements[0].block.dtstart, now);
    assert_eq!(plan.placements[1].block.uid, "t1");
    assert_eq!(plan.placements[1].block.dtstart, now + 2 * HOUR);
    assert_eq!(plan.placements[1].block.dtstamp, now);
}

#[test]
fn reschedule_takes_task_blocks_out_of_fixed_time() {
    let tasks = vec![task(1, "t1", DAY0 + DAY, 1800), task(2, "t2", DAY0 + DAY, 600)];
    let blocks = vec![
        block("meeting", DAY0 + HOUR, Some(HOUR), None),
        block("t1", DAY0 + 3 * HOUR, Some(1800), None),
        block("t1", DAY0 + 5 * HOUR, Some(1800), None),
    ];
    let (rebuilt, fixed) = split_calendar(&tasks, &blocks);
    assert_eq!(fixed.len(), 1);
    assert_eq!(fixed[0].uid, "meeting");
    assert_eq!(rebuilt[0].start, Some(DAY0 + 3 * HOUR));
    assert_eq!(rebuilt[1].start, None);
    assert!(rebuilt.iter().all(|t| t.status == TaskStatus::Pending));
    let plan = plan_reschedule(&tasks, &blocks, DAY0, false);
    assert_eq!(plan.calendar[0].uid, "meeting");
    let t1 = plan.placements.iter().find(|p| p.block.uid == "t1").unwrap();
    assert!(t1.block.dtstart >= DAY0 + 3 * HOUR);
}

#[test]
fn mark_done_removes_task_and_its_blocks() {
    let tasks = vec![task(4, "t4", DAY0, 60), task(7, "t7", DAY0, 60)];
    let blocks = vec![block("t7", DAY0, Some(60), None), block("x", DAY0, Some(60), None)];
    let (ts, bs) = remove_done(&tasks, &blocks, 7).unwrap();
    assert_eq!(ts.len(), 1);
    assert_eq!(ts[0].id, 4);
    assert_eq!(bs.len(), 1);
    assert_eq!(bs[0].uid, "x");
    assert!(remove_done(&tasks, &blocks, 9).is_none());
}

#[test]
fn sort_by_due_is_stable() {
    let tasks = vec![task(1, "a", 50, 1), task(2, "b", 10, 1), task(3, "c", 50, 1), task(4, "d", 10, 1)];
    let sorted = sort_by_due(&tasks);
    let ids: Vec<usize> = sorted.iter().map(|t| t.id).collect();
    assert_eq!(ids, vec![2, 4, 1, 3]);
}
