use cronwave::availability::{find_times_availaible, get_blocks, mark_free_slots};
use cronwave::fitter::ends_after_due;
use cronwave::model::{Gap, TimeBlock};

const DAY0: i64 = 1735689600;
const NINE: i64 = DAY0 + 9 * 3600;

fn block(uid: &str, start: i64, len: i64) -> TimeBlock {
    TimeBlock {
        rrule: None,
        dtstart: start,
        duration: Some(len),
        dtend: None,
        uid: uid.to_string(),
        summary: uid.to_string(),
        dtstamp: DAY0,
    }
}

#[test]
fn poll_slots_repeat_each_day() {
    let slots = get_blocks(NINE, NINE + 86400 + 900, 2);
    assert_eq!(
        slots,
        vec![
            Gap { start: NINE, end: NINE + 900 },
            Gap { start: NINE + 900, end: NINE + 1800 },
            Gap { start: NINE + 86400, end: NINE + 86400 + 900 },
            Gap { start: NINE + 86400 + 900, end: NINE + 86400 + 1800 },
        ]
    );
    assert!(get_blocks(NINE, NINE - 1000, 2).is_empty());
}

#[test]
fn slots_inside_later_gaps_are_free() {
    let gaps = vec![Gap { start: 0, end: 100 }, Gap { start: 200, end: 400 }];
    let slots = vec![Gap { start: 0, end: 50 }, Gap { start: 200, end: 300 }, Gap { start: 350, end: 450 }];
    let marks = mark_free_slots(&gaps, &slots, 10);
    assert_eq!(marks, vec!['0', '1', '0']);
}

#[test]
fn poll_availability_string() {
    let blocks = vec![block("a", NINE, 900), block("b", NINE + 86400 + 900, 900)];
    let s = find_times_availaible(&blocks, DAY0, NINE, NINE + 86400 + 900, 2);
    assert_eq!(s, "0110");
}

#[test]
fn late_placement_is_reported() {
    let b = block("t", DAY0, 3600);
    assert!(ends_after_due(&b, DAY0 + 1800));
    assert!(!ends_after_due(&b, DAY0 + 3600));
}
