use cronwave::config::ConfigInfo;
use cronwave::tasks::{
    convert_iso8601_to_timestamp, iso8601_dur_to_timestamp, keep_parsed, parse_task, IsoDate, IsoDateTime,
    IsoDuration, TaskError,
};
use cronwave::model::TaskStatus;
use cronwave::view::{Focus, Key, ViewState};

#[test]
fn task_from_export_fields() {
    let t = parse_task(3, "id-3".to_string(), "write".to_string(), "20250101T120000Z", "PT1H").unwrap();
    assert_eq!(t.due, 1735732800);
    assert_eq!(t.estimated, 3600);
    assert_eq!(t.status, TaskStatus::Pending);
    assert_eq!(t.start, None);
    let t = parse_task(3, "i".to_string(), "d".to_string(), "2025-01-01T12:00:00+02:00", "P1W").unwrap();
    assert_eq!(t.due, 1735725600);
    assert_eq!(t.estimated, 604800);
}

#[test]
fn task_errors() {
    let e = parse_task(1, "i".to_string(), "d".to_string(), "not a date", "PT1H");
    assert_eq!(e.unwrap_err(), TaskError::BadDue);
    let e = parse_task(1, "i".to_string(), "d".to_string(), "20250101T120000Z", "soon");
    assert_eq!(e.unwrap_err(), TaskError::BadEstimate);
    let e = parse_task(1, "i".to_string(), "d".to_string(), "20250101T120000Z", "PT0S");
    assert_eq!(e.unwrap_err(), TaskError::BadEstimate);
}

fn at(date: IsoDate) -> IsoDateTime {
    IsoDateTime { date, hour: 0, minute: 0, second: 0, tz_offset_hours: 0, tz_offset_minutes: 0 }
}

#[test]
fn week_and_ordinal_dates() {
    // 2025-W01-1 is Monday 2024-12-30.
    let w = convert_iso8601_to_timestamp(&at(IsoDate::Week { year: 2025, ww: 1, d: 1 }));
    assert_eq!(w, Some(1735516800));
    // Day 32 of 2025 is February 1st.
    let o = convert_iso8601_to_timestamp(&at(IsoDate::Ordinal { year: 2025, ddd: 32 }));
    assert_eq!(o, Some(1738368000));
    assert_eq!(convert_iso8601_to_timestamp(&at(IsoDate::Ordinal { year: 2025, ddd: 366 })), None);
    assert_eq!(convert_iso8601_to_timestamp(&at(IsoDate::Ymd { year: 2025, month: 2, day: 29 })), None);
}

#[test]
fn nominal_duration_seconds() {
    let d = IsoDuration::Ymdhms { year: 1, month: 1, day: 1, hour: 1, minute: 1, second: 1 };
    assert_eq!(iso8601_dur_to_timestamp(&d), 31536000 + 2629746 + 86400 + 3600 + 60 + 1);
    assert_eq!(iso8601_dur_to_timestamp(&IsoDuration::Weeks(2)), 1209600);
}

#[test]
fn default_config_is_a_template() {
    let c = ConfigInfo::default();
    assert_eq!(c.main.days_ahead, 365);
    assert_eq!(c.basic.cal_url, "your cal url");
}

#[test]
fn focus_cycles_both_ways() {
    assert_eq!(Focus::Left.next(), Focus::Top);
    assert_eq!(Focus::Top.next(), Focus::Bottom);
    assert_eq!(Focus::Bottom.next(), Focus::Left);
    assert_eq!(Focus::Left.prev(), Focus::Bottom);
    assert_eq!(Focus::Top.prev(), Focus::Left);
    assert_eq!(Focus::Bottom.prev(), Focus::Top);
}

#[test]
fn keys_move_selection_and_quit() {
    let mut s = ViewState::new(3);
    s.handle_key_event(Key::Char('k'));
    assert_eq!(s.selected, Some(2));
    s.handle_key_event(Key::Char('j'));
    assert_eq!(s.selected, Some(0));
    s.handle_key_event(Key::Tab);
    assert_eq!(s.focus, Focus::Top);
    s.handle_key_event(Key::Char('j'));
    assert_eq!(s.selected, Some(0));
    s.handle_key_event(Key::BackTab);
    assert_eq!(s.focus, Focus::Left);
    s.handle_key_event(Key::Char('q'));
    assert!(s.exit);
    let mut empty = ViewState::new(0);
    empty.handle_key_event(Key::Char('k'));
    assert_eq!(empty.selected, Some(0));
}

#[test]
fn failed_tasks_are_left_out() {
    let ok = parse_task(1, "a".to_string(), "d".to_string(), "20250101T120000Z", "PT1H");
    let bad = parse_task(2, "b".to_string(), "d".to_string(), "never", "PT1H");
    let ok2 = parse_task(3, "c".to_string(), "d".to_string(), "20250102T120000Z", "PT2H");
    let kept = keep_parsed(&vec![ok, bad, ok2]);
    let ids: Vec<usize> = kept.iter().map(|t| t.id).collect();
    assert_eq!(ids, vec![1, 3]);
}
