use cronwave::calendar::{parse_ical_blocks, parse_local_ical_blocks, write_calendar, WireError};
use cronwave::model::{Frequency, RecurrenceRule, TimeBlock};

fn block(uid: &str, summary: &str, start: i64) -> TimeBlock {
    TimeBlock {
        rrule: None,
        dtstart: start,
        duration: Some(5400),
        dtend: None,
        uid: uid.to_string(),
        summary: summary.to_string(),
        dtstamp: 1735689600,
    }
}

#[test]
fn calendar_round_trip_keeps_every_block() {
    let mut a = block("a-1", "Study: chapter 3; notes", 1735732800);
    a.rrule = Some(RecurrenceRule { frequency: Frequency::Weekly, until: Some(1738411200) });
    let mut b = block("b-2", "", 1735732861);
    b.duration = None;
    b.dtend = Some(1735740000);
    let mut c = block("c-3", "zero", 0);
    c.duration = Some(0);
    c.rrule = Some(RecurrenceRule { frequency: Frequency::Daily, until: None });
    let blocks = vec![a, b, c];
    let text = write_calendar(&blocks);
    for offset in [0, 3600, -18000] {
        let back = parse_ical_blocks(&text, offset).unwrap();
        assert_eq!(back.len(), 3);
        for (x, y) in blocks.iter().zip(back.iter()) {
            assert_eq!(x.uid, y.uid);
            assert_eq!(x.dtstart, y.dtstart);
            assert_eq!(x.summary, y.summary);
            assert_eq!(x.duration, y.duration);
            assert_eq!(x.dtend, y.dtend);
            assert_eq!(x.rrule, y.rrule);
            assert_eq!(x.dtstamp, y.dtstamp);
        }
    }
    let local = parse_local_ical_blocks(&text, 1735689600).unwrap();
    assert_eq!(local[0].dtstart, 1735732800);
}

#[test]
fn writer_formats_instants_and_durations() {
    let mut b = block("u", "s", 1735732800);
    b.rrule = Some(RecurrenceRule { frequency: Frequency::Monthly, until: Some(1738411200) });
    let mut z = block("z", "nothing", 1735732800);
    z.duration = Some(0);
    let text = write_calendar(&vec![b, z]);
    assert!(text.starts_with("BEGIN:VCALENDAR\r\n"));
    assert!(text.contains("DTSTART:20250101T120000Z\r\n"));
    assert!(text.contains("DTSTAMP:20250101T000000Z\r\n"));
    assert!(text.contains("DURATION:PT1H30M\r\n"));
    assert!(text.contains("DURATION:PT0M\r\n"));
    assert!(text.contains("RRULE:FREQ=MONTHLY;UNTIL=20250201T120000Z\r\n"));
    assert!(text.ends_with("END:VCALENDAR\r\n"));
}

#[test]
fn reader_accepts_other_forms() {
    let text = "BEGIN:VCALENDAR\nBEGIN:VEVENT\nUID:x\nSUMMARY:all day\nDTSTART;VALUE=DATE:20250101\nDTEND;TZID=Europe/Paris:20250101T010000\nBEGIN:VALARM\nDTSTART:bad\nEND:VALARM\nLOCATION:room\nEND:VEVENT\nBEGIN:VEVENT\nUID:y\nSUMMARY:class\nDTSTART:20250102T000000Z\nDURATION:P1DT2H\nRRULE:FREQ=YEARLY;COUNT=3\nEND:VEVENT\nEND:VCALENDAR";
    let blocks = parse_ical_blocks(text, 3600).unwrap();
    assert_eq!(blocks.len(), 2);
    assert_eq!(blocks[0].dtstart, 1735689600 - 3600);
    assert_eq!(blocks[0].dtend, Some(1735693200 - 3600));
    assert_eq!(blocks[0].summary, "all day");
    assert_eq!(blocks[0].dtstamp, 1735689600 - 3600);
    assert_eq!(blocks[1].dtstart, 1735776000);
    assert_eq!(blocks[1].duration, Some(93600));
    assert_eq!(blocks[1].rrule, Some(RecurrenceRule { frequency: Frequency::Yearly, until: None }));
}

fn event(lines: &str) -> String {
    format!("BEGIN:VCALENDAR\r\nBEGIN:VEVENT\r\n{}END:VEVENT\r\nEND:VCALENDAR\r\n", lines)
}

#[test]
fn reader_reports_each_error() {
    let cases = vec![
        ("UID:a\r\nSUMMARY:s\r\nDTSTART:20251301T000000Z\r\n", WireError::BadTimestamp),
        ("UID:a\r\nSUMMARY:s\r\nDTSTART:20250101T000000Z\r\nDURATION:1H\r\n", WireError::BadDuration),
        ("UID:a\r\nSUMMARY:s\r\nDTSTART:20250101T000000Z\r\nDURATION:P1M\r\n", WireError::BadDuration),
        ("UID:a\r\nSUMMARY:s\r\nDTSTART:20250101T000000Z\r\nRRULE:FREQ=HOURLY\r\n", WireError::UnknownFrequency),
        ("UID:a\r\nSUMMARY:s\r\nDTSTART:20250101T000000Z\r\nRRULE:COUNT=2\r\n", WireError::BadRecurrence),
        ("SUMMARY:s\r\nDTSTART:20250101T000000Z\r\n", WireError::MissingUid),
        ("UID:a\r\nSUMMARY:s\r\n", WireError::MissingStart),
        ("UID:a\r\nDTSTART:20250101T000000Z\r\n", WireError::MissingSummary),
        (
            "UID:a\r\nSUMMARY:s\r\nDTSTART:20250101T000000Z\r\nDTEND:20241231T000000Z\r\n",
            WireError::InvalidBlock,
        ),
    ];
    for (lines, err) in cases {
        assert_eq!(parse_ical_blocks(&event(lines), 0).unwrap_err(), err);
    }
    let open = "BEGIN:VCALENDAR\nBEGIN:VEVENT\nUID:a\nDTSTART:20250101T000000Z\n";
    assert_eq!(parse_ical_blocks(open, 0).unwrap_err(), WireError::Unterminated);
}

#[test]
fn text_that_is_no_calendar_is_refused() {
    assert_eq!(parse_ical_blocks("", 0).unwrap_err(), WireError::NotACalendar);
    assert_eq!(parse_ical_blocks("<html>502 Bad Gateway</html>", 0).unwrap_err(), WireError::NotACalendar);
    let unframed = "BEGIN:VEVENT\nUID:a\nSUMMARY:s\nDTSTART:20250101T000000Z\nEND:VEVENT\n";
    assert_eq!(parse_ical_blocks(unframed, 0).unwrap_err(), WireError::NotACalendar);
    let unclosed = "BEGIN:VCALENDAR\nVERSION:2.0\n";
    assert_eq!(parse_ical_blocks(unclosed, 0).unwrap_err(), WireError::NotACalendar);
}

#[test]
fn empty_calendar_has_no_blocks() {
    assert!(parse_ical_blocks("BEGIN:VCALENDAR\r\nEND:VCALENDAR\r\n", 0).unwrap().is_empty());
    let text = write_calendar(&vec![]);
    assert!(parse_ical_blocks(&text, 0).unwrap().is_empty());
}
