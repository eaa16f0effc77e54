//! The written calendar text must remain readable by standard
//! calendar tooling, and text written by such tooling must be readable
//! here.

use chrono::TimeZone;
use hyprclock::datemath::CalendarDate;
use hyprclock::events::{append, events_on};
use icalendar::{Calendar, CalendarDateTime, Component, DatePerhapsTime, Event, EventLike};

#[test]
fn written_text_parses_with_calendar_tooling() {
    let d = CalendarDate { year: 2025, month: 6, day: 10 };
    let written = append(&None, d, &b"Dentist".to_vec(), 12 * 3600);
    let text = String::from_utf8(written).unwrap();
    let parsed: Calendar = text.parse().expect("standard tooling must accept the text");
    let events: Vec<&Event> = parsed.components.iter().filter_map(|c| c.as_event()).collect();
    assert_eq!(events.len(), 1);
    assert_eq!(events[0].get_summary(), Some("Dentist"));
    match events[0].get_start() {
        Some(DatePerhapsTime::DateTime(CalendarDateTime::Utc(dt))) => {
            assert_eq!(dt, chrono::Utc.with_ymd_and_hms(2025, 6, 10, 12, 0, 0).unwrap());
        },
        other => panic!("unexpected start: {:?}", other),
    }
}

#[test]
fn text_from_calendar_tooling_is_read() {
    let start = chrono::Utc.with_ymd_and_hms(2025, 6, 10, 8, 30, 0).unwrap();
    let end = chrono::Utc.with_ymd_and_hms(2025, 6, 10, 9, 0, 0).unwrap();
    let event = Event::new()
        .summary("Standup")
        .starts(CalendarDateTime::Utc(start))
        .ends(CalendarDateTime::Utc(end))
        .done();
    let mut calendar = Calendar::new();
    calendar.push(event);
    let text = calendar.to_string().into_bytes();
    let d = CalendarDate { year: 2025, month: 6, day: 10 };
    let on_day = events_on(&Some(text), d);
    assert_eq!(on_day, vec![b"Standup".to_vec()]);
}
