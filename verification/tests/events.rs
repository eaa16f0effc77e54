use hyprclock::datemath::CalendarDate;
use hyprclock::events::{append, events_on, load};

fn date(y: u16, m: u8, d: u8) -> CalendarDate {
    CalendarDate { year: y, month: m, day: d }
}

const NOON: u32 = 12 * 3600 + 34 * 60 + 56;

#[test]
fn missing_file_is_empty() {
    let r = events_on(&None, date(2025, 6, 10));
    assert!(r.is_empty());
    assert!(load(&None).is_empty());
}

#[test]
fn broken_text_is_empty() {
    let text = b"BEGIN:VCALENDAR\r\nBEGIN:VEVENT\r\nSUMMARY:half written".to_vec();
    assert!(load(&Some(text.clone())).is_empty());
    assert!(events_on(&Some(text), date(2025, 6, 10)).is_empty());
}

#[test]
fn append_then_read_back() {
    let d = date(2025, 6, 10);
    let written = append(&None, d, &b"Dentist".to_vec(), NOON);
    let on_day = events_on(&Some(written.clone()), d);
    assert_eq!(on_day, vec![b"Dentist".to_vec()]);
    let next = events_on(&Some(written), date(2025, 6, 11));
    assert!(next.is_empty());
}

#[test]
fn appended_summary_appears_exactly_once() {
    let d = date(2025, 6, 10);
    let written = append(&None, d, &b"Test".to_vec(), NOON);
    let on_day = events_on(&Some(written), d);
    assert_eq!(on_day.iter().filter(|s| s.as_slice() == b"Test").count(), 1);
}

#[test]
fn repeated_reads_agree() {
    let d = date(2025, 6, 10);
    let written = append(&None, d, &b"Dentist".to_vec(), NOON);
    let contents = Some(written);
    let first = events_on(&contents, d);
    let second = events_on(&contents, d);
    assert_eq!(first, second);
}

#[test]
fn exact_written_text() {
    let d = date(2025, 6, 10);
    let written = append(&None, d, &b"Dentist".to_vec(), NOON);
    let expected = "BEGIN:VCALENDAR\r\nVERSION:2.0\r\nPRODID:-//hyprclock//EN\r\n\
        BEGIN:VEVENT\r\nDTSTART:20250610T123456Z\r\nDTEND:20250611T123455Z\r\n\
        SUMMARY:Dentist\r\nEND:VEVENT\r\nEND:VCALENDAR\r\n";
    assert_eq!(String::from_utf8(written).unwrap(), expected);
}

#[test]
fn midnight_span_stays_on_the_day() {
    let d = date(2025, 6, 10);
    let written = append(&None, d, &b"All day".to_vec(), 0);
    let text = String::from_utf8(written).unwrap();
    assert!(text.contains("DTSTART:20250610T000000Z"));
    assert!(text.contains("DTEND:20250610T235959Z"));
}

#[test]
fn two_appends_keep_order_and_both() {
    let d = date(2025, 6, 10);
    let first = append(&None, d, &b"Morning".to_vec(), NOON);
    let second = append(&Some(first), d, &b"Evening".to_vec(), NOON);
    let on_day = events_on(&Some(second), d);
    assert_eq!(on_day, vec![b"Morning".to_vec(), b"Evening".to_vec()]);
}

#[test]
fn duplicate_events_are_both_kept() {
    let d = date(2025, 6, 10);
    let first = append(&None, d, &b"Dentist".to_vec(), NOON);
    let second = append(&Some(first), d, &b"Dentist".to_vec(), NOON);
    let on_day = events_on(&Some(second), d);
    assert_eq!(on_day, vec![b"Dentist".to_vec(), b"Dentist".to_vec()]);
}

#[test]
fn bare_date_start_matches() {
    let text = b"BEGIN:VCALENDAR\r\nBEGIN:VEVENT\r\nDTSTART;VALUE=DATE:20250610\r\nSUMMARY:Fair\r\nEND:VEVENT\r\nEND:VCALENDAR\r\n"
        .to_vec();
    let on_day = events_on(&Some(text), date(2025, 6, 10));
    assert_eq!(on_day, vec![b"Fair".to_vec()]);
}

#[test]
fn floating_and_zoned_starts_are_excluded() {
    let text = "BEGIN:VCALENDAR\r\n\
        BEGIN:VEVENT\r\nDTSTART:20250610T120000\r\nSUMMARY:Floating\r\nEND:VEVENT\r\n\
        BEGIN:VEVENT\r\nDTSTART;TZID=Europe/Berlin:20250610T120000\r\nSUMMARY:Zoned\r\nEND:VEVENT\r\n\
        END:VCALENDAR\r\n"
        .as_bytes()
        .to_vec();
    let on_day = events_on(&Some(text), date(2025, 6, 10));
    assert!(on_day.is_empty());
}

#[test]
fn missing_summary_gets_placeholder() {
    let text = b"BEGIN:VEVENT\r\nDTSTART:20250610T080000Z\r\nEND:VEVENT\r\n".to_vec();
    let on_day = events_on(&Some(text), date(2025, 6, 10));
    assert_eq!(on_day, vec![b"Unnamed event".to_vec()]);
}

#[test]
fn unknown_properties_survive_an_append() {
    let text = "BEGIN:VCALENDAR\r\n\
        BEGIN:VEVENT\r\n\
        UID:abc-123\r\n\
        X-CUSTOM:kept verbatim\r\n\
        DTSTART:20250610T080000Z\r\n\
        SUMMARY:Standup\r\n\
        END:VEVENT\r\n\
        END:VCALENDAR\r\n"
        .as_bytes()
        .to_vec();
    let written = append(&Some(text), date(2025, 6, 11), &b"Review".to_vec(), NOON);
    let events = load(&Some(written));
    assert_eq!(events.len(), 2);
    assert!(events[0].lines.iter().any(|l| l.as_slice() == b"X-CUSTOM:kept verbatim"));
    assert!(events[0].lines.iter().any(|l| l.as_slice() == b"UID:abc-123"));
    assert_eq!(events[0].summary(), b"Standup".to_vec());
    assert_eq!(events[1].summary(), b"Review".to_vec());
}

#[test]
fn bare_line_feed_endings_are_read() {
    let text = b"BEGIN:VEVENT\nDTSTART:20250610T080000Z\nSUMMARY:Plain\nEND:VEVENT\n".to_vec();
    let on_day = events_on(&Some(text), date(2025, 6, 10));
    assert_eq!(on_day, vec![b"Plain".to_vec()]);
}

#[test]
fn other_days_do_not_match() {
    let d = date(2025, 6, 10);
    let written = append(&None, d, &b"Dentist".to_vec(), NOON);
    let contents = Some(written);
    assert!(events_on(&contents, date(2025, 7, 10)).is_empty());
    assert!(events_on(&contents, date(2024, 6, 10)).is_empty());
    assert!(events_on(&contents, date(2025, 6, 1)).is_empty());
}
