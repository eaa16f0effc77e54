use hyprclock::controller::{add_event, day_schedule, generate_tooltip, month_name, schedule_text};
use hyprclock::datemath::CalendarDate;

fn date(y: u16, m: u8, d: u8) -> CalendarDate {
    CalendarDate { year: y, month: m, day: d }
}

const NOON: u32 = 12 * 3600;

#[test]
fn month_names() {
    assert_eq!(month_name(1), "January");
    assert_eq!(month_name(3), "March");
    assert_eq!(month_name(12), "December");
}

#[test]
fn tooltip_heading_and_grid() {
    let t = generate_tooltip(2025, 3, 15);
    assert!(t.starts_with("<big>2025 March</big>\n<tt><small>Mo Tu We Th Fr Sa Su\n"));
    assert!(t.ends_with("</small></tt>"));
    assert!(t.contains("[15]"));
}

#[test]
fn schedule_joins_one_per_line() {
    let summaries = vec![b"Dentist".to_vec(), b"Review".to_vec()];
    assert_eq!(schedule_text(&summaries), b"Dentist\nReview".to_vec());
    assert_eq!(schedule_text(&vec![b"One".to_vec()]), b"One".to_vec());
    let none: Vec<Vec<u8>> = Vec::new();
    assert_eq!(schedule_text(&none), Vec::<u8>::new());
}

#[test]
fn day_schedule_reads_the_day() {
    let d = date(2025, 6, 10);
    let written = add_event(&None, d, &b"Dentist".to_vec(), NOON).unwrap();
    let written = add_event(&Some(written), d, &b"Review".to_vec(), NOON).unwrap();
    let text = day_schedule(&Some(written), d);
    assert_eq!(text, b"Dentist\nReview".to_vec());
    assert_eq!(day_schedule(&None, d), Vec::<u8>::new());
}

#[test]
fn empty_event_name_is_a_no_op() {
    let d = date(2025, 6, 10);
    assert!(add_event(&None, d, &Vec::new(), NOON).is_none());
    assert!(add_event(&None, d, &b"x".to_vec(), NOON).is_some());
}
