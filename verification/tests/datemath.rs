use hyprclock::datemath::{days_in_month, first_weekday_offset, is_leap_year, next_day, next_month,
    CalendarDate};

#[test]
fn leap_years() {
    assert!(is_leap_year(2024));
    assert!(!is_leap_year(2023));
    assert!(is_leap_year(2000));
    assert!(!is_leap_year(1900));
    assert!(!is_leap_year(2100));
    assert!(is_leap_year(2400));
}

#[test]
fn february_lengths() {
    assert_eq!(days_in_month(2024, 2), 29);
    assert_eq!(days_in_month(2023, 2), 28);
}

#[test]
fn month_lengths() {
    assert_eq!(days_in_month(2025, 1), 31);
    assert_eq!(days_in_month(2025, 4), 30);
    assert_eq!(days_in_month(2025, 6), 30);
    assert_eq!(days_in_month(2025, 7), 31);
    assert_eq!(days_in_month(2025, 9), 30);
    assert_eq!(days_in_month(2025, 11), 30);
    assert_eq!(days_in_month(2025, 12), 31);
}

#[test]
fn december_rolls_over() {
    assert_eq!(next_month(2025, 12), (2026, 1));
    assert_eq!(next_month(2025, 3), (2025, 4));
}

#[test]
fn known_weekday_offsets() {
    // January 1 of 2024 was a Monday; March 1 of 2025 a Saturday.
    assert_eq!(first_weekday_offset(2024, 1), 0);
    assert_eq!(first_weekday_offset(2025, 3), 5);
    // June 1 of 2025 was a Sunday.
    assert_eq!(first_weekday_offset(2025, 6), 6);
}

#[test]
fn offsets_chain_across_months() {
    // The weekday slot after the last day of a month is day 1 of the
    // next month, including across a year end.
    for &(y, m) in &[(2024u16, 1u8), (2024, 2), (2025, 2), (2025, 6), (2025, 12), (2023, 12)] {
        let (ny, nm) = next_month(y, m);
        let chained = (first_weekday_offset(y, m) as u32 + days_in_month(y, m) as u32) % 7;
        assert_eq!(chained, first_weekday_offset(ny, nm) as u32);
    }
}

#[test]
fn day_rollover() {
    let d = CalendarDate { year: 2024, month: 2, day: 28 };
    assert_eq!(next_day(d), CalendarDate { year: 2024, month: 2, day: 29 });
    let d = CalendarDate { year: 2023, month: 2, day: 28 };
    assert_eq!(next_day(d), CalendarDate { year: 2023, month: 3, day: 1 });
    let d = CalendarDate { year: 2025, month: 12, day: 31 };
    assert_eq!(next_day(d), CalendarDate { year: 2026, month: 1, day: 1 });
}

#[test]
fn checked_construction() {
    assert_eq!(
        CalendarDate::new(2024, 2, 29),
        Some(CalendarDate { year: 2024, month: 2, day: 29 })
    );
    assert_eq!(CalendarDate::new(2023, 2, 29), None);
    assert_eq!(CalendarDate::new(2025, 13, 1), None);
    assert_eq!(CalendarDate::new(2025, 0, 1), None);
    assert_eq!(CalendarDate::new(2025, 4, 31), None);
    assert_eq!(CalendarDate::new(0, 1, 1), None);
}
