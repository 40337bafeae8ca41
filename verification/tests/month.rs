use service_report::civil::{Date, LocalTime};
use service_report::month::{checked_month_range, month_range};
use service_report::zone::parse_timezone;

fn midnight(year: i32, month: u32) -> LocalTime {
    LocalTime { date: Date { year, month, day: 1 }, hour: 0, minute: 0 }
}

#[test]
fn month_runs_from_its_first_day_to_the_next_month() {
    let zone = parse_timezone("UTC").unwrap();
    let (start, end) = month_range(2026, 2, &zone);
    assert_eq!(start.secs, 1769904000);
    assert_eq!(end.secs, 1772323200);
    assert_eq!(start.local, midnight(2026, 2));
    assert_eq!(end.local, midnight(2026, 3));
}

#[test]
fn december_ends_in_the_next_year() {
    let zone = parse_timezone("UTC").unwrap();
    let (start, end) = month_range(2026, 12, &zone);
    assert_eq!(start.secs, 1796083200);
    assert_eq!(end.secs, 1798761600);
    assert_eq!(end.local, midnight(2027, 1));
}

#[test]
fn month_bounds_are_local_midnights() {
    let zone = parse_timezone("Europe/Lisbon").unwrap();
    let (start, end) = month_range(2026, 7, &zone);
    assert_eq!(start.secs, 1782864000 - 3600);
    assert_eq!(end.secs, 1785542400 - 3600);
    assert_eq!(start.local, midnight(2026, 7));
}

#[test]
fn checked_month_range_refuses_unbounded_months() {
    let zone = parse_timezone("UTC").unwrap();
    assert!(checked_month_range(i32::MAX, 12, &zone).is_none());
    assert!(checked_month_range(300000, 1, &zone).is_none());
    assert!(checked_month_range(2026, 13, &zone).is_none());
    assert!(checked_month_range(2026, 0, &zone).is_none());
    let (start, _) = checked_month_range(2026, 2, &zone).unwrap();
    assert_eq!(start.secs, 1769904000);
}

#[test]
fn consecutive_months_abut() {
    let zone = parse_timezone("Europe/Lisbon").unwrap();
    assert_eq!(month_range(2026, 3, &zone).1, month_range(2026, 4, &zone).0);
    assert_eq!(month_range(2026, 12, &zone).1, month_range(2027, 1, &zone).0);
}
