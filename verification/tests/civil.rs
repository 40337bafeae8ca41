use service_report::civil::{
    before, date_not_after, days_since_epoch, earlier, elapsed, is_valid_date, later, next_day, Date,
    LocalTime, ZonedDateTime,
};

fn date(year: i32, month: u32, day: u32) -> Date {
    Date { year, month, day }
}

fn instant(secs: i64, nanos: u32) -> ZonedDateTime {
    ZonedDateTime {
        secs,
        nanos,
        local: LocalTime { date: date(1970, 1, 1), hour: 0, minute: 0 },
    }
}

#[test]
fn next_day_within_a_month() {
    assert_eq!(next_day(date(2026, 2, 10)), Some(date(2026, 2, 11)));
}

#[test]
fn next_day_across_months_and_years() {
    assert_eq!(next_day(date(2026, 1, 31)), Some(date(2026, 2, 1)));
    assert_eq!(next_day(date(2025, 12, 31)), Some(date(2026, 1, 1)));
    assert_eq!(next_day(date(2026, 4, 30)), Some(date(2026, 5, 1)));
}

#[test]
fn next_day_knows_leap_years() {
    assert_eq!(next_day(date(2024, 2, 28)), Some(date(2024, 2, 29)));
    assert_eq!(next_day(date(2024, 2, 29)), Some(date(2024, 3, 1)));
    assert_eq!(next_day(date(2023, 2, 28)), Some(date(2023, 3, 1)));
    assert_eq!(next_day(date(1900, 2, 28)), Some(date(1900, 3, 1)));
    assert_eq!(next_day(date(2000, 2, 28)), Some(date(2000, 2, 29)));
}

#[test]
fn next_day_stops_at_the_last_representable_day() {
    assert_eq!(next_day(date(262142, 12, 31)), None);
}

#[test]
fn valid_dates() {
    assert!(is_valid_date(date(2024, 2, 29)));
    assert!(!is_valid_date(date(2023, 2, 29)));
    assert!(!is_valid_date(date(2026, 4, 31)));
    assert!(!is_valid_date(date(2026, 13, 1)));
    assert!(!is_valid_date(date(2026, 1, 0)));
    assert!(!is_valid_date(date(300000, 1, 1)));
}

#[test]
fn dates_in_order() {
    assert!(date_not_after(date(2026, 2, 10), date(2026, 2, 10)));
    assert!(date_not_after(date(2025, 12, 31), date(2026, 1, 1)));
    assert!(!date_not_after(date(2026, 3, 1), date(2026, 2, 28)));
}

#[test]
fn days_since_the_epoch() {
    assert_eq!(days_since_epoch(date(1970, 1, 1)), 0);
    assert_eq!(days_since_epoch(date(1969, 12, 31)), -1);
    assert_eq!(days_since_epoch(date(2000, 3, 1)), 11017);
    assert_eq!(days_since_epoch(date(2024, 2, 29)), 19782);
    assert_eq!(days_since_epoch(date(2026, 2, 10)), 20494);
}

#[test]
fn instants_compare_by_seconds_then_fraction() {
    assert!(before(&instant(10, 0), &instant(11, 0)));
    assert!(before(&instant(10, 5), &instant(10, 6)));
    assert!(!before(&instant(10, 6), &instant(10, 6)));
    assert_eq!(later(instant(10, 0), instant(20, 0)).secs, 20);
    assert_eq!(earlier(instant(10, 0), instant(20, 0)).secs, 10);
}

#[test]
fn elapsed_whole_seconds() {
    assert_eq!(elapsed(&instant(1770717600 + 3600, 0), &instant(1770717600, 0)), 3600);
    assert_eq!(elapsed(&instant(100, 0), &instant(200, 0)), -100);
    assert_eq!(elapsed(&instant(101, 0), &instant(100, 500_000_000)), 0);
    assert_eq!(elapsed(&instant(102, 0), &instant(100, 500_000_000)), 1);
}
