use service_report::civil::{Date, LocalTime, ZonedDateTime};
use service_report::layout::{format_clock, format_date, format_time};

fn date(year: i32, month: u32, day: u32) -> Date {
    Date { year, month, day }
}

fn at(d: Date, hour: u32, minute: u32) -> ZonedDateTime {
    ZonedDateTime { secs: 0, nanos: 0, local: LocalTime { date: d, hour, minute } }
}

#[test]
fn dates_are_written_year_month_day() {
    assert_eq!(format_date(date(2026, 2, 3)), "2026-02-03");
    assert_eq!(format_date(date(2026, 12, 31)), "2026-12-31");
}

#[test]
fn short_years_are_padded_to_four_digits() {
    assert_eq!(format_date(date(987, 1, 5)), "0987-01-05");
    assert_eq!(format_date(date(0, 1, 1)), "0000-01-01");
}

#[test]
fn years_outside_four_digits_carry_a_sign() {
    assert_eq!(format_date(date(-44, 3, 15)), "-0044-03-15");
    assert_eq!(format_date(date(12345, 6, 7)), "+12345-06-07");
}

#[test]
fn clock_readings_are_hours_and_minutes() {
    assert_eq!(format_clock(LocalTime { date: date(2026, 2, 3), hour: 9, minute: 5 }), "09:05");
    assert_eq!(format_clock(LocalTime { date: date(2026, 2, 3), hour: 23, minute: 59 }), "23:59");
}

#[test]
fn span_within_a_day() {
    let (s, e) = format_time(&at(date(2026, 2, 3), 14, 0), &at(date(2026, 2, 3), 15, 30));
    assert_eq!(s, "14:00");
    assert_eq!(e, "15:30");
}

#[test]
fn span_ending_at_next_midnight_ends_at_24() {
    let (s, e) = format_time(&at(date(2026, 2, 3), 22, 0), &at(date(2026, 2, 4), 0, 0));
    assert_eq!(s, "22:00");
    assert_eq!(e, "24:00");
}

#[test]
fn span_ending_at_midnight_of_its_own_day_stays_00() {
    let (s, e) = format_time(&at(date(2026, 2, 3), 0, 0), &at(date(2026, 2, 3), 0, 0));
    assert_eq!(s, "00:00");
    assert_eq!(e, "00:00");
}

#[test]
fn span_ending_later_on_another_day_shows_the_clock() {
    let (_, e) = format_time(&at(date(2026, 2, 3), 22, 0), &at(date(2026, 2, 4), 1, 15));
    assert_eq!(e, "01:15");
}
