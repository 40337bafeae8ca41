use service_report::civil::{Date, LocalTime, ZonedDateTime};
use service_report::event::{parse_event_datetimes, Event, EventTime};
use service_report::segments::{checked_split_event_by_day, split_event_by_day, DaySegment};
use service_report::zone::{parse_timezone, Zone};

fn span(zone: &Zone, start: &str, end: &str) -> (ZonedDateTime, ZonedDateTime) {
    let e = Event {
        summary: None,
        start: Some(EventTime { date_time: Some(start.to_string()), date: None }),
        end: Some(EventTime { date_time: Some(end.to_string()), date: None }),
    };
    let (s, t, _) = parse_event_datetimes(&e, zone).unwrap();
    (s, t)
}

fn all_day_span(zone: &Zone, start: &str, end: &str) -> (ZonedDateTime, ZonedDateTime) {
    let e = Event {
        summary: None,
        start: Some(EventTime { date_time: None, date: Some(start.to_string()) }),
        end: Some(EventTime { date_time: None, date: Some(end.to_string()) }),
    };
    let (s, t, _) = parse_event_datetimes(&e, zone).unwrap();
    (s, t)
}

fn date(year: i32, month: u32, day: u32) -> Date {
    Date { year, month, day }
}

fn days_and_seconds(segs: &[DaySegment]) -> Vec<(Date, i64)> {
    segs.iter().map(|s| (s.day, s.seconds)).collect()
}

#[test]
fn event_within_one_day_is_one_segment() {
    let zone = parse_timezone("UTC").unwrap();
    let (s, t) = span(&zone, "2026-02-10T14:00:00Z", "2026-02-10T15:30:00Z");
    let segs = split_event_by_day(s, t, &zone);
    assert_eq!(days_and_seconds(&segs), vec![(date(2026, 2, 10), 5400)]);
    assert_eq!(segs[0].start, s);
    assert_eq!(segs[0].end, t);
}

#[test]
fn multi_day_event_is_split_by_day() {
    let zone = parse_timezone("UTC").unwrap();
    let (s, t) = span(&zone, "2026-02-10T22:00:00Z", "2026-02-12T02:00:00Z");
    let segs = split_event_by_day(s, t, &zone);
    assert_eq!(
        days_and_seconds(&segs),
        vec![(date(2026, 2, 10), 7200), (date(2026, 2, 11), 86400), (date(2026, 2, 12), 7200)]
    );
    assert_eq!(segs[0].end.local, LocalTime { date: date(2026, 2, 11), hour: 0, minute: 0 });
    assert_eq!(segs[2].start.local, LocalTime { date: date(2026, 2, 12), hour: 0, minute: 0 });
    let total: i64 = segs.iter().map(|x| x.seconds).sum();
    assert_eq!(total, t.secs - s.secs);
}

#[test]
fn days_are_local_to_the_zone() {
    let zone = parse_timezone("Europe/Berlin").unwrap();
    let (s, t) = span(&zone, "2026-02-10T22:30:00Z", "2026-02-10T23:30:00Z");
    let segs = split_event_by_day(s, t, &zone);
    assert_eq!(days_and_seconds(&segs), vec![(date(2026, 2, 10), 1800), (date(2026, 2, 11), 1800)]);
}

#[test]
fn all_day_events_are_whole_days_in_utc() {
    let zone = parse_timezone("UTC").unwrap();
    let (s, t) = all_day_span(&zone, "2026-02-10", "2026-02-12");
    let segs = split_event_by_day(s, t, &zone);
    assert_eq!(days_and_seconds(&segs), vec![(date(2026, 2, 10), 86400), (date(2026, 2, 11), 86400)]);
}

#[test]
fn event_that_does_not_end_after_it_starts_has_no_segment() {
    let zone = parse_timezone("UTC").unwrap();
    let (s, t) = span(&zone, "2026-02-10T15:00:00Z", "2026-02-10T14:00:00Z");
    assert!(split_event_by_day(s, t, &zone).is_empty());
    let (s, t) = span(&zone, "2026-02-10T15:00:00Z", "2026-02-10T15:00:00Z");
    assert!(split_event_by_day(s, t, &zone).is_empty());
}

#[test]
fn days_keep_their_length_across_a_clock_change() {
    // Lisbon moves its clocks forward on 2026-03-29, a day of 23 hours.
    let zone = parse_timezone("Europe/Lisbon").unwrap();
    let (s, t) = span(&zone, "2026-03-29T10:00:00Z", "2026-03-30T10:00:00Z");
    let segs = split_event_by_day(s, t, &zone);
    assert_eq!(days_and_seconds(&segs), vec![(date(2026, 3, 29), 46800), (date(2026, 3, 30), 39600)]);
    assert_eq!(segs[0].end, segs[1].start);
    assert_eq!(segs[1].start.local, LocalTime { date: date(2026, 3, 30), hour: 0, minute: 0 });
    let total: i64 = segs.iter().map(|x| x.seconds).sum();
    assert_eq!(total, t.secs - s.secs);
}

#[test]
fn a_day_of_25_hours_is_one_segment() {
    // Lisbon moves its clocks back on 2026-10-25.
    let zone = parse_timezone("Europe/Lisbon").unwrap();
    let (s, t) = span(&zone, "2026-10-24T23:00:00Z", "2026-10-26T00:00:00Z");
    let segs = split_event_by_day(s, t, &zone);
    assert_eq!(days_and_seconds(&segs), vec![(date(2026, 10, 25), 90000)]);
}

#[test]
fn checked_split_agrees_where_days_have_windows() {
    let zone = parse_timezone("UTC").unwrap();
    let (s, t) = span(&zone, "2026-02-10T22:00:00Z", "2026-02-11T02:00:00Z");
    let checked = checked_split_event_by_day(s, t, &zone).unwrap();
    assert_eq!(days_and_seconds(&checked), days_and_seconds(&split_event_by_day(s, t, &zone)));
}

#[test]
fn checked_split_refuses_a_day_without_a_midnight() {
    // São Paulo skipped from 00:00 to 01:00 on 2018-11-04.
    let zone = parse_timezone("America/Sao_Paulo").unwrap();
    let (s, t) = span(&zone, "2018-11-03T12:00:00-03:00", "2018-11-04T12:00:00-02:00");
    assert!(checked_split_event_by_day(s, t, &zone).is_none());
}

#[test]
fn last_day_needs_no_midnight_after_it() {
    // Havana skips 00:00 on 2026-03-08; an event on the day before splits.
    let zone = parse_timezone("America/Havana").unwrap();
    let (s, t) = span(&zone, "2026-03-07T10:00:00-05:00", "2026-03-07T12:00:00-05:00");
    let segs = checked_split_event_by_day(s, t, &zone).unwrap();
    assert_eq!(days_and_seconds(&segs), vec![(date(2026, 3, 7), 7200)]);
}
