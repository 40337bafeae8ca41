use service_report::civil::{Date, LocalTime};
use service_report::event::{copy_event, parse_event_datetimes, Event, EventError, EventTime};
use service_report::settings::SettingsError;
use service_report::zone::parse_timezone;

fn instant_time(t: &str) -> Option<EventTime> {
    Some(EventTime { date_time: Some(t.to_string()), date: None })
}

fn day_time(d: &str) -> Option<EventTime> {
    Some(EventTime { date_time: None, date: Some(d.to_string()) })
}

fn event(start: Option<EventTime>, end: Option<EventTime>) -> Event {
    Event { summary: Some("Explicação: Maria".to_string()), start, end }
}

fn local(year: i32, month: u32, day: u32, hour: u32, minute: u32) -> LocalTime {
    LocalTime { date: Date { year, month, day }, hour, minute }
}

#[test]
fn known_zones_parse() {
    assert!(parse_timezone("Europe/Lisbon").is_ok());
    assert!(parse_timezone("UTC").is_ok());
    assert!(parse_timezone("America/New_York").is_ok());
}

#[test]
fn unknown_zone_is_refused_with_its_name() {
    assert_eq!(
        parse_timezone("Mars/Olympus").err(),
        Some(SettingsError::InvalidTimezone("Mars/Olympus".to_string()))
    );
    assert_eq!(parse_timezone("").err(), Some(SettingsError::InvalidTimezone(String::new())));
}

#[test]
fn timed_event_reads_on_the_zone_clocks() {
    let zone = parse_timezone("Europe/Berlin").unwrap();
    let e = event(instant_time("2026-02-10T10:00:00Z"), instant_time("2026-02-10T11:30:00+00:00"));
    let (s, t, all_day) = parse_event_datetimes(&e, &zone).unwrap();
    assert!(!all_day);
    assert_eq!(s.secs, 1770717600);
    assert_eq!(t.secs, 1770717600 + 5400);
    assert_eq!(s.local, local(2026, 2, 10, 11, 0));
    assert_eq!(t.local, local(2026, 2, 10, 12, 30));
}

#[test]
fn timed_event_offsets_are_honoured() {
    let zone = parse_timezone("UTC").unwrap();
    let e = event(instant_time("2026-02-10T10:00:00+02:00"), instant_time("2026-02-10T12:15:00+02:00"));
    let (s, t, _) = parse_event_datetimes(&e, &zone).unwrap();
    assert_eq!(s.local, local(2026, 2, 10, 8, 0));
    assert_eq!(t.local, local(2026, 2, 10, 10, 15));
    assert_eq!(s.secs, 1770717600 - 7200);
}

#[test]
fn summer_time_is_read_from_the_tz_database() {
    let zone = parse_timezone("Europe/Lisbon").unwrap();
    let e = event(instant_time("2026-07-01T09:00:00Z"), instant_time("2026-07-01T10:00:00Z"));
    let (s, _, _) = parse_event_datetimes(&e, &zone).unwrap();
    assert_eq!(s.local, local(2026, 7, 1, 10, 0));
}

#[test]
fn all_day_event_spans_utc_days() {
    let zone = parse_timezone("UTC").unwrap();
    let e = event(day_time("2026-02-10"), day_time("2026-02-11"));
    let (s, t, all_day) = parse_event_datetimes(&e, &zone).unwrap();
    assert!(all_day);
    assert_eq!(s.secs, 20494 * 86400);
    assert_eq!(t.secs, 20495 * 86400);
    assert_eq!(s.local, local(2026, 2, 10, 0, 0));
    assert_eq!(t.local, local(2026, 2, 11, 0, 0));
}

#[test]
fn all_day_event_begins_at_utc_midnight_in_any_zone() {
    let zone = parse_timezone("America/New_York").unwrap();
    let e = event(day_time("2026-02-10"), day_time("2026-02-11"));
    let (s, _, _) = parse_event_datetimes(&e, &zone).unwrap();
    assert_eq!(s.secs, 20494 * 86400);
    assert_eq!(s.local, local(2026, 2, 9, 19, 0));
}

#[test]
fn missing_start_or_end() {
    let zone = parse_timezone("UTC").unwrap();
    let no_start = event(None, instant_time("2026-02-10T10:00:00Z"));
    assert_eq!(parse_event_datetimes(&no_start, &zone).err(), Some(EventError::MissingStart));
    let no_end = event(instant_time("2026-02-10T10:00:00Z"), None);
    assert_eq!(parse_event_datetimes(&no_end, &zone).err(), Some(EventError::MissingEnd));
}

#[test]
fn start_and_end_of_different_kinds() {
    let zone = parse_timezone("UTC").unwrap();
    let timed_start = event(instant_time("2026-02-10T10:00:00Z"), day_time("2026-02-11"));
    assert_eq!(parse_event_datetimes(&timed_start, &zone).err(), Some(EventError::MissingEndDateTime));
    let dated_start = event(day_time("2026-02-10"), instant_time("2026-02-10T10:00:00Z"));
    assert_eq!(parse_event_datetimes(&dated_start, &zone).err(), Some(EventError::MissingEndDate));
}

#[test]
fn unreadable_texts() {
    let zone = parse_timezone("UTC").unwrap();
    let bad_instant = event(instant_time("2026-02-10 10:00"), instant_time("2026-02-10T11:00:00Z"));
    assert_eq!(parse_event_datetimes(&bad_instant, &zone).err(), Some(EventError::InvalidDateTime));
    let bad_end = event(instant_time("2026-02-10T10:00:00Z"), instant_time("tomorrow"));
    assert_eq!(parse_event_datetimes(&bad_end, &zone).err(), Some(EventError::InvalidDateTime));
    let bad_date = event(day_time("2026-02-30"), day_time("2026-03-01"));
    assert_eq!(parse_event_datetimes(&bad_date, &zone).err(), Some(EventError::InvalidDate));
}

#[test]
fn start_without_instant_or_date() {
    let zone = parse_timezone("UTC").unwrap();
    let e = event(Some(EventTime { date_time: None, date: None }), day_time("2026-02-11"));
    assert_eq!(parse_event_datetimes(&e, &zone).err(), Some(EventError::InvalidFormat));
}

#[test]
fn copies_are_equal_field_by_field() {
    let e = event(instant_time("2026-02-10T10:00:00Z"), day_time("2026-02-11"));
    let c = copy_event(&e);
    assert_eq!(c.summary, e.summary);
    assert_eq!(c.start.unwrap().date_time, e.start.unwrap().date_time);
    assert_eq!(c.end.unwrap().date, e.end.unwrap().date);
}
