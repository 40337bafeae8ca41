use service_report::civil::Date;
use service_report::event::{Event, EventTime};
use service_report::order::{row_before, sort_groups_by_name, sort_pairs_by_name, sort_rows, text_less};
use service_report::rows::{events_by_client, rows_of_event, ClientGroup, ServiceRow};

fn timed(summary: Option<&str>, start: &str, end: &str) -> Event {
    Event {
        summary: summary.map(|s| s.to_string()),
        start: Some(EventTime { date_time: Some(start.to_string()), date: None }),
        end: Some(EventTime { date_time: Some(end.to_string()), date: None }),
    }
}

fn date(year: i32, month: u32, day: u32) -> Date {
    Date { year, month, day }
}

fn row(summary: &str, start: &str, end: &str) -> ServiceRow {
    let (_, rows) = rows_of_event(&timed(Some(summary), start, end)).unwrap();
    assert_eq!(rows.len(), 1);
    rows[0].clone()
}

fn starts(rows: &[ServiceRow]) -> Vec<i64> {
    rows.iter().map(|r| r.start.secs).collect()
}

#[test]
fn row_of_an_event_is_read_in_utc() {
    let e = timed(Some("Explicação: Maria"), "2026-02-10T23:30:00-02:00", "2026-02-11T00:30:00-02:00");
    let (client, rows) = rows_of_event(&e).unwrap();
    assert_eq!(client, "Maria");
    assert_eq!(rows.len(), 1);
    assert_eq!(rows[0].service, "Explicação");
    assert_eq!(rows[0].day, date(2026, 2, 11));
    assert_eq!(rows[0].seconds, 3600);
    assert_eq!((rows[0].start.local.hour, rows[0].start.local.minute), (1, 30));
}

#[test]
fn multi_day_event_gives_a_row_per_utc_day() {
    let e = timed(Some("Math: Ana"), "2026-02-03T22:00:00Z", "2026-02-04T02:00:00Z");
    let (client, rows) = rows_of_event(&e).unwrap();
    assert_eq!(client, "Ana");
    let days: Vec<(Date, i64)> = rows.iter().map(|r| (r.day, r.seconds)).collect();
    assert_eq!(days, vec![(date(2026, 2, 3), 7200), (date(2026, 2, 4), 7200)]);
    assert_eq!(rows[0].end.secs, rows[1].start.secs);
}

#[test]
fn event_ending_before_it_starts_gives_no_row() {
    let (client, rows) = rows_of_event(&timed(Some("Tutoring - Joana"), "2026-02-10T12:00:00Z", "2026-02-10T11:00:00Z"))
        .unwrap();
    assert_eq!(client, "Joana");
    assert!(rows.is_empty());
    let groups = events_by_client(&vec![timed(Some("Tutoring - Joana"), "2026-02-10T12:00:00Z", "2026-02-10T11:00:00Z")]);
    assert!(groups.is_empty());
}

#[test]
fn events_without_a_client_or_times_give_no_row() {
    assert!(rows_of_event(&timed(Some("   "), "2026-02-10T10:00:00Z", "2026-02-10T11:00:00Z")).is_none());
    assert!(rows_of_event(&timed(None, "2026-02-10T10:00:00Z", "2026-02-10T11:00:00Z")).is_none());
    let no_start = Event { summary: Some("A: B".to_string()), start: None, end: None };
    assert!(rows_of_event(&no_start).is_none());
}

#[test]
fn rows_are_grouped_by_client_in_event_order() {
    let events = vec![
        timed(Some("Explicação: Maria"), "2026-02-10T10:00:00Z", "2026-02-10T11:00:00Z"),
        timed(Some("Tutoring - Joana"), "2026-02-11T09:00:00Z", "2026-02-11T10:30:00Z"),
        timed(Some("  "), "2026-02-12T09:00:00Z", "2026-02-12T10:00:00Z"),
        timed(Some("Explicação: Maria"), "2026-02-03T10:00:00Z", "2026-02-03T11:30:00Z"),
        Event { summary: Some("Explicação: Rui".to_string()), start: None, end: None },
    ];
    let groups = events_by_client(&events);
    assert_eq!(groups.len(), 2);
    let maria = groups.iter().find(|g| g.name == "Maria").unwrap();
    let joana = groups.iter().find(|g| g.name == "Joana").unwrap();
    assert_eq!(maria.rows.len(), 2);
    assert_eq!(maria.rows[0].day, date(2026, 2, 10));
    assert_eq!(maria.rows[1].day, date(2026, 2, 3));
    assert_eq!(maria.rows[1].seconds, 5400);
    assert_eq!(joana.rows.len(), 1);
    assert_eq!(joana.rows[0].service, "Tutoring");
}

#[test]
fn no_events_no_groups() {
    assert!(events_by_client(&vec![]).is_empty());
}

#[test]
fn names_compare_character_by_character() {
    let s = |x: &str| x.to_string();
    assert!(text_less(&s("Ana"), &s("Bruno")));
    assert!(text_less(&s("Ana"), &s("Anabela")));
    assert!(!text_less(&s("Anabela"), &s("Ana")));
    assert!(!text_less(&s("Ana"), &s("Ana")));
    assert!(text_less(&s("Zé"), &s("Ângela")));
    assert!(text_less(&s("Bruno"), &s("ana")));
}

#[test]
fn groups_sort_by_client_name() {
    let groups = vec![
        ClientGroup { name: "Rui".to_string(), rows: vec![] },
        ClientGroup { name: "Ana".to_string(), rows: vec![] },
        ClientGroup { name: "Maria".to_string(), rows: vec![] },
    ];
    let names: Vec<String> = sort_groups_by_name(groups).into_iter().map(|g| g.name).collect();
    assert_eq!(names, vec!["Ana", "Maria", "Rui"]);
}

#[test]
fn rows_sort_by_day_start_and_end() {
    let a = row("S: A", "2026-02-10T10:00:00Z", "2026-02-10T12:00:00Z");
    let b = row("S: A", "2026-02-10T11:00:00Z", "2026-02-10T11:30:00Z");
    let c = row("S: A", "2026-02-03T15:00:00Z", "2026-02-03T16:00:00Z");
    let sorted = sort_rows(vec![a.clone(), b.clone(), c.clone()], false);
    assert_eq!(starts(&sorted), vec![c.start.secs, a.start.secs, b.start.secs]);
    assert!(row_before(&a, &b, false));
    assert!(!row_before(&b, &a, false));
}

#[test]
fn rows_sort_by_day_and_end_when_starts_are_ignored() {
    let a = row("S: A", "2026-02-10T10:00:00Z", "2026-02-10T12:00:00Z");
    let b = row("S: A", "2026-02-10T11:00:00Z", "2026-02-10T11:30:00Z");
    let c = row("S: A", "2026-02-03T15:00:00Z", "2026-02-03T16:00:00Z");
    let sorted = sort_rows(vec![a.clone(), b.clone(), c.clone()], true);
    assert_eq!(starts(&sorted), vec![c.start.secs, b.start.secs, a.start.secs]);
    assert!(row_before(&b, &a, true));
}

#[test]
fn sorting_keeps_rows_with_equal_keys_in_order() {
    let a = row("First: A", "2026-02-10T10:00:00Z", "2026-02-10T12:00:00Z");
    let b = row("Second: A", "2026-02-10T09:00:00Z", "2026-02-10T12:00:00Z");
    let sorted = sort_rows(vec![a, b], true);
    assert_eq!(sorted[0].service, "First");
    assert_eq!(sorted[1].service, "Second");
}

#[test]
fn rate_pairs_sort_by_name() {
    let pairs = vec![("Rui".to_string(), 3u64), ("Ana".to_string(), 1u64), ("Maria".to_string(), 2u64)];
    let sorted = sort_pairs_by_name(pairs);
    assert_eq!(
        sorted,
        vec![("Ana".to_string(), 1u64), ("Maria".to_string(), 2u64), ("Rui".to_string(), 3u64)]
    );
}
