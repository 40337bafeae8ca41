use service_report::report::unreadable_events;
use service_report::event::{Event, EventTime};
use service_report::report::{
    checked_generate_report, generate_report, json_report, resolve_hourly_rate, stdout_report, JsonClient,
    OutputFormat, Report, ReportLine,
};
use service_report::rows::events_by_client;
use service_report::zone::parse_timezone;

fn timed(summary: &str, start: &str, end: &str) -> Event {
    Event {
        summary: Some(summary.to_string()),
        start: Some(EventTime { date_time: Some(start.to_string()), date: None }),
        end: Some(EventTime { date_time: Some(end.to_string()), date: None }),
    }
}

fn rate(x: f64) -> u64 {
    x.to_bits()
}

fn lookup() -> Vec<(String, u64)> {
    vec![("Maria".to_string(), rate(15.0))]
}

fn sample_events() -> Vec<Event> {
    vec![
        timed("Explicação: Maria", "2026-02-10T10:00:00Z", "2026-02-10T11:00:00Z"),
        timed("Explicação - Joana", "2026-02-11T09:00:00Z", "2026-02-11T10:30:00Z"),
        timed("Explicação: Maria", "2026-02-03T10:00:00Z", "2026-02-03T11:30:00Z"),
    ]
}

fn text(l: &ReportLine) -> Option<&str> {
    match l {
        ReportLine::Text(t) => Some(t.as_str()),
        _ => None,
    }
}

fn row(l: &ReportLine) -> Option<(String, String, String, i64, Option<u64>)> {
    match l {
        ReportLine::Row { day, start, end, seconds, rate } => {
            Some((day.clone(), start.clone(), end.clone(), *seconds, *rate))
        }
        _ => None,
    }
}

fn total(l: &ReportLine) -> Option<(Vec<i64>, Option<u64>)> {
    match l {
        ReportLine::Total { seconds, rate } => Some((seconds.clone(), *rate)),
        _ => None,
    }
}

fn names(clients: &[JsonClient]) -> Vec<String> {
    clients.iter().map(|c| c.name.clone()).collect()
}


#[test]
fn markdown_report_has_a_section_per_client_by_name() {
    let lines = stdout_report(events_by_client(&sample_events()), &lookup(), &mut Vec::new());
    assert_eq!(lines.len(), 15);
    assert_eq!(text(&lines[0]), Some("## Joana"));
    assert_eq!(text(&lines[1]), Some(""));
    assert_eq!(text(&lines[2]), Some("| Day | Start | End | Hours | Cost |"));
    assert_eq!(text(&lines[3]), Some("| --- | ---: | ---: | ---: | ---: |"));
    assert_eq!(
        row(&lines[4]),
        Some(("2026-02-11".to_string(), "09:00".to_string(), "10:30".to_string(), 5400, None))
    );
    assert_eq!(total(&lines[5]), Some((vec![5400], None)));
    assert_eq!(text(&lines[6]), Some(""));
    assert_eq!(text(&lines[7]), Some("## Maria"));
    assert_eq!(
        row(&lines[11]),
        Some(("2026-02-03".to_string(), "10:00".to_string(), "11:30".to_string(), 5400, Some(rate(15.0))))
    );
    assert_eq!(
        row(&lines[12]),
        Some(("2026-02-10".to_string(), "10:00".to_string(), "11:00".to_string(), 3600, Some(rate(15.0))))
    );
    assert_eq!(total(&lines[13]), Some((vec![5400, 3600], Some(rate(15.0)))));
    assert_eq!(text(&lines[14]), Some(""));
}

#[test]
fn markdown_report_without_events() {
    let lines = stdout_report(vec![], &lookup(), &mut Vec::new());
    assert_eq!(lines.len(), 1);
    assert_eq!(text(&lines[0]), Some("No matching events found."));
}

#[test]
fn markdown_rows_ending_at_midnight_end_at_24() {
    let events = vec![timed("S: Ana", "2026-02-10T22:00:00Z", "2026-02-11T00:00:00Z")];
    let lines = stdout_report(events_by_client(&events), &lookup(), &mut Vec::new());
    assert_eq!(
        row(&lines[4]),
        Some(("2026-02-10".to_string(), "22:00".to_string(), "24:00".to_string(), 7200, None))
    );
}

#[test]
fn json_report_lists_clients_by_name() {
    let clients = json_report(events_by_client(&sample_events()), &lookup(), &mut Vec::new());
    assert_eq!(names(&clients), vec!["Joana", "Maria"]);
    assert_eq!(clients[0].rate, None);
    assert_eq!(clients[1].rate, Some(rate(15.0)));
    let days: Vec<&str> = clients[1].rows.iter().map(|r| r.day.as_str()).collect();
    assert_eq!(days, vec!["2026-02-03", "2026-02-10"]);
    assert_eq!(clients[1].rows[0].start, "10:00");
    assert_eq!(clients[1].rows[0].end, "11:30");
    assert_eq!(clients[1].rows[0].seconds, 5400);
}

#[test]
fn json_report_orders_rows_of_a_day_by_their_end() {
    let events = vec![
        timed("S: Ana", "2026-02-10T10:00:00Z", "2026-02-10T12:00:00Z"),
        timed("S: Ana", "2026-02-10T11:00:00Z", "2026-02-10T11:30:00Z"),
    ];
    let clients = json_report(events_by_client(&events), &lookup(), &mut Vec::new());
    let starts: Vec<&str> = clients[0].rows.iter().map(|r| r.start.as_str()).collect();
    assert_eq!(starts, vec!["11:00", "10:00"]);
    let lines = stdout_report(events_by_client(&events), &lookup(), &mut Vec::new());
    assert_eq!(row(&lines[4]).unwrap().1, "10:00");
    assert_eq!(row(&lines[5]).unwrap().1, "11:00");
}

#[test]
fn json_report_without_events() {
    assert!(json_report(vec![], &lookup(), &mut Vec::new()).is_empty());
}

#[test]
fn report_counts_only_events_that_overlap_the_month() {
    let zone = parse_timezone("UTC").unwrap();
    let mut events = sample_events();
    events.push(timed("Explicação: Rui", "2026-03-02T10:00:00Z", "2026-03-02T11:00:00Z"));
    events.push(timed("Explicação: Rita", "2026-01-31T23:00:00Z", "2026-02-01T01:00:00Z"));
    events.push(timed("Explicação: Eva", "2026-01-31T22:00:00Z", "2026-02-01T00:00:00Z"));
    let report = generate_report(&events, 2, 2026, &zone, None, &lookup(), OutputFormat::Json, &mut Vec::new());
    match report {
        Report::Json(clients) => assert_eq!(names(&clients), vec!["Joana", "Maria", "Rita"]),
        Report::Stdout(_) => panic!("expected the JSON form"),
    }
}

#[test]
fn report_filters_by_summary_prefix() {
    let zone = parse_timezone("UTC").unwrap();
    let mut events = sample_events();
    events.push(timed("Piano: Rui", "2026-02-05T10:00:00Z", "2026-02-05T11:00:00Z"));
    let report = generate_report(&events, 2, 2026, &zone, Some("Piano"), &lookup(), OutputFormat::Stdout, &mut Vec::new());
    match report {
        Report::Stdout(lines) => {
            assert_eq!(text(&lines[0]), Some("## Rui"));
            assert_eq!(lines.len(), 7);
        }
        Report::Json(_) => panic!("expected the Markdown form"),
    }
}

#[test]
fn report_month_is_read_in_the_zone() {
    // 23:30 UTC on 31 January is already February in Berlin.
    let zone = parse_timezone("Europe/Berlin").unwrap();
    let events = vec![timed("S: Ana", "2026-01-31T23:30:00Z", "2026-01-31T23:45:00Z")];
    let report = generate_report(&events, 2, 2026, &zone, None, &lookup(), OutputFormat::Json, &mut Vec::new());
    match report {
        Report::Json(clients) => {
            assert_eq!(names(&clients), vec!["Ana"]);
            assert_eq!(clients[0].rows[0].day, "2026-01-31");
        }
        Report::Stdout(_) => panic!("expected the JSON form"),
    }
}

#[test]
fn report_without_matching_events() {
    let zone = parse_timezone("UTC").unwrap();
    let report = generate_report(&sample_events(), 5, 2026, &zone, None, &lookup(), OutputFormat::Stdout, &mut Vec::new());
    match report {
        Report::Stdout(lines) => {
            assert_eq!(lines.len(), 1);
            assert_eq!(text(&lines[0]), Some("No matching events found."));
        }
        Report::Json(_) => panic!("expected the Markdown form"),
    }
}

#[test]
fn checked_report_refuses_an_unbounded_month() {
    let zone = parse_timezone("UTC").unwrap();
    assert!(checked_generate_report(&sample_events(), 13, 2026, &zone, None, &lookup(), OutputFormat::Json, &mut Vec::new())
        .is_none());
    assert!(checked_generate_report(&sample_events(), 2, 2026, &zone, None, &lookup(), OutputFormat::Json, &mut Vec::new())
        .is_some());
}

#[test]
fn markdown_report_splits_a_multi_day_event_by_day() {
    let zone = parse_timezone("UTC").unwrap();
    let events = vec![timed("Math: Ana", "2026-02-03T22:00:00Z", "2026-02-04T02:00:00Z")];
    let lookup = vec![("Ana".to_string(), rate(10.0))];
    match generate_report(&events, 2, 2026, &zone, None, &lookup, OutputFormat::Stdout, &mut Vec::new()) {
        Report::Stdout(lines) => {
            assert_eq!(lines.len(), 8);
            assert_eq!(text(&lines[0]), Some("## Ana"));
            assert_eq!(
                row(&lines[4]),
                Some(("2026-02-03".to_string(), "22:00".to_string(), "24:00".to_string(), 7200, Some(rate(10.0))))
            );
            assert_eq!(
                row(&lines[5]),
                Some(("2026-02-04".to_string(), "00:00".to_string(), "02:00".to_string(), 7200, Some(rate(10.0))))
            );
            assert_eq!(total(&lines[6]), Some((vec![7200, 7200], Some(rate(10.0)))));
        }
        Report::Json(_) => panic!("expected the Markdown form"),
    }
}

#[test]
fn clients_without_a_rate_are_noted_once() {
    let mut missing: Vec<String> = vec!["Rui".to_string()];
    let events = vec![
        timed("Explicação: Joana", "2026-02-11T09:00:00Z", "2026-02-11T10:30:00Z"),
        timed("Explicação: Joana", "2026-02-12T09:00:00Z", "2026-02-12T10:30:00Z"),
        timed("Explicação: Maria", "2026-02-10T10:00:00Z", "2026-02-10T11:00:00Z"),
        timed("Explicação: Rui", "2026-02-13T09:00:00Z", "2026-02-13T10:30:00Z"),
    ];
    let _ = stdout_report(events_by_client(&events), &lookup(), &mut missing);
    missing.sort();
    assert_eq!(missing, vec!["Joana".to_string(), "Rui".to_string()]);
}

#[test]
fn hourly_rate_lookup_notes_missing_clients() {
    let mut missing: Vec<String> = vec![];
    assert_eq!(resolve_hourly_rate(&"Maria".to_string(), &lookup(), &mut missing), Some(rate(15.0)));
    assert!(missing.is_empty());
    assert_eq!(resolve_hourly_rate(&"Joana".to_string(), &lookup(), &mut missing), None);
    assert_eq!(resolve_hourly_rate(&"Joana".to_string(), &lookup(), &mut missing), None);
    assert_eq!(missing, vec!["Joana".to_string()]);
}

#[test]
fn json_report_notes_missing_clients() {
    let mut missing: Vec<String> = vec![];
    let _ = json_report(events_by_client(&sample_events()), &lookup(), &mut missing);
    assert_eq!(missing, vec!["Joana".to_string()]);
}

#[test]
fn unreadable_events_are_listed_by_position() {
    let zone = parse_timezone("UTC").unwrap();
    let mut events = sample_events();
    events.insert(1, timed("Explicação: Rui", "yesterday", "2026-02-05T11:00:00Z"));
    events.push(Event { summary: Some("Explicação: Eva".to_string()), start: None, end: None });
    assert_eq!(unreadable_events(&events, &zone), vec![1, 4]);
    assert!(unreadable_events(&sample_events(), &zone).is_empty());
}

#[test]
fn an_event_outside_the_month_leaves_the_report_as_it_was() {
    let zone = parse_timezone("UTC").unwrap();
    let base = sample_events();
    let mut more = sample_events();
    more.push(timed("Explicação: Rui", "2026-03-02T10:00:00Z", "2026-03-02T11:00:00Z"));
    more.push(timed("Piano: Rui", "2026-02-02T10:00:00Z", "2026-02-02T11:00:00Z"));
    let a = generate_report(&base, 2, 2026, &zone, Some("Explicação"), &lookup(), OutputFormat::Stdout, &mut Vec::new());
    let b = generate_report(&more, 2, 2026, &zone, Some("Explicação"), &lookup(), OutputFormat::Stdout, &mut Vec::new());
    assert_eq!(format!("{:?}", a), format!("{:?}", b));
}
