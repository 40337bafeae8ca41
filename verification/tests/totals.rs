use service_report::event::EventError;
use service_report::event::{Event, EventTime};
use service_report::totals::{calculate_month_totals, checked_calculate_month_totals, TotalTerm};
use service_report::zone::parse_timezone;

fn timed(summary: &str, start: &str, end: &str) -> Event {
    Event {
        summary: Some(summary.to_string()),
        start: Some(EventTime { date_time: Some(start.to_string()), date: None }),
        end: Some(EventTime { date_time: Some(end.to_string()), date: None }),
    }
}

fn all_day(summary: &str, start: &str, end: &str) -> Event {
    Event {
        summary: Some(summary.to_string()),
        start: Some(EventTime { date_time: None, date: Some(start.to_string()) }),
        end: Some(EventTime { date_time: None, date: Some(end.to_string()) }),
    }
}

fn lookup() -> Vec<(String, u64)> {
    vec![("Maria".to_string(), 15.0f64.to_bits()), ("Rui".to_string(), 20.0f64.to_bits())]
}

fn term(seconds: i64, rate: Option<f64>) -> TotalTerm {
    TotalTerm { seconds, rate: rate.map(|r| r.to_bits()) }
}

fn hours_and_cost(terms: &[TotalTerm]) -> (f64, f64) {
    let mut hours = 0.0;
    let mut cost = 0.0;
    for t in terms {
        let h = t.seconds as f64 / 3600.0;
        hours += h;
        if let Some(r) = t.rate {
            cost += h * f64::from_bits(r);
        }
    }
    (hours, cost)
}

#[test]
fn totals_take_each_event_part_in_the_month() {
    let zone = parse_timezone("UTC").unwrap();
    let events = vec![
        timed("Explicação: Maria", "2026-02-10T10:00:00Z", "2026-02-10T11:30:00Z"),
        timed("Explicação: Rui", "2026-01-31T22:00:00Z", "2026-02-01T02:00:00Z"),
        timed("Explicação: Joana", "2026-02-12T10:00:00Z", "2026-02-12T11:00:00Z"),
        timed("Explicação: Maria", "2026-03-01T10:00:00Z", "2026-03-01T11:00:00Z"),
    ];
    let terms = calculate_month_totals(&events, 2, 2026, &zone, None, &lookup()).terms;
    assert_eq!(terms, vec![term(5400, Some(15.0)), term(7200, Some(20.0)), term(3600, None)]);
    assert_eq!(hours_and_cost(&terms), (4.5, 22.5 + 40.0));
}

#[test]
fn totals_with_a_prefix_skip_other_events() {
    let zone = parse_timezone("UTC").unwrap();
    let events = vec![
        timed("Explicação: Maria", "2026-02-10T10:00:00Z", "2026-02-10T11:00:00Z"),
        timed("Piano: Rui", "2026-02-11T10:00:00Z", "2026-02-11T11:00:00Z"),
        timed("Explicação", "2026-02-12T10:00:00Z", "2026-02-12T11:00:00Z"),
    ];
    let terms = calculate_month_totals(&events, 2, 2026, &zone, Some("Explicação"), &lookup()).terms;
    assert_eq!(terms, vec![term(3600, Some(15.0))]);
}

#[test]
fn totals_count_all_day_events_as_whole_days() {
    let zone = parse_timezone("UTC").unwrap();
    let events = vec![all_day("Explicação: Maria", "2026-02-27", "2026-03-02")];
    let terms = calculate_month_totals(&events, 2, 2026, &zone, None, &lookup()).terms;
    assert_eq!(terms, vec![term(86400, Some(15.0)), term(86400, Some(15.0))]);
}

#[test]
fn totals_skip_unreadable_events() {
    let zone = parse_timezone("UTC").unwrap();
    let events = vec![
        timed("Explicação: Maria", "not a time", "2026-02-10T11:00:00Z"),
        Event { summary: Some("Explicação: Maria".to_string()), start: None, end: None },
    ];
    assert!(calculate_month_totals(&events, 2, 2026, &zone, None, &lookup()).terms.is_empty());
}

#[test]
fn checked_totals_agree_where_events_split() {
    let zone = parse_timezone("UTC").unwrap();
    let events = vec![timed("Explicação: Maria", "2026-02-10T10:00:00Z", "2026-02-10T11:00:00Z")];
    assert_eq!(
        checked_calculate_month_totals(&events, 2, 2026, &zone, None, &lookup()).map(|t| t.terms),
        Some(vec![term(3600, Some(15.0))])
    );
}

#[test]
fn checked_totals_refuse_a_day_without_a_midnight() {
    let zone = parse_timezone("America/Sao_Paulo").unwrap();
    let events = vec![timed("Explicação: Maria", "2018-11-03T12:00:00-03:00", "2018-11-04T12:00:00-02:00")];
    assert_eq!(checked_calculate_month_totals(&events, 11, 2018, &zone, None, &lookup()), None);
}

#[test]
fn totals_report_summaries_that_name_no_client() {
    let zone = parse_timezone("UTC").unwrap();
    let events = vec![
        timed("Explicação Maria", "2026-02-10T10:00:00Z", "2026-02-10T11:00:00Z"),
        timed("Piano Rui", "2026-02-11T10:00:00Z", "2026-02-11T11:00:00Z"),
        timed("Explicação: Maria", "2026-02-12T10:00:00Z", "2026-02-12T11:00:00Z"),
        timed("   ", "2026-02-12T10:00:00Z", "2026-02-12T11:00:00Z"),
    ];
    let with_prefix = calculate_month_totals(&events, 2, 2026, &zone, Some("Explicação"), &lookup());
    assert_eq!(with_prefix.invalid_summaries, vec!["Explicação Maria".to_string()]);
    assert_eq!(with_prefix.terms, vec![term(3600, Some(15.0))]);
    let without = calculate_month_totals(&events, 2, 2026, &zone, None, &lookup());
    assert_eq!(without.invalid_summaries, vec!["   ".to_string()]);
}

#[test]
fn totals_report_unreadable_events_and_missing_rates() {
    let zone = parse_timezone("UTC").unwrap();
    let events = vec![
        timed("Explicação: Maria", "not a time", "2026-02-10T11:00:00Z"),
        timed("Explicação: Joana", "2026-02-10T10:00:00Z", "2026-02-10T11:00:00Z"),
        timed("Explicação: Joana", "2026-02-11T10:00:00Z", "2026-02-11T11:00:00Z"),
        timed("Explicação: Rui", "2026-02-12T10:00:00Z", "2026-02-12T11:00:00Z"),
    ];
    let totals = calculate_month_totals(&events, 2, 2026, &zone, None, &lookup());
    assert_eq!(totals.unreadable, vec![("Explicação: Maria".to_string(), EventError::InvalidDateTime)]);
    assert_eq!(totals.missing_clients, vec!["Joana".to_string()]);
    assert_eq!(totals.terms.len(), 3);
}

#[test]
fn totals_accept_an_event_before_a_skipped_midnight() {
    // Havana skips 00:00 on 2026-03-08.
    let zone = parse_timezone("America/Havana").unwrap();
    let events = vec![timed("Explicação: Maria", "2026-03-07T10:00:00-05:00", "2026-03-07T11:00:00-05:00")];
    let totals = checked_calculate_month_totals(&events, 3, 2026, &zone, None, &lookup()).unwrap();
    assert_eq!(totals.terms, vec![term(3600, Some(15.0))]);
}
