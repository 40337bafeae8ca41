use service_report::settings::{next_page, PageStep};
use service_report::event::{parse_event_datetimes, Event, EventTime};
use service_report::month::month_range;
use service_report::settings::{
    events_url, google_isoformat, report_settings, service_credentials, CalendarConfig, GoogleCalendarService,
    GoogleConfig, SettingsError,
};
use service_report::zone::parse_timezone;

fn google(secret: Option<&str>, token: Option<&str>, calendar: Option<&str>, zone: Option<&str>) -> CalendarConfig {
    CalendarConfig {
        google: Some(GoogleConfig {
            client_secret_file: secret.map(|s| s.to_string()),
            token_file: token.map(|s| s.to_string()),
            calendar_id: calendar.map(|s| s.to_string()),
            timezone: zone.map(|s| s.to_string()),
        }),
    }
}

fn s(x: &str) -> String {
    x.to_string()
}

#[test]
fn report_settings_default_to_primary_and_utc() {
    assert_eq!(report_settings(&google(None, None, None, None)), Ok((s("primary"), s("UTC"))));
    assert_eq!(
        report_settings(&google(None, None, Some("work@example.com"), Some("Europe/Lisbon"))),
        Ok((s("work@example.com"), s("Europe/Lisbon")))
    );
}

#[test]
fn settings_need_the_google_section() {
    let empty = CalendarConfig { google: None };
    assert_eq!(report_settings(&empty), Err(SettingsError::MissingGoogleConfig));
    assert_eq!(service_credentials(&empty), Err(SettingsError::MissingGoogleConfig));
}

#[test]
fn credentials_need_a_client_secret_file() {
    assert_eq!(
        service_credentials(&google(None, Some("t.json"), None, None)),
        Err(SettingsError::MissingClientSecretFile)
    );
}

#[test]
fn credentials_default_the_token_file() {
    assert_eq!(
        service_credentials(&google(Some("secret.json"), None, None, None)),
        Ok((s("secret.json"), s("token.json")))
    );
    assert_eq!(
        service_credentials(&google(Some("secret.json"), Some("my-token.json"), None, None)),
        Ok((s("secret.json"), s("my-token.json")))
    );
}

#[test]
fn service_authorises_with_a_bearer_token() {
    let service = GoogleCalendarService::new(s("abc123"));
    assert_eq!(service.authorization(), "Bearer abc123");
}

#[test]
fn instants_are_written_in_utc() {
    let zone = parse_timezone("Europe/Lisbon").unwrap();
    let (start, end) = month_range(2026, 7, &zone);
    assert_eq!(google_isoformat(&start), "2026-06-30T23:00:00Z");
    assert_eq!(google_isoformat(&end), "2026-07-31T23:00:00Z");
}

#[test]
fn instants_keep_their_seconds() {
    let zone = parse_timezone("Asia/Kolkata").unwrap();
    let e = Event {
        summary: None,
        start: Some(EventTime { date_time: Some(s("2026-02-10T10:00:07+05:30")), date: None }),
        end: Some(EventTime { date_time: Some(s("2026-02-10T11:00:00+05:30")), date: None }),
    };
    let (start, _, _) = parse_event_datetimes(&e, &zone).unwrap();
    assert_eq!(google_isoformat(&start), "2026-02-10T04:30:07Z");
}

#[test]
fn first_page_address() {
    let zone = parse_timezone("UTC").unwrap();
    let (start, end) = month_range(2026, 2, &zone);
    assert_eq!(
        events_url("primary", None, &start, &end),
        "https://www.googleapis.com/calendar/v3/calendars/primary/events?maxResults=2500&singleEvents=true&orderBy=startTime&timeMin=2026-02-01T00:00:00Z&timeMax=2026-03-01T00:00:00Z"
    );
}

#[test]
fn later_page_address_carries_the_token() {
    let zone = parse_timezone("UTC").unwrap();
    let (start, end) = month_range(2026, 2, &zone);
    assert_eq!(
        events_url("primary", Some("NEXT"), &start, &end),
        "https://www.googleapis.com/calendar/v3/calendars/primary/events?maxResults=2500&singleEvents=true&pageToken=NEXT&orderBy=startTime&timeMin=2026-02-01T00:00:00Z&timeMax=2026-03-01T00:00:00Z"
    );
}

#[test]
fn leap_seconds_are_written_as_second_60() {
    let zone = parse_timezone("UTC").unwrap();
    let e = Event {
        summary: None,
        start: Some(EventTime { date_time: Some(s("2016-12-31T23:59:60Z")), date: None }),
        end: Some(EventTime { date_time: Some(s("2017-01-01T00:00:00Z")), date: None }),
    };
    let (start, _, _) = parse_event_datetimes(&e, &zone).unwrap();
    assert_eq!(google_isoformat(&start), "2016-12-31T23:59:60Z");
}

#[test]
fn paging_steps() {
    assert_eq!(next_page(true, Some(s("NEXT"))), PageStep::Next(s("NEXT")));
    assert_eq!(next_page(true, None), PageStep::Done);
    assert_eq!(next_page(false, Some(s("NEXT"))), PageStep::Fail);
    assert_eq!(next_page(false, None), PageStep::Fail);
}
