//! The calendar settings: which calendar, which time zone, the credentials
//! of the calendar service, and the address of a page of its events.

use vstd::prelude::*;
use vstd::string::StringExecFns;
use crate::civil::{LocalTime, ZonedDateTime};
use crate::event::readable;
use crate::layout::{date_text, format_date};
use crate::text::{push_padded, text_of, two_digits};
use crate::zone::{at_zone, local_time_at, utc_name, utc_zone};

verus! {

broadcast use vstd::string::group_string_axioms;

/// What is wrong with the calendar settings.
#[derive(Clone, Debug, PartialEq, Eq)]
pub enum SettingsError {
    MissingGoogleConfig,
    MissingClientSecretFile,
    InvalidTimezone(String),
}

/// The Google part of the calendar settings.
#[derive(Clone, Debug)]
pub struct GoogleConfig {
    pub client_secret_file: Option<String>,
    pub token_file: Option<String>,
    pub calendar_id: Option<String>,
    pub timezone: Option<String>,
}

/// The calendar settings.
#[derive(Clone, Debug)]
pub struct CalendarConfig {
    pub google: Option<GoogleConfig>,
}

/// A text setting, or its default when it is not set.
pub open spec fn or_default(setting: Option<String>, default: Seq<char>) -> Seq<char> {
    match setting {
        Some(s) => s@,
        None => default,
    }
}

fn setting_or(setting: &Option<String>, default: &str) -> (r: String)
    ensures
        r@ == or_default(*setting, default@),
{
    match setting {
        Some(s) => s.clone(),
        None => default.to_string(),
    }
}

/// The files of the calendar service's credentials: the client secret file
/// and the token file (`"token.json"` unless set).
pub fn service_credentials(config: &CalendarConfig) -> (r: Result<(String, String), SettingsError>)
    ensures
        match config.google {
            None => r == Err::<(String, String), SettingsError>(SettingsError::MissingGoogleConfig),
            Some(g) => match g.client_secret_file {
                None => r == Err::<(String, String), SettingsError>(SettingsError::MissingClientSecretFile),
                Some(secret) => r matches Ok(v) && v.0@ == secret@ && v.1@ == or_default(g.token_file, "token.json"@),
            },
        },
{
    let google = match &config.google {
        Some(g) => g,
        None => return Err(SettingsError::MissingGoogleConfig),
    };
    let secret = match &google.client_secret_file {
        Some(s) => s.clone(),
        None => return Err(SettingsError::MissingClientSecretFile),
    };
    let token = setting_or(&google.token_file, "token.json");
    Ok((secret, token))
}

/// The calendar of the report (`"primary"` unless set) and the name of its
/// time zone (`"UTC"` unless set).
pub fn report_settings(config: &CalendarConfig) -> (r: Result<(String, String), SettingsError>)
    ensures
        match config.google {
            None => r == Err::<(String, String), SettingsError>(SettingsError::MissingGoogleConfig),
            Some(g) => r matches Ok(v) && v.0@ == or_default(g.calendar_id, "primary"@) && v.1@ == or_default(
                g.timezone,
                "UTC"@,
            ),
        },
{
    let google = match &config.google {
        Some(g) => g,
        None => return Err(SettingsError::MissingGoogleConfig),
    };
    let calendar_id = setting_or(&google.calendar_id, "primary");
    let timezone = setting_or(&google.timezone, "UTC");
    Ok((calendar_id, timezone))
}

/// An authorised connection to the calendar service.
pub struct GoogleCalendarService {
    access_token: String,
}

impl GoogleCalendarService {
    /// The token of the connection.
    pub closed spec fn token(&self) -> Seq<char> {
        self.access_token@
    }

    /// A connection that authorises itself with `access_token`.
    pub fn new(access_token: String) -> (s: Self)
        ensures
            s.token() == access_token@,
    {
        GoogleCalendarService { access_token }
    }

    /// The value of the `Authorization` header of a request.
    pub fn authorization(&self) -> (r: String)
        ensures
            r@ == "Bearer "@ + self.token(),
    {
        let mut header = "Bearer ".to_string();
        header.append(self.access_token.as_str());
        header
    }
}

/// The second of the minute of an instant; 60 during a leap second.
pub open spec fn second_of_minute(secs: int, nanos: int) -> int {
    if nanos >= 1_000_000_000 {
        60
    } else {
        secs % 60
    }
}

/// An instant as the calendar service reads it: its UTC reading as
/// `%Y-%m-%dT%H:%M:%SZ`.
pub open spec fn utc_text(secs: int, nanos: int) -> Seq<char> {
    let l = local_time_at(utc_name(), secs);
    date_text(l.date) + seq!['T'] + two_digits(l.hour as int) + seq![':'] + two_digits(l.minute as int)
        + seq![':'] + two_digits(second_of_minute(secs, nanos)) + seq!['Z']
}

/// Writes the instant as the calendar service reads it.
pub fn google_isoformat(t: &ZonedDateTime) -> (s: String)
    requires
        readable(*t),
    ensures
        s@ == utc_text(t.secs as int, t.nanos as int),
{
    let utc = utc_zone();
    let u = at_zone(&utc, t.secs, t.nanos);
    let mut chars: Vec<char> = Vec::new();
    chars.push('T');
    push_padded(&mut chars, u.local.hour as u64, 2);
    chars.push(':');
    push_padded(&mut chars, u.local.minute as u64, 2);
    chars.push(':');
    let sec = t.secs % 60;
    let sec: i64 = if sec < 0 { sec + 60 } else { sec };
    assert(sec == t.secs as int % 60);
    let sec: i64 = if t.nanos >= 1_000_000_000 { 60 } else { sec };
    assert(sec == second_of_minute(t.secs as int, t.nanos as int));
    push_padded(&mut chars, sec as u64, 2);
    chars.push('Z');
    proof {
        crate::layout::lemma_two_digits(u.local.hour as nat);
        crate::layout::lemma_two_digits(u.local.minute as nat);
        crate::layout::lemma_two_digits(sec as nat);
    }
    let mut s = format_date(u.local.date);
    let tail = text_of(&chars);
    s.append(tail.as_str());
    assert(s@ =~= utc_text(t.secs as int, t.nanos as int));
    s
}

/// The address of a page of the calendar's events between two instants.
pub open spec fn events_url_text(calendar_id: Seq<char>, page_token: Option<Seq<char>>, time_min: Seq<char>, time_max: Seq<char>) -> Seq<char> {
    "https://www.googleapis.com/calendar/v3/calendars/"@ + calendar_id + match page_token {
        Some(t) => "/events?maxResults=2500&singleEvents=true&pageToken="@ + t + "&orderBy=startTime&timeMin="@,
        None => "/events?maxResults=2500&singleEvents=true&orderBy=startTime&timeMin="@,
    } + time_min + "&timeMax="@ + time_max
}

/// The address of the page of `calendar_id`'s events between `time_min`
/// and `time_max`; the first page without a token, a later one with the
/// token that the previous page gave.
pub fn events_url(calendar_id: &str, page_token: Option<&str>, time_min: &ZonedDateTime, time_max: &ZonedDateTime) -> (r: String)
    requires
        readable(*time_min),
        readable(*time_max),
    ensures
        r@ == events_url_text(
            calendar_id@,
            crate::summary::opt_str_view(page_token),
            utc_text(time_min.secs as int, time_min.nanos as int),
            utc_text(time_max.secs as int, time_max.nanos as int),
        ),
{
    let min = google_isoformat(time_min);
    let max = google_isoformat(time_max);
    let mut url = "https://www.googleapis.com/calendar/v3/calendars/".to_string();
    url.append(calendar_id);
    match page_token {
        Some(t) => {
            url.append("/events?maxResults=2500&singleEvents=true&pageToken=");
            url.append(t);
            url.append("&orderBy=startTime&timeMin=");
        },
        None => {
            url.append("/events?maxResults=2500&singleEvents=true&orderBy=startTime&timeMin=");
        },
    }
    url.append(min.as_str());
    url.append("&timeMax=");
    url.append(max.as_str());
    assert(url@ =~= events_url_text(
        calendar_id@,
        crate::summary::opt_str_view(page_token),
        min@,
        max@,
    ));
    url
}

/// What follows a page of events: the fetch fails, goes on with the page
/// of a token, or is done.
#[derive(Clone, Debug, PartialEq, Eq)]
pub enum PageStep {
    Fail,
    Next(String),
    Done,
}

/// The step after a page: a failed request ends the fetch with an error; a
/// page that gives the token of a next page is followed by that page; any
/// other page is the last.
pub fn next_page(status_ok: bool, next_token: Option<String>) -> (r: PageStep)
    ensures
        !status_ok ==> r == PageStep::Fail,
        status_ok ==> r == match next_token {
            Some(t) => PageStep::Next(t),
            None => PageStep::Done,
        },
{
    if !status_ok {
        return PageStep::Fail;
    }
    match next_token {
        Some(t) => PageStep::Next(t),
        None => PageStep::Done,
    }
}

} // verus!
