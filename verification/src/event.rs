//! Calendar events as the report reads them, and the instants at which they
//! begin and end.

use vstd::prelude::*;
use crate::civil::{
    day_start_secs, days_from_epoch, days_since_epoch, in_chrono_range, lemma_date_start_in_range, ZonedDateTime,
};
use crate::zone::{at_zone, local_time_at, parse_rfc3339, parse_ymd, rfc3339_instant, ymd_date, Zone};

verus! {

/// The start or the end of an event: an instant (`dateTime`, RFC 3339) for
/// timed events, a date (`date`, `YYYY-MM-DD`) for all-day events. A field
/// is `None` when it is missing or not a text.
#[derive(Clone, Debug)]
pub struct EventTime {
    pub date_time: Option<String>,
    pub date: Option<String>,
}

/// A calendar event: its summary, start and end. A field is `None` when it
/// is missing or not of the expected kind.
#[derive(Clone, Debug)]
pub struct Event {
    pub summary: Option<String>,
    pub start: Option<EventTime>,
    pub end: Option<EventTime>,
}

/// Why the start and end of an event cannot be read.
#[derive(Clone, Copy, Debug, PartialEq, Eq, Structural)]
pub enum EventError {
    MissingStart,
    MissingEnd,
    MissingEndDateTime,
    MissingEndDate,
    InvalidDateTime,
    InvalidDate,
    InvalidFormat,
}

/// The instant `(secs, nanos)` read on the clocks of `zone`.
pub open spec fn zoned_at(zone: Seq<char>, secs: int, nanos: int) -> ZonedDateTime {
    ZonedDateTime { secs: secs as i64, nanos: nanos as u32, local: local_time_at(zone, secs) }
}

/// The first instant of the UTC day `date`, read on the clocks of `zone`.
pub open spec fn utc_day_start_at(zone: Seq<char>, date: crate::civil::Date) -> ZonedDateTime {
    zoned_at(zone, day_start_secs(date), 0)
}

/// The start and end of a timed event.
pub open spec fn timed_span(start: Seq<char>, end: Seq<char>, zone: Seq<char>) -> Result<
    (ZonedDateTime, ZonedDateTime, bool),
    EventError,
> {
    match (rfc3339_instant(start), rfc3339_instant(end)) {
        (Some(a), Some(b)) => Ok((zoned_at(zone, a.0, a.1), zoned_at(zone, b.0, b.1), false)),
        _ => Err(EventError::InvalidDateTime),
    }
}

/// The start and end of an all-day event: the first instants of its UTC
/// start and end days.
pub open spec fn all_day_span(start: Seq<char>, end: Seq<char>, zone: Seq<char>) -> Result<
    (ZonedDateTime, ZonedDateTime, bool),
    EventError,
> {
    match (ymd_date(start), ymd_date(end)) {
        (Some(a), Some(b)) => Ok((utc_day_start_at(zone, a), utc_day_start_at(zone, b), true)),
        _ => Err(EventError::InvalidDate),
    }
}

/// The start and end of `e` read on the clocks of `zone`, and whether it is
/// an all-day event.
pub open spec fn event_span(e: Event, zone: Seq<char>) -> Result<
    (ZonedDateTime, ZonedDateTime, bool),
    EventError,
> {
    match (e.start, e.end) {
        (None, _) => Err(EventError::MissingStart),
        (Some(_), None) => Err(EventError::MissingEnd),
        (Some(s), Some(t)) => if s.date_time is Some {
            match t.date_time {
                Some(te) => timed_span(s.date_time->0@, te@, zone),
                None => Err(EventError::MissingEndDateTime),
            }
        } else if s.date is Some {
            match t.date {
                Some(te) => all_day_span(s.date->0@, te@, zone),
                None => Err(EventError::MissingEndDate),
            }
        } else {
            Err(EventError::InvalidFormat)
        },
    }
}

/// The instants of a span are representable.
pub open spec fn span_in_range(r: Result<(ZonedDateTime, ZonedDateTime, bool), EventError>) -> bool {
    r matches Ok(v) ==> readable(v.0) && readable(v.1)
}

/// A representable instant with a wall-clock reading of a real hour and minute.
pub open spec fn readable(t: ZonedDateTime) -> bool {
    &&& in_chrono_range(t.secs as int, t.nanos as int)
    &&& t.local.hour < 24
    &&& t.local.minute < 60
    &&& 1 <= t.local.date.month <= 12
    &&& 1 <= t.local.date.day <= 31
}

fn read_instant(text: &String, zone: &Zone) -> (r: Result<ZonedDateTime, EventError>)
    ensures
        match rfc3339_instant(text@) {
            Some(a) => r == Ok::<ZonedDateTime, EventError>(zoned_at(zone@, a.0, a.1)) && readable(zoned_at(zone@, a.0, a.1)),
            None => r == Err::<ZonedDateTime, EventError>(EventError::InvalidDateTime),
        },
{
    match parse_rfc3339(text.as_str()) {
        Ok((secs, nanos)) => Ok(at_zone(zone, secs, nanos)),
        Err(_) => Err(EventError::InvalidDateTime),
    }
}

fn read_day_start(text: &String, zone: &Zone) -> (r: Result<ZonedDateTime, EventError>)
    ensures
        match ymd_date(text@) {
            Some(d) => r == Ok::<ZonedDateTime, EventError>(utc_day_start_at(zone@, d)) && readable(utc_day_start_at(zone@, d)),
            None => r == Err::<ZonedDateTime, EventError>(EventError::InvalidDate),
        },
{
    match parse_ymd(text.as_str()) {
        Ok(d) => {
            proof {
                lemma_date_start_in_range(d);
            }
            let days = days_since_epoch(d);
            Ok(at_zone(zone, days * 86400, 0))
        },
        Err(_) => Err(EventError::InvalidDate),
    }
}

/// The start and end of `event` read on the clocks of `zone`, and whether it
/// is an all-day event; see `event_span`.
pub fn parse_event_datetimes(event: &Event, zone: &Zone) -> (r: Result<
    (ZonedDateTime, ZonedDateTime, bool),
    EventError,
>)
    ensures
        r == event_span(*event, zone@),
        span_in_range(r),
{
    let start = match &event.start {
        Some(s) => s,
        None => return Err(EventError::MissingStart),
    };
    let end = match &event.end {
        Some(t) => t,
        None => return Err(EventError::MissingEnd),
    };
    if let Some(start_dt) = &start.date_time {
        let end_dt = match &end.date_time {
            Some(t) => t,
            None => return Err(EventError::MissingEndDateTime),
        };
        let a = read_instant(start_dt, zone)?;
        let b = read_instant(end_dt, zone)?;
        return Ok((a, b, false));
    }
    if let Some(start_date) = &start.date {
        let end_date = match &end.date {
            Some(t) => t,
            None => return Err(EventError::MissingEndDate),
        };
        let a = read_day_start(start_date, zone)?;
        let b = read_day_start(end_date, zone)?;
        return Ok((a, b, true));
    }
    Err(EventError::InvalidFormat)
}

fn copy_text(t: &Option<String>) -> (r: Option<String>)
    ensures
        r == *t,
{
    match t {
        Some(s) => Some(s.clone()),
        None => None,
    }
}

fn copy_time(t: &Option<EventTime>) -> (r: Option<EventTime>)
    ensures
        r == *t,
{
    match t {
        Some(x) => Some(EventTime { date_time: copy_text(&x.date_time), date: copy_text(&x.date) }),
        None => None,
    }
}

/// A copy of `event`.
pub fn copy_event(event: &Event) -> (r: Event)
    ensures
        r == *event,
{
    Event {
        summary: copy_text(&event.summary),
        start: copy_time(&event.start),
        end: copy_time(&event.end),
    }
}

} // verus!
