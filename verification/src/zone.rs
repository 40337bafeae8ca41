//! Time zones of the tz database and the readings of instants on their
//! clocks, through `chrono` and `chrono-tz`.

use vstd::prelude::*;
use chrono::{DateTime, Datelike, LocalResult, NaiveDate, TimeZone, Timelike};
use chrono_tz::Tz;
use crate::civil::{day_start_secs, in_chrono_range, valid_date, Date, LocalTime, ZonedDateTime};
use crate::settings::SettingsError;

verus! {

broadcast use vstd::string::group_string_axioms;

#[verifier::external_type_specification]
#[verifier::external_body]
pub struct ExTz(Tz);

#[verifier::external_type_specification]
#[verifier::external_body]
pub struct ExTzParseError(chrono_tz::ParseError);

#[verifier::external_type_specification]
#[verifier::external_body]
pub struct ExChronoParseError(chrono::ParseError);

/// Whether `<Tz as FromStr>::from_str` knows the zone `name`.
pub uninterp spec fn tz_name_known(name: Seq<char>) -> bool;

/// How the instant `secs` reads on the clocks of the zone `zone`
/// (`DateTime::with_timezone`).
pub uninterp spec fn local_time_at(zone: Seq<char>, secs: int) -> LocalTime;

/// The instant at which `date` begins in the zone `zone`
/// (`TimeZone::with_ymd_and_hms` at 00:00:00), when that wall-clock reading
/// happens exactly once; `None` when it is skipped, repeated or out of range.
pub uninterp spec fn midnight_instant(zone: Seq<char>, date: Date) -> Option<int>;

/// The instant of an RFC 3339 text (`DateTime::parse_from_rfc3339`), as
/// seconds since the epoch and the fraction of the second.
pub uninterp spec fn rfc3339_instant(text: Seq<char>) -> Option<(int, int)>;

/// The date of a `"%Y-%m-%d"` text (`NaiveDate::parse_from_str`).
pub uninterp spec fn ymd_date(text: Seq<char>) -> Option<Date>;

/// A time zone of the tz database. Its view is its name; the zone is the one
/// that `chrono-tz` reads from that name.
pub struct Zone {
    tz: Tz,
    name: String,
}

impl View for Zone {
    type V = Seq<char>;

    closed spec fn view(&self) -> Seq<char> {
        self.name@
    }
}

/// The zone name `"UTC"`.
pub open spec fn utc_name() -> Seq<char> {
    seq!['U', 'T', 'C']
}

/// `<Tz as FromStr>::from_str`: the zone that `name` names.
#[verifier::external_body]
fn tz_from_name(name: &str) -> (r: Result<Tz, chrono_tz::ParseError>)
    ensures
        r is Ok <==> tz_name_known(name@),
{
    name.parse::<Tz>()
}

/// The second `k` of day `d`, counted from the epoch.
pub open spec fn utc_second(d: Date, k: int) -> int {
    day_start_secs(d) + k
}

/// The zone reads instants at offset zero: every day begins at the first
/// second of that day counted from the epoch, that second reads as the
/// day's midnight, and the second `k` of the day reads as hour `k / 3600`,
/// minute `k % 3600 / 60` of it.
pub open spec fn zero_offset(zone: Seq<char>) -> bool {
    &&& forall|d: Date| valid_date(d) ==> #[trigger] midnight_instant(zone, d) == Some(day_start_secs(d))
    &&& forall|d: Date|
        valid_date(d) ==> #[trigger] local_time_at(zone, day_start_secs(d)) == (LocalTime {
            date: d,
            hour: 0,
            minute: 0,
        })
    &&& forall|d: Date, k: int|
        valid_date(d) && 0 <= k < 86400 ==> #[trigger] local_time_at(zone, utc_second(d, k)) == (LocalTime {
            date: d,
            hour: (k / 3600) as u32,
            minute: (k % 3600 / 60) as u32,
        })
}

/// The zone `Tz::UTC`, which the name `"UTC"` names. Its offset from UTC
/// is always zero: `with_ymd_and_hms` gives a single instant for every date
/// of `chrono`'s range, and an instant reads as its UTC date and time.
#[verifier::external_body]
pub(crate) fn utc_zone() -> (z: Zone)
    ensures
        z@ == utc_name(),
        zero_offset(z@),
{
    Zone { tz: Tz::UTC, name: "UTC".to_string() }
}

/// The zone named `tz_name`; an error naming it when the tz database does
/// not know it.
pub fn parse_timezone(tz_name: &str) -> (r: Result<Zone, SettingsError>)
    ensures
        r is Ok <==> tz_name_known(tz_name@),
        r matches Ok(z) ==> z@ == tz_name@,
        r matches Err(e) ==> e matches SettingsError::InvalidTimezone(n) && n@ == tz_name@,
{
    match tz_from_name(tz_name) {
        Ok(tz) => Ok(Zone { tz, name: tz_name.to_string() }),
        Err(_) => Err(SettingsError::InvalidTimezone(tz_name.to_string())),
    }
}

/// `DateTime::from_timestamp(secs, nanos)` read on the clocks of `zone`
/// (`DateTime::with_timezone`).
#[verifier::external_body]
pub(crate) fn at_zone(zone: &Zone, secs: i64, nanos: u32) -> (r: ZonedDateTime)
    requires
        in_chrono_range(secs as int, nanos as int),
    ensures
        r.secs == secs,
        r.nanos == nanos,
        r.local == local_time_at(zone@, secs as int),
        r.local.hour < 24,
        r.local.minute < 60,
        1 <= r.local.date.month <= 12,
        1 <= r.local.date.day <= 31,
{
    let dt = DateTime::from_timestamp(secs, nanos).unwrap().with_timezone(&zone.tz);
    let date = Date { year: dt.year(), month: dt.month(), day: dt.day() };
    ZonedDateTime { secs, nanos, local: LocalTime { date, hour: dt.hour(), minute: dt.minute() } }
}

/// `zone.with_ymd_and_hms(year, month, day, 0, 0, 0)` when it gives a single
/// instant. That instant reads as `date` at 00:00 on the zone's clocks.
#[verifier::external_body]
pub(crate) fn midnight_at(zone: &Zone, date: Date) -> (r: Option<ZonedDateTime>)
    ensures
        r is Some <==> midnight_instant(zone@, date) is Some,
        r matches Some(m) ==> {
            &&& m.secs == midnight_instant(zone@, date)->0
            &&& m.nanos == 0
            &&& valid_date(date)
            &&& in_chrono_range(m.secs as int, 0)
            &&& m.local == (LocalTime { date, hour: 0, minute: 0 })
            &&& m.local == local_time_at(zone@, m.secs as int)
        },
{
    match zone.tz.with_ymd_and_hms(date.year, date.month, date.day, 0, 0, 0) {
        LocalResult::Single(dt) => {
            let d = Date { year: dt.year(), month: dt.month(), day: dt.day() };
            let local = LocalTime { date: d, hour: dt.hour(), minute: dt.minute() };
            Some(ZonedDateTime { secs: dt.timestamp(), nanos: 0, local })
        },
        LocalResult::Ambiguous(_, _) => None,
        LocalResult::None => None,
    }
}

/// `DateTime::parse_from_rfc3339`: the instant an RFC 3339 text names.
#[verifier::external_body]
pub(crate) fn parse_rfc3339(text: &str) -> (r: Result<(i64, u32), chrono::ParseError>)
    ensures
        r is Ok <==> rfc3339_instant(text@) is Some,
        r matches Ok(v) ==> rfc3339_instant(text@) == Some((v.0 as int, v.1 as int))
            && in_chrono_range(v.0 as int, v.1 as int),
{
    match DateTime::parse_from_rfc3339(text) {
        Ok(dt) => Ok((dt.timestamp(), dt.timestamp_subsec_nanos())),
        Err(e) => Err(e),
    }
}

/// `NaiveDate::parse_from_str(text, "%Y-%m-%d")`.
#[verifier::external_body]
pub(crate) fn parse_ymd(text: &str) -> (r: Result<Date, chrono::ParseError>)
    ensures
        r is Ok <==> ymd_date(text@) is Some,
        r matches Ok(d) ==> ymd_date(text@) == Some(d) && valid_date(d),
{
    match NaiveDate::parse_from_str(text, "%Y-%m-%d") {
        Ok(d) => Ok(Date { year: d.year(), month: d.month(), day: d.day() }),
        Err(e) => Err(e),
    }
}

} // verus!
