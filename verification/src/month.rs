//! The instants at which a month begins and ends in a time zone.

use vstd::prelude::*;
use crate::civil::{
    day_start_secs, days_from_epoch, lemma_days_follow_rank, lemma_rank_order, valid_date, Date, ZonedDateTime,
    MAX_YEAR, MIN_YEAR,
};
use crate::event::{readable, zoned_at};
use crate::zone::{midnight_at, midnight_instant, zero_offset, Zone};

verus! {

/// The first day of the month.
pub open spec fn first_of_month(year: int, month: int) -> Date {
    Date { year: year as i32, month: month as u32, day: 1 }
}

/// The first day of the month after.
pub open spec fn first_of_next_month(year: int, month: int) -> Date {
    if month == 12 {
        Date { year: (year + 1) as i32, month: 1, day: 1 }
    } else {
        Date { year: year as i32, month: (month + 1) as u32, day: 1 }
    }
}

/// The month has a beginning and an end in `zone`: both first days begin at
/// one instant, and the next year is an `i32`.
pub open spec fn month_bounded(zone: Seq<char>, year: int, month: int) -> bool {
    &&& month == 12 ==> year < i32::MAX
    &&& midnight_instant(zone, first_of_month(year, month)) is Some
    &&& midnight_instant(zone, first_of_next_month(year, month)) is Some
}

/// The first instant of the month and of the month after, in `zone`.
pub open spec fn month_bounds(zone: Seq<char>, year: int, month: int) -> (ZonedDateTime, ZonedDateTime) {
    (
        zoned_at(zone, midnight_instant(zone, first_of_month(year, month))->0, 0),
        zoned_at(zone, midnight_instant(zone, first_of_next_month(year, month))->0, 0),
    )
}

/// The instants at which the month begins and the next one begins in `zone`.
pub fn month_range(year: i32, month: u32, zone: &Zone) -> (r: (ZonedDateTime, ZonedDateTime))
    requires
        month_bounded(zone@, year as int, month as int),
    ensures
        r == month_bounds(zone@, year as int, month as int),
        readable(r.0),
        readable(r.1),
{
    let start = midnight_at(zone, Date { year, month, day: 1 }).unwrap();
    assert(month <= 12);
    let next = if month == 12 {
        Date { year: year + 1, month: 1, day: 1 }
    } else {
        Date { year, month: month + 1, day: 1 }
    };
    let end = midnight_at(zone, next).unwrap();
    (start, end)
}

/// The instants at which the month begins and the next one begins in
/// `zone`; `None` when the month is not bounded there (see `month_bounded`).
pub fn checked_month_range(year: i32, month: u32, zone: &Zone) -> (r: Option<(ZonedDateTime, ZonedDateTime)>)
    ensures
        r is Some <==> month_bounded(zone@, year as int, month as int),
        r matches Some(b) ==> b == month_bounds(zone@, year as int, month as int) && readable(b.0)
            && readable(b.1),
{
    if month == 12 && year == i32::MAX {
        return None;
    }
    if midnight_at(zone, Date { year, month, day: 1 }).is_none() {
        return None;
    }
    let next = if month == 12 {
        Date { year: year + 1, month: 1, day: 1 }
    } else {
        Date { year, month: month + 1, day: 1 }
    };
    if midnight_at(zone, next).is_none() {
        return None;
    }
    Some(month_range(year, month, zone))
}

/// In a zone at offset zero (UTC), every month of the calendar's range is
/// bounded, and it begins before the next one does.
pub proof fn lemma_month_bounds_ordered(zone: Seq<char>, year: int, month: int)
    requires
        zero_offset(zone),
        1 <= month <= 12,
        MIN_YEAR <= year <= MAX_YEAR,
        month == 12 ==> year < MAX_YEAR,
    ensures
        month_bounded(zone, year, month),
        month_bounds(zone, year, month).0.secs < month_bounds(zone, year, month).1.secs,
{
    let a = first_of_month(year, month);
    let b = first_of_next_month(year, month);
    assert(valid_date(a) && valid_date(b));
    assert(midnight_instant(zone, a) == Some(day_start_secs(a)));
    assert(midnight_instant(zone, b) == Some(day_start_secs(b)));
    lemma_rank_order(a, b);
    lemma_days_follow_rank(a, b);
    crate::civil::lemma_date_start_in_range(a);
    crate::civil::lemma_date_start_in_range(b);
    assert(days_from_epoch(a) * 86400 < days_from_epoch(b) * 86400) by (nonlinear_arith)
        requires
            days_from_epoch(a) < days_from_epoch(b),
    ;
}

/// Consecutive months abut: a month ends at the instant at which the next
/// one begins.
pub proof fn lemma_months_abut(zone: Seq<char>, year: int, month: int)
    requires
        1 <= month <= 12,
        i32::MIN <= year,
        month == 12 ==> year < i32::MAX,
        year <= i32::MAX,
    ensures
        month_bounds(zone, year, month).1 == month_bounds(
            zone,
            if month == 12 {
                year + 1
            } else {
                year
            },
            if month == 12 {
                1
            } else {
                month + 1
            },
        ).0,
{
}

} // verus!
