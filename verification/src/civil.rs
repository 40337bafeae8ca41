//! Calendar dates, local wall-clock readings and instants, with the
//! proleptic Gregorian rules that `chrono` follows.

use vstd::prelude::*;

verus! {

/// The first year a calendar date may have.
pub const MIN_YEAR: i32 = -262143;

/// The last year a calendar date may have.
pub const MAX_YEAR: i32 = 262142;

/// The first representable instant, in seconds since 1970-01-01T00:00:00Z
/// (the start of -262143-01-01).
pub const MIN_TIMESTAMP: i64 = -8334601228800;

/// The last representable whole second, in seconds since 1970-01-01T00:00:00Z
/// (the last second of 262142-12-31).
pub const MAX_TIMESTAMP: i64 = 8210266876799;

/// A calendar date (year, month 1..=12, day of month).
#[derive(Clone, Copy, Debug, PartialEq, Eq, Structural)]
pub struct Date {
    pub year: i32,
    pub month: u32,
    pub day: u32,
}

/// A wall-clock reading: a date with hour and minute.
#[derive(Clone, Copy, Debug, PartialEq, Eq, Structural)]
pub struct LocalTime {
    pub date: Date,
    pub hour: u32,
    pub minute: u32,
}

/// An instant, with how it reads on the clocks of one time zone.
///
/// `secs` counts seconds since 1970-01-01T00:00:00Z; `nanos` is the fraction
/// of the second, which exceeds a second only during a leap second.
#[derive(Clone, Copy, Debug, PartialEq, Eq, Structural)]
pub struct ZonedDateTime {
    pub secs: i64,
    pub nanos: u32,
    pub local: LocalTime,
}

pub open spec fn is_leap_year(y: int) -> bool {
    (y % 4 == 0 && y % 100 != 0) || y % 400 == 0
}

pub open spec fn days_in_month(y: int, m: int) -> int {
    if m == 2 {
        if is_leap_year(y) {
            29
        } else {
            28
        }
    } else if m == 4 || m == 6 || m == 9 || m == 11 {
        30
    } else {
        31
    }
}

/// A date of the calendar within the representable years.
pub open spec fn valid_date(d: Date) -> bool {
    &&& MIN_YEAR <= d.year <= MAX_YEAR
    &&& 1 <= d.month <= 12
    &&& 1 <= d.day <= days_in_month(d.year as int, d.month as int)
}

/// The day after `d`; `None` after the last representable date.
pub open spec fn next_date(d: Date) -> Option<Date> {
    if d.day < days_in_month(d.year as int, d.month as int) {
        Some(Date { day: (d.day + 1) as u32, ..d })
    } else if d.month < 12 {
        Some(Date { month: (d.month + 1) as u32, day: 1, ..d })
    } else if d.year < MAX_YEAR {
        Some(Date { year: (d.year + 1) as i32, month: 1, day: 1 })
    } else {
        None
    }
}

/// A number that orders dates as the calendar does.
pub open spec fn date_rank(d: Date) -> int {
    d.year * 384 + d.month * 32 + d.day
}

/// `a` is not after `b`.
pub open spec fn date_le(a: Date, b: Date) -> bool {
    date_rank(a) <= date_rank(b)
}

/// Days from 1970-01-01 to the first day of year `y`.
pub open spec fn days_before_year(y: int) -> int {
    365 * (y - 1970) + (y - 1) / 4 - (y - 1) / 100 + (y - 1) / 400 - 477
}

/// Days from the first day of year `y` to the first day of month `m`.
pub open spec fn days_before_month(y: int, m: int) -> int {
    let common: int = if m == 1 {
        0
    } else if m == 2 {
        31
    } else if m == 3 {
        59
    } else if m == 4 {
        90
    } else if m == 5 {
        120
    } else if m == 6 {
        151
    } else if m == 7 {
        181
    } else if m == 8 {
        212
    } else if m == 9 {
        243
    } else if m == 10 {
        273
    } else if m == 11 {
        304
    } else {
        334
    };
    if m > 2 && is_leap_year(y) {
        common + 1
    } else {
        common
    }
}

/// Days from 1970-01-01 to `d`.
pub open spec fn days_from_epoch(d: Date) -> int {
    days_before_year(d.year as int) + days_before_month(d.year as int, d.month as int) + d.day - 1
}

/// The first second of `d`, counted from 1970-01-01T00:00:00Z.
pub open spec fn day_start_secs(d: Date) -> int {
    days_from_epoch(d) * 86400
}

/// `DateTime::from_timestamp(secs, nanos)` gives an instant.
pub open spec fn in_chrono_range(secs: int, nanos: int) -> bool {
    &&& MIN_TIMESTAMP <= secs <= MAX_TIMESTAMP
    &&& 0 <= nanos
    &&& (nanos < 1_000_000_000 || (nanos < 2_000_000_000 && secs % 60 == 59))
}

/// `a` is strictly earlier than `b`.
pub open spec fn is_before(a: ZonedDateTime, b: ZonedDateTime) -> bool {
    a.secs < b.secs || (a.secs == b.secs && a.nanos < b.nanos)
}

/// The later of two instants; the second one when they are equal
/// (`std::cmp::max`).
pub open spec fn later_of(a: ZonedDateTime, b: ZonedDateTime) -> ZonedDateTime {
    if is_before(b, a) {
        a
    } else {
        b
    }
}

/// The earlier of two instants; the first one when they are equal
/// (`std::cmp::min`).
pub open spec fn earlier_of(a: ZonedDateTime, b: ZonedDateTime) -> ZonedDateTime {
    if is_before(b, a) {
        b
    } else {
        a
    }
}

/// Whole seconds from `b` to `a`, as `(a - b).num_seconds()` counts them:
/// a leap second in one of the two counts toward the span it lies in, and the
/// count is truncated toward zero.
pub open spec fn elapsed_seconds(a: ZonedDateTime, b: ZonedDateTime) -> int {
    let sod_a = a.secs % 86400;
    let sod_b = b.secs % 86400;
    let adjust = if sod_a > sod_b && b.nanos >= 1_000_000_000 {
        1int
    } else if sod_a < sod_b && a.nanos >= 1_000_000_000 {
        -1int
    } else {
        0int
    };
    let frac = a.nanos - b.nanos;
    let whole = (a.secs - b.secs) + adjust + frac / 1_000_000_000;
    let rest = frac % 1_000_000_000;
    if whole < 0 && rest > 0 {
        whole + 1
    } else {
        whole
    }
}

/// Ranks compare valid dates as (year, month, day) compare.
pub proof fn lemma_rank_order(a: Date, b: Date)
    requires
        valid_date(a),
        valid_date(b),
    ensures
        a.year < b.year ==> date_rank(a) < date_rank(b),
        a.year == b.year && a.month < b.month ==> date_rank(a) < date_rank(b),
        a.year == b.year && a.month == b.month ==> (date_rank(a) <= date_rank(b) <==> a.day
            <= b.day),
        date_rank(a) == date_rank(b) ==> a == b,
{
    let ya = a.year as int;
    let yb = b.year as int;
    if ya < yb {
        assert(ya * 384 + 384 <= yb * 384) by (nonlinear_arith)
            requires
                ya < yb,
        ;
    }
    if yb < ya {
        assert(yb * 384 + 384 <= ya * 384) by (nonlinear_arith)
            requires
                yb < ya,
        ;
    }
}

/// The next day is a valid date, a little later in rank.
pub proof fn lemma_next_date_rank(d: Date)
    requires
        valid_date(d),
    ensures
        next_date(d) matches Some(n) ==> valid_date(n) && date_rank(d) < date_rank(n)
            && date_rank(n) <= date_rank(d) + 5,
{
}

/// `NaiveDate::succ_opt`: the day after `d`.
pub fn next_day(d: Date) -> (r: Option<Date>)
    requires
        valid_date(d),
    ensures
        r == next_date(d),
        r matches Some(n) ==> valid_date(n) && date_rank(d) < date_rank(n) && date_rank(n)
            <= date_rank(d) + 5,
{
    proof {
        lemma_next_date_rank(d);
    }
    let leap = (d.year % 4 == 0 && d.year % 100 != 0) || d.year % 400 == 0;
    let last: u32 = if d.month == 2 {
        if leap {
            29
        } else {
            28
        }
    } else if d.month == 4 || d.month == 6 || d.month == 9 || d.month == 11 {
        30
    } else {
        31
    };
    if d.day < last {
        Some(Date { day: d.day + 1, ..d })
    } else if d.month < 12 {
        Some(Date { month: d.month + 1, day: 1, ..d })
    } else if d.year < MAX_YEAR {
        Some(Date { year: d.year + 1, month: 1, day: 1 })
    } else {
        None
    }
}

/// Whether `d` is a date of the calendar within the representable years.
pub fn is_valid_date(d: Date) -> (r: bool)
    ensures
        r == valid_date(d),
{
    if d.year < MIN_YEAR || d.year > MAX_YEAR || d.month < 1 || d.month > 12 || d.day < 1 {
        return false;
    }
    let leap = (d.year % 4 == 0 && d.year % 100 != 0) || d.year % 400 == 0;
    let last: u32 = if d.month == 2 {
        if leap {
            29
        } else {
            28
        }
    } else if d.month == 4 || d.month == 6 || d.month == 9 || d.month == 11 {
        30
    } else {
        31
    };
    d.day <= last
}

/// Whether `a` is not after `b`.
pub fn date_not_after(a: Date, b: Date) -> (r: bool)
    requires
        valid_date(a),
        valid_date(b),
    ensures
        r == date_le(a, b),
{
    proof {
        lemma_rank_order(a, b);
    }
    if a.year != b.year {
        a.year < b.year
    } else if a.month != b.month {
        a.month < b.month
    } else {
        a.day <= b.day
    }
}

/// Whether `a` is strictly earlier than `b`.
pub fn before(a: &ZonedDateTime, b: &ZonedDateTime) -> (r: bool)
    ensures
        r == is_before(*a, *b),
{
    a.secs < b.secs || (a.secs == b.secs && a.nanos < b.nanos)
}

/// `std::cmp::max` of two instants.
pub fn later(a: ZonedDateTime, b: ZonedDateTime) -> (r: ZonedDateTime)
    ensures
        r == later_of(a, b),
{
    if before(&b, &a) {
        a
    } else {
        b
    }
}

/// `std::cmp::min` of two instants.
pub fn earlier(a: ZonedDateTime, b: ZonedDateTime) -> (r: ZonedDateTime)
    ensures
        r == earlier_of(a, b),
{
    if before(&b, &a) {
        b
    } else {
        a
    }
}

/// `(a - b).num_seconds()` for two instants.
pub fn elapsed(a: &ZonedDateTime, b: &ZonedDateTime) -> (r: i64)
    requires
        in_chrono_range(a.secs as int, a.nanos as int),
        in_chrono_range(b.secs as int, b.nanos as int),
    ensures
        r == elapsed_seconds(*a, *b),
{
    let sod_a = a.secs % 86400;
    let sod_b = b.secs % 86400;
    let sod_a = if sod_a < 0 { sod_a + 86400 } else { sod_a };
    let sod_b = if sod_b < 0 { sod_b + 86400 } else { sod_b };
    assert(sod_a == a.secs as int % 86400);
    assert(sod_b == b.secs as int % 86400);
    let adjust: i64 = if sod_a > sod_b && b.nanos >= 1_000_000_000 {
        1
    } else if sod_a < sod_b && a.nanos >= 1_000_000_000 {
        -1
    } else {
        0
    };
    let frac: i64 = a.nanos as i64 - b.nanos as i64;
    let (q, rest): (i64, i64) = if frac >= 0 {
        (frac / 1_000_000_000, frac % 1_000_000_000)
    } else if frac % 1_000_000_000 == 0 {
        (frac / 1_000_000_000, 0)
    } else {
        (frac / 1_000_000_000 - 1, frac % 1_000_000_000 + 1_000_000_000)
    };
    assert(q == frac as int / 1_000_000_000 && rest == frac as int % 1_000_000_000) by {
        assert(frac == q * 1_000_000_000 + rest);
    }
    let whole = (a.secs - b.secs) + adjust + q;
    if whole < 0 && rest > 0 {
        whole + 1
    } else {
        whole
    }
}

proof fn lemma_div_shift(a: int, k: int, n: int)
    requires
        k > 0,
    ensures
        (a + k * n) / k == a / k + n,
{
    vstd::arithmetic::div_mod::lemma_hoist_over_denominator(a, n, k as nat);
    assert(n * k == k * n) by (nonlinear_arith);
}

fn days_before_year_exec(y: i64) -> (r: i64)
    requires
        MIN_YEAR <= y <= MAX_YEAR,
    ensures
        r == days_before_year(y as int),
{
    let shifted = (y - 1) + 400000;
    proof {
        lemma_div_shift(y - 1, 4, 100000);
        lemma_div_shift(y - 1, 100, 4000);
        lemma_div_shift(y - 1, 400, 1000);
    }
    365 * (y - 1970) + (shifted / 4 - 100000) - (shifted / 100 - 4000) + (shifted / 400 - 1000)
        - 477
}

fn days_before_month_exec(leap: bool, m: u32) -> (r: i64)
    requires
        1 <= m <= 12,
    ensures
        forall|y: int| is_leap_year(y) == leap ==> r == days_before_month(y, m as int),
{
    let common: i64 = if m == 1 {
        0
    } else if m == 2 {
        31
    } else if m == 3 {
        59
    } else if m == 4 {
        90
    } else if m == 5 {
        120
    } else if m == 6 {
        151
    } else if m == 7 {
        181
    } else if m == 8 {
        212
    } else if m == 9 {
        243
    } else if m == 10 {
        273
    } else if m == 11 {
        304
    } else {
        334
    };
    if m > 2 && leap {
        common + 1
    } else {
        common
    }
}

/// Days from 1970-01-01 to `d`.
pub fn days_since_epoch(d: Date) -> (r: i64)
    requires
        valid_date(d),
    ensures
        r == days_from_epoch(d),
{
    let leap = (d.year % 4 == 0 && d.year % 100 != 0) || d.year % 400 == 0;
    assert(leap == is_leap_year(d.year as int));
    let before_year = days_before_year_exec(d.year as i64);
    let before_month = days_before_month_exec(leap, d.month);
    before_year + before_month + d.day as i64 - 1
}

proof fn lemma_div_step(y: int, k: int)
    requires
        k > 1,
    ensures
        y / k == (y - 1) / k + if y % k == 0 {
            1int
        } else {
            0int
        },
{
    let q = y / k;
    let r = y % k;
    vstd::arithmetic::div_mod::lemma_fundamental_div_mod(y, k);
    assert(0 <= r < k) by {
        vstd::arithmetic::div_mod::lemma_mod_bound(y, k);
    }
    assert((q - 1) * k == q * k - k && q * k == k * q) by (nonlinear_arith);
    if r > 0 {
        vstd::arithmetic::div_mod::lemma_fundamental_div_mod_converse(y - 1, k, q, r - 1);
    } else {
        vstd::arithmetic::div_mod::lemma_fundamental_div_mod_converse(y - 1, k, q - 1, k - 1);
    }
}

proof fn lemma_days_before_year_step(y: int)
    ensures
        days_before_year(y + 1) == days_before_year(y) + if is_leap_year(y) {
            366int
        } else {
            365int
        },
{
    lemma_div_step(y, 4);
    lemma_div_step(y, 100);
    lemma_div_step(y, 400);
}

proof fn lemma_days_before_year_monotone(y1: int, y2: int)
    requires
        y1 <= y2,
    ensures
        days_before_year(y1) <= days_before_year(y2),
{
    let a = y1 - 1;
    let b = y2 - 1;
    assert(a / 4 * 4 + a % 4 == a);
    assert(b / 4 * 4 + b % 4 == b);
    assert(a / 100 * 100 + a % 100 == a);
    assert(b / 100 * 100 + b % 100 == b);
    assert(a / 400 * 400 + a % 400 == a);
    assert(b / 400 * 400 + b % 400 == b);
}

/// The first instant of a valid date is representable.
pub proof fn lemma_date_start_in_range(d: Date)
    requires
        valid_date(d),
    ensures
        in_chrono_range(days_from_epoch(d) * 86400, 0),
        days_from_epoch(d) * 86400 + 86399 <= MAX_TIMESTAMP,
{
    let y = d.year as int;
    lemma_days_before_year_monotone(MIN_YEAR as int, y);
    lemma_days_before_year_monotone(y + 1, MAX_YEAR as int + 1);
    lemma_days_before_year_step(y);
    assert(days_before_year(MIN_YEAR as int) == -96465292);
    assert(days_before_year(MAX_YEAR as int + 1) == 95026237);
}

/// The day after a date is one day further from the epoch.
pub proof fn lemma_next_date_days(d: Date)
    requires
        valid_date(d),
        next_date(d) is Some,
    ensures
        days_from_epoch(next_date(d)->0) == days_from_epoch(d) + 1,
{
    let y = d.year as int;
    if d.day >= days_in_month(y, d.month as int) && d.month == 12 {
        lemma_days_before_year_step(y);
    }
}

/// A valid date with a later valid date has a next day, and counts fewer
/// days from the epoch than the later one.
pub proof fn lemma_days_follow_rank(d: Date, b: Date)
    requires
        valid_date(d),
        valid_date(b),
        date_rank(d) < date_rank(b),
    ensures
        next_date(d) is Some,
        date_rank(next_date(d)->0) <= date_rank(b),
        days_from_epoch(d) < days_from_epoch(b),
    decreases date_rank(b) - date_rank(d),
{
    lemma_rank_order(d, b);
    if next_date(d) is None {
        assert(date_rank(b) <= date_rank(d));
    }
    lemma_next_date_rank(d);
    let n = next_date(d)->0;
    lemma_next_date_days(d);
    lemma_rank_order(b, n);
    lemma_rank_order(d, n);
    if date_rank(n) < date_rank(b) {
        lemma_days_follow_rank(n, b);
    } else {
        lemma_rank_order(n, b);
    }
}

} // verus!
