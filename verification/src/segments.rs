//! Splitting an event into the parts that fall on each local calendar day.

use vstd::prelude::*;
use crate::civil::{
    before, date_le, date_not_after, date_rank, earlier, earlier_of, elapsed, elapsed_seconds,
    in_chrono_range, is_before, is_valid_date, later, later_of, lemma_rank_order, next_date, next_day, valid_date,
    Date, ZonedDateTime, MAX_TIMESTAMP,
};
use crate::civil::{day_start_secs, days_from_epoch, lemma_date_start_in_range, lemma_days_follow_rank, lemma_next_date_days};
use crate::event::{readable, utc_day_start_at, zoned_at};
use crate::zone::{at_zone, midnight_at, midnight_instant, zero_offset, Zone};

verus! {

/// The part of an event that falls on one local day: the day, the instants
/// at which the part begins and ends, and its length in whole seconds.
#[derive(Clone, Copy, Debug, PartialEq, Eq, Structural)]
pub struct DaySegment {
    pub day: Date,
    pub start: ZonedDateTime,
    pub end: ZonedDateTime,
    pub seconds: i64,
}

/// The instant at which the day after `d` begins in `zone`, when it has one.
pub open spec fn next_midnight(zone: Seq<char>, d: Date) -> Option<int> {
    match next_date(d) {
        Some(n) => midnight_instant(zone, n),
        None => None,
    }
}

/// The instant at which day `d` ends in `zone`: where the next day begins,
/// when it begins at one instant; otherwise one day (86400 seconds) after
/// `d` began.
pub open spec fn day_end_secs(zone: Seq<char>, d: Date) -> int {
    match next_midnight(zone, d) {
        Some(m2) => m2,
        None => midnight_instant(zone, d)->0 + 86400,
    }
}

/// The window of day `d` in `zone`: from the instant at which `d` begins to
/// the instant at which it ends, so that a day of 23 or 25 hours on a change
/// of the clocks keeps its length.
pub open spec fn day_window(zone: Seq<char>, d: Date) -> Option<(ZonedDateTime, ZonedDateTime)> {
    match midnight_instant(zone, d) {
        Some(m) => Some((zoned_at(zone, m, 0), zoned_at(zone, day_end_secs(zone, d), 0))),
        None => None,
    }
}

/// The part of the event `[start, end)` that falls in the window of day `d`,
/// when that part is not empty.
pub open spec fn segment_of_day(zone: Seq<char>, start: ZonedDateTime, end: ZonedDateTime, d: Date) -> Option<DaySegment> {
    match day_window(zone, d) {
        Some((ds, de)) => {
            let ss = later_of(start, ds);
            let se = earlier_of(end, de);
            if is_before(ss, se) {
                Some(DaySegment { day: d, start: ss, end: se, seconds: elapsed_seconds(se, ss) as i64 })
            } else {
                None
            }
        },
        None => None,
    }
}

/// The day begins at one representable instant, one day later is
/// representable, the day has a next day, and the day ends at a
/// representable instant.
pub open spec fn has_window(zone: Seq<char>, d: Date) -> bool {
    &&& midnight_instant(zone, d) is Some
    &&& in_chrono_range(midnight_instant(zone, d)->0, 0)
    &&& in_chrono_range(midnight_instant(zone, d)->0 + 86400, 0)
    &&& next_date(d) is Some
    &&& in_chrono_range(day_end_secs(zone, d), 0)
}

/// Every day from `first` to `last` has a window.
pub open spec fn day_windows_exist(zone: Seq<char>, first: Date, last: Date) -> bool {
    &&& valid_date(first)
    &&& valid_date(last)
    &&& forall|d: Date|
        valid_date(d) && date_le(first, d) && date_le(d, last) ==> #[trigger] has_window(zone, d)
}

/// What splitting `[start, end)` by the local days of `zone` may be called
/// on: representable instants, and windows for every day from the start's
/// date to the end's date.
pub open spec fn splittable(zone: Seq<char>, start: ZonedDateTime, end: ZonedDateTime) -> bool {
    &&& in_chrono_range(start.secs as int, start.nanos as int)
    &&& in_chrono_range(end.secs as int, end.nanos as int)
    &&& is_before(start, end) ==> day_windows_exist(zone, start.local.date, end.local.date)
}

/// `segs` is `[start, end)` split by the local days of `zone`: one segment
/// for each day from the start's date to the end's date on which the event
/// has a non-empty part, in the order of the days.
pub open spec fn day_split(zone: Seq<char>, start: ZonedDateTime, end: ZonedDateTime, segs: Seq<DaySegment>) -> bool {
    &&& forall|i: int|
        0 <= i < segs.len() ==> {
            &&& valid_date(#[trigger] segs[i].day)
            &&& date_le(start.local.date, segs[i].day)
            &&& date_le(segs[i].day, end.local.date)
            &&& segment_of_day(zone, start, end, segs[i].day) == Some(segs[i])
        }
    &&& forall|i: int, j: int|
        0 <= i < j < segs.len() ==> date_rank(#[trigger] segs[i].day) < date_rank(#[trigger] segs[j].day)
    &&& forall|d: Date|
        #![trigger segment_of_day(zone, start, end, d)]
        valid_date(d) && date_le(start.local.date, d) && date_le(d, end.local.date) && segment_of_day(
            zone,
            start,
            end,
            d,
        ) is Some ==> exists|i: int| 0 <= i < segs.len() && segs[i].day == d
}

/// The segment of day `d`, as a sequence of none or one.
pub open spec fn segment_seq(zone: Seq<char>, start: ZonedDateTime, end: ZonedDateTime, d: Date) -> Seq<DaySegment> {
    match segment_of_day(zone, start, end, d) {
        Some(seg) => seq![seg],
        None => Seq::empty(),
    }
}

/// The segments of the days from `d` to `last`, in order.
pub open spec fn segments_from(zone: Seq<char>, start: ZonedDateTime, end: ZonedDateTime, d: Date, last: Date) -> Seq<DaySegment>
    decreases date_rank(last) - date_rank(d),
{
    if valid_date(d) && date_le(d, last) {
        match next_date(d) {
            Some(n) => if date_le(n, last) {
                proof {
                    crate::civil::lemma_next_date_rank(d);
                }
                segment_seq(zone, start, end, d) + segments_from(zone, start, end, n, last)
            } else {
                segment_seq(zone, start, end, d)
            },
            None => segment_seq(zone, start, end, d),
        }
    } else {
        Seq::empty()
    }
}

/// The segments of `[start, end)` by the local days of `zone`, day by day
/// from the start's date to the end's date.
pub open spec fn split_segments(zone: Seq<char>, start: ZonedDateTime, end: ZonedDateTime) -> Seq<DaySegment> {
    if is_before(start, end) {
        segments_from(zone, start, end, start.local.date, end.local.date)
    } else {
        Seq::empty()
    }
}

/// No valid date lies strictly between a date and the next one.
pub proof fn lemma_next_date_immediate(cur: Date, d: Date)
    requires
        valid_date(cur),
        valid_date(d),
        next_date(cur) is Some,
        date_rank(cur) <= date_rank(d) < date_rank(next_date(cur)->0),
    ensures
        d == cur,
{
    let n = next_date(cur)->0;
    lemma_rank_order(cur, d);
    lemma_rank_order(d, n);
    lemma_rank_order(cur, n);
}

/// Splits the event `[start, end)` by the local days of `zone`; see
/// `day_split`. An event that does not end after it starts has no segment;
/// every segment is a non-empty part of the event.
pub fn split_event_by_day(start: ZonedDateTime, end: ZonedDateTime, zone: &Zone) -> (r: Vec<DaySegment>)
    requires
        splittable(zone@, start, end),
    ensures
        day_split(zone@, start, end, r@),
        r@ == split_segments(zone@, start, end),
        forall|i: int|
            0 <= i < r@.len() ==> {
                &&& !is_before(#[trigger] r@[i].start, start)
                &&& !is_before(end, r@[i].end)
                &&& is_before(r@[i].start, r@[i].end)
            },
        readable(start) && readable(end) ==> forall|i: int|
            0 <= i < r@.len() ==> readable(#[trigger] r@[i].start) && readable(r@[i].end),
{
    let mut results: Vec<DaySegment> = Vec::new();
    if !before(&start, &end) {
        assert forall|d: Date| #[trigger] segment_of_day(zone@, start, end, d) is None by {
            if let Some((ds, de)) = day_window(zone@, d) {
                assert(!is_before(later_of(start, ds), earlier_of(end, de)));
            }
        }
        return results;
    }
    let mut current = start.local.date;
    let last = end.local.date;
    if !date_not_after(current, last) {
        assert(split_segments(zone@, start, end) =~= Seq::<DaySegment>::empty());
        return results;
    }
    assert(next_date(last) is Some) by {
        assert(has_window(zone@, last));
    }
    let ghost after_last = next_date(last)->0;
    proof {
        lemma_rank_order(last, after_last);
        assert(date_rank(last) < date_rank(after_last));
    }
    while date_not_after(current, last)
        invariant
            splittable(zone@, start, end),
            is_before(start, end),
            last == end.local.date,
            after_last == next_date(last)->0,
            date_rank(last) < date_rank(after_last),
            valid_date(current),
            date_le(start.local.date, current),
            date_rank(current) <= date_rank(after_last),
            !date_le(current, last) ==> current == after_last,
            results@ + segments_from(zone@, start, end, current, last) == segments_from(
                zone@,
                start,
                end,
                start.local.date,
                last,
            ),
            forall|i: int|
                0 <= i < results@.len() ==> {
                    &&& valid_date(#[trigger] results@[i].day)
                    &&& date_le(start.local.date, results@[i].day)
                    &&& date_le(results@[i].day, last)
                    &&& date_rank(results@[i].day) < date_rank(current)
                    &&& segment_of_day(zone@, start, end, results@[i].day) == Some(results@[i])
                },
            forall|i: int, j: int|
                0 <= i < j < results@.len() ==> date_rank(#[trigger] results@[i].day) < date_rank(
                    #[trigger] results@[j].day,
                ),
            readable(start) && readable(end) ==> forall|i: int|
                0 <= i < results@.len() ==> readable(#[trigger] results@[i].start) && readable(results@[i].end),
            forall|d: Date|
                #![trigger segment_of_day(zone@, start, end, d)]
                valid_date(d) && date_le(start.local.date, d) && date_rank(d) < date_rank(current)
                    && segment_of_day(zone@, start, end, d) is Some ==> exists|i: int|
                    0 <= i < results@.len() && results@[i].day == d,
        decreases date_rank(after_last) - date_rank(current),
    {
        assert(has_window(zone@, current));
        let day_start = midnight_at(zone, current).unwrap();
        let next = next_day(current).unwrap();
        let day_end = match midnight_at(zone, next) {
            Some(e) => e,
            None => at_zone(zone, day_start.secs + 86400, 0),
        };
        assert(day_window(zone@, current) == Some((day_start, day_end)));
        assert(readable(day_start) && readable(day_end));
        let seg_start = later(start, day_start);
        let seg_end = earlier(end, day_end);
        let ghost old_results = results@;
        if before(&seg_start, &seg_end) {
            let seconds = elapsed(&seg_end, &seg_start);
            let seg = DaySegment { day: current, start: seg_start, end: seg_end, seconds };
            assert(segment_of_day(zone@, start, end, current) == Some(seg));
            results.push(seg);
        }
        proof {
            crate::civil::lemma_next_date_rank(current);
            assert(segments_from(zone@, start, end, current, last) =~= segment_seq(zone@, start, end, current)
                + segments_from(zone@, start, end, next, last));
            assert(results@ =~= old_results + segment_seq(zone@, start, end, current));
            assert(results@ + segments_from(zone@, start, end, next, last) =~= old_results
                + segments_from(zone@, start, end, current, last));
            if date_le(next, last) {
            } else {
                lemma_rank_order(next, after_last);
                lemma_rank_order(last, next);
                if next != after_last {
                    lemma_next_date_immediate(last, next);
                }
                lemma_rank_order(current, last);
                assert(current == last) by {
                    if current != last {
                        lemma_next_date_immediate(current, last);
                    }
                }
            }
            assert forall|d: Date|
                #![trigger segment_of_day(zone@, start, end, d)]
                valid_date(d) && date_le(start.local.date, d) && date_rank(d) < date_rank(next)
                    && segment_of_day(zone@, start, end, d) is Some implies exists|i: int|
                    0 <= i < results@.len() && results@[i].day == d by {
                if date_rank(d) < date_rank(current) {
                    let i = choose|i: int| 0 <= i < old_results.len() && old_results[i].day == d;
                    assert(results@[i] == old_results[i]);
                } else {
                    lemma_next_date_immediate(current, d);
                    assert(results@[results@.len() - 1].day == d);
                }
            }
        }
        current = next;
    }
    assert(segments_from(zone@, start, end, current, last) =~= Seq::<DaySegment>::empty());
    assert(results@ =~= split_segments(zone@, start, end));
    assert forall|i: int| 0 <= i < results@.len() implies {
        &&& !is_before(#[trigger] results@[i].start, start)
        &&& !is_before(end, results@[i].end)
        &&& is_before(results@[i].start, results@[i].end)
    } by {
        assert(segment_of_day(zone@, start, end, results@[i].day) == Some(results@[i]));
    }
    results
}

/// Splits `[start, end)` by the local days of `zone` when every day from the
/// start's date to the end's date has a window (see `splittable`); `None`
/// when one has not.
pub fn checked_split_event_by_day(start: ZonedDateTime, end: ZonedDateTime, zone: &Zone) -> (r: Option<Vec<DaySegment>>)
    requires
        in_chrono_range(start.secs as int, start.nanos as int),
        in_chrono_range(end.secs as int, end.nanos as int),
    ensures
        r is Some <==> splittable(zone@, start, end),
        r matches Some(v) ==> day_split(zone@, start, end, v@) && v@ == split_segments(zone@, start, end),
        r matches Some(v) ==> (readable(start) && readable(end) ==> forall|i: int|
            0 <= i < v@.len() ==> readable(#[trigger] v@[i].start) && readable(v@[i].end)),
{
    if !before(&start, &end) {
        return Some(split_event_by_day(start, end, zone));
    }
    let first = start.local.date;
    let last = end.local.date;
    if !is_valid_date(first) || !is_valid_date(last) {
        return None;
    }
    if !date_not_after(first, last) {
        return Some(split_event_by_day(start, end, zone));
    }
    let mut current = first;
    while date_not_after(current, last)
        invariant
            first == start.local.date,
            last == end.local.date,
            is_before(start, end),
            valid_date(first),
            valid_date(last),
            valid_date(current),
            date_le(first, current),
            date_rank(current) <= date_rank(last) + 5,
            forall|d: Date|
                valid_date(d) && date_le(first, d) && date_rank(d) < date_rank(current) ==> #[trigger] has_window(
                    zone@,
                    d,
                ),
        decreases date_rank(last) + 5 - date_rank(current),
    {
        let ghost cur = current;
        let next = match midnight_at(zone, current) {
            Some(m) => {
                if m.secs > MAX_TIMESTAMP - 86400 {
                    assert(!has_window(zone@, current));
                    return None;
                }
                match next_day(current) {
                    Some(n) => n,
                    None => {
                        assert(!has_window(zone@, current));
                        return None;
                    },
                }
            },
            None => {
                assert(!has_window(zone@, current));
                return None;
            },
        };
        let _ = midnight_at(zone, next);
        assert(has_window(zone@, current));
        proof {
            assert forall|d: Date|
                valid_date(d) && date_le(first, d) && date_rank(d) < date_rank(next) implies #[trigger] has_window(
                    zone@,
                    d,
                ) by {
                if date_rank(d) >= date_rank(cur) {
                    lemma_next_date_immediate(cur, d);
                }
            }
        }
        current = next;
    }
    proof {
        assert forall|d: Date|
            valid_date(d) && date_le(first, d) && date_le(d, last) implies #[trigger] has_window(zone@, d) by {
            lemma_rank_order(d, current);
            lemma_rank_order(last, current);
        }
    }
    Some(split_event_by_day(start, end, zone))
}

/// The sum of the lengths of the segments, in seconds.
pub open spec fn total_seconds(segs: Seq<DaySegment>) -> int
    decreases segs.len(),
{
    if segs.len() == 0 {
        0
    } else {
        segs[0].seconds + total_seconds(segs.drop_first())
    }
}

/// Each day from `d` to `last` begins before the day after it: the windows
/// of those days follow each other in time.
pub open spec fn midnights_increase(zone: Seq<char>, d: Date, last: Date) -> bool {
    forall|x: Date|
        valid_date(x) && date_le(d, x) && date_le(x, last) ==> midnight_instant(zone, x)->0 < #[trigger] day_end_secs(
            zone,
            x,
        )
}

proof fn lemma_elapsed_whole(a: ZonedDateTime, b: ZonedDateTime)
    requires
        a.nanos == 0,
        b.nanos == 0,
    ensures
        elapsed_seconds(a, b) == a.secs - b.secs,
{
}

/// The length of the part of `[s, e)` in the window `[m, m2)`.
pub open spec fn day_part(s: int, e: int, m: int, m2: int) -> int {
    let lo = if s > m {
        s
    } else {
        m
    };
    let hi = if e < m2 {
        e
    } else {
        m2
    };
    if lo < hi {
        hi - lo
    } else {
        0
    }
}

proof fn lemma_day_total(zone: Seq<char>, start: ZonedDateTime, end: ZonedDateTime, d: Date)
    requires
        start.nanos == 0,
        end.nanos == 0,
        has_window(zone, d),
    ensures
        total_seconds(segment_seq(zone, start, end, d)) == day_part(
            start.secs as int,
            end.secs as int,
            midnight_instant(zone, d)->0,
            day_end_secs(zone, d),
        ),
{
    let m = midnight_instant(zone, d)->0;
    let m2 = day_end_secs(zone, d);
    let ds = zoned_at(zone, m, 0);
    let de = zoned_at(zone, m2, 0);
    assert(ds.secs == m && de.secs == m2 && ds.nanos == 0 && de.nanos == 0);
    let ss = later_of(start, ds);
    let se = earlier_of(end, de);
    let here = segment_seq(zone, start, end, d);
    if is_before(ss, se) {
        lemma_elapsed_whole(se, ss);
        assert(here.drop_first() =~= Seq::<DaySegment>::empty());
        reveal_with_fuel(total_seconds, 2);
        assert(total_seconds(here) == here[0].seconds);
    }
}

#[verifier::rlimit(50)]
proof fn lemma_segments_from_total(zone: Seq<char>, start: ZonedDateTime, end: ZonedDateTime, d: Date, last: Date)
    requires
        valid_date(d),
        date_le(d, last),
        start.nanos == 0,
        end.nanos == 0,
        day_windows_exist(zone, d, last),
        midnights_increase(zone, d, last),
        end.secs <= day_end_secs(zone, last),
    ensures
        total_seconds(segments_from(zone, start, end, d, last)) == if end.secs > midnight_instant(zone, d)->0 {
            if start.secs > midnight_instant(zone, d)->0 {
                if end.secs > start.secs {
                    end.secs - start.secs
                } else {
                    0int
                }
            } else {
                end.secs - midnight_instant(zone, d)->0
            }
        } else {
            0int
        },
    decreases date_rank(last) - date_rank(d),
{
    assert(has_window(zone, d));
    let m = midnight_instant(zone, d)->0;
    let m2 = day_end_secs(zone, d);
    assert(m < m2);
    lemma_day_total(zone, start, end, d);
    crate::civil::lemma_next_date_rank(d);
    let here = segment_seq(zone, start, end, d);
    let n = next_date(d)->0;
    if date_le(n, last) {
        assert(has_window(zone, n));
        assert(midnight_instant(zone, n)->0 == m2);
        assert forall|x: Date| valid_date(x) && date_le(n, x) && date_le(x, last) implies #[trigger] has_window(
            zone,
            x,
        ) by {
            assert(date_le(d, x));
        }
        assert forall|x: Date| valid_date(x) && date_le(n, x) && date_le(x, last) implies midnight_instant(
            zone,
            x,
        )->0 < #[trigger] day_end_secs(zone, x) by {
            assert(date_le(d, x));
        }
        lemma_segments_from_total(zone, start, end, n, last);
        let rest = segments_from(zone, start, end, n, last);
        assert(segments_from(zone, start, end, d, last) == here + rest);
        lemma_total_concat(here, rest);
    } else {
        lemma_rank_order(d, last);
        assert(d == last) by {
            if d != last {
                lemma_rank_order(n, last);
                lemma_next_date_immediate(d, last);
            }
        }
        assert(segments_from(zone, start, end, d, last) == here);
    }
}

proof fn lemma_total_concat(a: Seq<DaySegment>, b: Seq<DaySegment>)
    ensures
        total_seconds(a + b) == total_seconds(a) + total_seconds(b),
    decreases a.len(),
{
    if a.len() > 0 {
        assert((a + b).drop_first() =~= a.drop_first() + b);
        lemma_total_concat(a.drop_first(), b);
    } else {
        assert(a + b =~= b);
    }
}

/// When each of an event's days begins before the next one and the event
/// lies within the windows of its first and last dates, its segments add up
/// to its whole length: the split neither loses nor counts twice any second
/// of a multi-day event, clock changes included.
pub proof fn lemma_split_covers_event(zone: Seq<char>, start: ZonedDateTime, end: ZonedDateTime)
    requires
        splittable(zone, start, end),
        is_before(start, end),
        start.nanos == 0,
        end.nanos == 0,
        date_le(start.local.date, end.local.date),
        midnights_increase(zone, start.local.date, end.local.date),
        midnight_instant(zone, start.local.date)->0 <= start.secs,
        end.secs <= day_end_secs(zone, end.local.date),
    ensures
        total_seconds(split_segments(zone, start, end)) == end.secs - start.secs,
{
    assert(has_window(zone, start.local.date));
    assert(has_window(zone, end.local.date));
    lemma_segments_from_total(zone, start, end, start.local.date, end.local.date);
}

/// The segment of day `d` of an event from the start of day `a` to the start
/// of day `last`, in a zone at offset zero: the whole day before `last`,
/// nothing on `last`.
proof fn lemma_whole_day_segment(zone: Seq<char>, a: Date, d: Date, last: Date)
    requires
        zero_offset(zone),
        valid_date(a),
        valid_date(d),
        valid_date(last),
        date_le(d, last),
        days_from_epoch(a) <= days_from_epoch(d),
    ensures
        d == last ==> segment_seq(zone, utc_day_start_at(zone, a), utc_day_start_at(zone, last), d).len() == 0,
        d != last ==> segment_seq(zone, utc_day_start_at(zone, a), utc_day_start_at(zone, last), d).len() == 1,
        d != last ==> segment_seq(zone, utc_day_start_at(zone, a), utc_day_start_at(zone, last), d)[0].seconds == 86400,
        d != last ==> segment_seq(zone, utc_day_start_at(zone, a), utc_day_start_at(zone, last), d)[0].day == d,
{
    let s = utc_day_start_at(zone, a);
    let t = utc_day_start_at(zone, last);
    let m = day_start_secs(d);
    let da = days_from_epoch(a);
    let dd = days_from_epoch(d);
    let dl = days_from_epoch(last);
    assert(midnight_instant(zone, d) == Some(m));
    assert(s.secs == da * 86400 && t.secs == dl * 86400 && m == dd * 86400);
    lemma_date_start_in_range(a);
    lemma_date_start_in_range(d);
    lemma_date_start_in_range(last);
    assert(da * 86400 <= dd * 86400) by (nonlinear_arith)
        requires
            da <= dd,
    ;
    if d != last {
        lemma_rank_order(d, last);
        lemma_days_follow_rank(d, last);
        assert(dd * 86400 + 86400 <= dl * 86400) by (nonlinear_arith)
            requires
                dd < dl,
        ;
    }
    if next_date(d) is Some {
        let n = next_date(d)->0;
        crate::civil::lemma_next_date_rank(d);
        lemma_next_date_days(d);
        assert(midnight_instant(zone, n) == Some(day_start_secs(n)));
        assert(next_midnight(zone, d) == Some(m + 86400));
        let ds = zoned_at(zone, m, 0);
        let de = zoned_at(zone, m + 86400, 0);
        assert(day_window(zone, d) == Some((ds, de)));
        let ss = later_of(s, ds);
        let se = earlier_of(t, de);
        assert(ss == ds);
        if d == last {
            assert(se == t);
            assert(segment_of_day(zone, s, t, d) is None);
        } else {
            assert(se.secs == m + 86400 && se.nanos == 0);
            lemma_elapsed_whole(se, ss);
            assert(segment_of_day(zone, s, t, d) == Some(DaySegment { day: d, start: ss, end: se, seconds: 86400 }));
        }
    } else {
        assert(segment_of_day(zone, s, t, d) is None);
        if d != last {
            lemma_days_follow_rank(d, last);
        }
    }
}

/// Day after day from `d` to `last`, every day of an event from the start
/// of day `a` to the start of day `last` in a zone at offset zero is one
/// whole day.
proof fn lemma_whole_days_from(zone: Seq<char>, a: Date, d: Date, last: Date)
    requires
        zero_offset(zone),
        valid_date(a),
        valid_date(d),
        valid_date(last),
        date_le(a, d),
        date_le(d, last),
        days_from_epoch(a) <= days_from_epoch(d),
    ensures
        ({
            let segs = segments_from(zone, utc_day_start_at(zone, a), utc_day_start_at(zone, last), d, last);
            &&& segs.len() == days_from_epoch(last) - days_from_epoch(d)
            &&& forall|i: int|
                0 <= i < segs.len() ==> #[trigger] segs[i].seconds == 86400 && days_from_epoch(segs[i].day)
                    == days_from_epoch(d) + i
        }),
    decreases date_rank(last) - date_rank(d),
{
    let s = utc_day_start_at(zone, a);
    let t = utc_day_start_at(zone, last);
    let here = segment_seq(zone, s, t, d);
    lemma_whole_day_segment(zone, a, d, last);
    crate::civil::lemma_next_date_rank(d);
    if d == last {
        assert(here =~= Seq::<DaySegment>::empty());
        if next_date(d) is Some {
            assert(!date_le(next_date(d)->0, last));
        }
        assert(segments_from(zone, s, t, d, last) == here);
    } else {
        lemma_rank_order(d, last);
        lemma_days_follow_rank(d, last);
        let n = next_date(d)->0;
        lemma_next_date_days(d);
        lemma_whole_days_from(zone, a, n, last);
        let rest = segments_from(zone, s, t, n, last);
        assert(segments_from(zone, s, t, d, last) == here + rest);
        let all = here + rest;
        assert forall|i: int| 0 <= i < all.len() implies #[trigger] all[i].seconds == 86400 && days_from_epoch(
            all[i].day,
        ) == days_from_epoch(d) + i by {
            if i > 0 {
                assert(all[i] == rest[i - 1]);
            } else {
                assert(all[0] == here[0]);
            }
        }
    }
}

/// In a zone at offset zero (UTC), an all-day event from day `a` to day
/// `b` is split into one block of 24 hours for each of its days, day after
/// day from `a`; the split may be made (the day after `b` exists).
pub proof fn lemma_all_day_blocks(zone: Seq<char>, a: Date, b: Date)
    requires
        zero_offset(zone),
        valid_date(a),
        valid_date(b),
        date_le(a, b),
        next_date(b) is Some,
    ensures
        ({
            let s = utc_day_start_at(zone, a);
            let t = utc_day_start_at(zone, b);
            let segs = split_segments(zone, s, t);
            &&& splittable(zone, s, t)
            &&& segs.len() == days_from_epoch(b) - days_from_epoch(a)
            &&& forall|i: int|
                0 <= i < segs.len() ==> #[trigger] segs[i].seconds == 86400 && days_from_epoch(segs[i].day)
                    == days_from_epoch(a) + i
        }),
{
    let s = utc_day_start_at(zone, a);
    let t = utc_day_start_at(zone, b);
    assert(s.local.date == a && t.local.date == b);
    lemma_date_start_in_range(a);
    lemma_date_start_in_range(b);
    assert forall|d: Date| valid_date(d) && date_le(a, d) && date_le(d, b) implies #[trigger] has_window(zone, d) by {
        lemma_date_start_in_range(d);
        if d != b {
            lemma_rank_order(d, b);
            lemma_days_follow_rank(d, b);
        }
        let n = next_date(d)->0;
        crate::civil::lemma_next_date_rank(d);
        assert(midnight_instant(zone, d) == Some(day_start_secs(d)));
        assert(midnight_instant(zone, n) == Some(day_start_secs(n)));
        lemma_date_start_in_range(n);
    }
    assert(day_windows_exist(zone, a, b));
    if a == b {
        assert(split_segments(zone, s, t) =~= Seq::<DaySegment>::empty());
    } else {
        lemma_rank_order(a, b);
        lemma_days_follow_rank(a, b);
        assert(days_from_epoch(a) * 86400 < days_from_epoch(b) * 86400) by (nonlinear_arith)
            requires
                days_from_epoch(a) < days_from_epoch(b),
        ;
        lemma_whole_days_from(zone, a, a, b);
    }
}

} // verus!
