//! Rows of service per client: reading events into rows, one per UTC day
//! of each event, and grouping the rows by client.

use vstd::prelude::*;
use crate::civil::{
    date_le, date_rank, day_start_secs, days_from_epoch, in_chrono_range, is_before, lemma_date_start_in_range,
    lemma_days_follow_rank, lemma_next_date_days, lemma_rank_order, next_date, valid_date, Date, ZonedDateTime,
};
use crate::event::{event_span, parse_event_datetimes, readable, utc_day_start_at, Event};
use crate::segments::{
    checked_split_event_by_day, day_end_secs, day_windows_exist, has_window, lemma_all_day_blocks, lemma_split_covers_event,
    split_segments, splittable, total_seconds, DaySegment,
};
use crate::summary::{parse_summary, summary_parts};
use crate::zone::{midnight_instant, utc_name, utc_zone, ymd_date, zero_offset};

verus! {

/// One timed block of service to a client on one day: the day, start, end,
/// length in whole seconds and the name of the service.
#[derive(Clone, Debug)]
pub struct ServiceRow {
    pub day: Date,
    pub start: ZonedDateTime,
    pub end: ZonedDateTime,
    pub seconds: i64,
    pub service: String,
}

/// What a row holds, with the service by its text.
pub struct RowView {
    pub day: Date,
    pub start: ZonedDateTime,
    pub end: ZonedDateTime,
    pub seconds: i64,
    pub service: Seq<char>,
}

impl View for ServiceRow {
    type V = RowView;

    open spec fn view(&self) -> RowView {
        RowView {
            day: self.day,
            start: self.start,
            end: self.end,
            seconds: self.seconds,
            service: self.service@,
        }
    }
}

/// The rows of a client, by their views.
pub open spec fn rows_view(rows: Seq<ServiceRow>) -> Seq<RowView> {
    rows.map_values(|r: ServiceRow| r@)
}

/// The summary of an event as a text; a missing summary reads as empty.
pub open spec fn summary_text(e: Event) -> Seq<char> {
    match e.summary {
        Some(s) => s@,
        None => Seq::empty(),
    }
}

/// The row of one day's segment of an event of `service`.
pub open spec fn segment_row(seg: DaySegment, service: Seq<char>) -> RowView {
    RowView { day: seg.day, start: seg.start, end: seg.end, seconds: seg.seconds, service }
}

/// The client and the rows that an event gives: its summary names a service
/// and a client, its start and end read in UTC, and it can be split by UTC
/// day (it cannot only when it ends on the last representable day). One row
/// for each UTC day on which the event has a part, in order of the days.
pub open spec fn event_rows(e: Event) -> Option<(Seq<char>, Seq<RowView>)> {
    match summary_parts(summary_text(e), None) {
        Some((service, client)) => match event_span(e, utc_name()) {
            Ok((s, t, _)) => if splittable(utc_name(), s, t) {
                Some(
                    (
                        client,
                        split_segments(utc_name(), s, t).map_values(|seg: DaySegment| segment_row(seg, service)),
                    ),
                )
            } else {
                None
            },
            Err(_) => None,
        },
        None => None,
    }
}

/// The rows of `client` among `events`, in the order of the events.
pub open spec fn client_rows(events: Seq<Event>, client: Seq<char>) -> Seq<RowView>
    decreases events.len(),
{
    if events.len() == 0 {
        Seq::empty()
    } else {
        let before = client_rows(events.drop_last(), client);
        match event_rows(events.last()) {
            Some((c, rs)) => if c == client {
                before + rs
            } else {
                before
            },
            None => before,
        }
    }
}

/// One client and its rows.
#[derive(Clone, Debug)]
pub struct ClientGroup {
    pub name: String,
    pub rows: Vec<ServiceRow>,
}

/// No two groups are of the same client.
pub open spec fn distinct_clients(groups: Seq<ClientGroup>) -> bool {
    forall|i: int, j: int|
        0 <= i < j < groups.len() ==> #[trigger] groups[i].name@ != #[trigger] groups[j].name@
}

/// Every row's start and end are readable instants, and its day is a date.
pub open spec fn rows_readable(groups: Seq<ClientGroup>) -> bool {
    forall|i: int, k: int|
        0 <= i < groups.len() && 0 <= k < groups[i].rows@.len() ==> {
            &&& readable(#[trigger] groups[i].rows@[k].start)
            &&& readable(groups[i].rows@[k].end)
            &&& valid_date(groups[i].rows@[k].day)
        }
}

/// `groups` holds the rows of `events` by client: one group for each client
/// that has a row, with its rows in the order of the events.
pub open spec fn grouped_by_client(events: Seq<Event>, groups: Seq<ClientGroup>) -> bool {
    &&& distinct_clients(groups)
    &&& forall|i: int|
        0 <= i < groups.len() ==> {
            &&& rows_view(#[trigger] groups[i].rows@) == client_rows(events, groups[i].name@)
            &&& groups[i].rows@.len() > 0
        }
    &&& forall|c: Seq<char>|
        #[trigger] client_rows(events, c).len() > 0 ==> exists|i: int|
            0 <= i < groups.len() && groups[i].name@ == c
}

/// The rows of the segments of an event of `service_name`.
fn segment_rows(segs: &Vec<DaySegment>, service_name: &String) -> (out: Vec<ServiceRow>)
    requires
        forall|j: int|
            0 <= j < segs@.len() ==> readable(#[trigger] segs@[j].start) && readable(segs@[j].end) && valid_date(
                segs@[j].day,
            ),
    ensures
        rows_view(out@) == segs@.map_values(|seg: DaySegment| segment_row(seg, service_name@)),
        forall|j: int|
            #![trigger out@[j]]
            0 <= j < out@.len() ==> {
                &&& readable(out@[j].start)
                &&& readable(out@[j].end)
                &&& valid_date(out@[j].day)
            },
{
    let ghost service = service_name@;
    let mut rows: Vec<ServiceRow> = Vec::new();
    let n = segs.len();
    for k in 0..n
        invariant
            n == segs@.len(),
            service == service_name@,
            rows@.len() == k,
            forall|j: int|
                0 <= j < n ==> readable(#[trigger] segs@[j].start) && readable(segs@[j].end) && valid_date(
                    segs@[j].day,
                ),
            rows_view(rows@) == segs@.take(k as int).map_values(|seg: DaySegment| segment_row(seg, service)),
            forall|j: int|
                #![trigger rows@[j]]
                0 <= j < rows@.len() ==> {
                    &&& readable(rows@[j].start)
                    &&& readable(rows@[j].end)
                    &&& valid_date(rows@[j].day)
                },
    {
        let seg = segs[k];
        let ghost before = rows@;
        let row = ServiceRow {
            day: seg.day,
            start: seg.start,
            end: seg.end,
            seconds: seg.seconds,
            service: service_name.clone(),
        };
        rows.push(row);
        assert(rows@[k as int] == row);
        assert(readable(segs@[k as int].start) && readable(segs@[k as int].end) && valid_date(segs@[k as int].day));
        assert(rows_view(rows@) =~= rows_view(before).push(row@));
        assert(segs@.take(k + 1) =~= segs@.take(k as int).push(segs@[k as int]));
        assert(segs@.take(k + 1).map_values(|seg: DaySegment| segment_row(seg, service)) =~= segs@.take(
            k as int,
        ).map_values(|seg: DaySegment| segment_row(seg, service)).push(segment_row(segs@[k as int], service)));
    }
    assert(segs@.take(n as int) =~= segs@);
    rows
}

/// The rows that `event` gives, with its client, when it gives them; see
/// `event_rows`.
#[verifier::rlimit(60)]
pub fn rows_of_event(event: &Event) -> (r: Option<(String, Vec<ServiceRow>)>)
    ensures
        match r {
            Some((c, rows)) => {
                &&& event_rows(*event) == Some((c@, rows_view(rows@)))
                &&& forall|k: int|
                    0 <= k < rows@.len() ==> {
                        &&& readable(#[trigger] rows@[k].start)
                        &&& readable(rows@[k].end)
                        &&& valid_date(rows@[k].day)
                    }
            },
            None => event_rows(*event) is None,
        },
{
    let empty = String::new();
    let summary: &str = match &event.summary {
        Some(s) => s.as_str(),
        None => empty.as_str(),
    };
    assert(summary@ == summary_text(*event));
    let parsed = parse_summary(summary, None);
    if parsed.is_none() {
        return None;
    }
    let (service_name, client) = parsed.unwrap();
    let ghost parts = summary_parts(summary_text(*event), None);
    assert(parts == Some((service_name@, client@)));
    let utc = utc_zone();
    let span = parse_event_datetimes(event, &utc);
    if span.is_err() {
        return None;
    }
    let (start_dt, end_dt, all_day) = span.unwrap();
    assert(event_span(*event, utc_name()) == Ok::<(ZonedDateTime, ZonedDateTime, bool), crate::event::EventError>((start_dt, end_dt, all_day)));
    assert(readable(start_dt) && readable(end_dt));
    let split = checked_split_event_by_day(start_dt, end_dt, &utc);
    if split.is_none() {
        return None;
    }
    let segs = split.unwrap();
    assert(splittable(utc_name(), start_dt, end_dt));
    assert(segs@ == split_segments(utc_name(), start_dt, end_dt));
    proof {
        assert forall|j: int| 0 <= j < segs@.len() implies readable(#[trigger] segs@[j].start) && readable(
            segs@[j].end,
        ) && valid_date(segs@[j].day) by {
            assert(valid_date(segs@[j].day));
        }
    }
    let rows = segment_rows(&segs, &service_name);
    assert(event_rows(*event) == Some(
        (client@, split_segments(utc_name(), start_dt, end_dt).map_values(|seg: DaySegment| segment_row(seg, service_name@))),
    ));
    Some((client, rows))
}

proof fn lemma_client_rows_step(events: Seq<Event>, i: int, c: Seq<char>)
    requires
        0 <= i < events.len(),
    ensures
        client_rows(events.take(i + 1), c) == match event_rows(events[i]) {
            Some((k, rs)) => if k == c {
                client_rows(events.take(i), c) + rs
            } else {
                client_rows(events.take(i), c)
            },
            None => client_rows(events.take(i), c),
        },
{
    assert(events.take(i + 1).drop_last() =~= events.take(i));
    assert(events.take(i + 1).last() == events[i]);
}

proof fn lemma_rows_view_concat(a: Seq<ServiceRow>, b: Seq<ServiceRow>)
    ensures
        rows_view(a + b) == rows_view(a) + rows_view(b),
{
    assert(rows_view(a + b) =~= rows_view(a) + rows_view(b));
}

/// The position of the group of `name`, when there is one.
fn find_group(groups: &Vec<ClientGroup>, name: &String) -> (r: Option<usize>)
    ensures
        match r {
            Some(k) => k < groups@.len() && groups@[k as int].name@ == name@,
            None => forall|t: int| 0 <= t < groups@.len() ==> groups@[t].name@ != name@,
        },
{
    let mut k: usize = 0;
    while k < groups.len()
        invariant
            k <= groups.len(),
            forall|t: int| 0 <= t < k ==> groups@[t].name@ != name@,
        decreases groups.len() - k,
    {
        if groups[k].name == *name {
            return Some(k);
        }
        k = k + 1;
    }
    None
}

/// The rows of `events` grouped by client; see `grouped_by_client`.
pub fn events_by_client(events: &Vec<Event>) -> (groups: Vec<ClientGroup>)
    ensures
        grouped_by_client(events@, groups@),
        rows_readable(groups@),
{
    let mut groups: Vec<ClientGroup> = Vec::new();
    let n = events.len();
    for i in 0..n
        invariant
            n == events@.len(),
            grouped_by_client(events@.take(i as int), groups@),
            rows_readable(groups@),
    {
        let ghost before = groups@;
        let ghost prev = events@.take(i as int);
        let ghost next = events@.take(i + 1);
        proof {
            assert forall|c: Seq<char>| #[trigger]
                client_rows(next, c) == match event_rows(events@[i as int]) {
                    Some((k, rs)) => if k == c {
                        client_rows(prev, c) + rs
                    } else {
                        client_rows(prev, c)
                    },
                    None => client_rows(prev, c),
                } by {
                lemma_client_rows_step(events@, i as int, c);
            }
        }
        match rows_of_event(&events[i]) {
            Some((client, rows)) => {
                let ghost rvs = rows_view(rows@);
                if rows.len() == 0 {
                    assert(rvs =~= Seq::<RowView>::empty());
                    assert forall|c: Seq<char>| #[trigger] client_rows(next, c) == client_rows(prev, c) by {
                        if c == client@ {
                            assert(client_rows(prev, c) + rvs =~= client_rows(prev, c));
                        }
                    }
                } else {
                    match find_group(&groups, &client) {
                        Some(k) => {
                            let mut group = groups.remove(k);
                            let ghost old_rows = group.rows@;
                            let mut more = rows;
                            group.rows.append(&mut more);
                            proof {
                                lemma_rows_view_concat(old_rows, rows@);
                            }
                            assert(group.rows@ =~= old_rows + rows@);
                            groups.insert(k, group);
                            assert(groups@ =~= before.update(k as int, group));
                            assert forall|t: int| 0 <= t < groups@.len() implies {
                                &&& rows_view(#[trigger] groups@[t].rows@) == client_rows(next, groups@[t].name@)
                                &&& groups@[t].rows@.len() > 0
                            } by {
                                if t != k {
                                    assert(groups@[t] == before[t]);
                                }
                            }
                            assert(rows_readable(groups@)) by {
                                assert forall|t: int, q: int|
                                    0 <= t < groups@.len() && 0 <= q < groups@[t].rows@.len() implies {
                                    &&& readable(#[trigger] groups@[t].rows@[q].start)
                                    &&& readable(groups@[t].rows@[q].end)
                                    &&& valid_date(groups@[t].rows@[q].day)
                                } by {
                                    if t != k {
                                        assert(groups@[t] == before[t]);
                                    } else if q < old_rows.len() {
                                        assert(groups@[t].rows@[q] == before[t].rows@[q]);
                                    } else {
                                        assert(groups@[t].rows@[q] == rows@[q - old_rows.len()]);
                                    }
                                }
                            }
                            assert forall|c: Seq<char>| #[trigger]
                                client_rows(next, c).len() > 0 implies exists|t: int|
                                0 <= t < groups@.len() && groups@[t].name@ == c by {
                                if c == client@ {
                                    assert(groups@[k as int].name@ == c);
                                } else {
                                    let t = choose|t: int| 0 <= t < before.len() && before[t].name@ == c;
                                    assert(groups@[t].name@ == c);
                                }
                            }
                        },
                        None => {
                            groups.push(ClientGroup { name: client, rows });
                            let ghost last: int = groups@.len() - 1;
                            assert(client_rows(prev, client@).len() == 0);
                            assert(client_rows(prev, client@) + rvs =~= rvs);
                            assert forall|t: int| 0 <= t < groups@.len() implies {
                                &&& rows_view(#[trigger] groups@[t].rows@) == client_rows(next, groups@[t].name@)
                                &&& groups@[t].rows@.len() > 0
                            } by {
                                if t != last {
                                    assert(groups@[t] == before[t]);
                                }
                            }
                            assert(rows_readable(groups@)) by {
                                assert forall|t: int, q: int|
                                    0 <= t < groups@.len() && 0 <= q < groups@[t].rows@.len() implies {
                                    &&& readable(#[trigger] groups@[t].rows@[q].start)
                                    &&& readable(groups@[t].rows@[q].end)
                                    &&& valid_date(groups@[t].rows@[q].day)
                                } by {
                                    if t != last {
                                        assert(groups@[t] == before[t]);
                                    }
                                }
                            }
                            assert forall|c: Seq<char>| #[trigger]
                                client_rows(next, c).len() > 0 implies exists|t: int|
                                0 <= t < groups@.len() && groups@[t].name@ == c by {
                                if c == client@ {
                                    assert(groups@[last].name@ == c);
                                } else {
                                    let t = choose|t: int| 0 <= t < before.len() && before[t].name@ == c;
                                    assert(groups@[t].name@ == c);
                                }
                            }
                        },
                    }
                }
            },
            None => {
                assert forall|c: Seq<char>| #[trigger]
                    client_rows(next, c).len() > 0 implies exists|t: int|
                    0 <= t < groups@.len() && groups@[t].name@ == c by {
                    assert(client_rows(prev, c).len() > 0);
                }
            },
        }
    }
    assert(events@.take(n as int) =~= events@);
    groups
}

/// An all-day event from day `a` to day `b` (its end day excluded), whose
/// summary names a service and a client, gives that client one row of
/// 24 hours (86400 seconds) for each of its days, of its service, day after
/// day from `a`: all-day events are 24-hour blocks, never dropped.
pub proof fn lemma_all_day_event_rows(e: Event, a: Date, b: Date)
    requires
        zero_offset(utc_name()),
        summary_parts(summary_text(e), None) is Some,
        e.start is Some,
        e.start->0.date_time is None,
        e.start->0.date is Some,
        ymd_date(e.start->0.date->0@) == Some(a),
        e.end is Some,
        e.end->0.date_time is None,
        e.end->0.date is Some,
        ymd_date(e.end->0.date->0@) == Some(b),
        valid_date(a),
        valid_date(b),
        date_rank(a) < date_rank(b),
        next_date(b) is Some,
    ensures
        event_rows(e) matches Some((client, rows)) && {
            let (service, named) = summary_parts(summary_text(e), None)->0;
            &&& client == named
            &&& rows.len() == days_from_epoch(b) - days_from_epoch(a)
            &&& rows.len() > 0
            &&& forall|i: int|
                0 <= i < rows.len() ==> {
                    &&& (#[trigger] rows[i]).seconds == 86400
                    &&& rows[i].service == service
                    &&& days_from_epoch(rows[i].day) == days_from_epoch(a) + i
                }
        },
{
    let z = utc_name();
    let sa = utc_day_start_at(z, a);
    let tb = utc_day_start_at(z, b);
    assert(event_span(e, z) == Ok::<(ZonedDateTime, ZonedDateTime, bool), crate::event::EventError>((sa, tb, true)));
    lemma_rank_order(a, b);
    lemma_all_day_blocks(z, a, b);
    lemma_days_follow_rank(a, b);
    let (service, named) = summary_parts(summary_text(e), None)->0;
    let segs = split_segments(z, sa, tb);
    let rows = segs.map_values(|seg: DaySegment| segment_row(seg, service));
    assert(event_rows(e) == Some((named, rows)));
    assert forall|i: int| 0 <= i < rows.len() implies {
        &&& (#[trigger] rows[i]).seconds == 86400
        &&& rows[i].service == service
        &&& days_from_epoch(rows[i].day) == days_from_epoch(a) + i
    } by {
        assert(rows[i] == segment_row(segs[i], service));
        assert(segs[i].seconds == 86400);
    }
}

/// The sum of the lengths of rows, in seconds.
pub open spec fn row_seconds(rows: Seq<RowView>) -> int
    decreases rows.len(),
{
    if rows.len() == 0 {
        0
    } else {
        rows[0].seconds + row_seconds(rows.drop_first())
    }
}

proof fn lemma_row_seconds_of_segments(segs: Seq<DaySegment>, service: Seq<char>)
    ensures
        row_seconds(segs.map_values(|seg: DaySegment| segment_row(seg, service))) == total_seconds(segs),
    decreases segs.len(),
{
    if segs.len() > 0 {
        lemma_row_seconds_of_segments(segs.drop_first(), service);
        assert(segs.map_values(|seg: DaySegment| segment_row(seg, service)).drop_first() =~= segs.drop_first().map_values(
            |seg: DaySegment| segment_row(seg, service),
        ));
    }
}

/// An event whose summary names a client, and whose start and end are whole
/// seconds that read in UTC on the days they fall in, with the start before
/// the end, gives that client rows, at least one, whose lengths add up to
/// the event's length: no event is dropped and no second lost or counted
/// twice, all-day or timed.
pub proof fn lemma_event_rows_cover_event(e: Event)
    requires
        zero_offset(utc_name()),
        summary_parts(summary_text(e), None) is Some,
        event_span(e, utc_name()) is Ok,
        ({
            let (s, t, _) = event_span(e, utc_name())->Ok_0;
            &&& is_before(s, t)
            &&& s.nanos == 0
            &&& t.nanos == 0
            &&& in_chrono_range(s.secs as int, 0)
            &&& in_chrono_range(t.secs as int, 0)
            &&& valid_date(s.local.date)
            &&& valid_date(t.local.date)
            &&& next_date(t.local.date) is Some
            &&& day_start_secs(s.local.date) <= s.secs
            &&& t.secs <= day_start_secs(t.local.date) + 86400
        }),
    ensures
        event_rows(e) matches Some((client, rows)) && {
            let (s, t, _) = event_span(e, utc_name())->Ok_0;
            let (_, named) = summary_parts(summary_text(e), None)->0;
            &&& client == named
            &&& rows.len() > 0
            &&& row_seconds(rows) == t.secs - s.secs
        },
{
    let z = utc_name();
    let (s, t, _) = event_span(e, z)->Ok_0;
    let sd = s.local.date;
    let td = t.local.date;
    let ds = days_from_epoch(sd);
    let dt = days_from_epoch(td);
    assert(ds < dt + 1) by (nonlinear_arith)
        requires
            ds * 86400 <= s.secs,
            s.secs < t.secs,
            t.secs <= dt * 86400 + 86400,
    {
        if ds >= dt + 1 {
            assert(ds * 86400 >= dt * 86400 + 86400);
        }
    }
    if date_rank(td) < date_rank(sd) {
        lemma_days_follow_rank(td, sd);
    }
    assert(date_le(sd, td));
    assert forall|d: Date| valid_date(d) && date_le(sd, d) && date_le(d, td) implies #[trigger] has_window(z, d) by {
        lemma_date_start_in_range(d);
        if d != td {
            lemma_rank_order(d, td);
            lemma_days_follow_rank(d, td);
        }
        let n = next_date(d)->0;
        crate::civil::lemma_next_date_rank(d);
        lemma_next_date_days(d);
        assert(midnight_instant(z, d) == Some(day_start_secs(d)));
        assert(midnight_instant(z, n) == Some(day_start_secs(n)));
        lemma_date_start_in_range(n);
    }
    assert(day_windows_exist(z, sd, td));
    assert(splittable(z, s, t));
    assert forall|x: Date| valid_date(x) && date_le(sd, x) && date_le(x, td) implies midnight_instant(z, x)->0
        < #[trigger] day_end_secs(z, x) by {
        assert(has_window(z, x));
        let n = next_date(x)->0;
        lemma_next_date_days(x);
        crate::civil::lemma_next_date_rank(x);
        assert(midnight_instant(z, n) == Some(day_start_secs(n)));
        assert(midnight_instant(z, x) == Some(day_start_secs(x)));
    }
    assert(has_window(z, td));
    lemma_next_date_days(td);
    crate::civil::lemma_next_date_rank(td);
    assert(midnight_instant(z, next_date(td)->0) == Some(day_start_secs(next_date(td)->0)));
    assert(midnight_instant(z, sd) == Some(day_start_secs(sd)));
    lemma_split_covers_event(z, s, t);
    let (service, _) = summary_parts(summary_text(e), None)->0;
    let segs = split_segments(z, s, t);
    lemma_row_seconds_of_segments(segs, service);
    if segs.len() == 0 {
        assert(total_seconds(segs) == 0);
    }
}

} // verus!
