//! The terms of a month's totals: for each part of an event that falls on a
//! day of the month, its length and the client's rate.

use vstd::prelude::*;
use crate::event::{event_span, parse_event_datetimes, Event, EventError};
use crate::report::{distinct_texts, lemma_unrated_among_push, rate_of, resolve_hourly_rate, text_set, unrated_among};
use crate::rows::summary_text;
use crate::segments::{checked_split_event_by_day, split_event_by_day, split_segments, splittable, DaySegment};
use crate::summary::{opt_str_view, parse_summary, summary_parts};
use crate::text::{chars_of, starts_with};
use crate::zone::Zone;

verus! {

broadcast use vstd::string::group_string_axioms;

/// One term of the month's totals: the length of a part of an event in
/// whole seconds, and the hourly rate of its client when it has one.
#[derive(Clone, Copy, Debug, PartialEq, Eq, Structural)]
pub struct TotalTerm {
    pub seconds: i64,
    pub rate: Option<u64>,
}

/// The terms of the segments that fall on days of the month.
pub open spec fn segment_terms(segs: Seq<DaySegment>, month: u32, year: i32, rate: Option<u64>) -> Seq<TotalTerm>
    decreases segs.len(),
{
    if segs.len() == 0 {
        Seq::empty()
    } else {
        let before = segment_terms(segs.drop_last(), month, year, rate);
        let seg = segs.last();
        if seg.day.month == month && seg.day.year == year {
            before.push(TotalTerm { seconds: seg.seconds, rate })
        } else {
            before
        }
    }
}

/// The terms of one event: none unless its summary names a client (with the
/// prefix, when given) and its start and end read in `zone`.
pub open spec fn event_terms(
    e: Event,
    zone: Seq<char>,
    month: u32,
    year: i32,
    prefix: Option<Seq<char>>,
    rates: Seq<(String, u64)>,
) -> Seq<TotalTerm> {
    match summary_parts(summary_text(e), prefix) {
        Some((_, client)) => match event_span(e, zone) {
            Ok((s, t, _)) => segment_terms(split_segments(zone, s, t), month, year, rate_of(rates, client)),
            Err(_) => Seq::empty(),
        },
        None => Seq::empty(),
    }
}

/// The terms of all events, in their order.
pub open spec fn month_terms(
    events: Seq<Event>,
    zone: Seq<char>,
    month: u32,
    year: i32,
    prefix: Option<Seq<char>>,
    rates: Seq<(String, u64)>,
) -> Seq<TotalTerm>
    decreases events.len(),
{
    if events.len() == 0 {
        Seq::empty()
    } else {
        month_terms(events.drop_last(), zone, month, year, prefix, rates) + event_terms(
            events.last(),
            zone,
            month,
            year,
            prefix,
            rates,
        )
    }
}

/// A summary reported as not naming a client: it has neither form (nor, without
/// a prefix, any text), and it starts with the prefix when there is one.
pub open spec fn invalid_summary(e: Event, prefix: Option<Seq<char>>) -> bool {
    &&& summary_parts(summary_text(e), prefix) is None
    &&& match prefix {
        Some(p) => p.is_prefix_of(summary_text(e)),
        None => true,
    }
}

/// The summaries of the events reported as not naming a client, in order.
pub open spec fn invalid_summaries(events: Seq<Event>, prefix: Option<Seq<char>>) -> Seq<Seq<char>>
    decreases events.len(),
{
    if events.len() == 0 {
        Seq::empty()
    } else {
        let before = invalid_summaries(events.drop_last(), prefix);
        if invalid_summary(events.last(), prefix) {
            before.push(summary_text(events.last()))
        } else {
            before
        }
    }
}

/// The clients whose rates the totals look up, in order: those of the
/// events that name a client and whose start and end read in `zone`.
pub open spec fn looked_up_clients(events: Seq<Event>, zone: Seq<char>, prefix: Option<Seq<char>>) -> Seq<Seq<char>>
    decreases events.len(),
{
    if events.len() == 0 {
        Seq::empty()
    } else {
        let before = looked_up_clients(events.drop_last(), zone, prefix);
        match summary_parts(summary_text(events.last()), prefix) {
            Some((_, client)) => if event_span(events.last(), zone) is Ok {
                before.push(client)
            } else {
                before
            },
            None => before,
        }
    }
}

/// The summaries, with the reason, of the events that name a client but
/// whose start and end do not read in `zone`, in order.
pub open spec fn unreadable_summaries(events: Seq<Event>, zone: Seq<char>, prefix: Option<Seq<char>>) -> Seq<
    (Seq<char>, EventError),
>
    decreases events.len(),
{
    if events.len() == 0 {
        Seq::empty()
    } else {
        let before = unreadable_summaries(events.drop_last(), zone, prefix);
        if summary_parts(summary_text(events.last()), prefix) is Some {
            match event_span(events.last(), zone) {
                Err(e) => before.push((summary_text(events.last()), e)),
                Ok(_) => before,
            }
        } else {
            before
        }
    }
}

/// The month's totals: their terms, and what is to be reported: the
/// summaries that name no client, the summaries of events whose times do
/// not read (with the reason), and the clients without a rate, each once.
#[derive(Clone, Debug, PartialEq, Eq)]
pub struct MonthTotals {
    pub terms: Vec<TotalTerm>,
    pub invalid_summaries: Vec<String>,
    pub unreadable: Vec<(String, EventError)>,
    pub missing_clients: Vec<String>,
}

pub open spec fn unreadable_view(v: Seq<(String, EventError)>) -> Seq<(Seq<char>, EventError)> {
    v.map_values(|p: (String, EventError)| (p.0@, p.1))
}

/// Every event that names a client and reads in `zone` can be split by day.
pub open spec fn events_splittable(events: Seq<Event>, zone: Seq<char>, prefix: Option<Seq<char>>) -> bool {
    forall|i: int|
        0 <= i < events.len() && (#[trigger] summary_parts(summary_text(events[i]), prefix)) is Some ==> match event_span(
            events[i],
            zone,
        ) {
            Ok((s, t, _)) => splittable(zone, s, t),
            Err(_) => true,
        }
}

fn segment_terms_of(segs: &Vec<DaySegment>, month: u32, year: i32, rate: Option<u64>) -> (r: Vec<TotalTerm>)
    ensures
        r@ == segment_terms(segs@, month, year, rate),
{
    let mut out: Vec<TotalTerm> = Vec::new();
    let n = segs.len();
    for k in 0..n
        invariant
            n == segs@.len(),
            out@ == segment_terms(segs@.take(k as int), month, year, rate),
    {
        assert(segs@.take(k + 1).drop_last() =~= segs@.take(k as int));
        let seg = segs[k];
        if seg.day.month == month && seg.day.year == year {
            out.push(TotalTerm { seconds: seg.seconds, rate });
        }
    }
    assert(segs@.take(n as int) =~= segs@);
    out
}

/// The terms of the month's totals: for every event whose summary names a
/// client (with `prefix`, when given) and whose start and end read in
/// `zone`, each part of it on a local day of the month, with its length
/// and the client's rate. The total hours are the sum of the terms'
/// lengths; the total cost that of each length times its rate. The
/// summaries that name no client (and start with `prefix`, when given) are
/// returned beside the terms.
pub fn calculate_month_totals(
    events: &Vec<Event>,
    month: u32,
    year: i32,
    zone: &Zone,
    prefix: Option<&str>,
    cost_lookup: &Vec<(String, u64)>,
) -> (r: MonthTotals)
    requires
        events_splittable(events@, zone@, opt_str_view(prefix)),
    ensures
        r.terms@ == month_terms(events@, zone@, month, year, opt_str_view(prefix), cost_lookup@),
        r.invalid_summaries@.map_values(|t: String| t@) == invalid_summaries(events@, opt_str_view(prefix)),
        unreadable_view(r.unreadable@) == unreadable_summaries(events@, zone@, opt_str_view(prefix)),
        text_set(r.missing_clients@) == unrated_among(
            looked_up_clients(events@, zone@, opt_str_view(prefix)),
            cost_lookup@,
        ),
        distinct_texts(r.missing_clients@),
{
    let mut terms: Vec<TotalTerm> = Vec::new();
    let mut invalid: Vec<String> = Vec::new();
    let mut unreadable: Vec<(String, EventError)> = Vec::new();
    let mut missing: Vec<String> = Vec::new();
    assert(text_set(missing@) =~= Set::<Seq<char>>::empty());
    assert(unrated_among(Seq::<Seq<char>>::empty(), cost_lookup@) =~= Set::<Seq<char>>::empty());
    let n = events.len();
    for i in 0..n
        invariant
            n == events@.len(),
            events_splittable(events@, zone@, opt_str_view(prefix)),
            terms@ == month_terms(events@.take(i as int), zone@, month, year, opt_str_view(prefix), cost_lookup@),
            invalid@.map_values(|t: String| t@) == invalid_summaries(events@.take(i as int), opt_str_view(prefix)),
            unreadable_view(unreadable@) == unreadable_summaries(events@.take(i as int), zone@, opt_str_view(prefix)),
            text_set(missing@) == unrated_among(
                looked_up_clients(events@.take(i as int), zone@, opt_str_view(prefix)),
                cost_lookup@,
            ),
            distinct_texts(missing@),
    {
        let event = &events[i];
        assert(events@.take(i + 1).drop_last() =~= events@.take(i as int));
        assert(events@.take(i + 1).last() == events@[i as int]);
        let empty = String::new();
        let summary: &str = match &event.summary {
            Some(s) => s.as_str(),
            None => empty.as_str(),
        };
        assert(summary@ == summary_text(*event));
        let parsed = parse_summary(summary, prefix);
        if let Some((_service_name, client)) = parsed {
            assert((summary_parts(summary_text(events@[i as int]), opt_str_view(prefix))) is Some);
            let span = parse_event_datetimes(event, zone);
            if let Err(e) = span {
                let ghost before = unreadable@;
                let text = summary.to_string();
                unreadable.push((text, e));
                assert(unreadable_view(unreadable@) =~= unreadable_view(before).push((text@, e)));
            }
            if let Ok((start_dt, end_dt, _)) = span {
                let ghost looked = looked_up_clients(events@.take(i as int), zone@, opt_str_view(prefix));
                proof {
                    lemma_unrated_among_push(looked, client@, cost_lookup@);
                }
                let rate = resolve_hourly_rate(&client, cost_lookup, &mut missing);
                let segs = split_event_by_day(start_dt, end_dt, zone);
                let more = segment_terms_of(&segs, month, year, rate);
                let ghost before = terms@;
                let mut more = more;
                terms.append(&mut more);
                assert(terms@ =~= before + segment_terms(segs@, month, year, rate));
            } else {
                assert(terms@ =~= terms@ + Seq::<TotalTerm>::empty());
            }
        } else {
            assert(terms@ =~= terms@ + Seq::<TotalTerm>::empty());
            let reported = match prefix {
                Some(p) => starts_with(&chars_of(summary), &chars_of(p)),
                None => true,
            };
            if reported {
                let ghost before = invalid@;
                let text = summary.to_string();
                invalid.push(text);
                assert(invalid@.map_values(|t: String| t@) =~= before.map_values(|t: String| t@).push(text@));
            }
        }
    }
    assert(events@.take(n as int) =~= events@);
    MonthTotals { terms, invalid_summaries: invalid, unreadable, missing_clients: missing }
}

/// The terms of the month's totals, as `calculate_month_totals` gives them,
/// when every counted event can be split by day (see `events_splittable`);
/// `None` otherwise.
pub fn checked_calculate_month_totals(
    events: &Vec<Event>,
    month: u32,
    year: i32,
    zone: &Zone,
    prefix: Option<&str>,
    cost_lookup: &Vec<(String, u64)>,
) -> (r: Option<MonthTotals>)
    ensures
        r is Some <==> events_splittable(events@, zone@, opt_str_view(prefix)),
        r matches Some(v) ==> v.terms@ == month_terms(events@, zone@, month, year, opt_str_view(prefix), cost_lookup@)
            && v.invalid_summaries@.map_values(|t: String| t@) == invalid_summaries(events@, opt_str_view(prefix))
            && unreadable_view(v.unreadable@) == unreadable_summaries(events@, zone@, opt_str_view(prefix))
            && text_set(v.missing_clients@) == unrated_among(
            looked_up_clients(events@, zone@, opt_str_view(prefix)),
            cost_lookup@,
        ) && distinct_texts(v.missing_clients@),
{
    let n = events.len();
    for i in 0..n
        invariant
            n == events@.len(),
            forall|k: int|
                0 <= k < i && (#[trigger] summary_parts(summary_text(events@[k]), opt_str_view(prefix))) is Some ==> match event_span(
                    events@[k],
                    zone@,
                ) {
                    Ok((s, t, _)) => splittable(zone@, s, t),
                    Err(_) => true,
                },
    {
        let event = &events[i];
        let empty = String::new();
        let summary: &str = match &event.summary {
            Some(s) => s.as_str(),
            None => empty.as_str(),
        };
        assert(summary@ == summary_text(*event));
        if parse_summary(summary, prefix).is_some() {
            if let Ok((start_dt, end_dt, _)) = parse_event_datetimes(event, zone) {
                if checked_split_event_by_day(start_dt, end_dt, zone).is_none() {
                    assert(!splittable(zone@, start_dt, end_dt));
                    assert((summary_parts(summary_text(events@[i as int]), opt_str_view(prefix))) is Some);
                    return None;
                }
            }
        }
    }
    Some(calculate_month_totals(events, month, year, zone, prefix, cost_lookup))
}

/// A term comes only from a segment whose day falls in the asked month of
/// the asked year: segments on days of other months or other years give no
/// term, and segments on days of the month give one term each, with their
/// length and the rate.
pub proof fn lemma_terms_only_from_the_month(segs: Seq<DaySegment>, month: u32, year: i32, rate: Option<u64>)
    ensures
        (forall|i: int| 0 <= i < segs.len() ==> (#[trigger] segs[i]).day.month != month || segs[i].day.year != year)
            ==> segment_terms(segs, month, year, rate).len() == 0,
        (forall|i: int| 0 <= i < segs.len() ==> (#[trigger] segs[i]).day.month == month && segs[i].day.year == year)
            ==> segment_terms(segs, month, year, rate) == segs.map_values(
            |g: DaySegment| TotalTerm { seconds: g.seconds, rate },
        ),
    decreases segs.len(),
{
    if segs.len() > 0 {
        let init = segs.drop_last();
        lemma_terms_only_from_the_month(init, month, year, rate);
        assert forall|i: int| 0 <= i < init.len() implies #[trigger] init[i] == segs[i] by {}
        if forall|i: int| 0 <= i < segs.len() ==> (#[trigger] segs[i]).day.month == month && segs[i].day.year == year {
            assert(segs.last() == segs[segs.len() - 1]);
            assert(segs.map_values(|g: DaySegment| TotalTerm { seconds: g.seconds, rate }) =~= init.map_values(
                |g: DaySegment| TotalTerm { seconds: g.seconds, rate },
            ).push(TotalTerm { seconds: segs.last().seconds, rate }));
        }
        if forall|i: int| 0 <= i < segs.len() ==> (#[trigger] segs[i]).day.month != month || segs[i].day.year != year {
            assert(segs.last() == segs[segs.len() - 1]);
        }
    }
}

/// Adding an event whose every day-part lies in another month or another
/// year leaves the month's terms as they were.
pub proof fn lemma_event_outside_the_month_adds_no_term(
    events: Seq<Event>,
    e: Event,
    zone: Seq<char>,
    month: u32,
    year: i32,
    prefix: Option<Seq<char>>,
    rates: Seq<(String, u64)>,
)
    requires
        event_span(e, zone) matches Ok((s, t, _)) ==> forall|i: int|
            0 <= i < split_segments(zone, s, t).len() ==> (#[trigger] split_segments(zone, s, t)[i]).day.month != month
                || split_segments(zone, s, t)[i].day.year != year,
    ensures
        month_terms(events.push(e), zone, month, year, prefix, rates) == month_terms(events, zone, month, year, prefix, rates),
{
    assert(events.push(e).drop_last() =~= events);
    if let Ok((s, t, _)) = event_span(e, zone) {
        match summary_parts(summary_text(e), prefix) {
            Some((_, client)) => {
                lemma_terms_only_from_the_month(split_segments(zone, s, t), month, year, rate_of(rates, client));
            },
            None => {},
        }
    }
    assert(month_terms(events.push(e), zone, month, year, prefix, rates) =~= month_terms(events, zone, month, year, prefix, rates));
}

} // verus!
