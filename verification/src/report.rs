//! The monthly report: which events count, and the layout of the Markdown
//! and JSON reports, client by client. The hours and costs, which are
//! fractional, are worked out where the report is written out.

use vstd::prelude::*;
use vstd::string::StringExecFns;
use crate::civil::{before, is_before, valid_date, ZonedDateTime};
use crate::event::{copy_event, event_span, parse_event_datetimes, readable, Event};
use crate::layout::{clock_text, date_text, end_clock_text, format_date, format_time};
use crate::month::{checked_month_range, month_bounded, month_bounds, month_range};
use crate::order::{lemma_stable_sorted, sort_groups_by_name, sort_rows, sorted_by_name, stable_sorted};
use crate::rates::{lookup_pairs, pairs_map};
use crate::rows::{distinct_clients, events_by_client, grouped_by_client, rows_readable, summary_text, ClientGroup, ServiceRow};
use crate::summary::opt_str_view;
use crate::text::{chars_of, starts_with};
use crate::zone::Zone;

verus! {

broadcast use {vstd::seq_lib::group_to_multiset_ensures, vstd::string::group_string_axioms};

/// The form of the report.
#[derive(Clone, Copy, Debug, PartialEq, Eq, Structural)]
pub enum OutputFormat {
    Json,
    Stdout,
}

/// A line of the Markdown report: a line of text, a row of service (its
/// day, start and end as written, its length in seconds and the client's
/// rate), or the total of a client (the lengths of its rows and its rate).
#[derive(Clone, Debug)]
pub enum ReportLine {
    Text(String),
    Row { day: String, start: String, end: String, seconds: i64, rate: Option<u64> },
    Total { seconds: Vec<i64>, rate: Option<u64> },
}

/// What a line holds, with texts by their characters.
pub enum LineView {
    Text(Seq<char>),
    Row { day: Seq<char>, start: Seq<char>, end: Seq<char>, seconds: i64, rate: Option<u64> },
    Total { seconds: Seq<i64>, rate: Option<u64> },
}

pub open spec fn line_view(l: ReportLine) -> LineView {
    match l {
        ReportLine::Text(t) => LineView::Text(t@),
        ReportLine::Row { day, start, end, seconds, rate } => LineView::Row {
            day: day@,
            start: start@,
            end: end@,
            seconds,
            rate,
        },
        ReportLine::Total { seconds, rate } => LineView::Total { seconds: seconds@, rate },
    }
}

pub open spec fn lines_view(lines: Seq<ReportLine>) -> Seq<LineView> {
    lines.map_values(|l: ReportLine| line_view(l))
}

/// The row's start and end are readable and its day is a date.
pub open spec fn readable_row(r: ServiceRow) -> bool {
    readable(r.start) && readable(r.end) && valid_date(r.day)
}

/// Every row of the group is readable.
pub open spec fn group_readable(g: ClientGroup) -> bool {
    forall|k: int| 0 <= k < g.rows@.len() ==> #[trigger] readable_row(g.rows@[k])
}

/// The rate of a client, when it has one.
pub open spec fn rate_of(rates: Seq<(String, u64)>, client: Seq<char>) -> Option<u64> {
    if pairs_map(rates).contains_key(client) {
        Some(pairs_map(rates)[client])
    } else {
        None
    }
}

/// The line of a row.
pub open spec fn row_line(r: ServiceRow, rate: Option<u64>) -> LineView {
    LineView::Row {
        day: date_text(r.day),
        start: clock_text(r.start.local),
        end: end_clock_text(r.start.local, r.end.local),
        seconds: r.seconds,
        rate,
    }
}

pub open spec fn heading(name: Seq<char>) -> Seq<char> {
    "## "@ + name
}

pub open spec fn table_header() -> Seq<char> {
    "| Day | Start | End | Hours | Cost |"@
}

pub open spec fn table_rule() -> Seq<char> {
    "| --- | ---: | ---: | ---: | ---: |"@
}

pub open spec fn no_events() -> Seq<char> {
    "No matching events found."@
}

/// The section of one client: heading, table of its rows (already in
/// order), the total when there is a row, and a blank line.
pub open spec fn client_section(name: Seq<char>, rows: Seq<ServiceRow>, rate: Option<u64>) -> Seq<LineView> {
    seq![
        LineView::Text(heading(name)),
        LineView::Text(Seq::empty()),
        LineView::Text(table_header()),
        LineView::Text(table_rule()),
    ] + rows.map_values(|r: ServiceRow| row_line(r, rate)) + (if rows.len() > 0 {
        seq![LineView::Total { seconds: rows.map_values(|r: ServiceRow| r.seconds), rate }]
    } else {
        Seq::empty()
    }) + seq![LineView::Text(Seq::empty())]
}

/// The sections of the clients, in the order given, each with its rows in
/// order of day, start and end.
pub open spec fn sections(groups: Seq<ClientGroup>, rates: Seq<(String, u64)>) -> Seq<LineView>
    decreases groups.len(),
{
    if groups.len() == 0 {
        Seq::empty()
    } else {
        let g = groups.last();
        sections(groups.drop_last(), rates) + client_section(
            g.name@,
            stable_sorted(g.rows@, false),
            rate_of(rates, g.name@),
        )
    }
}

/// The Markdown report of clients in the order given.
pub open spec fn markdown_report(groups: Seq<ClientGroup>, rates: Seq<(String, u64)>) -> Seq<LineView> {
    if groups.len() == 0 {
        seq![LineView::Text(no_events())]
    } else {
        sections(groups, rates)
    }
}

/// `lines` is the Markdown report of the groups taken in order of client
/// name (an order that groups of distinct clients have in one way only).
pub open spec fn markdown_of(groups: Seq<ClientGroup>, rates: Seq<(String, u64)>, lines: Seq<ReportLine>) -> bool {
    exists|sorted: Seq<ClientGroup>|
        sorted.to_multiset() == groups.to_multiset() && sorted_by_name(sorted) && lines_view(lines)
            == markdown_report(sorted, rates)
}

/// The texts of a list of names.
pub open spec fn text_set(v: Seq<String>) -> Set<Seq<char>> {
    Set::new(|c: Seq<char>| exists|i: int| 0 <= i < v.len() && (#[trigger] v[i])@ == c)
}

/// No text occurs twice in the list.
pub open spec fn distinct_texts(v: Seq<String>) -> bool {
    forall|i: int, j: int| 0 <= i < j < v.len() ==> (#[trigger] v[i])@ != (#[trigger] v[j])@
}

/// The clients that have rows but no rate.
pub open spec fn unrated_clients(groups: Seq<ClientGroup>, rates: Seq<(String, u64)>) -> Set<Seq<char>> {
    Set::new(
        |c: Seq<char>|
            exists|i: int|
                0 <= i < groups.len() && (#[trigger] groups[i]).name@ == c && groups[i].rows@.len() > 0
                    && rate_of(rates, c) is None,
    )
}

/// What one lookup of a client's rate does to the list of clients without a
/// rate: the list gains the client at its end when the client has no rate
/// and is not listed yet, and stays as it was otherwise.
pub open spec fn missing_step(before: Seq<String>, after: Seq<String>, client: Seq<char>, rates: Seq<(String, u64)>) -> bool {
    if rate_of(rates, client) is None && !text_set(before).contains(client) {
        &&& after.len() == before.len() + 1
        &&& after.drop_last() == before
        &&& after.last()@ == client
    } else {
        after == before
    }
}

/// The clients among `clients` that have no rate.
pub open spec fn unrated_among(clients: Seq<Seq<char>>, rates: Seq<(String, u64)>) -> Set<Seq<char>> {
    Set::new(|c: Seq<char>| exists|i: int| 0 <= i < clients.len() && #[trigger] clients[i] == c && rate_of(rates, c) is None)
}

/// One more client lookup adds the client to the unrated clients when it
/// has no rate.
pub proof fn lemma_unrated_among_push(clients: Seq<Seq<char>>, c: Seq<char>, rates: Seq<(String, u64)>)
    ensures
        unrated_among(clients.push(c), rates) == (if rate_of(rates, c) is None {
            unrated_among(clients, rates).insert(c)
        } else {
            unrated_among(clients, rates)
        }),
{
    let all = clients.push(c);
    assert forall|x: Seq<char>| #[trigger] unrated_among(all, rates).contains(x) == (if rate_of(rates, c) is None {
        unrated_among(clients, rates).insert(c)
    } else {
        unrated_among(clients, rates)
    }).contains(x) by {
        if unrated_among(all, rates).contains(x) {
            let i = choose|i: int| 0 <= i < all.len() && #[trigger] all[i] == x && rate_of(rates, x) is None;
            if i < clients.len() {
                assert(clients[i] == all[i]);
            }
        }
        if unrated_among(clients, rates).contains(x) {
            let i = choose|i: int| 0 <= i < clients.len() && #[trigger] clients[i] == x && rate_of(rates, x) is None;
            assert(all[i] == clients[i]);
        }
        if x == c && rate_of(rates, c) is None {
            assert(all[clients.len() as int] == x);
        }
    }
    assert(unrated_among(all, rates) =~= (if rate_of(rates, c) is None {
        unrated_among(clients, rates).insert(c)
    } else {
        unrated_among(clients, rates)
    }));
}

proof fn lemma_missing_step_sets(before: Seq<String>, after: Seq<String>, client: Seq<char>, rates: Seq<(String, u64)>)
    requires
        missing_step(before, after, client, rates),
    ensures
        text_set(after) == (if rate_of(rates, client) is None {
            text_set(before).insert(client)
        } else {
            text_set(before)
        }),
        distinct_texts(before) ==> distinct_texts(after),
{
    if rate_of(rates, client) is None && !text_set(before).contains(client) {
        assert forall|c: Seq<char>| #[trigger] text_set(after).contains(c) == text_set(before).insert(client).contains(
            c,
        ) by {
            if text_set(after).contains(c) {
                let i = choose|i: int| 0 <= i < after.len() && (#[trigger] after[i])@ == c;
                if i < before.len() {
                    assert(before[i] == after.drop_last()[i]);
                }
            }
            if text_set(before).contains(c) {
                let i = choose|i: int| 0 <= i < before.len() && (#[trigger] before[i])@ == c;
                assert(after[i] == after.drop_last()[i]);
            }
            if c == client {
                assert(after[before.len() as int]@ == c);
            }
        }
        assert(text_set(after) =~= text_set(before).insert(client));
        assert forall|i: int, j: int| distinct_texts(before) && 0 <= i < j < after.len() implies (
        #[trigger] after[i])@ != (#[trigger] after[j])@ by {
            assert(after[i] == after.drop_last()[i]);
            if j == before.len() {
                assert(!text_set(before).contains(client));
            } else {
                assert(after[j] == after.drop_last()[j]);
            }
        }
    } else if rate_of(rates, client) is None {
        assert(text_set(before).insert(client) =~= text_set(before));
    }
}

/// Over a run of rate lookups that share one list, starting empty, every
/// client without a rate ends up listed exactly once, and no client with a
/// rate is listed: each is reported once.
pub proof fn lemma_missing_listed_once(states: Seq<Seq<String>>, clients: Seq<Seq<char>>, rates: Seq<(String, u64)>)
    requires
        states.len() == clients.len() + 1,
        states[0].len() == 0,
        forall|i: int| 0 <= i < clients.len() ==> missing_step(#[trigger] states[i], states[i + 1], clients[i], rates),
    ensures
        distinct_texts(states.last()),
        text_set(states.last()) == unrated_among(clients, rates),
    decreases clients.len(),
{
    let n: int = clients.len() as int;
    if n == 0 {
        assert(text_set(states[0]) =~= Set::<Seq<char>>::empty());
        assert(unrated_among(clients, rates) =~= Set::<Seq<char>>::empty());
    } else {
        let s0 = states.drop_last();
        let c0 = clients.drop_last();
        assert forall|i: int| 0 <= i < c0.len() implies missing_step(#[trigger] s0[i], s0[i + 1], c0[i], rates) by {
            assert(s0[i] == states[i] && s0[i + 1] == states[i + 1] && c0[i] == clients[i]);
        }
        lemma_missing_listed_once(s0, c0, rates);
        assert(missing_step(states[n - 1], states[n], clients[n - 1], rates));
        lemma_missing_step_sets(states[n - 1], states[n], clients[n - 1], rates);
        assert(s0.last() == states[n - 1]);
        let c = clients[n - 1];
        assert forall|x: Seq<char>| #[trigger] unrated_among(clients, rates).contains(x) == (if rate_of(rates, c) is None {
            unrated_among(c0, rates).insert(c)
        } else {
            unrated_among(c0, rates)
        }).contains(x) by {
            if unrated_among(clients, rates).contains(x) {
                let i = choose|i: int| 0 <= i < clients.len() && #[trigger] clients[i] == x && rate_of(rates, x) is None;
                if i < n - 1 {
                    assert(c0[i] == clients[i]);
                }
            }
            if unrated_among(c0, rates).contains(x) {
                let i = choose|i: int| 0 <= i < c0.len() && #[trigger] c0[i] == x && rate_of(rates, x) is None;
                assert(clients[i] == c0[i]);
            }
            if x == c && rate_of(rates, c) is None {
                assert(clients[n - 1] == x);
            }
        }
        assert(unrated_among(clients, rates) =~= (if rate_of(rates, c) is None {
            unrated_among(c0, rates).insert(c)
        } else {
            unrated_among(c0, rates)
        }));
    }
}

/// Whether the list holds the text of `s`.
fn contains_text(v: &Vec<String>, s: &String) -> (b: bool)
    ensures
        b == text_set(v@).contains(s@),
{
    for k in 0..v.len()
        invariant
            forall|j: int| 0 <= j < k ==> (#[trigger] v@[j])@ != s@,
    {
        if v[k] == *s {
            assert(v@[k as int]@ == s@);
            return true;
        }
    }
    false
}

/// The rate of `client`, when it has one. A client without a rate is
/// added to `missing_clients` when it is not there yet, so that it is
/// reported once.
pub fn resolve_hourly_rate(client: &String, rates: &Vec<(String, u64)>, missing_clients: &mut Vec<String>) -> (r:
    Option<u64>)
    ensures
        r == rate_of(rates@, client@),
        text_set(final(missing_clients)@) == (if r is None {
            text_set(old(missing_clients)@).insert(client@)
        } else {
            text_set(old(missing_clients)@)
        }),
        distinct_texts(old(missing_clients)@) ==> distinct_texts(final(missing_clients)@),
        missing_step(old(missing_clients)@, final(missing_clients)@, client@, rates@),
{
    let ghost before = missing_clients@;
    let r = lookup_pairs(rates, client);
    if r.is_none() {
        if contains_text(missing_clients, client) {
            assert(text_set(before).insert(client@) =~= text_set(before));
        } else {
            missing_clients.push(client.clone());
            let ghost after = missing_clients@;
            assert(after.drop_last() =~= before);
            assert forall|c: Seq<char>| #[trigger] text_set(after).contains(c) == text_set(before).insert(
                client@,
            ).contains(c) by {
                if text_set(after).contains(c) {
                    let i = choose|i: int| 0 <= i < after.len() && (#[trigger] after[i])@ == c;
                    if i < before.len() {
                        assert(before[i] == after[i]);
                    }
                }
                if text_set(before).contains(c) {
                    let i = choose|i: int| 0 <= i < before.len() && (#[trigger] before[i])@ == c;
                    assert(after[i] == before[i]);
                }
                if c == client@ {
                    assert(after[before.len() as int]@ == c);
                }
            }
            assert(text_set(after) =~= text_set(before).insert(client@));
            assert forall|i: int, j: int| distinct_texts(before) && 0 <= i < j < after.len() implies (
            #[trigger] after[i])@ != (#[trigger] after[j])@ by {
                if j == before.len() {
                    assert(after[i] == before[i]);
                    assert(!text_set(before).contains(client@));
                } else {
                    assert(after[i] == before[i] && after[j] == before[j]);
                }
            }
        }
    }
    r
}

proof fn lemma_unrated_step(groups: Seq<ClientGroup>, k: int, rates: Seq<(String, u64)>)
    requires
        0 <= k < groups.len(),
    ensures
        unrated_clients(groups.take(k + 1), rates) == (if groups[k].rows@.len() > 0 && rate_of(
            rates,
            groups[k].name@,
        ) is None {
            unrated_clients(groups.take(k), rates).insert(groups[k].name@)
        } else {
            unrated_clients(groups.take(k), rates)
        }),
{
    let a = groups.take(k + 1);
    let b = groups.take(k);
    assert forall|c: Seq<char>| #[trigger] unrated_clients(a, rates).contains(c) == (if groups[k].rows@.len() > 0
        && rate_of(rates, groups[k].name@) is None {
        unrated_clients(b, rates).insert(groups[k].name@)
    } else {
        unrated_clients(b, rates)
    }).contains(c) by {
        if unrated_clients(a, rates).contains(c) {
            let i = choose|i: int|
                0 <= i < a.len() && (#[trigger] a[i]).name@ == c && a[i].rows@.len() > 0 && rate_of(rates, c) is None;
            if i < k {
                assert(b[i] == a[i]);
            }
        }
        if unrated_clients(b, rates).contains(c) {
            let i = choose|i: int|
                0 <= i < b.len() && (#[trigger] b[i]).name@ == c && b[i].rows@.len() > 0 && rate_of(rates, c) is None;
            assert(a[i] == b[i]);
        }
        if c == groups[k].name@ && groups[k].rows@.len() > 0 && rate_of(rates, c) is None {
            assert(a[k] == groups[k]);
        }
    }
    assert(unrated_clients(a, rates) =~= (if groups[k].rows@.len() > 0 && rate_of(rates, groups[k].name@) is None {
        unrated_clients(b, rates).insert(groups[k].name@)
    } else {
        unrated_clients(b, rates)
    }));
}

/// Adds to `missing_clients` every client of `groups` that has rows but no
/// rate, each once.
fn note_unrated(groups: &Vec<ClientGroup>, rates: &Vec<(String, u64)>, missing_clients: &mut Vec<String>)
    ensures
        text_set(final(missing_clients)@) == text_set(old(missing_clients)@).union(
            unrated_clients(groups@, rates@),
        ),
        distinct_texts(old(missing_clients)@) ==> distinct_texts(final(missing_clients)@),
{
    let ghost start = missing_clients@;
    assert(unrated_clients(groups@.take(0), rates@) =~= Set::<Seq<char>>::empty());
    assert(text_set(start).union(Set::<Seq<char>>::empty()) =~= text_set(start));
    for k in 0..groups.len()
        invariant
            text_set(missing_clients@) == text_set(start).union(unrated_clients(groups@.take(k as int), rates@)),
            distinct_texts(start) ==> distinct_texts(missing_clients@),
    {
        proof {
            lemma_unrated_step(groups@, k as int, rates@);
        }
        if groups[k].rows.len() > 0 {
            let ghost before = missing_clients@;
            let _ = resolve_hourly_rate(&groups[k].name, rates, missing_clients);
            assert(text_set(missing_clients@) =~= text_set(start).union(
                unrated_clients(groups@.take(k + 1), rates@),
            ));
        }
    }
    assert(groups@.take(groups@.len() as int) =~= groups@);
}

proof fn lemma_unrated_same(a: Seq<ClientGroup>, b: Seq<ClientGroup>, rates: Seq<(String, u64)>)
    requires
        a.to_multiset() == b.to_multiset(),
    ensures
        unrated_clients(a, rates) == unrated_clients(b, rates),
{
    assert forall|c: Seq<char>| #[trigger] unrated_clients(a, rates).contains(c) implies unrated_clients(
        b,
        rates,
    ).contains(c) by {
        let i = choose|i: int|
            0 <= i < a.len() && (#[trigger] a[i]).name@ == c && a[i].rows@.len() > 0 && rate_of(rates, c) is None;
        assert(a.contains(a[i]));
        vstd::seq_lib::to_multiset_contains(a, a[i]);
        vstd::seq_lib::to_multiset_contains(b, a[i]);
        let j = choose|j: int| 0 <= j < b.len() && b[j] == a[i];
        assert(b[j].name@ == c);
    }
    assert forall|c: Seq<char>| #[trigger] unrated_clients(b, rates).contains(c) implies unrated_clients(
        a,
        rates,
    ).contains(c) by {
        let i = choose|i: int|
            0 <= i < b.len() && (#[trigger] b[i]).name@ == c && b[i].rows@.len() > 0 && rate_of(rates, c) is None;
        assert(b.contains(b[i]));
        vstd::seq_lib::to_multiset_contains(b, b[i]);
        vstd::seq_lib::to_multiset_contains(a, b[i]);
        let j = choose|j: int| 0 <= j < a.len() && a[j] == b[i];
        assert(a[j].name@ == c);
    }
    assert(unrated_clients(a, rates) =~= unrated_clients(b, rates));
}

fn text_line(s: &str) -> (l: ReportLine)
    ensures
        line_view(l) == LineView::Text(s@),
{
    ReportLine::Text(s.to_string())
}

/// Appends the section of one client to `lines`.
fn push_section(lines: &mut Vec<ReportLine>, group: ClientGroup, rates: &Vec<(String, u64)>)
    requires
        group_readable(group),
    ensures
        lines_view(final(lines)@) == lines_view(old(lines)@) + client_section(
            group.name@,
            stable_sorted(group.rows@, false),
            rate_of(rates@, group.name@),
        ),
{
    let ghost start = lines_view(lines@);
    let ghost orig = group.rows@;
    let name = group.name;
    let rate = lookup_pairs(rates, &name);
    let rows = sort_rows(group.rows, false);
    proof {
        lemma_stable_sorted(orig, false);
        assert(rows@.to_multiset() == orig.to_multiset());
        assert forall|k: int| 0 <= k < rows@.len() implies readable(#[trigger] rows@[k].start) && readable(
            rows@[k].end,
        ) && valid_date(rows@[k].day) by {
            let x = rows@[k];
            assert(rows@.contains(x));
            vstd::seq_lib::to_multiset_contains(rows@, x);
            vstd::seq_lib::to_multiset_contains(orig, x);
            assert(orig.contains(x));
            let j = choose|j: int| 0 <= j < orig.len() && orig[j] == x;
            assert(readable_row(orig[j]));
        }
        assert forall|j: int| 0 <= j < rows@.len() implies #[trigger] readable_row(rows@[j]) by {
            assert(readable(rows@[j].start));
        }
    }
    let mut head = "## ".to_string();
    head.append(name.as_str());
    let l1 = ReportLine::Text(head);
    let l2 = text_line("");
    let l3 = text_line("| Day | Start | End | Hours | Cost |");
    let l4 = text_line("| --- | ---: | ---: | ---: | ---: |");
    proof {
        reveal_strlit("");
    }
    assert(""@ =~= Seq::<char>::empty());
    assert(line_view(l1) == LineView::Text(heading(name@)));
    assert(line_view(l2) == LineView::Text(Seq::empty()));
    assert(line_view(l3) == LineView::Text(table_header()));
    assert(line_view(l4) == LineView::Text(table_rule()));
    let ghost old_lines = lines@;
    lines.push(l1);
    lines.push(l2);
    lines.push(l3);
    lines.push(l4);
    assert(lines@ =~= old_lines + seq![l1, l2, l3, l4]);
    let ghost base = lines_view(lines@);
    assert(base =~= start + seq![
        LineView::Text(heading(name@)),
        LineView::Text(Seq::empty()),
        LineView::Text(table_header()),
        LineView::Text(table_rule()),
    ]);
    let mut seconds: Vec<i64> = Vec::new();
    let n = rows.len();
    assert(rows@.take(0).map_values(|r: ServiceRow| row_line(r, rate)) =~= Seq::<LineView>::empty());
    assert(rows@.take(0).map_values(|r: ServiceRow| r.seconds) =~= Seq::<i64>::empty());
    assert(lines_view(lines@) =~= base + rows@.take(0).map_values(|r: ServiceRow| row_line(r, rate)));
    for k in 0..n
        invariant
            n == rows@.len(),
            forall|j: int| 0 <= j < n ==> #[trigger] readable_row(rows@[j]),
            lines_view(lines@) == base + rows@.take(k as int).map_values(|r: ServiceRow| row_line(r, rate)),
            seconds@ == rows@.take(k as int).map_values(|r: ServiceRow| r.seconds),
    {
        let row = &rows[k];
        assert(readable_row(rows@[k as int]));
        let (start_str, end_str) = format_time(&row.start, &row.end);
        let day = format_date(row.day);
        let ghost before = lines@;
        let line = ReportLine::Row { day, start: start_str, end: end_str, seconds: row.seconds, rate };
        assert(line_view(line) == row_line(rows@[k as int], rate));
        lines.push(line);
        assert(lines@ =~= before.push(line));
        seconds.push(row.seconds);
        assert(rows@.take(k + 1) =~= rows@.take(k as int).push(rows@[k as int]));
        assert(rows@.take(k + 1).map_values(|r: ServiceRow| row_line(r, rate)) =~= rows@.take(
            k as int,
        ).map_values(|r: ServiceRow| row_line(r, rate)).push(row_line(rows@[k as int], rate)));
        assert(lines_view(before.push(line)) =~= lines_view(before).push(line_view(line)));
        assert(lines_view(lines@) =~= base + rows@.take(k + 1).map_values(|r: ServiceRow| row_line(r, rate)));
        assert(seconds@ =~= rows@.take(k + 1).map_values(|r: ServiceRow| r.seconds));
    }
    assert(rows@.take(n as int) =~= rows@);
    let ghost with_rows = lines@;
    let ghost total_part: Seq<LineView> = if n > 0 {
        seq![LineView::Total { seconds: rows@.map_values(|r: ServiceRow| r.seconds), rate }]
    } else {
        Seq::empty()
    };
    if n > 0 {
        let total = ReportLine::Total { seconds, rate };
        assert(line_view(total) == LineView::Total { seconds: rows@.map_values(|r: ServiceRow| r.seconds), rate });
        lines.push(total);
        assert(lines_view(with_rows.push(total)) =~= lines_view(with_rows).push(line_view(total)));
    }
    let ghost with_total = lines@;
    assert(lines_view(with_total) =~= lines_view(with_rows) + total_part);
    let blank = text_line("");
    assert(line_view(blank) == LineView::Text(Seq::empty()));
    lines.push(blank);
    assert(lines_view(with_total.push(blank)) =~= lines_view(with_total).push(line_view(blank)));
    assert(lines_view(lines@) =~= start + client_section(name@, rows@, rate));
}

/// The Markdown report of the clients' rows: clients by name, each with a
/// table of its rows by day, start and end; see `markdown_report`. The
/// clients with rows but no rate are added to `missing_clients`, each once.
pub fn stdout_report(
    rows_by_client: Vec<ClientGroup>,
    cost_lookup: &Vec<(String, u64)>,
    missing_clients: &mut Vec<String>,
) -> (r: Vec<ReportLine>)
    requires
        distinct_clients(rows_by_client@),
        rows_readable(rows_by_client@),
    ensures
        markdown_of(rows_by_client@, cost_lookup@, r@),
        text_set(final(missing_clients)@) == text_set(old(missing_clients)@).union(
            unrated_clients(rows_by_client@, cost_lookup@),
        ),
        distinct_texts(old(missing_clients)@) ==> distinct_texts(final(missing_clients)@),
{
    let ghost input = rows_by_client@;
    let sorted = sort_groups_by_name(rows_by_client);
    note_unrated(&sorted, cost_lookup, missing_clients);
    proof {
        lemma_unrated_same(sorted@, input, cost_lookup@);
    }
    let ghost all = sorted@;
    proof {
        assert forall|i: int| 0 <= i < all.len() implies #[trigger] group_readable(all[i]) by {
            assert(all.contains(all[i]));
            vstd::seq_lib::to_multiset_contains(all, all[i]);
            vstd::seq_lib::to_multiset_contains(rows_by_client@, all[i]);
            assert(rows_by_client@.contains(all[i]));
            let j = choose|j: int| 0 <= j < rows_by_client@.len() && rows_by_client@[j] == all[i];
            assert forall|k: int| 0 <= k < all[i].rows@.len() implies #[trigger] readable_row(all[i].rows@[k]) by {
                assert(readable(rows_by_client@[j].rows@[k].start));
            }
        }
    }
    let mut lines: Vec<ReportLine> = Vec::new();
    if sorted.len() == 0 {
        lines.push(text_line("No matching events found."));
        assert(lines_view(lines@) =~= markdown_report(all, cost_lookup@));
        assert(all.to_multiset() == rows_by_client@.to_multiset() && sorted_by_name(all));
        return lines;
    }
    let mut rest = sorted;
    assert(all.len() == rest.len());
    let mut taken: usize = 0;
    assert(lines_view(lines@) =~= sections(all.take(0), cost_lookup@));
    while rest.len() > 0
        invariant
            all.len() == taken + rest@.len(),
            all.len() <= usize::MAX,
            rest@ == all.skip(taken as int),
            forall|i: int| 0 <= i < all.len() ==> #[trigger] group_readable(all[i]),
            lines_view(lines@) == sections(all.take(taken as int), cost_lookup@),
        decreases rest.len(),
    {
        let group = rest.remove(0);
        assert(group == all[taken as int]);
        assert(group_readable(all[taken as int]));
        push_section(&mut lines, group, cost_lookup);
        assert(all.take(taken + 1).drop_last() =~= all.take(taken as int));
        taken = taken + 1;
        assert(rest@ =~= all.skip(taken as int));
    }
    assert(all.take(taken as int) =~= all);
    assert(all.to_multiset() == rows_by_client@.to_multiset() && sorted_by_name(all));
    lines
}

/// A row of the JSON report: its day, start and end as written and its
/// length in seconds.
#[derive(Clone, Debug)]
pub struct JsonRow {
    pub day: String,
    pub start: String,
    pub end: String,
    pub seconds: i64,
}

/// A client of the JSON report: its name, its rate when it has one, and its
/// rows in order.
#[derive(Clone, Debug)]
pub struct JsonClient {
    pub name: String,
    pub rate: Option<u64>,
    pub rows: Vec<JsonRow>,
}

pub struct JsonRowView {
    pub day: Seq<char>,
    pub start: Seq<char>,
    pub end: Seq<char>,
    pub seconds: i64,
}

pub struct JsonClientView {
    pub name: Seq<char>,
    pub rate: Option<u64>,
    pub rows: Seq<JsonRowView>,
}

pub open spec fn json_row_view(r: JsonRow) -> JsonRowView {
    JsonRowView { day: r.day@, start: r.start@, end: r.end@, seconds: r.seconds }
}

pub open spec fn json_client_view(c: JsonClient) -> JsonClientView {
    JsonClientView {
        name: c.name@,
        rate: c.rate,
        rows: c.rows@.map_values(|r: JsonRow| json_row_view(r)),
    }
}

/// The JSON row of a row.
pub open spec fn json_row(r: ServiceRow) -> JsonRowView {
    JsonRowView {
        day: date_text(r.day),
        start: clock_text(r.start.local),
        end: end_clock_text(r.start.local, r.end.local),
        seconds: r.seconds,
    }
}

/// The JSON client of a group: its rows ordered by day and end, rows with
/// equal keys kept in their order.
pub open spec fn json_client(g: ClientGroup, rates: Seq<(String, u64)>) -> JsonClientView {
    JsonClientView {
        name: g.name@,
        rate: rate_of(rates, g.name@),
        rows: stable_sorted(g.rows@, true).map_values(|r: ServiceRow| json_row(r)),
    }
}

/// `clients` is the JSON report of the groups taken in order of client name.
pub open spec fn json_of(groups: Seq<ClientGroup>, rates: Seq<(String, u64)>, clients: Seq<JsonClient>) -> bool {
    exists|sorted: Seq<ClientGroup>|
        sorted.to_multiset() == groups.to_multiset() && sorted_by_name(sorted) && clients.map_values(
            |c: JsonClient| json_client_view(c),
        ) == sorted.map_values(|g: ClientGroup| json_client(g, rates))
}

fn json_client_of(group: ClientGroup, rates: &Vec<(String, u64)>) -> (c: JsonClient)
    requires
        group_readable(group),
    ensures
        json_client_view(c) == json_client(group, rates@),
{
    let ghost orig = group.rows@;
    let name = group.name;
    let rate = lookup_pairs(rates, &name);
    let rows = sort_rows(group.rows, true);
    proof {
        lemma_stable_sorted(orig, true);
        assert forall|j: int| 0 <= j < rows@.len() implies #[trigger] readable_row(rows@[j]) by {
            let x = rows@[j];
            assert(rows@.contains(x));
            vstd::seq_lib::to_multiset_contains(rows@, x);
            vstd::seq_lib::to_multiset_contains(orig, x);
            let w = choose|w: int| 0 <= w < orig.len() && orig[w] == x;
            assert(readable_row(orig[w]));
        }
    }
    let mut out: Vec<JsonRow> = Vec::new();
    let n = rows.len();
    for k in 0..n
        invariant
            n == rows@.len(),
            forall|j: int| 0 <= j < n ==> #[trigger] readable_row(rows@[j]),
            out@.map_values(|r: JsonRow| json_row_view(r)) == rows@.take(k as int).map_values(
                |r: ServiceRow| json_row(r),
            ),
    {
        let row = &rows[k];
        assert(readable_row(rows@[k as int]));
        let (start, end) = format_time(&row.start, &row.end);
        let day = format_date(row.day);
        let ghost before = out@;
        let jr = JsonRow { day, start, end, seconds: row.seconds };
        out.push(jr);
        assert(rows@.take(k + 1) =~= rows@.take(k as int).push(rows@[k as int]));
        assert(out@.map_values(|r: JsonRow| json_row_view(r)) =~= before.map_values(|r: JsonRow| json_row_view(r)).push(json_row_view(jr)));
        assert(rows@.take(k + 1).map_values(|r: ServiceRow| json_row(r)) =~= rows@.take(k as int).map_values(|r: ServiceRow| json_row(r)).push(json_row(rows@[k as int])));
    }
    assert(rows@.take(n as int) =~= rows@);
    JsonClient { name, rate, rows: out }
}

fn readable_groups(groups: &Vec<ClientGroup>)
    requires
        rows_readable(groups@),
    ensures
        forall|i: int| 0 <= i < groups@.len() ==> #[trigger] group_readable(groups@[i]),
{
    assert forall|i: int| 0 <= i < groups@.len() implies #[trigger] group_readable(groups@[i]) by {
        assert forall|k: int| 0 <= k < groups@[i].rows@.len() implies #[trigger] readable_row(groups@[i].rows@[k]) by {
            assert(readable(groups@[i].rows@[k].start));
        }
    }
}

/// The JSON report of the clients' rows: clients by name, each with its
/// rows by day and end; see `json_of`. The clients with rows but no rate are
/// added to `missing_clients`, each once.
pub fn json_report(
    rows_by_client: Vec<ClientGroup>,
    cost_lookup: &Vec<(String, u64)>,
    missing_clients: &mut Vec<String>,
) -> (r: Vec<JsonClient>)
    requires
        distinct_clients(rows_by_client@),
        rows_readable(rows_by_client@),
    ensures
        json_of(rows_by_client@, cost_lookup@, r@),
        text_set(final(missing_clients)@) == text_set(old(missing_clients)@).union(
            unrated_clients(rows_by_client@, cost_lookup@),
        ),
        distinct_texts(old(missing_clients)@) ==> distinct_texts(final(missing_clients)@),
{
    readable_groups(&rows_by_client);
    let ghost input = rows_by_client@;
    let sorted = sort_groups_by_name(rows_by_client);
    note_unrated(&sorted, cost_lookup, missing_clients);
    proof {
        lemma_unrated_same(sorted@, input, cost_lookup@);
    }
    let ghost all = sorted@;
    proof {
        assert forall|i: int| 0 <= i < all.len() implies #[trigger] group_readable(all[i]) by {
            assert(all.contains(all[i]));
            vstd::seq_lib::to_multiset_contains(all, all[i]);
            vstd::seq_lib::to_multiset_contains(input, all[i]);
            let j = choose|j: int| 0 <= j < input.len() && input[j] == all[i];
            assert(group_readable(input[j]));
        }
    }
    let mut rest = sorted;
    assert(all.len() == rest.len());
    let mut out: Vec<JsonClient> = Vec::new();
    let mut taken: usize = 0;
    while rest.len() > 0
        invariant
            all.len() == taken + rest@.len(),
            all.len() <= usize::MAX,
            rest@ == all.skip(taken as int),
            forall|i: int| 0 <= i < all.len() ==> #[trigger] group_readable(all[i]),
            out@.map_values(|c: JsonClient| json_client_view(c)) == all.take(taken as int).map_values(
                |g: ClientGroup| json_client(g, cost_lookup@),
            ),
        decreases rest.len(),
    {
        let group = rest.remove(0);
        assert(group == all[taken as int]);
        assert(group_readable(all[taken as int]));
        let ghost before = out@;
        let c = json_client_of(group, cost_lookup);
        out.push(c);
        assert(out@.map_values(|c: JsonClient| json_client_view(c)) =~= before.map_values(|c: JsonClient| json_client_view(c)).push(json_client_view(c)));
        assert(all.take(taken + 1) =~= all.take(taken as int).push(all[taken as int]));
        assert(all.take(taken + 1).map_values(|g: ClientGroup| json_client(g, cost_lookup@)) =~= all.take(taken as int).map_values(|g: ClientGroup| json_client(g, cost_lookup@)).push(json_client(all[taken as int], cost_lookup@)));
        taken = taken + 1;
        assert(rest@ =~= all.skip(taken as int));
    }
    assert(all.take(taken as int) =~= all);
    assert(all.to_multiset() == input.to_multiset() && sorted_by_name(all));
    out
}

/// A report in one of the two forms.
#[derive(Clone, Debug)]
pub enum Report {
    Json(Vec<JsonClient>),
    Stdout(Vec<ReportLine>),
}

/// The event counts in the report of the month `[bounds.0, bounds.1)`: it
/// overlaps the month, and its summary starts with the prefix when there is
/// one.
pub open spec fn counts(e: Event, zone: Seq<char>, bounds: (ZonedDateTime, ZonedDateTime), prefix: Option<Seq<char>>) -> bool {
    &&& match event_span(e, zone) {
        Ok((s, t, _)) => is_before(s, bounds.1) && is_before(bounds.0, t),
        Err(_) => false,
    }
    &&& match prefix {
        Some(p) => p.is_prefix_of(summary_text(e)),
        None => true,
    }
}

/// The events that count in the report, in their order.
pub open spec fn relevant_events(
    events: Seq<Event>,
    zone: Seq<char>,
    bounds: (ZonedDateTime, ZonedDateTime),
    prefix: Option<Seq<char>>,
) -> Seq<Event>
    decreases events.len(),
{
    if events.len() == 0 {
        Seq::empty()
    } else {
        let before = relevant_events(events.drop_last(), zone, bounds, prefix);
        if counts(events.last(), zone, bounds, prefix) {
            before.push(events.last())
        } else {
            before
        }
    }
}

/// Whether the summary of `event` starts with `prefix` (a missing summary
/// reads as empty).
fn summary_starts_with(event: &Event, prefix: &str) -> (r: bool)
    ensures
        r == prefix@.is_prefix_of(summary_text(*event)),
{
    let empty = String::new();
    let summary: &str = match &event.summary {
        Some(s) => s.as_str(),
        None => empty.as_str(),
    };
    let chars = chars_of(summary);
    let p = chars_of(prefix);
    starts_with(&chars, &p)
}

/// The positions of the events whose start and end do not read in `zone`,
/// in order.
pub open spec fn unreadable_positions(events: Seq<Event>, zone: Seq<char>) -> Seq<int>
    decreases events.len(),
{
    if events.len() == 0 {
        Seq::empty()
    } else {
        let before = unreadable_positions(events.drop_last(), zone);
        if event_span(events.last(), zone) is Err {
            before.push(events.len() - 1)
        } else {
            before
        }
    }
}

/// The positions of the events whose start and end do not read in `zone`:
/// those the report leaves out for that reason, to be reported.
pub fn unreadable_events(events: &Vec<Event>, zone: &Zone) -> (r: Vec<usize>)
    ensures
        r@.map_values(|i: usize| i as int) == unreadable_positions(events@, zone@),
{
    let mut out: Vec<usize> = Vec::new();
    let n = events.len();
    for i in 0..n
        invariant
            n == events@.len(),
            out@.map_values(|k: usize| k as int) == unreadable_positions(events@.take(i as int), zone@),
    {
        assert(events@.take(i + 1).drop_last() =~= events@.take(i as int));
        if parse_event_datetimes(&events[i], zone).is_err() {
            let ghost before = out@;
            out.push(i);
            assert(out@.map_values(|k: usize| k as int) =~= before.map_values(|k: usize| k as int).push(i as int));
        }
    }
    assert(events@.take(n as int) =~= events@);
    out
}

/// An event that does not count in the month's report leaves the events the
/// report is built from as they were: events out of the month, without the
/// prefix, or unreadable do not change the report.
pub proof fn lemma_uncounted_event_changes_nothing(
    events: Seq<Event>,
    e: Event,
    zone: Seq<char>,
    bounds: (ZonedDateTime, ZonedDateTime),
    prefix: Option<Seq<char>>,
)
    requires
        !counts(e, zone, bounds, prefix),
    ensures
        relevant_events(events.push(e), zone, bounds, prefix) == relevant_events(events, zone, bounds, prefix),
{
    assert(events.push(e).drop_last() =~= events);
}

/// The events of `events` that count in the report of the month.
fn select_events(
    events: &Vec<Event>,
    zone: &Zone,
    bounds: &(ZonedDateTime, ZonedDateTime),
    prefix: Option<&str>,
) -> (r: Vec<Event>)
    ensures
        r@ == relevant_events(events@, zone@, *bounds, opt_str_view(prefix)),
{
    let mut out: Vec<Event> = Vec::new();
    let n = events.len();
    for i in 0..n
        invariant
            n == events@.len(),
            out@ == relevant_events(events@.take(i as int), zone@, *bounds, opt_str_view(prefix)),
    {
        let event = &events[i];
        let overlaps = match parse_event_datetimes(event, zone) {
            Ok((start_dt, end_dt, _)) => before(&start_dt, &bounds.1) && before(&bounds.0, &end_dt),
            Err(_) => false,
        };
        let wanted = match prefix {
            Some(p) => summary_starts_with(event, p),
            None => true,
        };
        assert(events@.take(i + 1).drop_last() =~= events@.take(i as int));
        if overlaps && wanted {
            out.push(copy_event(event));
        }
    }
    assert(events@.take(n as int) =~= events@);
    out
}

/// The report of the month `month` of `year` in `zone`: the events that
/// overlap the month (and whose summary starts with `prefix`, when given),
/// grouped by client and laid out in the form asked for. The clients with
/// rows but no rate are added to `missing_clients`, each once.
pub fn generate_report(
    events: &Vec<Event>,
    month: u32,
    year: i32,
    zone: &Zone,
    prefix: Option<&str>,
    cost_lookup: &Vec<(String, u64)>,
    format: OutputFormat,
    missing_clients: &mut Vec<String>,
) -> (r: Report)
    requires
        month_bounded(zone@, year as int, month as int),
    ensures
        (r is Json) == (format == OutputFormat::Json),
        exists|groups: Seq<ClientGroup>|
            grouped_by_client(
                relevant_events(events@, zone@, month_bounds(zone@, year as int, month as int), opt_str_view(prefix)),
                groups,
            ) && match r {
                Report::Json(c) => json_of(groups, cost_lookup@, c@),
                Report::Stdout(l) => markdown_of(groups, cost_lookup@, l@),
            } && text_set(final(missing_clients)@) == text_set(old(missing_clients)@).union(
                unrated_clients(groups, cost_lookup@),
            ),
        distinct_texts(old(missing_clients)@) ==> distinct_texts(final(missing_clients)@),
{
    let bounds = month_range(year, month, zone);
    let relevant = select_events(events, zone, &bounds, prefix);
    let groups = events_by_client(&relevant);
    match format {
        OutputFormat::Json => Report::Json(json_report(groups, cost_lookup, missing_clients)),
        OutputFormat::Stdout => Report::Stdout(stdout_report(groups, cost_lookup, missing_clients)),
    }
}

/// The report of the month, as `generate_report` gives it, when the month
/// is bounded in `zone` (see `month_bounded`); `None` otherwise.
pub fn checked_generate_report(
    events: &Vec<Event>,
    month: u32,
    year: i32,
    zone: &Zone,
    prefix: Option<&str>,
    cost_lookup: &Vec<(String, u64)>,
    format: OutputFormat,
    missing_clients: &mut Vec<String>,
) -> (r: Option<Report>)
    ensures
        r is Some <==> month_bounded(zone@, year as int, month as int),
        r is None ==> final(missing_clients)@ == old(missing_clients)@,
        r matches Some(rep) ==> (rep is Json) == (format == OutputFormat::Json) && exists|groups: Seq<ClientGroup>|
            grouped_by_client(
                relevant_events(events@, zone@, month_bounds(zone@, year as int, month as int), opt_str_view(prefix)),
                groups,
            ) && match rep {
                Report::Json(c) => json_of(groups, cost_lookup@, c@),
                Report::Stdout(l) => markdown_of(groups, cost_lookup@, l@),
            } && text_set(final(missing_clients)@) == text_set(old(missing_clients)@).union(
                unrated_clients(groups, cost_lookup@),
            ),
        distinct_texts(old(missing_clients)@) ==> distinct_texts(final(missing_clients)@),
{
    if checked_month_range(year, month, zone).is_none() {
        return None;
    }
    Some(generate_report(events, month, year, zone, prefix, cost_lookup, format, missing_clients))
}

/// The month's report takes in exactly the events that overlap the month:
/// an event whose start and end read, that starts before the month ends and
/// ends after it begins (in particular, one that starts inside the month,
/// whatever its end), and whose summary carries the prefix, is added; any
/// other event is left out.
pub proof fn lemma_month_overlap_counts(
    events: Seq<Event>,
    e: Event,
    zone: Seq<char>,
    bounds: (ZonedDateTime, ZonedDateTime),
    prefix: Option<Seq<char>>,
)
    ensures
        ({
            let with_e = relevant_events(events.push(e), zone, bounds, prefix);
            let without = relevant_events(events, zone, bounds, prefix);
            let carries_prefix = match prefix {
                Some(p) => p.is_prefix_of(summary_text(e)),
                None => true,
            };
            &&& (event_span(e, zone) matches Ok((s, t, _)) && is_before(s, bounds.1) && is_before(bounds.0, t)
                && carries_prefix) ==> with_e == without.push(e)
            &&& (event_span(e, zone) matches Ok((s, t, _)) && !is_before(s, bounds.0) && is_before(s, bounds.1)
                && is_before(s, t) && carries_prefix) ==> with_e == without.push(e)
            &&& (event_span(e, zone) is Err || !carries_prefix || (event_span(e, zone) matches Ok((s, t, _))
                && (!is_before(s, bounds.1) || !is_before(bounds.0, t)))) ==> with_e == without
        }),
{
    assert(events.push(e).drop_last() =~= events);
    assert(events.push(e).last() == e);
}

} // verus!
