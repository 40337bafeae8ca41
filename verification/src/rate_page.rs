//! The layout of the rates page: a Markdown table of every client's hourly
//! rate. The rates are written out, as numbers, where the page is sent.

use vstd::prelude::*;

verus! {

broadcast use vstd::string::group_string_axioms;

/// A line of the rates page: a line of text, or the row of one client and
/// its rate.
#[derive(Clone, Debug)]
pub enum RateLine {
    Text(String),
    Rate { student: String, rate: u64 },
}

/// What a line holds, with texts by their characters.
pub enum RateLineView {
    Text(Seq<char>),
    Rate { student: Seq<char>, rate: u64 },
}

pub open spec fn rate_line_view(l: RateLine) -> RateLineView {
    match l {
        RateLine::Text(t) => RateLineView::Text(t@),
        RateLine::Rate { student, rate } => RateLineView::Rate { student: student@, rate },
    }
}

pub open spec fn rate_lines_view(lines: Seq<RateLine>) -> Seq<RateLineView> {
    lines.map_values(|l: RateLine| rate_line_view(l))
}

/// The page of the rates `rows`, in their order: a title, a table header,
/// one row per client, and a note when there is no rate.
pub open spec fn rates_page(rows: Seq<(String, u64)>) -> Seq<RateLineView> {
    seq![
        RateLineView::Text("# Rates"@),
        RateLineView::Text(Seq::empty()),
        RateLineView::Text("| Student | Hourly Rate |"@),
        RateLineView::Text("| --- | ---: |"@),
    ] + rows.map_values(|p: (String, u64)| RateLineView::Rate { student: p.0@, rate: p.1 }) + (if rows.len()
        == 0 {
        seq![RateLineView::Text("No rates configured."@)]
    } else {
        Seq::empty()
    })
}

fn text_line(s: &str) -> (l: RateLine)
    ensures
        rate_line_view(l) == RateLineView::Text(s@),
{
    RateLine::Text(s.to_string())
}

/// Lays out the rates page of `rows`; see `rates_page`.
pub fn rates_markdown(rows: &Vec<(String, u64)>) -> (r: Vec<RateLine>)
    ensures
        rate_lines_view(r@) == rates_page(rows@),
{
    let l1 = text_line("# Rates");
    let l2 = text_line("");
    let l3 = text_line("| Student | Hourly Rate |");
    let l4 = text_line("| --- | ---: |");
    proof {
        reveal_strlit("");
    }
    assert(""@ =~= Seq::<char>::empty());
    let mut lines: Vec<RateLine> = Vec::new();
    lines.push(l1);
    lines.push(l2);
    lines.push(l3);
    lines.push(l4);
    assert(lines@ =~= seq![l1, l2, l3, l4]);
    let ghost head = rate_lines_view(lines@);
    assert(head =~= seq![
        RateLineView::Text("# Rates"@),
        RateLineView::Text(Seq::empty()),
        RateLineView::Text("| Student | Hourly Rate |"@),
        RateLineView::Text("| --- | ---: |"@),
    ]);
    let n = rows.len();
    for i in 0..n
        invariant
            n == rows@.len(),
            rate_lines_view(lines@) == head + rows@.take(i as int).map_values(
                |p: (String, u64)| RateLineView::Rate { student: p.0@, rate: p.1 },
            ),
    {
        let ghost before = lines@;
        let line = RateLine::Rate { student: rows[i].0.clone(), rate: rows[i].1 };
        lines.push(line);
        assert(rate_lines_view(lines@) =~= rate_lines_view(before).push(rate_line_view(line)));
        assert(rows@.take(i + 1).map_values(|p: (String, u64)| RateLineView::Rate { student: p.0@, rate: p.1 })
            =~= rows@.take(i as int).map_values(
            |p: (String, u64)| RateLineView::Rate { student: p.0@, rate: p.1 },
        ).push(RateLineView::Rate { student: rows@[i as int].0@, rate: rows@[i as int].1 }));
    }
    assert(rows@.take(n as int) =~= rows@);
    let ghost with_rows = lines@;
    if n == 0 {
        let note = text_line("No rates configured.");
        lines.push(note);
        assert(rate_lines_view(lines@) =~= rate_lines_view(with_rows).push(rate_line_view(note)));
    }
    assert(rate_lines_view(lines@) =~= rates_page(rows@));
    lines
}

} // verus!
