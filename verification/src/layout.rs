//! How dates and clock readings are written in reports (`"%Y-%m-%d"` and
//! `"%H:%M"`).

use vstd::prelude::*;
use crate::civil::{Date, LocalTime, ZonedDateTime};
use crate::text::{decimal, push_padded, text_of, two_digits, zero_padded};

verus! {

/// The year as `%Y` writes it: four digits at least, with a sign before
/// years outside 0..=9999.
pub open spec fn year_text(y: int) -> Seq<char> {
    if 0 <= y <= 9999 {
        zero_padded(decimal(y as nat), 4)
    } else if y < 0 {
        seq!['-'] + zero_padded(decimal((-y) as nat), 4)
    } else {
        seq!['+'] + decimal(y as nat)
    }
}

/// The date as `%Y-%m-%d` writes it.
pub open spec fn date_text(d: Date) -> Seq<char> {
    year_text(d.year as int) + seq!['-'] + two_digits(d.month as int) + seq!['-'] + two_digits(
        d.day as int,
    )
}

/// The clock reading as `%H:%M` writes it.
pub open spec fn clock_text(l: LocalTime) -> Seq<char> {
    two_digits(l.hour as int) + seq![':'] + two_digits(l.minute as int)
}

/// The end of a span as the report writes it: `"24:00"` for a span that ends
/// at midnight of a later day than it starts, the clock reading otherwise.
pub open spec fn end_clock_text(start: LocalTime, end: LocalTime) -> Seq<char> {
    if end.hour == 0 && end.minute == 0 && end.date != start.date {
        seq!['2', '4', ':', '0', '0']
    } else {
        clock_text(end)
    }
}

/// Writes `d` as `%Y-%m-%d`.
pub fn format_date(d: Date) -> (s: String)
    requires
        1 <= d.month <= 12,
        1 <= d.day <= 31,
    ensures
        s@ == date_text(d),
{
    let mut out: Vec<char> = Vec::new();
    if 0 <= d.year && d.year <= 9999 {
        push_padded(&mut out, d.year as u64, 4);
    } else if d.year < 0 {
        out.push('-');
        let magnitude: u64 = (-(d.year as i64)) as u64;
        push_padded(&mut out, magnitude, 4);
    } else {
        out.push('+');
        push_padded(&mut out, d.year as u64, 0);
    }
    assert(out@ =~= year_text(d.year as int));
    out.push('-');
    push_padded(&mut out, d.month as u64, 2);
    out.push('-');
    push_padded(&mut out, d.day as u64, 2);
    proof {
        lemma_two_digits(d.month as nat);
        lemma_two_digits(d.day as nat);
    }
    assert(out@ =~= date_text(d));
    text_of(&out)
}

/// Two-digit numerals are the zero-padded decimals.
pub proof fn lemma_two_digits(n: nat)
    requires
        n < 100,
    ensures
        zero_padded(decimal(n), 2) == two_digits(n as int),
{
    if n < 10 {
        assert(zero_padded(decimal(n), 2) =~= two_digits(n as int));
    } else {
        assert(decimal(n / 10) == seq![crate::text::digit_char((n / 10) as int)]);
        assert(zero_padded(decimal(n), 2) =~= two_digits(n as int));
    }
}

/// Writes the clock reading of `l` as `%H:%M`.
pub fn format_clock(l: LocalTime) -> (s: String)
    requires
        l.hour < 24,
        l.minute < 60,
    ensures
        s@ == clock_text(l),
{
    let mut out: Vec<char> = Vec::new();
    push_padded(&mut out, l.hour as u64, 2);
    out.push(':');
    push_padded(&mut out, l.minute as u64, 2);
    proof {
        lemma_two_digits(l.hour as nat);
        lemma_two_digits(l.minute as nat);
    }
    assert(out@ =~= clock_text(l));
    text_of(&out)
}

/// The start and end of a span as the report writes them.
pub fn format_time(start_time: &ZonedDateTime, end_time: &ZonedDateTime) -> (r: (String, String))
    requires
        start_time.local.hour < 24,
        start_time.local.minute < 60,
        end_time.local.hour < 24,
        end_time.local.minute < 60,
    ensures
        r.0@ == clock_text(start_time.local),
        r.1@ == end_clock_text(start_time.local, end_time.local),
{
    let start_str = format_clock(start_time.local);
    let end_str = if end_time.local.hour == 0 && end_time.local.minute == 0 && end_time.local.date
        != start_time.local.date {
        let t = "24:00".to_string();
        proof {
            reveal_strlit("24:00");
        }
        t
    } else {
        format_clock(end_time.local)
    };
    (start_str, end_str)
}

} // verus!
