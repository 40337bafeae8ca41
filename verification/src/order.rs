//! Orders used by the reports: client names as `String`s order them, and
//! rows by day and times, with a stable insertion sort.

use vstd::prelude::*;
use crate::rates::{distinct_names, lemma_pairs_map_insert, pairs_map};
use crate::rows::{ClientGroup, ServiceRow};
use crate::text::chars_of;

verus! {

broadcast use vstd::seq_lib::group_to_multiset_ensures;

/// `a` sorts before `b` as `String`s do: lexicographically by code point,
/// which is the order of their UTF-8 bytes.
pub open spec fn text_lt(a: Seq<char>, b: Seq<char>) -> bool
    decreases a.len(),
{
    if a.len() == 0 {
        b.len() > 0
    } else if b.len() == 0 {
        false
    } else if a[0] != b[0] {
        (a[0] as int) < (b[0] as int)
    } else {
        text_lt(a.drop_first(), b.drop_first())
    }
}

/// No text sorts before itself.
pub proof fn lemma_text_lt_irreflexive(a: Seq<char>)
    ensures
        !text_lt(a, a),
    decreases a.len(),
{
    if a.len() > 0 {
        lemma_text_lt_irreflexive(a.drop_first());
    }
}

/// The order of texts is transitive.
pub proof fn lemma_text_lt_transitive(a: Seq<char>, b: Seq<char>, c: Seq<char>)
    requires
        text_lt(a, b),
        text_lt(b, c),
    ensures
        text_lt(a, c),
    decreases a.len(),
{
    if a.len() > 0 && b.len() > 0 && c.len() > 0 {
        if a[0] == b[0] && b[0] == c[0] {
            lemma_text_lt_transitive(a.drop_first(), b.drop_first(), c.drop_first());
        }
    }
}

/// Of two different texts, one sorts before the other.
pub proof fn lemma_text_lt_total(a: Seq<char>, b: Seq<char>)
    ensures
        text_lt(a, b) || text_lt(b, a) || a == b,
    decreases a.len(),
{
    if a.len() > 0 && b.len() > 0 {
        if a[0] == b[0] {
            lemma_text_lt_total(a.drop_first(), b.drop_first());
            if a.drop_first() == b.drop_first() {
                assert(a =~= seq![a[0]] + a.drop_first());
                assert(b =~= seq![b[0]] + b.drop_first());
            }
        } else {
            assert((a[0] as int) != (b[0] as int));
        }
    } else if a.len() == 0 && b.len() == 0 {
        assert(a =~= b);
    }
}

/// Whether `a` sorts before `b` as `String`s do.
pub fn text_less(a: &String, b: &String) -> (r: bool)
    ensures
        r == text_lt(a@, b@),
{
    let x = chars_of(a.as_str());
    let y = chars_of(b.as_str());
    let mut i: usize = 0;
    assert(x@.skip(0) =~= x@);
    assert(y@.skip(0) =~= y@);
    assert(x@.take(0) =~= y@.take(0));
    while i < x.len() && i < y.len()
        invariant
            i <= x.len(),
            i <= y.len(),
            x@.take(i as int) == y@.take(i as int),
            text_lt(a@, b@) == text_lt(x@.skip(i as int), y@.skip(i as int)),
        decreases x.len() - i,
    {
        if x[i] != y[i] {
            let r = x[i] < y[i];
            assert(x@.skip(i as int)[0] == x[i as int]);
            assert(y@.skip(i as int)[0] == y[i as int]);
            return r;
        }
        assert(x@.skip(i as int).drop_first() =~= x@.skip(i + 1));
        assert(y@.skip(i as int).drop_first() =~= y@.skip(i + 1));
        assert(x@.take(i + 1) =~= x@.take(i as int).push(x[i as int]));
        assert(y@.take(i + 1) =~= y@.take(i as int).push(y[i as int]));
        i = i + 1;
    }
    x.len() == i && y.len() > i
}

/// The groups ordered by strictly increasing client name.
pub open spec fn sorted_by_name(groups: Seq<ClientGroup>) -> bool {
    forall|i: int, j: int|
        0 <= i < j < groups.len() ==> text_lt(#[trigger] groups[i].name@, #[trigger] groups[j].name@)
}

/// Orders groups of distinct clients by client name.
pub fn sort_groups_by_name(groups: Vec<ClientGroup>) -> (r: Vec<ClientGroup>)
    requires
        forall|i: int, j: int|
            0 <= i < j < groups@.len() ==> #[trigger] groups@[i].name@ != #[trigger] groups@[j].name@,
    ensures
        sorted_by_name(r@),
        r@.to_multiset() == groups@.to_multiset(),
{
    let mut out: Vec<ClientGroup> = Vec::new();
    let mut rest = groups;
    let ghost all = rest@;
    assert(all.len() == rest.len());
    let mut taken: usize = 0;
    while rest.len() > 0
        invariant
            all.len() == taken + rest@.len(),
            all.len() <= usize::MAX,
            rest@ == all.skip(taken as int),
            forall|i: int, j: int|
                0 <= i < j < all.len() ==> #[trigger] all[i].name@ != #[trigger] all[j].name@,
            sorted_by_name(out@),
            out@.to_multiset() == all.take(taken as int).to_multiset(),
            forall|i: int| 0 <= i < out@.len() ==> exists|k: int| 0 <= k < taken && #[trigger] out@[i] == all[k],
        decreases rest.len(),
    {
        let g = rest.remove(0);
        assert(g == all[taken as int]);
        let mut p = out.len();
        while p > 0 && text_less(&g.name, &out[p - 1].name)
            invariant
                p <= out@.len(),
                forall|q: int| p <= q < out@.len() ==> text_lt(g.name@, #[trigger] out@[q].name@),
            decreases p,
        {
            p = p - 1;
        }
        let ghost before = out@;
        proof {
            if p > 0 {
                let k = choose|k: int| 0 <= k < taken && before[p - 1] == all[k];
                assert(all[k].name@ != all[taken as int].name@);
                lemma_text_lt_total(g.name@, before[p - 1].name@);
                assert forall|q: int| 0 <= q < p implies text_lt(#[trigger] before[q].name@, g.name@) by {
                    if q < p - 1 {
                        lemma_text_lt_transitive(before[q].name@, before[p - 1].name@, g.name@);
                    }
                }
            }
        }
        out.insert(p, g);
        assert(out@ == before.insert(p as int, g));
        assert forall|i: int, j: int|
            0 <= i < j < out@.len() implies text_lt(#[trigger] out@[i].name@, #[trigger] out@[j].name@) by {
            if j < p {
            } else if j == p {
            } else if i < p {
                lemma_text_lt_transitive(out@[i].name@, g.name@, out@[j].name@);
            } else if i == p {
            } else {
            }
        }
        assert(all.take(taken + 1) =~= all.take(taken as int).push(g));
        taken = taken + 1;
        assert(rest@ =~= all.skip(taken as int));
        assert forall|i: int| 0 <= i < out@.len() implies exists|k: int| 0 <= k < taken && #[trigger] out@[i] == all[k] by {
            if i < p {
                let k = choose|k: int| 0 <= k < taken - 1 && before[i] == all[k];
                assert(out@[i] == all[k]);
            } else if i == p {
                assert(out@[i] == all[taken - 1]);
            } else {
                let k = choose|k: int| 0 <= k < taken - 1 && before[i - 1] == all[k];
                assert(out@[i] == all[k]);
            }
        }
    }
    assert(all.take(taken as int) =~= all);
    out
}

/// The key by which rows are ordered: the day, then (unless only the end
/// counts) the start, then the end.
pub open spec fn row_key(r: ServiceRow, end_only: bool) -> Seq<int> {
    if end_only {
        seq![r.day.year as int, r.day.month as int, r.day.day as int, r.end.secs as int, r.end.nanos as int]
    } else {
        seq![
            r.day.year as int,
            r.day.month as int,
            r.day.day as int,
            r.start.secs as int,
            r.start.nanos as int,
            r.end.secs as int,
            r.end.nanos as int,
        ]
    }
}

/// `a` is lexicographically smaller than `b`.
pub open spec fn key_lt(a: Seq<int>, b: Seq<int>) -> bool
    decreases a.len(),
{
    if a.len() == 0 || b.len() == 0 {
        false
    } else if a[0] != b[0] {
        a[0] < b[0]
    } else {
        key_lt(a.drop_first(), b.drop_first())
    }
}

/// The order of row keys is transitive.
pub proof fn lemma_key_lt_transitive(a: Seq<int>, b: Seq<int>, c: Seq<int>)
    requires
        key_lt(a, b),
        key_lt(b, c),
    ensures
        key_lt(a, c),
    decreases a.len(),
{
    if a[0] == b[0] && b[0] == c[0] {
        lemma_key_lt_transitive(a.drop_first(), b.drop_first(), c.drop_first());
    }
}

/// Keys of one length are totally ordered.
pub proof fn lemma_key_lt_total(a: Seq<int>, b: Seq<int>)
    requires
        a.len() == b.len(),
    ensures
        key_lt(a, b) || key_lt(b, a) || a == b,
    decreases a.len(),
{
    if a.len() > 0 {
        if a[0] == b[0] {
            lemma_key_lt_total(a.drop_first(), b.drop_first());
            if a.drop_first() == b.drop_first() {
                assert(a =~= seq![a[0]] + a.drop_first());
                assert(b =~= seq![b[0]] + b.drop_first());
            }
        }
    } else {
        assert(a =~= b);
    }
}

/// `x` is not ordered after `y`.
pub proof fn lemma_key_not_after_transitive(a: Seq<int>, b: Seq<int>, c: Seq<int>)
    requires
        a.len() == b.len(),
        b.len() == c.len(),
        !key_lt(b, a),
        !key_lt(c, b),
    ensures
        !key_lt(c, a),
{
    lemma_key_lt_total(a, b);
    lemma_key_lt_total(b, c);
    if key_lt(c, a) {
        if key_lt(a, b) {
            lemma_key_lt_transitive(c, a, b);
        }
    }
}

/// Where a stable insertion puts `x` into `sorted`: after every element that
/// is not ordered after it.
pub open spec fn insert_position(sorted: Seq<ServiceRow>, x: ServiceRow, end_only: bool) -> int
    decreases sorted.len(),
{
    if sorted.len() == 0 {
        0
    } else if key_lt(row_key(x, end_only), row_key(sorted.last(), end_only)) {
        insert_position(sorted.drop_last(), x, end_only)
    } else {
        sorted.len() as int
    }
}

/// The rows stably sorted by their keys: rows with equal keys keep their
/// order (`slice::sort_by`).
pub open spec fn stable_sorted(rows: Seq<ServiceRow>, end_only: bool) -> Seq<ServiceRow>
    decreases rows.len(),
{
    if rows.len() == 0 {
        Seq::empty()
    } else {
        let s = stable_sorted(rows.drop_last(), end_only);
        s.insert(insert_position(s, rows.last(), end_only), rows.last())
    }
}

/// The rows are in key order.
pub open spec fn sorted_by_key(rows: Seq<ServiceRow>, end_only: bool) -> bool {
    forall|i: int, j: int|
        0 <= i < j < rows.len() ==> !key_lt(
            row_key(#[trigger] rows[j], end_only),
            row_key(#[trigger] rows[i], end_only),
        )
}

proof fn lemma_insert_position(sorted: Seq<ServiceRow>, x: ServiceRow, end_only: bool)
    requires
        sorted_by_key(sorted, end_only),
    ensures
        0 <= insert_position(sorted, x, end_only) <= sorted.len(),
        forall|q: int|
            0 <= q < insert_position(sorted, x, end_only) ==> !key_lt(
                row_key(x, end_only),
                row_key(#[trigger] sorted[q], end_only),
            ),
        forall|q: int|
            insert_position(sorted, x, end_only) <= q < sorted.len() ==> key_lt(
                row_key(x, end_only),
                row_key(#[trigger] sorted[q], end_only),
            ),
    decreases sorted.len(),
{
    if sorted.len() > 0 {
        let init = sorted.drop_last();
        assert forall|i: int, j: int| 0 <= i < j < init.len() implies !key_lt(
            row_key(#[trigger] init[j], end_only),
            row_key(#[trigger] init[i], end_only),
        ) by {
            assert(init[i] == sorted[i] && init[j] == sorted[j]);
        }
        if key_lt(row_key(x, end_only), row_key(sorted.last(), end_only)) {
            lemma_insert_position(init, x, end_only);
            let p = insert_position(sorted, x, end_only);
            assert(p == insert_position(init, x, end_only));
            assert forall|q: int| 0 <= q < p implies !key_lt(
                row_key(x, end_only),
                row_key(#[trigger] sorted[q], end_only),
            ) by {
                assert(sorted[q] == init[q]);
            }
            assert forall|q: int| p <= q < sorted.len() implies key_lt(
                row_key(x, end_only),
                row_key(#[trigger] sorted[q], end_only),
            ) by {
                if q < sorted.len() - 1 {
                    assert(sorted[q] == init[q]);
                }
            }
        } else {
            assert forall|q: int| 0 <= q < sorted.len() implies !key_lt(
                row_key(x, end_only),
                row_key(#[trigger] sorted[q], end_only),
            ) by {
                if q < sorted.len() - 1 {
                    lemma_key_not_after_transitive(
                        row_key(sorted[q], end_only),
                        row_key(sorted.last(), end_only),
                        row_key(x, end_only),
                    );
                }
            }
        }
    }
}

/// The stable sort of rows is in key order and holds the same rows.
pub proof fn lemma_stable_sorted(rows: Seq<ServiceRow>, end_only: bool)
    ensures
        sorted_by_key(stable_sorted(rows, end_only), end_only),
        stable_sorted(rows, end_only).to_multiset() == rows.to_multiset(),
    decreases rows.len(),
{
    if rows.len() > 0 {
        let init = rows.drop_last();
        let x = rows.last();
        lemma_stable_sorted(init, end_only);
        let s = stable_sorted(init, end_only);
        lemma_insert_position(s, x, end_only);
        let p = insert_position(s, x, end_only);
        let r = s.insert(p, x);
        assert forall|i: int, j: int| 0 <= i < j < r.len() implies !key_lt(
            row_key(#[trigger] r[j], end_only),
            row_key(#[trigger] r[i], end_only),
        ) by {
            if i == p {
                lemma_key_lt_total(row_key(x, end_only), row_key(r[j], end_only));
                if key_lt(row_key(r[j], end_only), row_key(x, end_only)) {
                    lemma_key_lt_transitive(
                        row_key(x, end_only),
                        row_key(r[j], end_only),
                        row_key(x, end_only),
                    );
                    lemma_key_irreflexive(row_key(x, end_only));
                }
            } else if j == p {
            } else if i < p && p < j {
                if key_lt(row_key(r[j], end_only), row_key(x, end_only)) {
                    lemma_key_lt_transitive(row_key(x, end_only), row_key(r[j], end_only), row_key(x, end_only));
                    lemma_key_irreflexive(row_key(x, end_only));
                }
                lemma_key_not_after_transitive(
                    row_key(r[i], end_only),
                    row_key(x, end_only),
                    row_key(r[j], end_only),
                );
                lemma_key_lt_total(row_key(x, end_only), row_key(r[j], end_only));
            }
        }
        assert(rows =~= init.push(x));
    }
}

/// No row key sorts before itself.
pub proof fn lemma_key_irreflexive(a: Seq<int>)
    ensures
        !key_lt(a, a),
    decreases a.len(),
{
    if a.len() > 0 {
        lemma_key_irreflexive(a.drop_first());
    }
}

/// Whether `a`'s key is smaller than `b`'s.
pub fn row_before(a: &ServiceRow, b: &ServiceRow, end_only: bool) -> (r: bool)
    ensures
        r == key_lt(row_key(*a, end_only), row_key(*b, end_only)),
{
    let ghost ka = row_key(*a, end_only);
    let ghost kb = row_key(*b, end_only);
    proof {
        reveal_with_fuel(key_lt, 8);
    }
    if a.day.year != b.day.year {
        return a.day.year < b.day.year;
    }
    if a.day.month != b.day.month {
        return a.day.month < b.day.month;
    }
    if a.day.day != b.day.day {
        return a.day.day < b.day.day;
    }
    if !end_only {
        if a.start.secs != b.start.secs {
            return a.start.secs < b.start.secs;
        }
        if a.start.nanos != b.start.nanos {
            return a.start.nanos < b.start.nanos;
        }
    }
    if a.end.secs != b.end.secs {
        return a.end.secs < b.end.secs;
    }
    a.end.nanos < b.end.nanos
}

/// Sorts rows stably by their keys; see `stable_sorted`.
pub fn sort_rows(rows: Vec<ServiceRow>, end_only: bool) -> (r: Vec<ServiceRow>)
    ensures
        r@ == stable_sorted(rows@, end_only),
{
    let ghost all = rows@;
    let mut rest = rows;
    assert(all.len() == rest.len());
    let mut out: Vec<ServiceRow> = Vec::new();
    let mut taken: usize = 0;
    while rest.len() > 0
        invariant
            all.len() == taken + rest@.len(),
            all.len() <= usize::MAX,
            rest@ == all.skip(taken as int),
            out@ == stable_sorted(all.take(taken as int), end_only),
        decreases rest.len(),
    {
        let x = rest.remove(0);
        assert(x == all[taken as int]);
        let mut p = out.len();
        assert(out@.take(p as int) =~= out@);
        while p > 0 && row_before(&x, &out[p - 1], end_only)
            invariant
                p <= out@.len(),
                insert_position(out@, x, end_only) == insert_position(out@.take(p as int), x, end_only),
            decreases p,
        {
            assert(out@.take(p as int).drop_last() =~= out@.take(p - 1));
            p = p - 1;
        }
        assert(insert_position(out@.take(p as int), x, end_only) == p);
        assert(all.take(taken + 1).drop_last() =~= all.take(taken as int));
        out.insert(p, x);
        taken = taken + 1;
        assert(rest@ =~= all.skip(taken as int));
    }
    assert(all.take(taken as int) =~= all);
    out
}

/// The pairs ordered by strictly increasing name.
pub open spec fn pairs_sorted_by_name(pairs: Seq<(String, u64)>) -> bool {
    forall|i: int, j: int|
        0 <= i < j < pairs.len() ==> text_lt(#[trigger] pairs[i].0@, #[trigger] pairs[j].0@)
}

/// Orders (name, rate) pairs of distinct names by name.
pub fn sort_pairs_by_name(pairs: Vec<(String, u64)>) -> (r: Vec<(String, u64)>)
    requires
        distinct_names(pairs@),
    ensures
        pairs_sorted_by_name(r@),
        pairs_map(r@) == pairs_map(pairs@),
        r@.len() == pairs@.len(),
{
    let mut out: Vec<(String, u64)> = Vec::new();
    let mut rest = pairs;
    let ghost all = rest@;
    assert(all.len() == rest.len());
    let mut taken: usize = 0;
    assert(pairs_map(out@) =~= pairs_map(all.take(0)));
    while rest.len() > 0
        invariant
            all.len() == taken + rest@.len(),
            all.len() <= usize::MAX,
            rest@ == all.skip(taken as int),
            distinct_names(all),
            pairs_sorted_by_name(out@),
            out@.len() == taken,
            pairs_map(out@) == pairs_map(all.take(taken as int)),
            forall|i: int| 0 <= i < out@.len() ==> exists|k: int| 0 <= k < taken && #[trigger] out@[i] == all[k],
        decreases rest.len(),
    {
        let x = rest.remove(0);
        assert(x == all[taken as int]);
        let mut p = out.len();
        while p > 0 && text_less(&x.0, &out[p - 1].0)
            invariant
                p <= out@.len(),
                forall|q: int| p <= q < out@.len() ==> text_lt(x.0@, #[trigger] out@[q].0@),
            decreases p,
        {
            p = p - 1;
        }
        let ghost before = out@;
        proof {
            assert forall|i: int| 0 <= i < before.len() implies #[trigger] before[i].0@ != x.0@ by {
                let k = choose|k: int| 0 <= k < taken && before[i] == all[k];
                assert(all[k].0@ != all[taken as int].0@);
            }
            if p > 0 {
                lemma_text_lt_total(x.0@, before[p - 1].0@);
                assert forall|q: int| 0 <= q < p implies text_lt(#[trigger] before[q].0@, x.0@) by {
                    if q < p - 1 {
                        lemma_text_lt_transitive(before[q].0@, before[p - 1].0@, x.0@);
                    }
                }
            }
            lemma_pairs_map_insert(before, p as int, x);
            assert(all.take(taken + 1) =~= all.take(taken as int).push(x));
            crate::rates::lemma_pairs_map_push(all.take(taken as int), x);
        }
        out.insert(p, x);
        assert(out@ == before.insert(p as int, x));
        assert forall|i: int, j: int|
            0 <= i < j < out@.len() implies text_lt(#[trigger] out@[i].0@, #[trigger] out@[j].0@) by {
            if i < p && j > p {
                lemma_text_lt_transitive(out@[i].0@, x.0@, out@[j].0@);
            }
        }
        taken = taken + 1;
        assert(rest@ =~= all.skip(taken as int));
        assert forall|i: int| 0 <= i < out@.len() implies exists|k: int| 0 <= k < taken && #[trigger] out@[i] == all[k] by {
            if i < p {
                let k = choose|k: int| 0 <= k < taken - 1 && before[i] == all[k];
                assert(out@[i] == all[k]);
            } else if i == p {
                assert(out@[i] == all[taken - 1]);
            } else {
                let k = choose|k: int| 0 <= k < taken - 1 && before[i - 1] == all[k];
                assert(out@[i] == all[k]);
            }
        }
    }
    assert(all.take(taken as int) =~= all);
    out
}

} // verus!
