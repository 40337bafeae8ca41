//! Reading the service and the client out of an event summary such as
//! `"Service: Client"` or `"Service - Client"`.

use vstd::prelude::*;
use vstd::string::StrSliceExecFns;
use crate::text::{
    chars_of, find_from, first_match, is_white_space, lemma_first_match_unique, lemma_trim_idempotent, matches_at, occurs_in,
    split_in_two, starts_with, trim, trim_bounds,
};

verus! {

broadcast use vstd::string::group_string_axioms;

/// The separator of the `"Service: Client"` form.
pub open spec fn colon_separator() -> Seq<char> {
    seq![':', ' ']
}

/// The separator of the `"Service - Client"` form.
pub open spec fn dash_separator() -> Seq<char> {
    seq![' ', '-', ' ']
}

/// The service name given to a summary that names a client alone.
pub open spec fn default_service() -> Seq<char> {
    seq!['S', 'e', 'r', 'v', 'i', 'c', 'e']
}

/// Both pieces trimmed, when neither is then empty.
pub open spec fn trimmed_pair(parts: Option<(Seq<char>, Seq<char>)>) -> Option<(Seq<char>, Seq<char>)> {
    match parts {
        Some((a, b)) => if trim(a).len() > 0 && trim(b).len() > 0 {
            Some((trim(a), trim(b)))
        } else {
            None
        },
        None => None,
    }
}

/// The first of two alternatives that holds a value.
pub open spec fn first_some<A>(a: Option<A>, b: Option<A>) -> Option<A> {
    if a is Some {
        a
    } else {
        b
    }
}

/// The (service, client) pair that a summary names.
///
/// With a prefix, the summary must start with it, and only the two separated
/// forms are read. Without one, a summary that has neither form but is not
/// blank names a client of the default service.
pub open spec fn summary_parts(s: Seq<char>, prefix: Option<Seq<char>>) -> Option<(Seq<char>, Seq<char>)> {
    let by_colon = trimmed_pair(split_in_two(s, colon_separator()));
    let by_dash = trimmed_pair(split_in_two(s, dash_separator()));
    match prefix {
        Some(p) => if p.is_prefix_of(s) {
            first_some(by_colon, by_dash)
        } else {
            None
        },
        None => first_some(
            by_colon,
            first_some(
                by_dash,
                if trim(s).len() > 0 {
                    Some((default_service(), trim(s)))
                } else {
                    None
                },
            ),
        ),
    }
}

/// The view of an optional pair of strings.
pub open spec fn pair_view(r: Option<(String, String)>) -> Option<(Seq<char>, Seq<char>)> {
    match r {
        Some((a, b)) => Some((a@, b@)),
        None => None,
    }
}

/// The view of an optional text.
pub open spec fn opt_str_view(p: Option<&str>) -> Option<Seq<char>> {
    match p {
        Some(p) => Some(p@),
        None => None,
    }
}

proof fn lemma_skip_matches(s: Seq<char>, p: Seq<char>, a: int, j: int)
    requires
        0 <= a <= s.len(),
        0 <= j,
    ensures
        matches_at(s.skip(a), p, j) <==> matches_at(s, p, j + a),
{
    if j + p.len() <= s.len() - a {
        assert(s.skip(a).subrange(j, j + p.len()) =~= s.subrange(j + a, j + a + p.len()));
    }
}

/// The two trimmed pieces of `summary` around `sep`, as `summary.split(sep)`
/// gives them when it gives exactly two.
fn split_pair(summary: &str, chars: &Vec<char>, sep: &Vec<char>) -> (r: Option<(String, String)>)
    requires
        chars@ == summary@,
    ensures
        pair_view(r) == trimmed_pair(split_in_two(chars@, sep@)),
{
    let ghost s = chars@;
    let ghost p = sep@;
    match find_from(chars, sep, 0) {
        None => {
            assert(!occurs_in(s, p));
            None
        },
        Some(i) => {
            assert(first_match(s, p, i as int));
            assert(occurs_in(s, p));
            let ghost c = choose|i: int| first_match(s, p, i);
            proof {
                lemma_first_match_unique(s, p, i as int, c);
            }
            let slen = sep.len();
            assert(matches_at(s, p, i as int));
            assert(i + slen <= chars.len());
            let after = i + slen;
            match find_from(chars, sep, after) {
                Some(k) => {
                    proof {
                        lemma_skip_matches(s, p, after as int, k - after);
                    }
                    assert(occurs_in(s.skip(after as int), p));
                    None
                },
                None => {
                    assert forall|j: int| !matches_at(s.skip(after as int), p, j) by {
                        if j >= 0 {
                            lemma_skip_matches(s, p, after as int, j);
                        }
                    }
                    let (a0, a1) = trim_bounds(chars, 0, i);
                    let (b0, b1) = trim_bounds(chars, after, chars.len());
                    assert(s.take(i as int) == s.subrange(0, i as int));
                    assert(s.skip(after as int) == s.subrange(after as int, s.len() as int));
                    if a0 < a1 && b0 < b1 {
                        let service = summary.substring_char(a0, a1).to_string();
                        let client = summary.substring_char(b0, b1).to_string();
                        Some((service, client))
                    } else {
                        None
                    }
                },
            }
        },
    }
}

/// Reads `(service, client)` out of an event summary; see `summary_parts`.
pub fn parse_summary(summary: &str, prefix: Option<&str>) -> (r: Option<(String, String)>)
    ensures
        pair_view(r) == summary_parts(summary@, opt_str_view(prefix)),
{
    let chars = chars_of(summary);
    let colon: Vec<char> = vec![':', ' '];
    let dash: Vec<char> = vec![' ', '-', ' '];
    assert(colon@ =~= colon_separator());
    assert(dash@ =~= dash_separator());
    match prefix {
        Some(p) => {
            let pc = chars_of(p);
            if !starts_with(&chars, &pc) {
                return None;
            }
            let by_colon = split_pair(summary, &chars, &colon);
            if by_colon.is_some() {
                return by_colon;
            }
            split_pair(summary, &chars, &dash)
        },
        None => {
            let by_colon = split_pair(summary, &chars, &colon);
            if by_colon.is_some() {
                return by_colon;
            }
            let by_dash = split_pair(summary, &chars, &dash);
            if by_dash.is_some() {
                return by_dash;
            }
            let (t0, t1) = trim_bounds(&chars, 0, chars.len());
            assert(chars@.subrange(0, chars@.len() as int) =~= chars@);
            if t0 < t1 {
                let service = "Service".to_string();
                proof {
                    reveal_strlit("Service");
                }
                assert(service@ =~= default_service());
                let client = summary.substring_char(t0, t1).to_string();
                Some((service, client))
            } else {
                None
            }
        },
    }
}

proof fn lemma_trimmed_pair_clean(parts: Option<(Seq<char>, Seq<char>)>)
    ensures
        trimmed_pair(parts) matches Some((a, b)) ==> a.len() > 0 && b.len() > 0 && trim(a) == a && trim(b)
            == b,
{
    if let Some((a, b)) = parts {
        lemma_trim_idempotent(a);
        lemma_trim_idempotent(b);
    }
}

/// The service and the client that a summary names are never empty and
/// carry no white space at either end.
pub proof fn lemma_summary_parts_trimmed(s: Seq<char>, prefix: Option<Seq<char>>)
    ensures
        summary_parts(s, prefix) matches Some((service, client)) ==> {
            &&& service.len() > 0
            &&& client.len() > 0
            &&& trim(service) == service
            &&& trim(client) == client
        },
{
    lemma_trimmed_pair_clean(split_in_two(s, colon_separator()));
    lemma_trimmed_pair_clean(split_in_two(s, dash_separator()));
    lemma_trim_idempotent(s);
    let d = default_service();
    assert(!is_white_space(d[0]) && !is_white_space(d.last()));
    assert(trim(d) == d);
}

/// The dash form splits around the separator `" - "` only: a summary
/// `S - C` in which the separator occurs once and `": "` not at all names the
/// service `S` and the client `C`, trimmed, hyphens inside them included.
pub proof fn lemma_dash_form_splits_at_its_separator(a: Seq<char>, c: Seq<char>)
    requires
        forall|j: int| matches_at(a + dash_separator() + c, dash_separator(), j) ==> j == a.len(),
        !occurs_in(a + dash_separator() + c, colon_separator()),
        trim(a).len() > 0,
        trim(c).len() > 0,
    ensures
        summary_parts(a + dash_separator() + c, None) == Some((trim(a), trim(c))),
{
    let s = a + dash_separator() + c;
    let p = dash_separator();
    let n: int = a.len() as int;
    assert(s.subrange(n, n + 3) =~= p);
    assert(matches_at(s, p, a.len() as int));
    assert(first_match(s, p, a.len() as int));
    let i = choose|i: int| first_match(s, p, i);
    lemma_first_match_unique(s, p, i, a.len() as int);
    let rest = s.skip(n + 3);
    assert(rest =~= c);
    assert(s.take(a.len() as int) =~= a);
    if occurs_in(rest, p) {
        let j = choose|j: int| matches_at(rest, p, j);
        assert(s.subrange(n + 3 + j, n + 3 + j + 3) =~= rest.subrange(j, j + 3));
        assert(matches_at(s, p, n + 3 + j));
    }
}

/// A summary with neither separator names a client of the default service:
/// the whole summary, trimmed, when it is not blank.
pub proof fn lemma_no_separator_default_service(s: Seq<char>)
    requires
        !occurs_in(s, colon_separator()),
        !occurs_in(s, dash_separator()),
    ensures
        summary_parts(s, None) == (if trim(s).len() > 0 {
            Some((default_service(), trim(s)))
        } else {
            None
        }),
{
}

} // verus!
