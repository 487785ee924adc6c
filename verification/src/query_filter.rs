//! Candidate filters of graph pattern queries: the property constraints of a node pattern,
//! and the simple `contains` / `not contains` predicates of a `where` clause.
use vstd::prelude::*;

use crate::query::NodePattern;
use crate::search::{spec_trim, chars_trim};
use crate::text::{
    chars_contains, chars_ends_with, chars_find, chars_slice, first_occurrence, lemma_first_occurrence, seq_contains,
    seq_ends_with, str_chars, str_to_lowercase, unicode_lowercase,
};

verus! {

/// A node id satisfies the property constraints of a pattern: a `name` property is the whole
/// id or a suffix of it, and a `path` property is the whole id.
pub open spec fn node_satisfies(node_id: Seq<char>, props: Map<Seq<char>, Seq<char>>) -> bool {
    &&& props.dom().contains("name"@) ==> (seq_ends_with(node_id, props["name"@]) || node_id == props["name"@])
    &&& props.dom().contains("path"@) ==> node_id == props["path"@]
}

/// Check whether a node id satisfies the property constraints of a node pattern.
pub fn matches_node_constraints(node_id: &str, pattern: &NodePattern) -> (r: bool)
    requires
        pattern.wf(),
    ensures
        r == node_satisfies(node_id@, pattern.properties@),
{
    let id = str_chars(node_id);
    match pattern.properties.get("name") {
        Some(name) => {
            let nc = str_chars(name.as_str());
            if !chars_ends_with(id.as_slice(), nc.as_slice()) && !crate::text::str_eq(node_id, name.as_str()) {
                return false;
            }
        },
        None => {},
    }
    match pattern.properties.get("path") {
        Some(path) => {
            if !crate::text::str_eq(node_id, path.as_str()) {
                return false;
            }
        },
        None => {},
    }
    true
}

/// The pieces of `s` between the non-overlapping occurrences of `pat`, left to right
/// (`str::split`).
#[verifier::opaque]
pub open spec fn split_on(s: Seq<char>, pat: Seq<char>) -> Seq<Seq<char>>
    decreases s.len(),
{
    if pat.len() == 0 {
        seq![s]
    } else {
        match first_occurrence(s, pat) {
            Some(i) => if 0 <= i && i + pat.len() <= s.len() {
                seq![s.take(i)] + split_on(s.skip(i + pat.len()), pat)
            } else {
                seq![s]
            },
            None => seq![s],
        }
    }
}

/// A quote or a space, which `where` targets are stripped of.
pub open spec fn is_quote_or_space(c: char) -> bool {
    c == '\'' || c == '"' || c == ' '
}

/// Strips quotes and spaces from both ends (`str::trim_matches`).
pub open spec fn strip_quotes(s: Seq<char>) -> Seq<char>
    decreases s.len(),
{
    if s.len() > 0 && is_quote_or_space(s[0]) {
        strip_quotes(s.drop_first())
    } else if s.len() > 0 && is_quote_or_space(s.last()) {
        strip_quotes(s.drop_last())
    } else {
        s
    }
}

/// The target of a `contains` predicate in one `and`-separated part: what follows the first
/// `contains`, trimmed and stripped of quotes and spaces.
#[verifier::opaque]
pub open spec fn part_target(part: Seq<char>) -> Option<Seq<char>> {
    match first_occurrence(part, "contains"@) {
        Some(i) => Some(strip_quotes(spec_trim(part.skip(i + 8)))),
        None => None,
    }
}

/// The part's `contains` target, if it has one, is held by `node` (is not, when `negated`).
pub open spec fn target_ok(part: Seq<char>, node: Seq<char>, negated: bool) -> bool {
    match part_target(part) {
        Some(t) => seq_contains(node, t) != negated,
        None => true,
    }
}

/// Every part's target is held by `node` (none is, when `negated`).
pub open spec fn all_targets(parts: Seq<Seq<char>>, node: Seq<char>, negated: bool) -> bool {
    forall|k: int| 0 <= k < parts.len() ==> target_ok(#[trigger] parts[k], node, negated)
}

/// The `where` predicate, compared ignoring case: with `not` and `contains`, the node id
/// holds none of the targets; with `contains` alone, it holds all of them; else it passes.
pub open spec fn where_holds(node_id: Seq<char>, filter: Seq<char>) -> bool {
    let lf = unicode_lowercase(filter);
    let ln = unicode_lowercase(node_id);
    if seq_contains(lf, "not"@) && seq_contains(lf, "contains"@) {
        all_targets(split_on(lf, "and"@), ln, true)
    } else if seq_contains(lf, "contains"@) {
        all_targets(split_on(lf, "and"@), ln, false)
    } else {
        true
    }
}

/// One step of splitting: the piece before the first occurrence, then the splitting of the
/// rest; or the whole text when `pat` does not occur.
proof fn lemma_split_step(s: Seq<char>, pat: Seq<char>)
    requires
        pat.len() > 0,
    ensures
        match first_occurrence(s, pat) {
            Some(i) => 0 <= i && i + pat.len() <= s.len() && split_on(s, pat) == seq![s.take(i)] + split_on(s.skip(i + pat.len()), pat),
            None => split_on(s, pat) == seq![s],
        },
{
    lemma_first_occurrence(s, pat);
    reveal(split_on);
}

/// Strips quotes and spaces from both ends of `s`.
fn chars_strip_quotes(s: &[char]) -> (r: Vec<char>)
    ensures
        r@ == strip_quotes(s@),
{
    let mut a: usize = 0;
    let mut b: usize = s.len();
    assert(s@.subrange(0, s.len() as int) =~= s@);
    while a < b && (s[a] == '\'' || s[a] == '"' || s[a] == ' ' || s[b - 1] == '\'' || s[b - 1] == '"' || s[b - 1] == ' ')
        invariant
            a <= b <= s.len(),
            strip_quotes(s@) == strip_quotes(s@.subrange(a as int, b as int)),
        decreases b - a,
    {
        let ghost sub = s@.subrange(a as int, b as int);
        if s[a] == '\'' || s[a] == '"' || s[a] == ' ' {
            assert(sub.drop_first() =~= s@.subrange(a + 1, b as int));
            a += 1;
        } else {
            assert(sub.drop_last() =~= s@.subrange(a as int, b - 1));
            b -= 1;
        }
    }
    chars_slice(s, a, b)
}

/// The `contains` target of one part, if it has one.
fn part_target_exec(part: &[char], kw: &[char]) -> (r: Option<Vec<char>>)
    requires
        kw@ == "contains"@,
    ensures
        match r {
            Some(t) => part_target(part@) == Some(t@),
            None => part_target(part@) is None,
        },
{
    proof {
        reveal_strlit("contains");
        reveal(part_target);
    }
    match chars_find(part, kw) {
        Some(i) => {
            proof {
                lemma_first_occurrence(part@, kw@);
                assert(crate::text::occurs_at(part@, kw@, i as int));
                assert(kw@.len() == 8);
                assert(i + 8 <= part@.len());
                assert(i + 8 <= part.len());
            }
            let rest = chars_slice(part, i + 8, part.len());
            assert(rest@ =~= part@.skip(i + 8));
            let t = chars_trim(rest.as_slice());
            Some(chars_strip_quotes(t.as_slice()))
        },
        None => None,
    }
}

proof fn lemma_all_targets_cons(p: Seq<char>, rest: Seq<Seq<char>>, node: Seq<char>, negated: bool)
    ensures
        all_targets(seq![p] + rest, node, negated) == (target_ok(p, node, negated) && all_targets(rest, node, negated)),
{
    let all = seq![p] + rest;
    assert(all[0] == p);
    if target_ok(p, node, negated) && all_targets(rest, node, negated) {
        assert forall|k: int| 0 <= k < all.len() implies target_ok(#[trigger] all[k], node, negated) by {
            if k > 0 {
                assert(all[k] == rest[k - 1]);
            }
        }
    }
    if all_targets(all, node, negated) {
        assert forall|k: int| 0 <= k < rest.len() implies target_ok(#[trigger] rest[k], node, negated) by {
            assert(all[k + 1] == rest[k]);
        }
    }
}

/// Whether every part's target is held by `node` (none is, when `negated`).
fn check_parts(lf: &[char], node: &[char], negated: bool) -> (b: bool)
    ensures
        b == all_targets(split_on(lf@, "and"@), node@, negated),
{
    proof {
        reveal_strlit("and");
        reveal_strlit("contains");
    }
    let sep = str_chars("and");
    let kw = str_chars("contains");
    let mut rest: Vec<char> = chars_slice(lf, 0, lf.len());
    assert(rest@ =~= lf@);
    loop
        invariant
            sep@ == "and"@,
            sep@.len() == 3,
            kw@ == "contains"@,
            all_targets(split_on(lf@, "and"@), node@, negated) == all_targets(split_on(rest@, "and"@), node@, negated),
        decreases rest.len(),
    {
        let found = chars_find(rest.as_slice(), sep.as_slice());
        proof {
            lemma_split_step(rest@, sep@);
        }
        match found {
            Some(i) => {
                let piece = chars_slice(rest.as_slice(), 0, i);
                let nx = chars_slice(rest.as_slice(), i + 3, rest.len());
                proof {
                    assert(piece@ =~= rest@.take(i as int));
                    assert(nx@ =~= rest@.skip(i + 3));
                    lemma_all_targets_cons(piece@, split_on(nx@, "and"@), node@, negated);
                }
                let ok = match part_target_exec(piece.as_slice(), kw.as_slice()) {
                    Some(t) => chars_contains(node, t.as_slice()) != negated,
                    None => true,
                };
                if !ok {
                    return false;
                }
                rest = nx;
            },
            None => {
                proof {
                    lemma_all_targets_cons(rest@, Seq::empty(), node@, negated);
                    assert(seq![rest@] + Seq::<Seq<char>>::empty() =~= seq![rest@]);
                }
                let ok = match part_target_exec(rest.as_slice(), kw.as_slice()) {
                    Some(t) => chars_contains(node, t.as_slice()) != negated,
                    None => true,
                };
                return ok;
            },
        }
    }
}

/// Evaluate the simple `where` predicates of a query on a candidate node id, ignoring case:
/// `... not contains 'x' ...` rejects ids that hold any target, `... contains 'x' and
/// contains 'y'` keeps ids that hold every target, and anything else passes.
pub fn eval_where_filter(node_id: &str, where_filter: &str) -> (b: bool)
    ensures
        b == where_holds(node_id@, where_filter@),
{
    proof {
        reveal_strlit("not");
        reveal_strlit("contains");
    }
    let lower_filter = str_to_lowercase(where_filter);
    let lower_node = str_to_lowercase(node_id);
    let lf = str_chars(lower_filter.as_str());
    let ln = str_chars(lower_node.as_str());
    let not_kw = str_chars("not");
    let contains_kw = str_chars("contains");
    let has_contains = chars_contains(lf.as_slice(), contains_kw.as_slice());
    if chars_contains(lf.as_slice(), not_kw.as_slice()) && has_contains {
        return check_parts(lf.as_slice(), ln.as_slice(), true);
    }
    if has_contains {
        return check_parts(lf.as_slice(), ln.as_slice(), false);
    }
    true
}

} // verus!
