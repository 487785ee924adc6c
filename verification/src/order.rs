//! Lexicographic order of texts, and sorted lists of distinct strings (what sorting and then
//! removing adjacent duplicates leaves).
//!
//! Texts are ordered character by character, by code point; UTF-8 keeps that order, so it is
//! also the byte order in which `String`s compare.
use vstd::prelude::*;

verus! {

/// `a` comes strictly before `b`.
pub open spec fn seq_lt(a: Seq<char>, b: Seq<char>) -> bool
    decreases a.len(),
{
    if a.len() == 0 {
        b.len() > 0
    } else if b.len() == 0 {
        false
    } else if (a[0] as u32) < (b[0] as u32) {
        true
    } else if a[0] == b[0] {
        seq_lt(a.drop_first(), b.drop_first())
    } else {
        false
    }
}

pub proof fn lemma_lt_irreflexive(a: Seq<char>)
    ensures
        !seq_lt(a, a),
    decreases a.len(),
{
    if a.len() > 0 {
        lemma_lt_irreflexive(a.drop_first());
    }
}

pub proof fn lemma_lt_transitive(a: Seq<char>, b: Seq<char>, c: Seq<char>)
    requires
        seq_lt(a, b),
        seq_lt(b, c),
    ensures
        seq_lt(a, c),
    decreases a.len(),
{
    if a.len() > 0 && b.len() > 0 && c.len() > 0 && a[0] == b[0] && b[0] == c[0] {
        lemma_lt_transitive(a.drop_first(), b.drop_first(), c.drop_first());
    }
}

pub proof fn lemma_lt_total(a: Seq<char>, b: Seq<char>)
    ensures
        seq_lt(a, b) || a == b || seq_lt(b, a),
    decreases a.len(),
{
    if a.len() > 0 && b.len() > 0 && a[0] == b[0] {
        lemma_lt_total(a.drop_first(), b.drop_first());
        if a.drop_first() == b.drop_first() {
            assert(a =~= seq![a[0]] + a.drop_first());
            assert(b =~= seq![b[0]] + b.drop_first());
        }
    } else if a.len() == 0 && b.len() == 0 {
        assert(a =~= b);
    } else if a.len() > 0 && b.len() > 0 {
        assert((a[0] as u32) != (b[0] as u32)) by {
            if (a[0] as u32) == (b[0] as u32) {
                vstd::utf8::char_u32_cast(a[0], a[0] as u32);
                vstd::utf8::char_u32_cast(b[0], b[0] as u32);
            }
        }
    }
}

pub proof fn lemma_lt_asymmetric(a: Seq<char>, b: Seq<char>)
    requires
        seq_lt(a, b),
    ensures
        !seq_lt(b, a),
{
    if seq_lt(b, a) {
        lemma_lt_transitive(a, b, a);
        lemma_lt_irreflexive(a);
    }
}

/// The list is strictly increasing.
pub open spec fn sorted_distinct(s: Seq<Seq<char>>) -> bool {
    forall|i: int, j: int| 0 <= i < j < s.len() ==> seq_lt(#[trigger] s[i], #[trigger] s[j])
}

/// The views of strings.
pub open spec fn views(v: Seq<String>) -> Seq<Seq<char>> {
    v.map_values(|s: String| s@)
}

/// Whether `a` comes strictly before `b`.
pub fn string_lt(a: &String, b: &String) -> (r: bool)
    ensures
        r == seq_lt(a@, b@),
{
    let ac = crate::text::str_chars(a.as_str());
    let bc = crate::text::str_chars(b.as_str());
    let mut i: usize = 0;
    assert(ac@.skip(0) =~= ac@ && bc@.skip(0) =~= bc@);
    while i < ac.len() && i < bc.len() && ac[i] == bc[i]
        invariant
            i <= ac.len(),
            i <= bc.len(),
            ac@ == a@,
            bc@ == b@,
            seq_lt(a@, b@) == seq_lt(ac@.skip(i as int), bc@.skip(i as int)),
        decreases ac.len() - i,
    {
        assert(ac@.skip(i as int).drop_first() =~= ac@.skip(i + 1));
        assert(bc@.skip(i as int).drop_first() =~= bc@.skip(i + 1));
        i += 1;
    }
    if i == ac.len() {
        i < bc.len()
    } else if i == bc.len() {
        false
    } else {
        (ac[i] as u32) < (bc[i] as u32)
    }
}

/// Inserts `x` into a strictly increasing list, unless it is there already.
pub fn insert_sorted(v: &mut Vec<String>, x: String)
    requires
        sorted_distinct(views(old(v)@)),
    ensures
        sorted_distinct(views(final(v)@)),
        views(final(v)@).to_set() == views(old(v)@).to_set().insert(x@),
{
    let ghost v0 = views(v@);
    let mut p: usize = 0;
    while p < v.len() && string_lt(&v[p], &x)
        invariant
            p <= v.len(),
            v0 == views(v@),
            forall|i: int| 0 <= i < p ==> seq_lt(#[trigger] v0[i], x@),
        decreases v.len() - p,
    {
        p += 1;
    }
    if p < v.len() && crate::text::string_eq(&v[p], &x) {
        proof {
            assert(v0.to_set().insert(x@) =~= v0.to_set()) by {
                assert(v0[p as int] == x@);
            }
        }
        return;
    }
    proof {
        if p < v0.len() {
            lemma_lt_total(v0[p as int], x@);
        }
    }
    v.insert(p, x);
    proof {
        let v1 = views(v@);
        assert(v1 =~= v0.insert(p as int, x@));
        assert forall|i: int, j: int| 0 <= i < j < v1.len() implies seq_lt(#[trigger] v1[i], #[trigger] v1[j]) by {
            if j < p {
                assert(v1[i] == v0[i] && v1[j] == v0[j]);
            } else if j == p {
                assert(v1[i] == v0[i]);
            } else if i == p {
                assert(v1[j] == v0[j - 1]);
                if j - 1 > p {
                    lemma_lt_transitive(x@, v0[p as int], v0[j - 1]);
                }
            } else if i < p {
                assert(v1[i] == v0[i] && v1[j] == v0[j - 1]);
            } else {
                assert(v1[i] == v0[i - 1] && v1[j] == v0[j - 1]);
            }
        }
        assert(v1.to_set() =~= v0.to_set().insert(x@)) by {
            assert forall|y: Seq<char>| v1.to_set().contains(y) implies v0.to_set().insert(x@).contains(y) by {
                let k = choose|k: int| 0 <= k < v1.len() && v1[k] == y;
                if k < p {
                    assert(v0[k] == y);
                } else if k > p {
                    assert(v0[k - 1] == y);
                }
            }
            assert forall|y: Seq<char>| v0.to_set().insert(x@).contains(y) implies v1.to_set().contains(y) by {
                if y == x@ {
                    assert(v1[p as int] == y);
                } else {
                    let k = choose|k: int| 0 <= k < v0.len() && v0[k] == y;
                    if k < p {
                        assert(v1[k] == y);
                    } else {
                        assert(v1[k + 1] == y);
                    }
                }
            }
        }
    }
}

} // verus!
