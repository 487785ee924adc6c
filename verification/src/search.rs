//! Query decomposition for multi-hop retrieval, and the modality filter of result paths.
//!
//! Positions in a query are byte offsets; here text is a sequence of characters and a byte
//! offset is the UTF-8 length of a prefix (`byte_len`). Where the byte offset found in the
//! lower-cased query is not a character boundary of the query as given, slicing it would
//! fail; the spec functions give `None` there.
use vstd::prelude::*;

use crate::text::{
    first_occurrence, is_white_space, seq_starts_with, str_chars, str_to_lowercase,
    string_from_chars, unicode_lowercase,
};

verus! {

/// `char::len_utf8`.
pub open spec fn utf8_width(c: char) -> nat {
    let u = c as u32;
    if u < 0x80 {
        1
    } else if u < 0x800 {
        2
    } else if u < 0x10000 {
        3
    } else {
        4
    }
}

/// The UTF-8 length of a character sequence (`str::len`).
pub open spec fn byte_len(s: Seq<char>) -> nat
    decreases s.len(),
{
    if s.len() == 0 {
        0
    } else {
        byte_len(s.drop_last()) + utf8_width(s.last())
    }
}

/// The character index at which `s` has byte offset `b`, if `b` is a character boundary.
pub open spec fn char_index_at_byte(s: Seq<char>, b: nat) -> Option<nat> {
    if exists|k: nat| k <= s.len() && byte_len(s.take(k as int)) == b {
        Some(choose|k: nat| k <= s.len() && byte_len(s.take(k as int)) == b)
    } else {
        None
    }
}

pub proof fn lemma_char_index_at_byte(s: Seq<char>, b: nat)
    ensures
        char_index_at_byte(s, b) matches Some(k) ==> k <= s.len() && byte_len(s.take(k as int)) == b,
{
}

/// Drops trailing white space.
pub open spec fn spec_trim_end(s: Seq<char>) -> Seq<char>
    decreases s.len(),
{
    if s.len() > 0 && is_white_space(s.last()) {
        spec_trim_end(s.drop_last())
    } else {
        s
    }
}

/// Drops leading white space.
pub open spec fn spec_trim_start(s: Seq<char>) -> Seq<char>
    decreases s.len(),
{
    if s.len() > 0 && is_white_space(s[0]) {
        spec_trim_start(s.drop_first())
    } else {
        s
    }
}

/// `str::trim`.
pub open spec fn spec_trim(s: Seq<char>) -> Seq<char> {
    spec_trim_end(spec_trim_start(s))
}

/// The question openings that are stripped, tried in this order.
pub open spec fn question_prefixes() -> Seq<Seq<char>> {
    seq![
        "what is the path from "@,
        "what is the path between "@,
        "what is the path through "@,
        "path from "@,
        "how does "@,
        "how do "@,
        "how can "@,
        "how is "@,
        "what is "@,
        "what are "@,
        "what does "@,
        "what do "@,
        "what "@,
        "how "@,
        "why does "@,
        "why do "@,
        "why is "@,
        "where does "@,
        "where do "@,
    ]
}

/// The connecting phrases a query is split on, tried in this order.
pub open spec fn connectors() -> Seq<Seq<char>> {
    seq![
        " relate to "@,
        " related to "@,
        " relates to "@,
        " connect to "@,
        " connects to "@,
        " connected to "@,
        " connection between "@,
        " relationship between "@,
        " between "@,
        " through "@,
        " connect "@,
        " and "@,
        " to "@,
        " from "@,
    ]
}

/// The question openings stripped from a query, in the order they are tried (the first that
/// the lower-cased query starts with is cut off).
pub proof fn law_question_openings()
    ensures
        question_prefixes().len() == 19,
        question_prefixes()[0] == "what is the path from "@,
        question_prefixes()[1] == "what is the path between "@,
        question_prefixes()[2] == "what is the path through "@,
        question_prefixes()[3] == "path from "@,
        question_prefixes()[4] == "how does "@,
        question_prefixes()[5] == "how do "@,
        question_prefixes()[6] == "how can "@,
        question_prefixes()[7] == "how is "@,
        question_prefixes()[8] == "what is "@,
        question_prefixes()[9] == "what are "@,
        question_prefixes()[10] == "what does "@,
        question_prefixes()[11] == "what do "@,
        question_prefixes()[12] == "what "@,
        question_prefixes()[13] == "how "@,
        question_prefixes()[14] == "why does "@,
        question_prefixes()[15] == "why do "@,
        question_prefixes()[16] == "why is "@,
        question_prefixes()[17] == "where does "@,
        question_prefixes()[18] == "where do "@,
{
}

/// The phrases a query is split on, in the order they are tried: the longer relating
/// phrases first, then `between`, `through`, `connect`, `and`, `to` and `from`. A query is cut
/// at the first of them that occurs (ignoring case) with at least 3 bytes kept on each side.
pub proof fn law_connector_phrases()
    ensures
        connectors().len() == 14,
        connectors()[0] == " relate to "@,
        connectors()[1] == " related to "@,
        connectors()[2] == " relates to "@,
        connectors()[3] == " connect to "@,
        connectors()[4] == " connects to "@,
        connectors()[5] == " connected to "@,
        connectors()[6] == " connection between "@,
        connectors()[7] == " relationship between "@,
        connectors()[8] == " between "@,
        connectors()[9] == " through "@,
        connectors()[10] == " connect "@,
        connectors()[11] == " and "@,
        connectors()[12] == " to "@,
        connectors()[13] == " from "@,
{
}

/// Stripping from the `i`-th opening on: the first opening that the lower-cased text starts
/// with is cut off the text as given, at the same byte offset.
pub open spec fn spec_strip_from(s: Seq<char>, lower: Seq<char>, i: nat) -> Option<Seq<char>>
    decreases question_prefixes().len() - i,
{
    if i >= question_prefixes().len() {
        Some(s)
    } else if seq_starts_with(lower, question_prefixes()[i as int]) {
        match char_index_at_byte(s, question_prefixes()[i as int].len()) {
            Some(k) => Some(s.skip(k as int)),
            None => None,
        }
    } else {
        spec_strip_from(s, lower, i + 1)
    }
}

/// What `strip_question_prefix` gives, `None` where the byte offset to cut at is not a
/// character boundary of `s`.
pub open spec fn spec_strip(s: Seq<char>) -> Option<Seq<char>> {
    spec_strip_from(s, unicode_lowercase(s), 0)
}

/// The pieces of a split that are kept after the first one.
pub open spec fn keep_part(p: Seq<char>) -> bool {
    p != "the path"@ && byte_len(p) >= 3
}

pub proof fn lemma_byte_len_take(s: Seq<char>, k: int)
    requires
        0 <= k <= s.len(),
    ensures
        byte_len(s.take(k)) <= byte_len(s),
        k < s.len() ==> byte_len(s.take(k)) < byte_len(s),
    decreases s.len(),
{
    if k < s.len() {
        assert(s.drop_last().take(k) =~= s.take(k));
        lemma_byte_len_take(s.drop_last(), k);
        assert(s.take(s.len() as int) =~= s);
    } else {
        assert(s.take(k) =~= s);
    }
}

pub proof fn lemma_strip_from_len(s: Seq<char>, lower: Seq<char>, i: nat)
    ensures
        spec_strip_from(s, lower, i) matches Some(r) ==> r.len() <= s.len(),
    decreases question_prefixes().len() - i,
{
    if i < question_prefixes().len() && !seq_starts_with(lower, question_prefixes()[i as int]) {
        lemma_strip_from_len(s, lower, i + 1);
    }
}

pub proof fn lemma_trim_start_len(s: Seq<char>)
    ensures
        spec_trim_start(s).len() <= s.len(),
    decreases s.len(),
{
    if s.len() > 0 && is_white_space(s[0]) {
        lemma_trim_start_len(s.drop_first());
    }
}

pub proof fn lemma_trim_end_len(s: Seq<char>)
    ensures
        spec_trim_end(s).len() <= s.len(),
    decreases s.len(),
{
    if s.len() > 0 && is_white_space(s.last()) {
        lemma_trim_end_len(s.drop_last());
    }
}

pub proof fn lemma_connectors_nonempty(i: nat)
    requires
        i < connectors().len(),
    ensures
        connectors()[i as int].len() > 0,
{
    reveal_strlit(" relate to ");
    reveal_strlit(" related to ");
    reveal_strlit(" relates to ");
    reveal_strlit(" connect to ");
    reveal_strlit(" connects to ");
    reveal_strlit(" connected to ");
    reveal_strlit(" connection between ");
    reveal_strlit(" relationship between ");
    reveal_strlit(" between ");
    reveal_strlit(" through ");
    reveal_strlit(" connect ");
    reveal_strlit(" and ");
    reveal_strlit(" to ");
    reveal_strlit(" from ");
}

/// Splitting the stripped query `qc` on the `i`-th connector and later ones.
pub open spec fn spec_split_from(q: Seq<char>, qc: Seq<char>, i: nat) -> Option<Seq<Seq<char>>>
    decreases qc.len(), connectors().len() - i,
{
    if i >= connectors().len() {
        if byte_len(qc) >= 3 {
            Some(seq![qc])
        } else {
            Some(seq![q])
        }
    } else {
        let pat = connectors()[i as int];
        let lower = unicode_lowercase(qc);
        match first_occurrence(lower, pat) {
            None => spec_split_from(q, qc, i + 1),
            Some(kl) => {
                let pos = byte_len(lower.take(kl));
                match (char_index_at_byte(qc, pos), char_index_at_byte(qc, pos + pat.len())) {
                    (Some(k1), Some(k2)) => {
                        let left = spec_trim(qc.take(k1 as int));
                        let right = spec_trim(qc.skip(k2 as int));
                        match (spec_strip(left), spec_strip(right)) {
                            (Some(lc), Some(rc)) => {
                                if byte_len(lc) >= 3 && byte_len(rc) >= 3 && lc != "the path"@ {
                                    proof {
                                        lemma_connectors_nonempty(i);
                                        lemma_char_index_at_byte(qc, pos + pat.len());
                                        assert(qc.take(0) =~= Seq::<char>::empty());
                                        lemma_trim_start_len(qc.skip(k2 as int));
                                        lemma_trim_end_len(spec_trim_start(qc.skip(k2 as int)));
                                        lemma_strip_from_len(right, unicode_lowercase(right), 0);
                                    }
                                    match spec_decompose(rc) {
                                        Some(parts) => Some(
                                            seq![lc] + parts.filter(|p: Seq<char>| keep_part(p)),
                                        ),
                                        None => None,
                                    }
                                } else {
                                    spec_split_from(q, qc, i + 1)
                                }
                            },
                            _ => None,
                        }
                    },
                    _ => None,
                }
            },
        }
    }
}

/// What `decompose_query` gives for a query, `None` where it would slice the query off a
/// character boundary.
pub open spec fn spec_decompose(q: Seq<char>) -> Option<Seq<Seq<char>>>
    decreases q.len(), connectors().len() + 1,
{
    match spec_strip(q) {
        None => None,
        Some(qc) => {
            proof {
                lemma_strip_from_len(q, unicode_lowercase(q), 0);
            }
            spec_split_from(q, qc, 0)
        },
    }
}

fn question_prefix(i: usize) -> (r: &'static str)
    requires
        i < question_prefixes().len(),
    ensures
        r@ == question_prefixes()[i as int],
{
    match i {
        0 => "what is the path from ",
        1 => "what is the path between ",
        2 => "what is the path through ",
        3 => "path from ",
        4 => "how does ",
        5 => "how do ",
        6 => "how can ",
        7 => "how is ",
        8 => "what is ",
        9 => "what are ",
        10 => "what does ",
        11 => "what do ",
        12 => "what ",
        13 => "how ",
        14 => "why does ",
        15 => "why do ",
        16 => "why is ",
        17 => "where does ",
        _ => "where do ",
    }
}

fn connector(i: usize) -> (r: &'static str)
    requires
        i < connectors().len(),
    ensures
        r@ == connectors()[i as int],
{
    match i {
        0 => " relate to ",
        1 => " related to ",
        2 => " relates to ",
        3 => " connect to ",
        4 => " connects to ",
        5 => " connected to ",
        6 => " connection between ",
        7 => " relationship between ",
        8 => " between ",
        9 => " through ",
        10 => " connect ",
        11 => " and ",
        12 => " to ",
        _ => " from ",
    }
}

/// `char::len_utf8`.
fn char_utf8_width(c: char) -> (n: u128)
    ensures
        n == utf8_width(c),
{
    let u = c as u32;
    if u < 0x80 {
        1
    } else if u < 0x800 {
        2
    } else if u < 0x10000 {
        3
    } else {
        4
    }
}

pub proof fn lemma_byte_len_bound(s: Seq<char>)
    ensures
        byte_len(s) <= 4 * s.len(),
    decreases s.len(),
{
    if s.len() > 0 {
        lemma_byte_len_bound(s.drop_last());
    }
}

/// Byte lengths of prefixes grow strictly with the prefix.
pub proof fn lemma_byte_len_strict(s: Seq<char>, a: int, b: int)
    requires
        0 <= a < b <= s.len(),
    ensures
        byte_len(s.take(a)) < byte_len(s.take(b)),
    decreases b - a,
{
    let t = s.take(b);
    assert(t.drop_last() =~= s.take(b - 1));
    if a < b - 1 {
        lemma_byte_len_strict(s, a, b - 1);
    }
}

/// The byte length of a character sequence.
pub(crate) fn chars_byte_len(s: &[char]) -> (n: u128)
    ensures
        n == byte_len(s@),
{
    let mut n: u128 = 0;
    let mut i: usize = 0;
    while i < s.len()
        invariant
            i <= s.len(),
            n == byte_len(s@.take(i as int)),
        decreases s.len() - i,
    {
        proof {
            lemma_byte_len_bound(s@.take(i as int));
            assert(s@.take(i + 1).drop_last() =~= s@.take(i as int));
        }
        n = n + char_utf8_width(s[i]);
        i += 1;
    }
    assert(s@.take(s.len() as int) =~= s@);
    n
}

/// The character index at byte offset `b` of `s`, if `b` is a character boundary.
fn char_index_at(s: &[char], b: u128) -> (r: Option<usize>)
    ensures
        match r {
            Some(k) => char_index_at_byte(s@, b as nat) == Some(k as nat),
            None => char_index_at_byte(s@, b as nat) is None,
        },
{
    let mut acc: u128 = 0;
    let mut k: usize = 0;
    loop
        invariant_except_break
            k <= s.len(),
            acc == byte_len(s@.take(k as int)),
            acc <= b,
            forall|j: nat| j < k ==> byte_len(#[trigger] s@.take(j as int)) < b,
        ensures
            forall|j: nat| j <= s.len() ==> byte_len(#[trigger] s@.take(j as int)) != b,
        decreases s.len() - k,
    {
        if acc == b {
            proof {
                assert(k <= s.len() && byte_len(s@.take(k as int)) == b);
                let w = choose|j: nat| j <= s.len() && byte_len(s@.take(j as int)) == b;
                if w < k {
                    assert(byte_len(s@.take(w as int)) < b);
                } else if w > k {
                    lemma_byte_len_strict(s@, k as int, w as int);
                }
            }
            return Some(k);
        }
        if k == s.len() {
            proof {
                assert forall|j: nat| j <= s.len() implies byte_len(#[trigger] s@.take(j as int)) != b by {
                    if j < k {
                    } else {
                        assert(j == k);
                    }
                }
            }
            break;
        }
        proof {
            lemma_byte_len_bound(s@.take(k as int));
            assert(s@.take(k + 1).drop_last() =~= s@.take(k as int));
        }
        let next = acc + char_utf8_width(s[k]);
        if next > b {
            proof {
                assert forall|j: nat| j <= s.len() implies byte_len(#[trigger] s@.take(j as int)) != b by {
                    if j > k {
                        if j > k + 1 {
                            lemma_byte_len_strict(s@, k + 1, j as int);
                        }
                    }
                }
            }
            break;
        }
        acc = next;
        k += 1;
    }
    None
}

/// `str::trim` on characters.
pub(crate) fn chars_trim(s: &[char]) -> (r: Vec<char>)
    ensures
        r@ == spec_trim(s@),
{
    let mut a: usize = 0;
    assert(s@.skip(0) =~= s@);
    while a < s.len() && crate::text::char_is_whitespace(s[a])
        invariant
            a <= s.len(),
            spec_trim_start(s@) == spec_trim_start(s@.skip(a as int)),
        decreases s.len() - a,
    {
        assert(s@.skip(a as int).drop_first() =~= s@.skip(a + 1));
        a += 1;
    }
    assert(s@.skip(0) =~= s@) by {}
    let mut b: usize = s.len();
    assert(s@.skip(a as int) =~= s@.subrange(a as int, b as int));
    while b > a && crate::text::char_is_whitespace(s[b - 1])
        invariant
            a <= b <= s.len(),
            spec_trim_end(s@.subrange(a as int, s.len() as int)) == spec_trim_end(s@.subrange(a as int, b as int)),
        decreases b - a,
    {
        assert(s@.subrange(a as int, b as int).drop_last() =~= s@.subrange(a as int, b - 1));
        b -= 1;
    }
    proof {
        assert(s@.skip(a as int) =~= s@.subrange(a as int, s.len() as int));
        if b > a {
            assert(s@.subrange(a as int, b as int).last() == s@[b - 1]);
        }
    }
    crate::text::chars_slice(s, a, b)
}

/// Lower-cases characters with `str::to_lowercase`.
fn chars_lowercase(s: &[char]) -> (r: Vec<char>)
    ensures
        r@ == unicode_lowercase(s@),
{
    let st = string_from_chars(s);
    let l = str_to_lowercase(st.as_str());
    str_chars(l.as_str())
}

/// Strips a leading question opening, as characters.
fn strip_chars(s: &[char]) -> (r: Option<Vec<char>>)
    ensures
        match r {
            Some(v) => spec_strip(s@) == Some(v@),
            None => spec_strip(s@) is None,
        },
{
    let lower = chars_lowercase(s);
    let mut i: usize = 0;
    while i < 19
        invariant
            i <= 19,
            question_prefixes().len() == 19,
            lower@ == unicode_lowercase(s@),
            spec_strip(s@) == spec_strip_from(s@, lower@, i as nat),
        decreases 19 - i,
    {
        let p = str_chars(question_prefix(i));
        if crate::text::chars_starts_with(lower.as_slice(), p.as_slice()) {
            match char_index_at(s, p.len() as u128) {
                Some(k) => {
                    return Some(crate::text::chars_slice(s, k, s.len()));
                },
                None => {
                    return None;
                },
            }
        }
        i += 1;
    }
    Some(crate::text::chars_slice(s, 0, s.len()))
}

/// Whether a later piece of a split is kept.
fn keep_part_exec(p: &[char]) -> (b: bool)
    ensures
        b == keep_part(p@),
{
    let the_path = str_chars("the path");
    !crate::text::chars_eq(p, the_path.as_slice()) && chars_byte_len(p) >= 3
}

/// `first` followed by the pieces of `parts` that `keep_part` keeps, in order.
fn join_kept(first: Vec<char>, parts: &Vec<Vec<char>>) -> (out: Vec<Vec<char>>)
    ensures
        out@.map_values(|x: Vec<char>| x@) == seq![first@] + parts@.map_values(|x: Vec<char>| x@).filter(
            |p: Seq<char>| keep_part(p),
        ),
{
    let ghost pv = parts@.map_values(|x: Vec<char>| x@);
    let ghost f = first@;
    let mut out: Vec<Vec<char>> = Vec::new();
    out.push(first);
    assert(pv.take(0) =~= Seq::<Seq<char>>::empty());
    assert(out@.map_values(|x: Vec<char>| x@) =~= seq![f] + pv.take(0).filter(|p: Seq<char>| keep_part(p))) by {
        reveal_with_fuel(Seq::<Seq<char>>::filter, 1);
    }
    let mut j: usize = 0;
    while j < parts.len()
        invariant
            j <= parts@.len(),
            pv == parts@.map_values(|x: Vec<char>| x@),
            out@.map_values(|x: Vec<char>| x@) == seq![f] + pv.take(j as int).filter(
                |p: Seq<char>| keep_part(p),
            ),
        decreases parts.len() - j,
    {
        proof {
            reveal_with_fuel(Seq::<Seq<char>>::filter, 1);
            assert(pv.take(j + 1).drop_last() =~= pv.take(j as int));
        }
        let ghost before = out@.map_values(|x: Vec<char>| x@);
        if keep_part_exec(parts[j].as_slice()) {
            let c = crate::text::chars_slice(parts[j].as_slice(), 0, parts[j].len());
            assert(c@ =~= pv[j as int]);
            out.push(c);
            assert(out@.map_values(|x: Vec<char>| x@) =~= before.push(pv[j as int]));
        } else {
            assert(out@.map_values(|x: Vec<char>| x@) =~= before);
        }
        j += 1;
    }
    assert(pv.take(parts@.len() as int) =~= pv);
    out
}

/// Decomposition on characters.
fn decompose_chars(q: &[char]) -> (r: Option<Vec<Vec<char>>>)
    ensures
        match r {
            Some(v) => spec_decompose(q@) == Some(v@.map_values(|x: Vec<char>| x@)),
            None => spec_decompose(q@) is None,
        },
    decreases q@.len(),
{
    let qc = match strip_chars(q) {
        Some(v) => v,
        None => {
            return None;
        },
    };
    proof {
        lemma_strip_from_len(q@, unicode_lowercase(q@), 0);
    }
    let lower = chars_lowercase(qc.as_slice());
    let mut i: usize = 0;
    while i < 14
        invariant
            i <= 14,
            connectors().len() == 14,
            lower@ == unicode_lowercase(qc@),
            qc@.len() <= q@.len(),
            spec_decompose(q@) == spec_split_from(q@, qc@, i as nat),
        decreases 14 - i,
    {
        let pat = str_chars(connector(i));
        match crate::text::chars_find(lower.as_slice(), pat.as_slice()) {
            None => {},
            Some(kl) => {
                proof {
                    crate::text::lemma_first_occurrence(lower@, pat@);
                }
                let lower_prefix = crate::text::chars_slice(lower.as_slice(), 0, kl);
                assert(lower_prefix@ =~= lower@.take(kl as int));
                let pos = chars_byte_len(lower_prefix.as_slice());
                proof {
                    lemma_byte_len_bound(lower@.take(kl as int));
                }
                let k1 = match char_index_at(qc.as_slice(), pos) {
                    Some(k) => k,
                    None => {
                        return None;
                    },
                };
                let k2 = match char_index_at(qc.as_slice(), pos + pat.len() as u128) {
                    Some(k) => k,
                    None => {
                        return None;
                    },
                };
                proof {
                    lemma_char_index_at_byte(qc@, pos as nat);
                    lemma_char_index_at_byte(qc@, (pos + pat.len()) as nat);
                }
                let left_raw = crate::text::chars_slice(qc.as_slice(), 0, k1);
                assert(left_raw@ =~= qc@.take(k1 as int));
                let left = chars_trim(left_raw.as_slice());
                let right_raw = crate::text::chars_slice(qc.as_slice(), k2, qc.len());
                assert(right_raw@ =~= qc@.skip(k2 as int));
                let right = chars_trim(right_raw.as_slice());
                let lc = match strip_chars(left.as_slice()) {
                    Some(v) => v,
                    None => {
                        return None;
                    },
                };
                let rc = match strip_chars(right.as_slice()) {
                    Some(v) => v,
                    None => {
                        return None;
                    },
                };
                let the_path = str_chars("the path");
                if chars_byte_len(lc.as_slice()) >= 3 && chars_byte_len(rc.as_slice()) >= 3
                    && !crate::text::chars_eq(lc.as_slice(), the_path.as_slice()) {
                    proof {
                        lemma_connectors_nonempty(i as nat);
                        assert(qc@.take(0) =~= Seq::<char>::empty());
                        lemma_trim_start_len(qc@.skip(k2 as int));
                        lemma_trim_end_len(spec_trim_start(qc@.skip(k2 as int)));
                        lemma_strip_from_len(right@, unicode_lowercase(right@), 0);
                    }
                    let parts = match decompose_chars(rc.as_slice()) {
                        Some(p) => p,
                        None => {
                            return None;
                        },
                    };
                    let out = join_kept(lc, &parts);
                    return Some(out);
                }
            },
        }
        i += 1;
    }
    if chars_byte_len(qc.as_slice()) >= 3 {
        let mut out: Vec<Vec<char>> = Vec::new();
        out.push(qc);
        assert(out@.map_values(|x: Vec<char>| x@) =~= seq![qc@]);
        Some(out)
    } else {
        let mut out: Vec<Vec<char>> = Vec::new();
        let c = crate::text::chars_slice(q, 0, q.len());
        assert(c@ =~= q@);
        out.push(c);
        assert(out@.map_values(|x: Vec<char>| x@) =~= seq![q@]);
        Some(out)
    }
}

/// Strips a common question opening such as "How do" or "What is".
fn strip_question_prefix(s: &str) -> (r: String)
    requires
        spec_strip(s@) is Some,
    ensures
        spec_strip(s@) == Some(r@),
{
    let chars = str_chars(s);
    let v = strip_chars(chars.as_slice()).unwrap();
    string_from_chars(v.as_slice())
}

fn strings_of(v: &Vec<Vec<char>>) -> (r: Vec<String>)
    ensures
        r@.map_values(|s: String| s@) == v@.map_values(|x: Vec<char>| x@),
{
    let mut r: Vec<String> = Vec::new();
    let mut i: usize = 0;
    while i < v.len()
        invariant
            i <= v@.len(),
            r@.len() == i,
            forall|k: int| 0 <= k < i ==> (#[trigger] r@[k])@ == v@[k]@,
        decreases v.len() - i,
    {
        let st = string_from_chars(v[i].as_slice());
        r.push(st);
        i += 1;
    }
    assert(r@.map_values(|s: String| s@) =~= v@.map_values(|x: Vec<char>| x@));
    r
}

/// Decomposes a complex query into sub-concepts by splitting on connecting words.
///
/// Returns the sub-concepts in order; a query that cannot be split comes back whole (without
/// its question opening, when what is left is at least 3 bytes long).
pub fn decompose_query(query: &str) -> (r: Vec<String>)
    requires
        spec_decompose(query@) is Some,
    ensures
        spec_decompose(query@) == Some(r@.map_values(|s: String| s@)),
{
    let chars = str_chars(query);
    let v = decompose_chars(chars.as_slice()).unwrap();
    strings_of(&v)
}

/// `decompose_query` where the query can be cut as the lower-cased query says, and `None`
/// where a cut would fall inside a character of the query as given.
pub fn try_decompose_query(query: &str) -> (r: Option<Vec<String>>)
    ensures
        match r {
            Some(v) => spec_decompose(query@) == Some(v@.map_values(|s: String| s@)),
            None => spec_decompose(query@) is None,
        },
{
    let chars = str_chars(query);
    match decompose_chars(chars.as_slice()) {
        Some(_) => Some(decompose_query(query)),
        None => None,
    }
}

/// Which retrieval modality a result must belong to.
#[derive(Debug, Clone, Copy, PartialEq, Eq, Structural)]
pub enum Modality {
    /// Documentation notes only.
    Docs,
    /// Source code only.
    Code,
    /// Either.
    Both,
}

/// The name for the strings that a `HashSet<String>` holds.
pub uninterp spec fn string_set_contents(s: std::collections::HashSet<String>) -> Set<Seq<char>>;

/// Calls `HashSet::contains`: true exactly when `key` is one of the strings the set holds.
#[verifier::external_body]
pub(crate) fn string_set_contains(s: &std::collections::HashSet<String>, key: &str) -> (b: bool)
    ensures
        b == string_set_contents(*s).contains(key@),
{
    s.contains(key)
}

/// Whether a result path passes a modality filter: a path is code when it is one of the
/// known code node keys, documentation otherwise; `Both` accepts every path.
pub fn path_matches_modality(
    path: &str,
    modality: Modality,
    code_paths: &std::collections::HashSet<String>,
) -> (b: bool)
    ensures
        b == match modality {
            Modality::Both => true,
            Modality::Code => string_set_contents(*code_paths).contains(path@),
            Modality::Docs => !string_set_contents(*code_paths).contains(path@),
        },
{
    match modality {
        Modality::Both => true,
        Modality::Code => string_set_contains(code_paths, path),
        Modality::Docs => !string_set_contains(code_paths, path),
    }
}

} // verus!
