//! File skeleton chunks: the public API skeletons of one source file's symbols, grouped by
//! their top-level container (a type and its methods) and packed greedily into file-level
//! chunks of bounded token size, each headed by the file's path and language.
use vstd::prelude::*;
use vstd::string::StringExecFns;

use crate::search::{byte_len, chars_byte_len, chars_trim, lemma_byte_len_bound, spec_trim};
use crate::text::{chars_find, first_occurrence, str_chars, string_from_chars};

verus! {

/// Policy determining whether a chunk receives a dense vector embedding.
#[derive(Debug, Clone, Copy, PartialEq, Eq, Structural)]
pub enum ChunkEmbedPolicy {
    /// The chunk is embedded and anchors retrieval.
    Anchor,
    /// The chunk only feeds the graph.
    GraphOnly,
}

/// A chunk of a source file, with what skeleton packing reads of it.
#[derive(Debug, Clone)]
pub struct Chunk {
    /// Path of the document the chunk belongs to.
    pub doc_path: String,
    /// Position of the chunk within its document.
    pub chunk_index: usize,
    /// The chunk's full text.
    pub text: String,
    /// Language of the source, for code.
    pub language: Option<String>,
    /// Scope of the symbol, outermost first, joined by `" > "`.
    pub scope_path: Option<String>,
    /// Whether the chunk is embedded.
    pub embed_policy: ChunkEmbedPolicy,
    /// The symbol's signature without its body, for code.
    pub skeleton_text: Option<String>,
}

/// A chunk prepared for embedding.
#[derive(Debug, Clone)]
pub struct PendingChunk {
    /// Document relative path.
    pub doc_path: String,
    /// Chunk index within the document.
    pub chunk_index: usize,
    /// Prepared text for embedding.
    pub text: String,
    /// Whether this chunk receives a dense vector embedding.
    pub embed_policy: ChunkEmbedPolicy,
    /// Coarse modality tag ("code" / "docs").
    pub modality: String,
}

/// The trimmed text of an optional part, empty where there is none.
pub open spec fn trimmed_part(t: Option<&str>) -> Seq<char> {
    match t {
        Some(x) => spec_trim(x@),
        None => Seq::empty(),
    }
}

/// The text embedded for a document chunk: the (trimmed) document title and heading chain
/// put before the chunk text as `title > section: text`, `title: text` or `section: text`,
/// as far as they are not empty.
pub open spec fn spec_embedding_text(title: Seq<char>, section: Seq<char>, text: Seq<char>) -> Seq<char> {
    if title.len() > 0 && section.len() > 0 {
        title + seq![' ', '>', ' '] + section + seq![':', ' '] + text
    } else if title.len() > 0 {
        title + seq![':', ' '] + text
    } else if section.len() > 0 {
        section + seq![':', ' '] + text
    } else {
        text
    }
}

/// Appends the characters of `s`.
pub(crate) fn push_chars(out: &mut Vec<char>, s: &[char])
    ensures
        final(out)@ == old(out)@ + s@,
{
    let ghost o0 = out@;
    let mut i: usize = 0;
    while i < s.len()
        invariant
            i <= s.len(),
            out@ == o0 + s@.subrange(0, i as int),
        decreases s.len() - i,
    {
        out.push(s[i]);
        i += 1;
        assert(s@.subrange(0, i as int) =~= s@.subrange(0, i - 1 as int).push(s@[i - 1]));
    }
    assert(s@.subrange(0, s.len() as int) =~= s@);
}

/// The trimmed characters of an optional part.
fn trimmed_chars(t: Option<&str>) -> (r: Vec<char>)
    ensures
        r@ == trimmed_part(t),
{
    match t {
        Some(x) => {
            let c = str_chars(x);
            chars_trim(c.as_slice())
        },
        None => Vec::new(),
    }
}

/// Context-prefixed text to embed for a document chunk, from the document title, the
/// chunk's heading chain and the chunk text.
pub fn embedding_text(doc_title: Option<&str>, heading_chain: Option<&str>, text: &str) -> (r: String)
    ensures
        r@ == spec_embedding_text(trimmed_part(doc_title), trimmed_part(heading_chain), text@),
{
    let title = trimmed_chars(doc_title);
    let section = trimmed_chars(heading_chain);
    let body = str_chars(text);
    let mut out: Vec<char> = Vec::new();
    if title.len() > 0 {
        push_chars(&mut out, title.as_slice());
        if section.len() > 0 {
            out.push(' ');
            out.push('>');
            out.push(' ');
            push_chars(&mut out, section.as_slice());
        }
        out.push(':');
        out.push(' ');
    } else if section.len() > 0 {
        push_chars(&mut out, section.as_slice());
        out.push(':');
        out.push(' ');
    }
    push_chars(&mut out, body.as_slice());
    proof {
        let t = title@;
        let sc = section@;
        if t.len() > 0 && sc.len() > 0 {
            assert(out@ =~= t + seq![' ', '>', ' '] + sc + seq![':', ' '] + body@);
        } else if t.len() > 0 {
            assert(out@ =~= t + seq![':', ' '] + body@);
        } else if sc.len() > 0 {
            assert(out@ =~= sc + seq![':', ' '] + body@);
        } else {
            assert(out@ =~= body@);
        }
    }
    string_from_chars(out.as_slice())
}

/// Estimated tokens of a text: one token per four bytes of UTF-8, rounded up.
pub open spec fn token_estimate(s: Seq<char>) -> nat {
    (byte_len(s) + 3) / 4
}

/// Rough byte heuristic for token estimation (4 bytes per token, rounded up).
pub fn estimate_tokens(text: &str) -> (r: usize)
    ensures
        r == token_estimate(text@),
{
    let cs = str_chars(text);
    let n = chars_byte_len(cs.as_slice());
    proof {
        lemma_byte_len_bound(cs@);
    }
    let q = n / 4 + if n % 4 != 0 { 1u128 } else { 0u128 };
    assert(q == (n + 3) / 4);
    assert(q <= cs.len());
    q as usize
}

/// The language of the first chunk that has one, or nothing.
pub open spec fn first_language(cs: Seq<Chunk>) -> Seq<char>
    decreases cs.len(),
{
    if cs.len() == 0 {
        Seq::empty()
    } else {
        match cs[0].language {
            Some(l) => l@,
            None => first_language(cs.drop_first()),
        }
    }
}

/// The header line of a file's skeleton: its path, and its language when known.
pub open spec fn header_text(path: Seq<char>, lang: Seq<char>) -> Seq<char> {
    if lang.len() == 0 {
        "// File: "@ + path
    } else {
        "// File: "@ + path + " | "@ + lang
    }
}

/// Build the file header comment: the path, and the language of the first chunk that
/// names one (when that language is not empty).
pub fn build_skeleton_header(rel_path: &str, chunks: &[Chunk]) -> (r: String)
    ensures
        r@ == header_text(rel_path@, first_language(chunks@)),
{
    let mut i: usize = 0;
    let mut lang: Option<&String> = None;
    assert(chunks@.skip(0) =~= chunks@);
    while i < chunks.len() && lang.is_none()
        invariant
            i <= chunks.len(),
            lang is None ==> first_language(chunks@) == first_language(chunks@.skip(i as int)),
            lang matches Some(l) ==> first_language(chunks@) == l@,
        decreases chunks.len() - i,
    {
        assert(chunks@.skip(i as int).drop_first() =~= chunks@.skip(i + 1));
        assert(chunks@.skip(i as int)[0] == chunks@[i as int]);
        match &chunks[i].language {
            Some(l) => {
                lang = Some(l);
            },
            None => {},
        }
        i += 1;
    }
    let mut h = String::from_str("// File: ");
    h.append(rel_path);
    match lang {
        Some(l) => {
            assert(first_language(chunks@) == l@);
            if !l.as_str().is_empty() {
                h.append(" | ");
                h.append(l.as_str());
            }
        },
        None => {
            assert(chunks@.skip(chunks.len() as int) =~= Seq::<Chunk>::empty());
        },
    }
    h
}

/// The separator between the levels of a scope path.
pub open spec fn scope_sep() -> Seq<char> {
    seq![' ', '>', ' ']
}

/// The part of `s` before its first `" > "`, if it has one (`str::split_once`).
#[verifier::opaque]
pub open spec fn before_sep(s: Seq<char>) -> Option<Seq<char>> {
    match first_occurrence(s, scope_sep()) {
        Some(i) => Some(s.take(i)),
        None => None,
    }
}

/// The trimmed container prefix of a chunk's scope, when the scope has one.
pub open spec fn container_prefix_of(c: Chunk) -> Option<Seq<char>> {
    match c.scope_path {
        Some(sp) => match before_sep(sp@) {
            Some(p) => Some(spec_trim(p)),
            None => None,
        },
        None => None,
    }
}

/// `t` is the container prefix of some chunk's scope.
pub open spec fn is_container(cs: Seq<Chunk>, t: Seq<char>) -> bool {
    exists|i: int| 0 <= i < cs.len() && #[trigger] container_prefix_of(cs[i]) == Some(t)
}

/// The top-level container a chunk belongs to: the trimmed part of its trimmed scope before
/// the first `" > "`; or the whole trimmed scope, when that is itself some chunk's container;
/// or nothing.
pub open spec fn container_key(cs: Seq<Chunk>, c: Chunk) -> Seq<char> {
    match c.scope_path {
        None => Seq::empty(),
        Some(sp) => {
            let t = spec_trim(sp@);
            match before_sep(t) {
                Some(p) => spec_trim(p),
                None => if is_container(cs, t) { t } else { Seq::empty() },
            }
        },
    }
}

/// The container key of every chunk.
pub open spec fn scope_keys(cs: Seq<Chunk>) -> Seq<Seq<char>> {
    Seq::new(cs.len(), |i: int| container_key(cs, cs[i]))
}

/// The distinct keys among the first `n`, in order of first appearance.
pub open spec fn first_keys(keys: Seq<Seq<char>>, n: nat) -> Seq<Seq<char>>
    decreases n,
{
    if n == 0 {
        Seq::empty()
    } else {
        let f = first_keys(keys, (n - 1) as nat);
        if f.contains(keys[n - 1]) {
            f
        } else {
            f.push(keys[n - 1])
        }
    }
}

/// The positions among the first `n` whose key is `key`, in order.
pub open spec fn indices_with(keys: Seq<Seq<char>>, key: Seq<char>, n: nat) -> Seq<int>
    decreases n,
{
    if n == 0 {
        Seq::empty()
    } else {
        let f = indices_with(keys, key, (n - 1) as nat);
        if keys[n - 1] == key {
            f.push(n - 1)
        } else {
            f
        }
    }
}

/// The groups of chunks by container, in order of first appearance: each group's key and
/// the positions of its chunks in source order.
pub open spec fn scope_groups(cs: Seq<Chunk>) -> Seq<(Seq<char>, Seq<int>)> {
    let keys = scope_keys(cs);
    let fk = first_keys(keys, cs.len());
    Seq::new(fk.len(), |g: int| (fk[g], indices_with(keys, fk[g], cs.len())))
}

/// The chunks behind references.
pub open spec fn deref_all(v: Seq<&Chunk>) -> Seq<Chunk> {
    v.map_values(|c: &Chunk| *c)
}

/// Some entry of `p` holds `t`.
pub open spec fn lists_chars(p: Seq<Vec<char>>, t: Seq<char>) -> bool {
    exists|k: int| 0 <= k < p.len() && #[trigger] p[k]@ == t
}

proof fn lemma_first_keys(keys: Seq<Seq<char>>, n: nat, key: Seq<char>)
    requires
        n <= keys.len(),
    ensures
        first_keys(keys, n).contains(key) <==> exists|i: int| 0 <= i < n && keys[i] == key,
        indices_with(keys, key, n).len() > 0 ==> first_keys(keys, n).contains(key),
        forall|g: int, h: int| 0 <= g < h < first_keys(keys, n).len() ==> first_keys(keys, n)[g] != first_keys(keys, n)[h],
    decreases n,
{
    if n > 0 {
        lemma_first_keys(keys, (n - 1) as nat, key);
        let f = first_keys(keys, (n - 1) as nat);
        let ff = first_keys(keys, n);
        let x = keys[n - 1];
        if !f.contains(x) {
            assert(ff == f.push(x));
            assert(ff[f.len() as int] == x);
            if ff.contains(key) {
                let j = choose|j: int| 0 <= j < ff.len() && ff[j] == key;
                if j < f.len() {
                    assert(f[j] == key);
                    assert(f.contains(key));
                }
            }
            if f.contains(key) {
                let j = choose|j: int| 0 <= j < f.len() && f[j] == key;
                assert(ff[j] == key);
            }
            assert forall|g: int, h: int| 0 <= g < h < ff.len() implies ff[g] != ff[h] by {
                if h == f.len() {
                    assert(ff[g] == f[g]);
                    if f[g] == x {
                        assert(f.contains(x));
                    }
                } else {
                    assert(ff[g] == f[g] && ff[h] == f[h]);
                }
            }
        } else {
            assert(ff == f);
            if x == key {
                assert(f.contains(key));
            }
        }
        if exists|i: int| 0 <= i < n && keys[i] == key {
            let i = choose|i: int| 0 <= i < n && keys[i] == key;
            if i < n - 1 {
                assert(f.contains(key));
            }
        }
        if f.contains(key) {
            let i = choose|i: int| 0 <= i < n - 1 && keys[i] == key;
            assert(0 <= i < n && keys[i] == key);
        }
    }
}

/// Some chunk among the first `n` has container prefix `t`.
pub open spec fn listed_prefix(cs: Seq<Chunk>, n: int, t: Seq<char>) -> bool {
    exists|k: int| 0 <= k < n && #[trigger] container_prefix_of(cs[k]) == Some(t)
}

proof fn lemma_listed_prefix_step(cs: Seq<Chunk>, n: int, t: Seq<char>)
    requires
        0 <= n < cs.len(),
    ensures
        listed_prefix(cs, n + 1, t) <==> (listed_prefix(cs, n, t) || container_prefix_of(cs[n]) == Some(t)),
{
    if listed_prefix(cs, n + 1, t) {
        let k = choose|k: int| 0 <= k < n + 1 && #[trigger] container_prefix_of(cs[k]) == Some(t);
        if k < n {
            assert(listed_prefix(cs, n, t));
        }
    }
    if listed_prefix(cs, n, t) {
        let k = choose|k: int| 0 <= k < n && #[trigger] container_prefix_of(cs[k]) == Some(t);
        assert(0 <= k < n + 1);
    }
}

proof fn lemma_lists_chars_push(p: Seq<Vec<char>>, v: Vec<char>, t: Seq<char>)
    ensures
        lists_chars(p.push(v), t) <==> (lists_chars(p, t) || v@ == t),
{
    let q = p.push(v);
    if lists_chars(q, t) {
        let m = choose|m: int| 0 <= m < q.len() && #[trigger] q[m]@ == t;
        if m < p.len() {
            assert(p[m]@ == t);
        }
    }
    if lists_chars(p, t) {
        let m = choose|m: int| 0 <= m < p.len() && #[trigger] p[m]@ == t;
        assert(q[m]@ == t);
    }
    assert(q[p.len() as int] == v);
}

/// The separator `" > "` as characters.
fn sep_chars() -> (v: Vec<char>)
    ensures
        v@ == scope_sep(),
{
    let mut v: Vec<char> = Vec::new();
    v.push(' ');
    v.push('>');
    v.push(' ');
    assert(v@ =~= scope_sep());
    v
}

/// The part of `s` before its first `" > "`, if any.
fn chars_before_sep(s: &[char]) -> (r: Option<Vec<char>>)
    ensures
        match r {
            Some(p) => before_sep(s@) == Some(p@),
            None => before_sep(s@) is None,
        },
{
    let sep = sep_chars();
    match chars_find(s, sep.as_slice()) {
        Some(i) => {
            proof {
                crate::text::lemma_first_occurrence(s@, sep@);
                reveal(before_sep);
            }
            Some(crate::text::chars_slice(s, 0, i))
        },
        None => {
            proof {
                reveal(before_sep);
            }
            None
        },
    }
}

/// The characters of an optional scope.
fn scope_chars(c: &Chunk) -> (r: Option<Vec<char>>)
    ensures
        match r {
            Some(v) => c.scope_path matches Some(sp) && v@ == sp@,
            None => c.scope_path is None,
        },
{
    match &c.scope_path {
        Some(sp) => Some(str_chars(sp.as_str())),
        None => None,
    }
}

/// The container prefixes of all chunks' scopes.
fn container_prefixes(chunks: &[&Chunk]) -> (p: Vec<Vec<char>>)
    ensures
        forall|t: Seq<char>| #[trigger] is_container(deref_all(chunks@), t) <==> lists_chars(p@, t),
{
    let ghost cs = deref_all(chunks@);
    let mut p: Vec<Vec<char>> = Vec::new();
    let mut i: usize = 0;
    while i < chunks.len()
        invariant
            i <= chunks.len(),
            cs == deref_all(chunks@),
            forall|t: Seq<char>| #[trigger] listed_prefix(cs, i as int, t) <==> lists_chars(p@, t),
        decreases chunks.len() - i,
    {
        let ghost p0 = p@;
        assert(cs[i as int] == *chunks@[i as int]);
        let mut found: Option<Vec<char>> = None;
        match scope_chars(chunks[i]) {
            Some(sc) => match chars_before_sep(sc.as_slice()) {
                Some(pre) => {
                    found = Some(chars_trim(pre.as_slice()));
                },
                None => {},
            },
            None => {},
        }
        match found {
            Some(tp) => {
                assert(container_prefix_of(cs[i as int]) == Some(tp@));
                p.push(tp);
                proof {
                    assert forall|t: Seq<char>| #[trigger] listed_prefix(cs, i + 1, t) <==> lists_chars(p@, t) by {
                        lemma_listed_prefix_step(cs, i as int, t);
                        lemma_lists_chars_push(p0, tp, t);
                    }
                }
            },
            None => {
                proof {
                    assert(container_prefix_of(cs[i as int]) is None);
                    assert forall|t: Seq<char>| #[trigger] listed_prefix(cs, i + 1, t) <==> lists_chars(p@, t) by {
                        lemma_listed_prefix_step(cs, i as int, t);
                    }
                }
            },
        }
        i += 1;
    }
    proof {
        assert forall|t: Seq<char>| #[trigger] is_container(cs, t) <==> lists_chars(p@, t) by {
            assert(is_container(cs, t) == listed_prefix(cs, cs.len() as int, t));
        }
    }
    p
}

/// Whether `p` lists `t`.
fn lists_chars_exec(p: &Vec<Vec<char>>, t: &[char]) -> (b: bool)
    ensures
        b == lists_chars(p@, t@),
{
    let mut k: usize = 0;
    while k < p.len()
        invariant
            k <= p.len(),
            forall|m: int| 0 <= m < k ==> p@[m]@ != t@,
        decreases p.len() - k,
    {
        if crate::text::chars_eq(p[k].as_slice(), t) {
            return true;
        }
        k += 1;
    }
    false
}

/// The container key of chunk `c` among `cs`, given the container prefixes of `cs`.
fn container_key_exec(c: &Chunk, prefixes: &Vec<Vec<char>>, Ghost(cs): Ghost<Seq<Chunk>>) -> (r: Vec<char>)
    requires
        forall|t: Seq<char>| #[trigger] is_container(cs, t) <==> lists_chars(prefixes@, t),
    ensures
        r@ == container_key(cs, *c),
{
    match scope_chars(c) {
        None => Vec::new(),
        Some(sc) => {
            let t = chars_trim(sc.as_slice());
            match chars_before_sep(t.as_slice()) {
                Some(pre) => chars_trim(pre.as_slice()),
                None => {
                    if lists_chars_exec(prefixes, t.as_slice()) {
                        t
                    } else {
                        Vec::new()
                    }
                },
            }
        },
    }
}

/// The views of a sequence of character vectors.
pub open spec fn chars_views(v: Seq<Vec<char>>) -> Seq<Seq<char>> {
    v.map_values(|x: Vec<char>| x@)
}

/// Positions as integers.
pub open spec fn as_ints(v: Seq<usize>) -> Seq<int> {
    v.map_values(|i: usize| i as int)
}

proof fn lemma_indices_bound(keys: Seq<Seq<char>>, key: Seq<char>, n: nat)
    ensures
        forall|j: int| 0 <= j < indices_with(keys, key, n).len() ==> 0 <= #[trigger] indices_with(keys, key, n)[j] < n,
    decreases n,
{
    if n > 0 {
        lemma_indices_bound(keys, key, (n - 1) as nat);
        let f = indices_with(keys, key, (n - 1) as nat);
        assert forall|j: int| 0 <= j < indices_with(keys, key, n).len() implies 0 <= #[trigger] indices_with(keys, key, n)[j] < n by {
            if j < f.len() {
                assert(indices_with(keys, key, n)[j] == f[j]);
            }
        }
    }
}

/// Groups positions `0..keys.len()` by key, groups in order of their key's first appearance
/// and positions in increasing order within a group.
fn group_positions(keys: &Vec<Vec<char>>) -> (r: (Vec<Vec<char>>, Vec<Vec<usize>>))
    ensures
        r.0.len() == first_keys(chars_views(keys@), keys.len() as nat).len(),
        r.1.len() == r.0.len(),
        forall|g: int| 0 <= g < r.0.len() ==> #[trigger] r.0[g]@ == first_keys(chars_views(keys@), keys.len() as nat)[g]
            && as_ints(r.1[g]@) == indices_with(chars_views(keys@), r.0[g]@, keys.len() as nat),
{
    let ghost kv = chars_views(keys@);
    let mut names: Vec<Vec<char>> = Vec::new();
    let mut members: Vec<Vec<usize>> = Vec::new();
    let mut i: usize = 0;
    while i < keys.len()
        invariant
            kv == chars_views(keys@),
            i <= keys.len(),
            names.len() == first_keys(kv, i as nat).len(),
            members.len() == names.len(),
            forall|g: int| 0 <= g < names.len() ==> #[trigger] names[g]@ == first_keys(kv, i as nat)[g]
                && as_ints(members[g]@) == indices_with(kv, names[g]@, i as nat),
        decreases keys.len() - i,
    {
        let ghost fk = first_keys(kv, i as nat);
        let ghost x = kv[i as int];
        proof {
            lemma_first_keys(kv, i as nat, x);
        }
        let mut g0: usize = 0;
        while g0 < names.len() && !crate::text::chars_eq(names[g0].as_slice(), keys[i].as_slice())
            invariant
                i < keys.len(),
                g0 <= names.len(),
                forall|h: int| 0 <= h < g0 ==> names[h]@ != keys[i as int]@,
            decreases names.len() - g0,
        {
            g0 += 1;
        }
        let ghost names0 = names@;
        let ghost members0 = members@;
        if g0 < names.len() {
            proof {
                assert(fk[g0 as int] == x);
                assert(fk.contains(x));
                assert(first_keys(kv, (i + 1) as nat) == fk);
            }
            let mut row = members[g0].clone();
            row.push(i);
            members.set(g0, row);
            proof {
                assert forall|g: int| 0 <= g < names.len() implies #[trigger] names[g]@ == first_keys(kv, (i + 1) as nat)[g]
                    && as_ints(members[g]@) == indices_with(kv, names[g]@, (i + 1) as nat) by {
                    if g == g0 {
                        assert(as_ints(members[g]@) =~= as_ints(members0[g]@).push(i as int));
                    } else {
                        assert(fk[g] != fk[g0 as int]);
                        assert(members[g] == members0[g]);
                    }
                }
            }
        } else {
            proof {
                if fk.contains(x) {
                    let h = choose|h: int| 0 <= h < fk.len() && fk[h] == x;
                    assert(names[h]@ == x);
                }
                assert(first_keys(kv, (i + 1) as nat) == fk.push(x));
                if indices_with(kv, x, i as nat).len() > 0 {
                    assert(fk.contains(x));
                }
            }
            names.push(keys[i].clone());
            let mut row: Vec<usize> = Vec::new();
            row.push(i);
            members.push(row);
            proof {
                assert forall|g: int| 0 <= g < names.len() implies #[trigger] names[g]@ == first_keys(kv, (i + 1) as nat)[g]
                    && as_ints(members[g]@) == indices_with(kv, names[g]@, (i + 1) as nat) by {
                    if g < names0.len() {
                        assert(names[g] == names0[g]);
                        assert(members[g] == members0[g]);
                        assert(names0[g]@ != x);
                    } else {
                        assert(as_ints(members[g]@) =~= seq![i as int]);
                        assert(indices_with(kv, x, i as nat) =~= Seq::<int>::empty());
                    }
                }
            }
        }
        i += 1;
    }
    (names, members)
}

/// Group chunks by top-level container scope, groups in order of first appearance and
/// chunks in source order within a group.
pub fn group_by_container_scope<'a>(chunks: &[&'a Chunk]) -> (r: Vec<(String, Vec<&'a Chunk>)>)
    ensures
        r.len() == scope_groups(deref_all(chunks@)).len(),
        forall|g: int| 0 <= g < r.len() ==> #[trigger] r[g].0@ == scope_groups(deref_all(chunks@))[g].0
            && r[g].1.len() == scope_groups(deref_all(chunks@))[g].1.len(),
        forall|g: int, j: int| 0 <= g < r.len() && 0 <= j < r[g].1.len() ==> *#[trigger] r[g].1[j] == deref_all(
            chunks@,
        )[scope_groups(deref_all(chunks@))[g].1[j]],
{
    let ghost cs = deref_all(chunks@);
    let prefixes = container_prefixes(chunks);
    let mut keys: Vec<Vec<char>> = Vec::new();
    let mut i: usize = 0;
    while i < chunks.len()
        invariant
            cs == deref_all(chunks@),
            forall|t: Seq<char>| #[trigger] is_container(cs, t) <==> lists_chars(prefixes@, t),
            i <= chunks.len(),
            keys.len() == i,
            forall|k: int| 0 <= k < i ==> #[trigger] keys[k]@ == container_key(cs, cs[k]),
        decreases chunks.len() - i,
    {
        assert(cs[i as int] == *chunks@[i as int]);
        let k = container_key_exec(chunks[i], &prefixes, Ghost(cs));
        keys.push(k);
        i += 1;
    }
    assert(chars_views(keys@) =~= scope_keys(cs));
    let (names, members) = group_positions(&keys);
    let ghost sg = scope_groups(cs);
    let ghost n = chunks.len() as nat;
    let mut r: Vec<(String, Vec<&'a Chunk>)> = Vec::new();
    let mut g: usize = 0;
    while g < names.len()
        invariant
            cs == deref_all(chunks@),
            sg == scope_groups(cs),
            n == chunks.len(),
            names.len() == sg.len(),
            members.len() == names.len(),
            forall|h: int| 0 <= h < names.len() ==> #[trigger] names[h]@ == sg[h].0 && as_ints(members[h]@) == sg[h].1,
            g <= names.len(),
            r.len() == g,
            forall|h: int| 0 <= h < g ==> #[trigger] r[h].0@ == sg[h].0 && r[h].1.len() == sg[h].1.len(),
            forall|h: int, j: int| 0 <= h < g && 0 <= j < r[h].1.len() ==> *#[trigger] r[h].1[j] == cs[sg[h].1[j]],
        decreases names.len() - g,
    {
        let ghost idx = sg[g as int].1;
        assert(names[g as int]@ == sg[g as int].0);
        proof {
            lemma_indices_bound(scope_keys(cs), sg[g as int].0, n);
        }
        let mut refs: Vec<&'a Chunk> = Vec::new();
        let mut j: usize = 0;
        while j < members[g].len()
            invariant
                cs == deref_all(chunks@),
                n == chunks.len(),
                g < members.len(),
                as_ints(members[g as int]@) == idx,
                forall|q: int| 0 <= q < idx.len() ==> 0 <= #[trigger] idx[q] < n,
                j <= members[g as int].len(),
                refs.len() == j,
                forall|q: int| 0 <= q < j ==> *#[trigger] refs[q] == cs[idx[q]],
            decreases members[g as int].len() - j,
        {
            let m = members[g][j];
            assert(idx[j as int] == m as int);
            refs.push(chunks[m]);
            j += 1;
        }
        let name = string_from_chars(names[g].as_slice());
        r.push((name, refs));
        g += 1;
    }
    r
}

/// The text a chunk contributes to its file's skeleton: its skeleton, or else its text,
/// trimmed.
pub open spec fn item_text(c: Chunk) -> Seq<char> {
    spec_trim(
        match c.skeleton_text {
            Some(t) => t@,
            None => c.text@,
        },
    )
}

/// The breadcrumb that opens a chunk continuing a container's group.
pub open spec fn continued(container: Seq<char>) -> Seq<char> {
    "\n// (continued "@ + container + ")"@
}

/// The state of packing: the closed chunks as `(first chunk index, text)`; the open chunk's
/// text, first chunk index and counted tokens; and whether every count so far fits a `usize`.
pub type PackState = (Seq<(usize, Seq<char>)>, Seq<char>, usize, nat, bool);

/// Packing chunk `c`, the `j`-th of its container's group: an entry with empty text is
/// skipped; an entry that would take the open chunk past `max` tokens, when the open chunk
/// already holds more than its header, first closes it and opens a new one (with a
/// breadcrumb naming the container when it continues a group); then the entry is appended
/// after a blank line and its tokens are counted.
pub open spec fn pack_step(st: PackState, header: Seq<char>, max: nat, container: Seq<char>, j: int, c: Chunk) -> PackState {
    let item = item_text(c);
    if item.len() == 0 {
        st
    } else {
        let t = token_estimate(item);
        let st2: PackState = if st.3 + t > max && st.3 > token_estimate(header) {
            let cur = if container.len() > 0 && j > 0 { header + continued(container) } else { header };
            (st.0.push((st.2, st.1)), cur, c.chunk_index, token_estimate(cur), st.4)
        } else {
            st
        };
        (st2.0, st2.1 + "\n\n"@ + item, st2.2, st2.3 + t, st2.4 && st2.3 + t <= usize::MAX)
    }
}

/// Packing the chunks `ms` of one container's group, in order.
pub open spec fn pack_members(st: PackState, header: Seq<char>, max: nat, container: Seq<char>, ms: Seq<Chunk>) -> PackState
    decreases ms.len(),
{
    if ms.len() == 0 {
        st
    } else {
        pack_step(pack_members(st, header, max, container, ms.drop_last()), header, max, container, ms.len() - 1, ms.last())
    }
}

/// Packing the groups `gs` in order.
pub open spec fn pack_groups(st: PackState, header: Seq<char>, max: nat, gs: Seq<(Seq<char>, Seq<Chunk>)>) -> PackState
    decreases gs.len(),
{
    if gs.len() == 0 {
        st
    } else {
        pack_members(pack_groups(st, header, max, gs.drop_last()), header, max, gs.last().0, gs.last().1)
    }
}

/// The chunks whose embed policy is `Anchor`, in order.
pub open spec fn anchor_chunks(cs: Seq<Chunk>) -> Seq<Chunk>
    decreases cs.len(),
{
    if cs.len() == 0 {
        Seq::empty()
    } else {
        let a = anchor_chunks(cs.drop_last());
        if cs.last().embed_policy == ChunkEmbedPolicy::Anchor {
            a.push(cs.last())
        } else {
            a
        }
    }
}

/// The container groups of `cs` with their chunks.
pub open spec fn group_chunks(cs: Seq<Chunk>) -> Seq<(Seq<char>, Seq<Chunk>)> {
    scope_groups(cs).map_values(|p: (Seq<char>, Seq<int>)| (p.0, p.1.map_values(|i: int| cs[i])))
}

/// The packing of a file's anchor chunks, from an open chunk that holds only the header.
pub open spec fn skeleton_packing(path: Seq<char>, cs: Seq<Chunk>, max: nat) -> PackState {
    let an = anchor_chunks(cs);
    let header = header_text(path, first_language(cs));
    pack_groups((Seq::empty(), header, an[0].chunk_index, token_estimate(header), true), header, max, group_chunks(an))
}

/// The file-level chunks of a file's skeleton as `(first chunk index, text)`: none when no
/// chunk is an anchor; else the closed chunks of the packing, then the open one when it
/// holds more than the header.
pub open spec fn skeleton_chunks(path: Seq<char>, cs: Seq<Chunk>, max: nat) -> Seq<(usize, Seq<char>)> {
    if anchor_chunks(cs).len() == 0 {
        Seq::empty()
    } else {
        let st = skeleton_packing(path, cs, max);
        if st.3 > token_estimate(header_text(path, first_language(cs))) {
            st.0.push((st.2, st.1))
        } else {
            st.0
        }
    }
}

/// Packing never counts past `usize::MAX` (a machine limit).
pub open spec fn skeleton_fits(path: Seq<char>, cs: Seq<Chunk>, max: nat) -> bool {
    anchor_chunks(cs).len() > 0 ==> skeleton_packing(path, cs, max).4
}

/// The `(chunk index, text)` of pending chunks.
pub open spec fn pending_views(r: Seq<PendingChunk>) -> Seq<(usize, Seq<char>)> {
    r.map_values(|p: PendingChunk| (p.chunk_index, p.text@))
}

/// Every pending chunk is an anchor of `path` with modality `code`.
pub open spec fn all_code_anchors(r: Seq<PendingChunk>, path: Seq<char>) -> bool {
    forall|k: int| 0 <= k < r.len() ==> #[trigger] r[k].doc_path@ == path && r[k].embed_policy == ChunkEmbedPolicy::Anchor
        && r[k].modality@ == "code"@
}

proof fn lemma_code_anchors_push(r: Seq<PendingChunk>, pc: PendingChunk, path: Seq<char>)
    requires
        all_code_anchors(r, path),
        pc.doc_path@ == path,
        pc.embed_policy == ChunkEmbedPolicy::Anchor,
        pc.modality@ == "code"@,
    ensures
        all_code_anchors(r.push(pc), path),
{
    let r2 = r.push(pc);
    assert forall|k: int| 0 <= k < r2.len() implies #[trigger] r2[k].doc_path@ == path && r2[k].embed_policy
        == ChunkEmbedPolicy::Anchor && r2[k].modality@ == "code"@ by {
        if k < r.len() {
            assert(r2[k] == r[k]);
            assert(r[k].doc_path@ == path);
        } else {
            assert(r2[k] == pc);
        }
    }
}

proof fn lemma_step_fits(st: PackState, header: Seq<char>, max: nat, container: Seq<char>, j: int, c: Chunk)
    ensures
        pack_step(st, header, max, container, j, c).4 ==> st.4,
{
}

proof fn lemma_members_fits(st: PackState, header: Seq<char>, max: nat, container: Seq<char>, ms: Seq<Chunk>, j: int)
    requires
        0 <= j <= ms.len(),
        pack_members(st, header, max, container, ms).4,
    ensures
        pack_members(st, header, max, container, ms.take(j)).4,
    decreases ms.len(),
{
    assert(ms.take(ms.len() as int) =~= ms);
    if j < ms.len() {
        let m2 = ms.drop_last();
        lemma_step_fits(pack_members(st, header, max, container, m2), header, max, container, ms.len() - 1, ms.last());
        lemma_members_fits(st, header, max, container, m2, j);
        assert(m2.take(j) =~= ms.take(j));
    }
}

proof fn lemma_members_init_fits(st: PackState, header: Seq<char>, max: nat, container: Seq<char>, ms: Seq<Chunk>)
    ensures
        pack_members(st, header, max, container, ms).4 ==> st.4,
    decreases ms.len(),
{
    if ms.len() > 0 {
        let m2 = ms.drop_last();
        lemma_step_fits(pack_members(st, header, max, container, m2), header, max, container, ms.len() - 1, ms.last());
        lemma_members_init_fits(st, header, max, container, m2);
    }
}

proof fn lemma_groups_fits(st: PackState, header: Seq<char>, max: nat, gs: Seq<(Seq<char>, Seq<Chunk>)>, g: int)
    requires
        0 <= g <= gs.len(),
        pack_groups(st, header, max, gs).4,
    ensures
        pack_groups(st, header, max, gs.take(g)).4,
    decreases gs.len(),
{
    assert(gs.take(gs.len() as int) =~= gs);
    if g < gs.len() {
        let g2 = gs.drop_last();
        lemma_members_init_fits(pack_groups(st, header, max, g2), header, max, gs.last().0, gs.last().1);
        lemma_groups_fits(st, header, max, g2, g);
        assert(g2.take(g) =~= gs.take(g));
    }
}

/// The packing state of pending chunks and an open chunk.
pub open spec fn state_of(r: Seq<PendingChunk>, cur: Seq<char>, first: usize, count: usize) -> PackState {
    (pending_views(r), cur, first, count as nat, true)
}

/// Packs one chunk, the `j`-th of the group of `container`, as `pack_step` says.
fn pack_one(
    result: &mut Vec<PendingChunk>,
    cur: &mut String,
    first: &mut usize,
    count: &mut usize,
    rel_path: &str,
    header: &String,
    header_tokens: usize,
    max_tokens: usize,
    container: &String,
    j: usize,
    c: &Chunk,
)
    requires
        header_tokens == token_estimate(header@),
        all_code_anchors(old(result)@, rel_path@),
        pack_step(state_of(old(result)@, old(cur)@, *old(first), *old(count)), header@, max_tokens as nat, container@, j as int, *c).4,
    ensures
        all_code_anchors(final(result)@, rel_path@),
        state_of(final(result)@, final(cur)@, *final(first), *final(count)) == pack_step(
            state_of(old(result)@, old(cur)@, *old(first), *old(count)),
            header@,
            max_tokens as nat,
            container@,
            j as int,
            *c,
        ),
{
    let src: &String = match &c.skeleton_text {
        Some(t) => t,
        None => &c.text,
    };
    let sc = str_chars(src.as_str());
    let tr = chars_trim(sc.as_slice());
    if tr.len() == 0 {
        return;
    }
    let item = string_from_chars(tr.as_slice());
    let t = estimate_tokens(item.as_str());
    let ghost r0 = result@;
    if (*count > max_tokens || t > max_tokens - *count) && *count > header_tokens {
        let mut text = header.clone();
        std::mem::swap(cur, &mut text);
        let pc = PendingChunk {
            doc_path: rel_path.to_owned(),
            chunk_index: *first,
            text,
            embed_policy: ChunkEmbedPolicy::Anchor,
            modality: String::from_str("code"),
        };
        assert(pc.modality@ == "code"@);
        assert(pc.doc_path@ == rel_path@);
        result.push(pc);
        if !container.as_str().is_empty() && j > 0 {
            cur.append("\n// (continued ");
            cur.append(container.as_str());
            cur.append(")");
            assert(cur@ =~= header@ + continued(container@));
        }
        *count = estimate_tokens(cur.as_str());
        *first = c.chunk_index;
        proof {
            assert(pending_views(result@) =~= pending_views(r0).push((pc.chunk_index, pc.text@)));
            lemma_code_anchors_push(r0, pc, rel_path@);
        }
    }
    let ghost c1 = cur@;
    cur.append("\n\n");
    cur.append(item.as_str());
    assert(cur@ =~= c1 + "\n\n"@ + item_text(*c));
    *count = *count + t;
}

/// Aggregate per-symbol skeleton texts into file-level pending chunks: the anchor chunks are
/// grouped by top-level container scope, and the groups are packed greedily, in order,
/// into chunks of at most `max_tokens` counted tokens (an entry that alone exceeds the limit
/// still gets a chunk), each headed by the file's header. Each chunk's `chunk_index` is that
/// of its first entry.
pub fn build_file_skeleton_chunks(rel_path: &str, chunks: &[Chunk], max_tokens: usize) -> (r: Vec<PendingChunk>)
    requires
        skeleton_fits(rel_path@, chunks@, max_tokens as nat),
    ensures
        pending_views(r@) == skeleton_chunks(rel_path@, chunks@, max_tokens as nat),
        all_code_anchors(r@, rel_path@),
{
    let mut anchors: Vec<&Chunk> = Vec::new();
    let mut i: usize = 0;
    while i < chunks.len()
        invariant
            i <= chunks.len(),
            deref_all(anchors@) == anchor_chunks(chunks@.take(i as int)),
        decreases chunks.len() - i,
    {
        let ghost a0 = anchors@;
        assert(chunks@.take(i + 1).drop_last() =~= chunks@.take(i as int));
        if chunks[i].embed_policy == ChunkEmbedPolicy::Anchor {
            anchors.push(&chunks[i]);
            assert(deref_all(anchors@) =~= deref_all(a0).push(chunks@[i as int]));
        }
        i += 1;
    }
    assert(chunks@.take(chunks.len() as int) =~= chunks@);
    if anchors.len() == 0 {
        return Vec::new();
    }
    let header = build_skeleton_header(rel_path, chunks);
    let header_tokens = estimate_tokens(header.as_str());
    let groups = group_by_container_scope(anchors.as_slice());
    let ghost an = deref_all(anchors@);
    let ghost gs = group_chunks(an);
    let ghost mx = max_tokens as nat;
    let ghost st0: PackState = (Seq::empty(), header@, an[0].chunk_index, header_tokens as nat, true);
    let mut result: Vec<PendingChunk> = Vec::new();
    let mut cur = header.clone();
    let mut first = anchors[0].chunk_index;
    let mut count = header_tokens;
    proof {
        let sg = scope_groups(an);
        assert forall|h: int| 0 <= h < groups.len() implies #[trigger] groups[h].0@ == gs[h].0 && groups[h].1.len() == gs[h].1.len() by {
            assert(groups[h].0@ == sg[h].0);
        }
        assert forall|h: int, q: int| 0 <= h < groups.len() && 0 <= q < groups[h].1.len() implies *#[trigger] groups[h].1[q] == gs[h].1[q] by {
            assert(groups[h].0@ == sg[h].0);
            assert(*groups[h].1[q] == an[sg[h].1[q]]);
        }
        assert(gs.take(0) =~= Seq::<(Seq<char>, Seq<Chunk>)>::empty());
        assert(pending_views(result@) =~= Seq::<(usize, Seq<char>)>::empty());
    }
    let mut g: usize = 0;
    while g < groups.len()
        invariant
            header_tokens == token_estimate(header@),
            gs == group_chunks(an),
            groups.len() == gs.len(),
            forall|h: int| 0 <= h < groups.len() ==> #[trigger] groups[h].0@ == gs[h].0 && groups[h].1.len() == gs[h].1.len(),
            forall|h: int, q: int| 0 <= h < groups.len() && 0 <= q < groups[h].1.len() ==> *#[trigger] groups[h].1[q] == gs[h].1[q],
            pack_groups(st0, header@, mx, gs).4,
            mx == max_tokens,
            g <= groups.len(),
            state_of(result@, cur@, first, count) == pack_groups(st0, header@, mx, gs.take(g as int)),
            all_code_anchors(result@, rel_path@),
        decreases groups.len() - g,
    {
        let ghost pg = pack_groups(st0, header@, mx, gs.take(g as int));
        let ghost ms = gs[g as int].1;
        let ghost name = gs[g as int].0;
        proof {
            assert(gs.take(g + 1).drop_last() =~= gs.take(g as int));
            lemma_groups_fits(st0, header@, mx, gs, g + 1);
            assert(ms.take(0) =~= Seq::<Chunk>::empty());
        }
        assert(groups[g as int].0@ == name);
        let mut j: usize = 0;
        while j < groups[g].1.len()
            invariant
                header_tokens == token_estimate(header@),
                g < groups.len(),
                groups[g as int].0@ == name,
                groups[g as int].1.len() == ms.len(),
                forall|q: int| 0 <= q < ms.len() ==> *#[trigger] groups[g as int].1[q] == ms[q],
                pack_members(pg, header@, mx, name, ms).4,
                mx == max_tokens,
                j <= ms.len(),
                state_of(result@, cur@, first, count) == pack_members(pg, header@, mx, name, ms.take(j as int)),
                all_code_anchors(result@, rel_path@),
            decreases ms.len() - j,
        {
            proof {
                assert(ms.take(j + 1).drop_last() =~= ms.take(j as int));
                lemma_members_fits(pg, header@, mx, name, ms, j + 1);
            }
            let c = groups[g].1[j];
            pack_one(&mut result, &mut cur, &mut first, &mut count, rel_path, &header, header_tokens, max_tokens, &groups[g].0, j, c);
            j += 1;
        }
        proof {
            assert(ms.take(ms.len() as int) =~= ms);
        }
        g += 1;
    }
    proof {
        assert(gs.take(gs.len() as int) =~= gs);
    }
    if count > header_tokens {
        let ghost r0 = result@;
        let pc = PendingChunk {
            doc_path: rel_path.to_owned(),
            chunk_index: first,
            text: cur,
            embed_policy: ChunkEmbedPolicy::Anchor,
            modality: String::from_str("code"),
        };
        assert(pc.modality@ == "code"@);
        assert(pc.doc_path@ == rel_path@);
        result.push(pc);
        proof {
            assert(pending_views(result@) =~= pending_views(r0).push((pc.chunk_index, pc.text@)));
            lemma_code_anchors_push(r0, pc, rel_path@);
        }
    }
    result
}

} // verus!
