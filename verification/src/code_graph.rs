//! Structural edges of source code: the `defines` edges of a file, the symbol catalog keyed
//! by name, the resolution of a call's callee to a symbol with a confidence band, and the
//! deduplicated `calls` edges.
use vstd::prelude::*;

use crate::chunker::CodeSymbol;
use crate::graph::EdgeProvenance;
use crate::imports::{after_last, chars_after_last};
use crate::layout::normalize_slashes;
use crate::search::{chars_trim, spec_trim};
use crate::text::{chars_contains, opt_view, seq_contains, str_chars, string_from_chars};

verus! {

/// How sure a resolved code edge is of its target.
#[derive(Debug, Clone, Copy, PartialEq, Eq, Structural)]
pub enum ResolutionConfidence {
    /// Resolved by a unique or type-guided match.
    High,
    /// Resolved among several candidates by directory.
    Medium,
    /// A guess with no disambiguating signal.
    Speculative,
}

/// A code relationship between two graph keys.
#[derive(Debug, Clone)]
pub struct Edge {
    /// Source key (a file path or a symbol scope path).
    pub source: String,
    /// Target key.
    pub target: String,
    /// Relationship type, such as `defines` or `calls`.
    pub edge_type: String,
    /// The edge weight, as the bits of an IEEE-754 single.
    pub weight_bits: u32,
    /// How the edge was found.
    pub provenance: EdgeProvenance,
    /// The corpus of the target, when it lies in another corpus.
    pub target_corpus: Option<String>,
    /// How sure the resolution is.
    pub confidence: Option<ResolutionConfidence>,
}

/// The positions, in order, of the symbols among the first `n` whose name is `name`.
pub open spec fn name_positions(syms: Seq<CodeSymbol>, name: Seq<char>, n: nat) -> Seq<usize>
    decreases n,
{
    if n == 0 {
        Seq::empty()
    } else {
        let before = name_positions(syms, name, (n - 1) as nat);
        if syms[n - 1].name@ == name {
            before.push((n - 1) as usize)
        } else {
            before
        }
    }
}

/// The positions of all symbols named `name`.
pub open spec fn candidates(syms: Seq<CodeSymbol>, name: Seq<char>) -> Seq<usize> {
    name_positions(syms, name, syms.len())
}

/// `idx` indexes the first `n` symbols by name: its keys are distinct names of those
/// symbols, every such name is a key, and each key lists the positions of its symbols.
pub open spec fn indexes(syms: Seq<CodeSymbol>, idx: Seq<(String, Vec<usize>)>, n: nat) -> bool {
    &&& forall|a: int, b: int| 0 <= a < b < idx.len() ==> (#[trigger] idx[a]).0@ != (#[trigger] idx[b]).0@
    &&& forall|a: int| 0 <= a < idx.len() ==> (#[trigger] idx[a]).1@ == name_positions(syms, idx[a].0@, n)
    &&& forall|a: int| 0 <= a < idx.len() ==> name_positions(syms, (#[trigger] idx[a]).0@, n).len() > 0
    &&& forall|i: int| 0 <= i < n ==> exists|a: int| 0 <= a < idx.len() && (#[trigger] idx[a]).0@ == (#[trigger] syms[i]).name@
}

proof fn lemma_positions_bounded(syms: Seq<CodeSymbol>, name: Seq<char>, n: nat)
    requires
        n <= syms.len(),
        syms.len() <= usize::MAX,
    ensures
        forall|k: int| 0 <= k < name_positions(syms, name, n).len() ==> {
            &&& #[trigger] name_positions(syms, name, n)[k] < n
            &&& syms[name_positions(syms, name, n)[k] as int].name@ == name
        },
    decreases n,
{
    if n > 0 {
        lemma_positions_bounded(syms, name, (n - 1) as nat);
        let before = name_positions(syms, name, (n - 1) as nat);
        assert forall|k: int| 0 <= k < name_positions(syms, name, n).len() implies {
            &&& #[trigger] name_positions(syms, name, n)[k] < n
            &&& syms[name_positions(syms, name, n)[k] as int].name@ == name
        } by {
            if k < before.len() {
                assert(name_positions(syms, name, n)[k] == before[k]);
            } else {
                assert(((n - 1) as usize) as int == n - 1);
            }
        }
    }
}

proof fn lemma_positions_empty(syms: Seq<CodeSymbol>, name: Seq<char>, n: nat)
    requires
        n <= syms.len(),
        forall|i: int| 0 <= i < n ==> (#[trigger] syms[i]).name@ != name,
    ensures
        name_positions(syms, name, n).len() == 0,
    decreases n,
{
    if n > 0 {
        lemma_positions_empty(syms, name, (n - 1) as nat);
    }
}

/// Polyglot code graph extraction.
pub struct CodeGraphExtractor;

impl CodeGraphExtractor {
    /// The symbol catalog keyed by name: one entry per distinct name, in order of first
    /// appearance, listing the positions of the symbols of that name in order.
    pub fn build_symbol_index(symbols: &[CodeSymbol]) -> (r: Vec<(String, Vec<usize>)>)
        ensures
            indexes(symbols@, r@, symbols@.len()),
    {
        let mut idx: Vec<(String, Vec<usize>)> = Vec::new();
        let mut i: usize = 0;
        while i < symbols.len()
            invariant
                i <= symbols.len(),
                indexes(symbols@, idx@, i as nat),
            decreases symbols.len() - i,
        {
            let name = &symbols[i].name;
            let mut a: usize = 0;
            while a < idx.len() && !crate::text::string_eq(&idx[a].0, name)
                invariant
                    a <= idx.len(),
                    forall|b: int| 0 <= b < a ==> (#[trigger] idx[b]).0@ != name@,
                decreases idx.len() - a,
            {
                a += 1;
            }
            let ghost old_idx = idx@;
            proof {
                assert forall|k: int| 0 <= k < old_idx.len() && (#[trigger] old_idx[k]).0@ != name@ implies old_idx[k].1@
                    == name_positions(symbols@, old_idx[k].0@, (i + 1) as nat) by {}
                assert forall|k: int| 0 <= k < old_idx.len() implies name_positions(symbols@, (#[trigger] old_idx[k]).0@, (i + 1) as nat).len() > 0 by {
                    assert(name_positions(symbols@, old_idx[k].0@, i as nat).len() > 0);
                }
            }
            if a < idx.len() {
                let mut list = idx[a].1.clone();
                list.push(i);
                let key = idx[a].0.clone();
                idx.set(a, (key, list));
                proof {
                    assert forall|k: int| 0 <= k < idx.len() implies (#[trigger] idx[k]).1@ == name_positions(
                        symbols@,
                        idx[k].0@,
                        (i + 1) as nat,
                    ) by {
                        if k != a {
                            assert(idx@[k] == old_idx[k]);
                        }
                    }
                    assert forall|k: int| 0 <= k < idx.len() implies name_positions(symbols@, (#[trigger] idx[k]).0@, (i + 1) as nat).len() > 0 by {
                        if k != a {
                            assert(idx@[k] == old_idx[k]);
                        }
                    }
                    assert forall|j: int| 0 <= j < i + 1 implies exists|b: int| 0 <= b < idx.len() && (#[trigger] idx[b]).0@ == (#[trigger] symbols@[j]).name@ by {
                        if j == i {
                            assert(idx[a as int].0@ == symbols@[j].name@);
                        } else {
                            let b = choose|b: int| 0 <= b < old_idx.len() && (#[trigger] old_idx[b]).0@ == symbols@[j].name@;
                            assert(idx[b].0@ == old_idx[b].0@);
                        }
                    }
                }
            } else {
                let mut list: Vec<usize> = Vec::new();
                list.push(i);
                idx.push((name.clone(), list));
                proof {
                    lemma_positions_empty_prefix(symbols@, name@, i as nat, old_idx);
                    assert forall|k: int| 0 <= k < idx.len() implies (#[trigger] idx[k]).1@ == name_positions(
                        symbols@,
                        idx[k].0@,
                        (i + 1) as nat,
                    ) && name_positions(symbols@, idx[k].0@, (i + 1) as nat).len() > 0 by {
                        if k < old_idx.len() {
                            assert(idx@[k] == old_idx[k]);
                        } else {
                            assert(name_positions(symbols@, name@, i as nat).len() == 0);
                            assert(list@ =~= name_positions(symbols@, name@, i as nat).push(i));
                        }
                    }
                    assert forall|j: int| 0 <= j < i + 1 implies exists|b: int| 0 <= b < idx.len() && (#[trigger] idx[b]).0@ == (#[trigger] symbols@[j]).name@ by {
                        if j == i {
                            assert(idx[old_idx.len() as int].0@ == symbols@[j].name@);
                        } else {
                            let b = choose|b: int| 0 <= b < old_idx.len() && (#[trigger] old_idx[b]).0@ == symbols@[j].name@;
                            assert(idx[b].0@ == old_idx[b].0@);
                        }
                    }
                    assert forall|x: int, y: int| 0 <= x < y < idx.len() implies (#[trigger] idx[x]).0@ != (#[trigger] idx[y]).0@ by {
                        if y == old_idx.len() {
                            assert(idx[x] == old_idx[x]);
                        } else {
                            assert(idx[x] == old_idx[x] && idx[y] == old_idx[y]);
                        }
                    }
                }
            }
            i += 1;
        }
        idx
    }

    /// The positions of the catalog's symbols named `name`, if it has any.
    pub fn lookup<'a>(index: &'a Vec<(String, Vec<usize>)>, name: &str) -> (r: Option<&'a Vec<usize>>)
        ensures
            match r {
                Some(v) => exists|a: int| 0 <= a < index.len() && index[a].0@ == name@ && #[trigger] index[a].1 == *v,
                None => forall|a: int| 0 <= a < index.len() ==> (#[trigger] index[a]).0@ != name@,
            },
    {
        let mut a: usize = 0;
        while a < index.len()
            invariant
                a <= index.len(),
                forall|b: int| 0 <= b < a ==> (#[trigger] index[b]).0@ != name@,
            decreases index.len() - a,
        {
            if crate::text::str_eq(index[a].0.as_str(), name) {
                return Some(&index[a].1);
            }
            a += 1;
        }
        None
    }
}

/// No symbol before `n` is named `name` when no key of an index of them is `name`.
proof fn lemma_positions_empty_prefix(syms: Seq<CodeSymbol>, name: Seq<char>, n: nat, idx: Seq<(String, Vec<usize>)>)
    requires
        n <= syms.len(),
        indexes(syms, idx, n),
        forall|b: int| 0 <= b < idx.len() ==> (#[trigger] idx[b]).0@ != name,
    ensures
        name_positions(syms, name, n).len() == 0,
{
    assert forall|i: int| 0 <= i < n implies (#[trigger] syms[i]).name@ != name by {
        let b = choose|b: int| 0 <= b < idx.len() && (#[trigger] idx[b]).0@ == (#[trigger] syms[i]).name@;
    }
    lemma_positions_empty(syms, name, n);
}

/// Where a resolved callee is defined: a position among the file's own symbols, or in the
/// catalog.
#[derive(Debug, Clone, Copy, PartialEq, Eq, Structural)]
pub enum SymbolSite {
    /// A position among the file's symbols.
    File(usize),
    /// A position among the catalog's symbols.
    Catalog(usize),
}

/// The name for what `Path::parent` gives for a path (on the build target's path syntax).
pub uninterp spec fn path_parent(p: Seq<char>) -> Option<Seq<char>>;

/// The name for `Path`'s `==` on two paths (on the build target's path syntax).
pub uninterp spec fn same_path(a: Seq<char>, b: Seq<char>) -> bool;

/// Calls `Path::parent` on the path spelled by `p`. The contract says only that the result
/// is determined by the characters of `p`.
#[verifier::external_body]
fn parent_of(p: &str) -> (r: Option<String>)
    ensures
        opt_view(r) == path_parent(p@),
{
    std::path::Path::new(p).parent().map(|d| d.to_string_lossy().into_owned())
}

/// Compares the paths spelled by `a` and `b` with `Path`'s `==`. The contract says only
/// that the result is determined by the two paths' characters.
#[verifier::external_body]
fn paths_equal(a: &str, b: &str) -> (r: bool)
    ensures
        r == same_path(a@, b@),
{
    std::path::Path::new(a) == std::path::Path::new(b)
}

/// The directory of a path: its parent, or the empty path.
pub open spec fn dir_of(p: Seq<char>) -> Seq<char> {
    match path_parent(p) {
        Some(d) => d,
        None => Seq::empty(),
    }
}

/// Two paths lie in the same directory.
pub open spec fn same_dir(a: Seq<char>, b: Seq<char>) -> bool {
    same_path(dir_of(a), dir_of(b))
}

/// A callee's bare name: what follows its last `::`, then its last `.`.
pub open spec fn bare_name(callee: Seq<char>) -> Seq<char> {
    after_last(after_last(callee, "::"@), "."@)
}

/// The type a call's receiver names: what the type environment knows of the trimmed
/// receiver (`known`), else, for a receiver that starts with an ASCII capital, its last `::`
/// segment. No receiver names no type.
pub open spec fn receiver_type_of(receiver: Option<Seq<char>>, known: Option<Seq<char>>) -> Option<Seq<char>> {
    match receiver {
        None => None,
        Some(rec) => match known {
            Some(t) => Some(t),
            None => {
                let rc = spec_trim(rec);
                if rc.len() > 0 && 'A' <= rc[0] && rc[0] <= 'Z' {
                    Some(after_last(rc, "::"@))
                } else {
                    None
                }
            },
        },
    }
}

/// A symbol named `name` whose scope path contains the type `ty`, when one is given.
pub open spec fn fits(s: CodeSymbol, name: Seq<char>, ty: Option<Seq<char>>) -> bool {
    &&& s.name@ == name
    &&& match ty {
        Some(t) => seq_contains(s.scope_path@, t),
        None => true,
    }
}

/// The first position from `i` on of a symbol that `fits`.
pub open spec fn first_fit(syms: Seq<CodeSymbol>, name: Seq<char>, ty: Option<Seq<char>>, i: int) -> Option<int>
    decreases syms.len() - i,
{
    if 0 <= i < syms.len() {
        if fits(syms[i], name, ty) {
            Some(i)
        } else {
            first_fit(syms, name, ty, i + 1)
        }
    } else {
        None
    }
}

/// The first of the listed catalog positions, from the `k`-th on, whose symbol's file lies in
/// the directory of `file_path`.
pub open spec fn first_in_dir(all: Seq<CodeSymbol>, list: Seq<usize>, file_path: Seq<char>, k: int) -> Option<usize>
    decreases list.len() - k,
{
    if 0 <= k < list.len() {
        if same_dir(all[list[k] as int].file_path@, file_path) {
            Some(list[k])
        } else {
            first_in_dir(all, list, file_path, k + 1)
        }
    } else {
        None
    }
}

/// The catalog positions of the symbols named `name` whose scope path contains `t`.
pub open spec fn typed_candidates(all: Seq<CodeSymbol>, name: Seq<char>, t: Seq<char>) -> Seq<usize> {
    candidates(all, name).filter(|c: usize| seq_contains(all[c as int].scope_path@, t))
}

/// Resolution guided by the receiver's type `t`: a symbol of the file named like the callee
/// whose scope contains `t`; else the only such catalog symbol; else the first of them in
/// the file's directory; else the first of them. All with high confidence.
pub open spec fn typed_resolution(
    file_path: Seq<char>,
    file_syms: Seq<CodeSymbol>,
    all: Seq<CodeSymbol>,
    name: Seq<char>,
    t: Seq<char>,
) -> Option<(SymbolSite, ResolutionConfidence)> {
    match first_fit(file_syms, name, Some(t), 0) {
        Some(i) => Some((SymbolSite::File(i as usize), ResolutionConfidence::High)),
        None => {
            let tm = typed_candidates(all, name, t);
            if tm.len() == 0 {
                None
            } else if tm.len() == 1 {
                Some((SymbolSite::Catalog(tm[0]), ResolutionConfidence::High))
            } else {
                match first_in_dir(all, tm, file_path, 0) {
                    Some(c) => Some((SymbolSite::Catalog(c), ResolutionConfidence::High)),
                    None => Some((SymbolSite::Catalog(tm[0]), ResolutionConfidence::High)),
                }
            }
        },
    }
}

/// Resolution by name alone: a symbol of the file (high); else the only catalog symbol of
/// the name (high); else the first of them in the file's directory (medium); else the first
/// of them (speculative); none when the catalog has no symbol of the name.
pub open spec fn plain_resolution(
    file_path: Seq<char>,
    file_syms: Seq<CodeSymbol>,
    all: Seq<CodeSymbol>,
    name: Seq<char>,
) -> Option<(SymbolSite, ResolutionConfidence)> {
    match first_fit(file_syms, name, None, 0) {
        Some(i) => Some((SymbolSite::File(i as usize), ResolutionConfidence::High)),
        None => {
            let cs = candidates(all, name);
            if cs.len() == 0 {
                None
            } else if cs.len() == 1 {
                Some((SymbolSite::Catalog(cs[0]), ResolutionConfidence::High))
            } else {
                match first_in_dir(all, cs, file_path, 0) {
                    Some(c) => Some((SymbolSite::Catalog(c), ResolutionConfidence::Medium)),
                    None => Some((SymbolSite::Catalog(cs[0]), ResolutionConfidence::Speculative)),
                }
            }
        },
    }
}

/// The symbol a call resolves to: type-guided when the receiver names a type and that
/// finds one, by name otherwise.
pub open spec fn resolution(
    file_path: Seq<char>,
    file_syms: Seq<CodeSymbol>,
    all: Seq<CodeSymbol>,
    receiver: Option<Seq<char>>,
    known: Option<Seq<char>>,
    callee: Seq<char>,
) -> Option<(SymbolSite, ResolutionConfidence)> {
    let name = bare_name(callee);
    let typed = match receiver_type_of(receiver, known) {
        Some(t) => typed_resolution(file_path, file_syms, all, name, t),
        None => None,
    };
    match typed {
        Some(r) => Some(r),
        None => plain_resolution(file_path, file_syms, all, name),
    }
}

/// The view of an optional string slice.
pub open spec fn opt_str(o: Option<&str>) -> Option<Seq<char>> {
    match o {
        Some(s) => Some(s@),
        None => None,
    }
}

/// The first position of a symbol that `fits`.
fn first_fit_exec(syms: &[CodeSymbol], name: &str, ty: Option<&[char]>) -> (r: Option<usize>)
    ensures
        match r {
            Some(i) => first_fit(syms@, name@, match ty { Some(t) => Some(t@), None => None }, 0) == Some(i as int),
            None => first_fit(syms@, name@, match ty { Some(t) => Some(t@), None => None }, 0) is None,
        },
{
    let ghost tv: Option<Seq<char>> = match ty {
        Some(t) => Some(t@),
        None => None,
    };
    let mut i: usize = 0;
    while i < syms.len()
        invariant
            i <= syms.len(),
            tv == match ty {
                Some(t) => Some(t@),
                None => None::<Seq<char>>,
            },
            first_fit(syms@, name@, tv, 0) == first_fit(syms@, name@, tv, i as int),
        decreases syms.len() - i,
    {
        let named = crate::text::str_eq(syms[i].name.as_str(), name);
        let typed = match ty {
            Some(t) => chars_contains(str_chars(syms[i].scope_path.as_str()).as_slice(), t),
            None => true,
        };
        if named && typed {
            return Some(i);
        }
        i += 1;
    }
    None
}

/// The directory of a path.
fn dir_string(p: &str) -> (r: String)
    ensures
        r@ == dir_of(p@),
{
    match parent_of(p) {
        Some(d) => d,
        None => String::new(),
    }
}

/// The first listed catalog position whose symbol's file lies in the directory of
/// `file_path`.
fn first_in_dir_exec(all: &[CodeSymbol], list: &[usize], file_path: &str) -> (r: Option<usize>)
    requires
        forall|k: int| 0 <= k < list.len() ==> #[trigger] list[k] < all.len(),
    ensures
        r == first_in_dir(all@, list@, file_path@, 0),
{
    let file_dir = dir_string(file_path);
    let mut k: usize = 0;
    while k < list.len()
        invariant
            k <= list.len(),
            file_dir@ == dir_of(file_path@),
            forall|j: int| 0 <= j < list.len() ==> #[trigger] list[j] < all.len(),
            first_in_dir(all@, list@, file_path@, 0) == first_in_dir(all@, list@, file_path@, k as int),
        decreases list.len() - k,
    {
        let d = dir_string(all[list[k]].file_path.as_str());
        if paths_equal(d.as_str(), file_dir.as_str()) {
            return Some(list[k]);
        }
        k += 1;
    }
    None
}

/// The catalog positions of the symbols named `name`.
fn catalog_candidates(all: &[CodeSymbol], index: &Vec<(String, Vec<usize>)>, name: &str) -> (r: Vec<usize>)
    requires
        indexes(all@, index@, all@.len()),
    ensures
        r@ == candidates(all@, name@),
{
    match CodeGraphExtractor::lookup(index, name) {
        Some(v) => {
            let c = v.clone();
            assert(c@ =~= v@);
            c
        },
        None => {
            proof {
                lemma_positions_empty_prefix(all@, name@, all@.len(), index@);
            }
            Vec::new()
        },
    }
}

/// The listed positions whose symbols' scope paths contain `t`.
fn typed_filter(all: &[CodeSymbol], list: &Vec<usize>, t: &[char]) -> (r: Vec<usize>)
    requires
        forall|k: int| 0 <= k < list.len() ==> #[trigger] list[k] < all.len(),
    ensures
        r@ == list@.filter(|c: usize| seq_contains(all@[c as int].scope_path@, t@)),
{
    let ghost pred = |c: usize| seq_contains(all@[c as int].scope_path@, t@);
    let mut out: Vec<usize> = Vec::new();
    let mut k: usize = 0;
    while k < list.len()
        invariant
            k <= list.len(),
            forall|j: int| 0 <= j < list.len() ==> #[trigger] list[j] < all.len(),
            pred == (|c: usize| seq_contains(all@[c as int].scope_path@, t@)),
            out@ == list@.take(k as int).filter(pred),
        decreases list.len() - k,
    {
        let c = list[k];
        let keep = chars_contains(str_chars(all[c].scope_path.as_str()).as_slice(), t);
        proof {
            reveal_with_fuel(Seq::<usize>::filter, 1);
            assert(list@.take(k + 1).drop_last() =~= list@.take(k as int));
            assert(list@.take(k + 1).last() == c);
        }
        if keep {
            out.push(c);
        }
        k += 1;
    }
    assert(list@.take(list.len() as int) =~= list@);
    out
}

/// The type a receiver names (see `receiver_type_of`), as characters.
fn receiver_type(receiver: Option<&str>, known_type: Option<&str>) -> (r: Option<Vec<char>>)
    ensures
        match r {
            Some(t) => receiver_type_of(opt_str(receiver), opt_str(known_type)) == Some(t@),
            None => receiver_type_of(opt_str(receiver), opt_str(known_type)) is None,
        },
{
    match receiver {
        None => None,
        Some(rec) => match known_type {
            Some(t) => Some(str_chars(t)),
            None => {
                let rc = chars_trim(str_chars(rec).as_slice());
                if rc.len() > 0 && 'A' <= rc[0] && rc[0] <= 'Z' {
                    let sep = str_chars("::");
                    proof {
                        reveal_strlit("::");
                    }
                    Some(chars_after_last(rc.as_slice(), sep.as_slice()))
                } else {
                    None
                }
            },
        },
    }
}

impl CodeGraphExtractor {
    /// Resolves a call's callee to a symbol and a confidence band. `known_type` is what the
    /// file's type environment knows of the trimmed receiver. With a receiver that names a
    /// type, a symbol of the callee's bare name whose scope path contains the type is looked
    /// for, first among the file's symbols, then in the catalog (preferring the file's
    /// directory); failing that, or without such a type, the bare name alone is looked up
    /// the same way, with lower confidence for a directory match or a mere first candidate.
    pub fn resolve_callee(
        file_path: &str,
        file_symbols: &[CodeSymbol],
        all_symbols: &[CodeSymbol],
        index: &Vec<(String, Vec<usize>)>,
        receiver: Option<&str>,
        known_type: Option<&str>,
        callee: &str,
    ) -> (r: Option<(SymbolSite, ResolutionConfidence)>)
        requires
            indexes(all_symbols@, index@, all_symbols@.len()),
        ensures
            r == resolution(file_path@, file_symbols@, all_symbols@, opt_str(receiver), opt_str(known_type), callee@),
    {
        let sep = str_chars("::");
        let dot = str_chars(".");
        proof {
            reveal_strlit("::");
            reveal_strlit(".");
        }
        let cc = str_chars(callee);
        let n1 = chars_after_last(cc.as_slice(), sep.as_slice());
        let name_chars = chars_after_last(n1.as_slice(), dot.as_slice());
        let name = string_from_chars(name_chars.as_slice());
        let ghost nm = bare_name(callee@);
        assert(name@ == nm);
        let cands = catalog_candidates(all_symbols, index, name.as_str());
        let total = all_symbols.len();
        proof {
            assert(all_symbols@.len() == total);
            lemma_positions_bounded(all_symbols@, nm, all_symbols@.len());
        }
        let ty = receiver_type(receiver, known_type);
        if let Some(t) = &ty {
            let ghost tv = t@;
            if let Some(i) = first_fit_exec(file_symbols, name.as_str(), Some(t.as_slice())) {
                return Some((SymbolSite::File(i), ResolutionConfidence::High));
            }
            let tm = typed_filter(all_symbols, &cands, t.as_slice());
            proof {
                assert forall|k: int| 0 <= k < tm.len() implies #[trigger] tm[k] < all_symbols.len() by {
                    assert(tm@.contains(tm@[k]));
                    cands@.lemma_filter_contains_rev(|c: usize| seq_contains(all_symbols@[c as int].scope_path@, tv), tm@[k]);
                    let j = choose|j: int| 0 <= j < cands@.len() && cands@[j] == tm@[k];
                    assert(cands@[j] < all_symbols.len());
                }
                assert(tm@ == typed_candidates(all_symbols@, nm, tv));
            }
            if tm.len() == 1 {
                return Some((SymbolSite::Catalog(tm[0]), ResolutionConfidence::High));
            }
            if tm.len() > 1 {
                return match first_in_dir_exec(all_symbols, tm.as_slice(), file_path) {
                    Some(c) => Some((SymbolSite::Catalog(c), ResolutionConfidence::High)),
                    None => Some((SymbolSite::Catalog(tm[0]), ResolutionConfidence::High)),
                };
            }
        }
        if let Some(i) = first_fit_exec(file_symbols, name.as_str(), None) {
            return Some((SymbolSite::File(i), ResolutionConfidence::High));
        }
        if cands.len() == 0 {
            return None;
        }
        if cands.len() == 1 {
            return Some((SymbolSite::Catalog(cands[0]), ResolutionConfidence::High));
        }
        match first_in_dir_exec(all_symbols, cands.as_slice(), file_path) {
            Some(c) => Some((SymbolSite::Catalog(c), ResolutionConfidence::Medium)),
            None => Some((SymbolSite::Catalog(cands[0]), ResolutionConfidence::Speculative)),
        }
    }
}

/// Weight of a `defines` edge: `1.0`.
pub const DEFINES_WEIGHT_BITS: u32 = 0x3f80_0000u32;

/// Weight of a resolved `calls` edge: `0.8`.
pub const RESOLVED_CALL_WEIGHT_BITS: u32 = 0x3f4c_cccdu32;

/// Weight of an unresolved `calls` edge: `0.5`.
pub const UNRESOLVED_CALL_WEIGHT_BITS: u32 = 0x3f00_0000u32;

/// The pairs of a list of string pairs, as characters.
pub open spec fn pairs_view(v: Seq<(String, String)>) -> Seq<(Seq<char>, Seq<char>)> {
    v.map_values(|p: (String, String)| (p.0@, p.1@))
}

/// The target of a call edge: the resolved symbol's scope path; else `receiver.callee` for
/// a non-empty receiver; else the callee.
pub open spec fn call_target(receiver: Option<Seq<char>>, callee: Seq<char>, resolved: Option<Seq<char>>) -> Seq<char> {
    match resolved {
        Some(scope) => scope,
        None => match receiver {
            Some(rec) => if rec.len() > 0 {
                rec + "."@ + callee
            } else {
                callee
            },
            None => callee,
        },
    }
}

/// The scope path of a resolution.
pub open spec fn resolved_scope(r: Option<(String, ResolutionConfidence)>) -> Option<Seq<char>> {
    match r {
        Some(p) => Some(p.0@),
        None => None,
    }
}

/// The confidence of a resolution.
pub open spec fn resolved_confidence(r: Option<(String, ResolutionConfidence)>) -> Option<ResolutionConfidence> {
    match r {
        Some(p) => Some(p.1),
        None => None,
    }
}

/// `e` is the `calls` edge from `caller` to `target`, resolved with `confidence` or not.
pub open spec fn is_call_edge(e: Edge, caller: Seq<char>, target: Seq<char>, resolved: Option<ResolutionConfidence>) -> bool {
    &&& e.source@ == caller
    &&& e.target@ == target
    &&& e.edge_type@ == "calls"@
    &&& e.provenance == EdgeProvenance::CodeCalls
    &&& e.target_corpus is None
    &&& match resolved {
        Some(c) => e.weight_bits == RESOLVED_CALL_WEIGHT_BITS && e.confidence == Some(c),
        None => e.weight_bits == UNRESOLVED_CALL_WEIGHT_BITS && e.confidence == Some(ResolutionConfidence::Speculative),
    }
}

/// `e` is the `defines` edge from the file at `file_path` to the symbol `s`.
pub open spec fn is_defines_edge(e: Edge, file_path: Seq<char>, s: CodeSymbol) -> bool {
    &&& e.source@ == normalize_slashes(file_path)
    &&& e.target@ == s.scope_path@
    &&& e.edge_type@ == "defines"@
    &&& e.weight_bits == DEFINES_WEIGHT_BITS
    &&& e.provenance == EdgeProvenance::CodeDefines
    &&& e.target_corpus is None
    &&& e.confidence == Some(ResolutionConfidence::High)
}

/// A path with backslashes turned into slashes.
fn slashed(path: &str) -> (r: String)
    ensures
        r@ == normalize_slashes(path@),
{
    let chars = str_chars(path);
    let mut out: Vec<char> = Vec::new();
    let mut i: usize = 0;
    while i < chars.len()
        invariant
            i <= chars@.len(),
            out@ == normalize_slashes(chars@.take(i as int)),
        decreases chars.len() - i,
    {
        out.push(if chars[i] == '\\' { '/' } else { chars[i] });
        i += 1;
        assert(out@ =~= normalize_slashes(chars@.take(i as int)));
    }
    assert(chars@.take(chars@.len() as int) =~= chars@);
    string_from_chars(out.as_slice())
}

impl CodeGraphExtractor {
    /// The `defines` edges of a file: one per symbol, in order, from the file's path (with
    /// backslashes read as slashes) to the symbol's scope path.
    pub fn defines_edges(file_path: &str, file_symbols: &[CodeSymbol]) -> (r: Vec<Edge>)
        ensures
            r.len() == file_symbols.len(),
            forall|k: int| 0 <= k < r.len() ==> is_defines_edge(#[trigger] r[k], file_path@, file_symbols[k]),
    {
        let source = slashed(file_path);
        let mut edges: Vec<Edge> = Vec::new();
        let mut k: usize = 0;
        while k < file_symbols.len()
            invariant
                k <= file_symbols.len(),
                source@ == normalize_slashes(file_path@),
                edges.len() == k,
                forall|j: int| 0 <= j < k ==> is_defines_edge(#[trigger] edges[j], file_path@, file_symbols[j]),
            decreases file_symbols.len() - k,
        {
            let edge_type = String::from_str("defines");
            proof {
                reveal_strlit("defines");
            }
            edges.push(
                Edge {
                    source: source.clone(),
                    target: file_symbols[k].scope_path.clone(),
                    edge_type,
                    weight_bits: DEFINES_WEIGHT_BITS,
                    provenance: EdgeProvenance::CodeDefines,
                    target_corpus: None,
                    confidence: Some(ResolutionConfidence::High),
                },
            );
            k += 1;
        }
        edges
    }

    /// The `calls` edge of a call made by `caller`: to the resolved symbol's scope path, with
    /// its confidence and weight 0.8, or, unresolved, to `receiver.callee` (or the callee),
    /// speculative with weight 0.5. Each (caller, target) pair gives one edge per file, kept
    /// in `visited`, and a caller calling itself gives none.
    pub fn call_edge(
        caller: &str,
        receiver: Option<&str>,
        callee: &str,
        resolved: Option<(String, ResolutionConfidence)>,
        visited: &mut Vec<(String, String)>,
    ) -> (r: Option<Edge>)
        ensures
            ({
                let target = call_target(opt_str(receiver), callee@, resolved_scope(resolved));
                &&& r is Some <==> !pairs_view(old(visited)@).contains((caller@, target)) && caller@ != target
                &&& r matches Some(e) ==> is_call_edge(e, caller@, target, resolved_confidence(resolved))
                &&& pairs_view(final(visited)@) == if r is Some {
                    pairs_view(old(visited)@).push((caller@, target))
                } else {
                    pairs_view(old(visited)@)
                }
            }),
    {
        let (target, weight_bits, confidence) = match resolved {
            Some((scope, c)) => (scope, RESOLVED_CALL_WEIGHT_BITS, c),
            None => {
                let t = match receiver {
                    Some(rec) => if str_chars(rec).len() > 0 {
                        let mut v = str_chars(rec);
                        v.push('.');
                        let mut cs = str_chars(callee);
                        v.append(&mut cs);
                        proof {
                            reveal_strlit(".");
                            assert(v@ =~= rec@ + "."@ + callee@);
                        }
                        string_from_chars(v.as_slice())
                    } else {
                        String::from_str(callee)
                    },
                    None => String::from_str(callee),
                };
                (t, UNRESOLVED_CALL_WEIGHT_BITS, ResolutionConfidence::Speculative)
            },
        };
        let ghost tv = call_target(opt_str(receiver), callee@, resolved_scope(resolved));
        assert(target@ == tv);
        let ghost before = pairs_view(visited@);
        let mut k: usize = 0;
        while k < visited.len()
            invariant
                k <= visited.len(),
                before == pairs_view(visited@),
                before == pairs_view(old(visited)@),
                tv == call_target(opt_str(receiver), callee@, resolved_scope(resolved)),
                target@ == tv,
                forall|j: int| 0 <= j < k ==> before[j] != (caller@, tv),
            decreases visited.len() - k,
        {
            assert(before[k as int] == (visited@[k as int].0@, visited@[k as int].1@));
            if crate::text::str_eq(visited[k].0.as_str(), caller) && crate::text::string_eq(&visited[k].1, &target) {
                assert(before[k as int] == (caller@, tv));
                assert(before.contains((caller@, tv)));
                return None;
            }
            k += 1;
        }
        if crate::text::str_eq(caller, target.as_str()) {
            return None;
        }
        visited.push((String::from_str(caller), target.clone()));
        assert(pairs_view(visited@) =~= before.push((caller@, tv)));
        let edge_type = String::from_str("calls");
        proof {
            reveal_strlit("calls");
        }
        Some(
            Edge {
                source: String::from_str(caller),
                target,
                edge_type,
                weight_bits,
                provenance: EdgeProvenance::CodeCalls,
                target_corpus: None,
                confidence: Some(confidence),
            },
        )
    }
}

} // verus!
