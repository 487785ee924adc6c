//! Import statements in source code: which module, package or file an import names, and
//! which short name it binds, for each supported language.
//!
//! A syntax node is read as plain values: its kind, its text, and (for JavaScript and
//! TypeScript) the text of its `source` field.
use vstd::prelude::*;

use crate::languages::SupportedLanguage;
use crate::search::{byte_len, chars_byte_len, chars_trim, spec_trim};
use crate::text::{chars_occur_at, chars_slice, chars_starts_with, occurs_at, seq_starts_with, str_chars, string_from_chars};

verus! {

/// An import found in a syntax node.
#[derive(Debug, Clone)]
pub struct ImportFound {
    /// What the import names: a module path, a package or a file.
    pub target: String,
    /// The short name the import binds, with the path it stands for.
    pub binding: Option<(String, String)>,
}

/// Drops every leading `c` (`str::trim_start_matches`).
pub open spec fn trim_start_char(s: Seq<char>, c: char) -> Seq<char>
    decreases s.len(),
{
    if s.len() > 0 && s[0] == c {
        trim_start_char(s.drop_first(), c)
    } else {
        s
    }
}

/// Drops every trailing `c` (`str::trim_end_matches`).
pub open spec fn trim_end_char(s: Seq<char>, c: char) -> Seq<char>
    decreases s.len(),
{
    if s.len() > 0 && s.last() == c {
        trim_end_char(s.drop_last(), c)
    } else {
        s
    }
}

/// Drops every `c` at both ends (`str::trim_matches`).
pub open spec fn trim_char(s: Seq<char>, c: char) -> Seq<char> {
    trim_end_char(trim_start_char(s, c), c)
}

/// What follows `prefix`, when `s` begins with it (`str::strip_prefix`).
pub open spec fn strip_prefix(s: Seq<char>, prefix: Seq<char>) -> Option<Seq<char>> {
    if seq_starts_with(s, prefix) {
        Some(s.skip(prefix.len() as int))
    } else {
        None
    }
}

/// The last position below `n` at which `pat` occurs in `s`.
pub open spec fn last_occurrence_below(s: Seq<char>, pat: Seq<char>, n: nat) -> Option<int>
    decreases n,
{
    if n == 0 {
        None
    } else if occurs_at(s, pat, n - 1) {
        Some(n - 1)
    } else {
        last_occurrence_below(s, pat, (n - 1) as nat)
    }
}

/// What follows the last occurrence of `sep`, or all of `s` (`str::rsplit(..).next()`).
pub open spec fn after_last(s: Seq<char>, sep: Seq<char>) -> Seq<char> {
    match last_occurrence_below(s, sep, s.len() + 1) {
        Some(i) => s.skip(i + sep.len()),
        None => s,
    }
}

/// A cleaned import line of a language without a dedicated rule: the text without
/// surrounding space and trailing semicolons, without an `import `, `#include `, `include `
/// or `using ` keyword, and without surrounding quotes and angle brackets.
pub open spec fn generic_import(text: Seq<char>) -> Seq<char> {
    let t = spec_trim(trim_end_char(spec_trim(text), ';'));
    let body = match strip_prefix(t, "import "@) {
        Some(r) => r,
        None => match strip_prefix(t, "#include "@) {
            Some(r) => r,
            None => match strip_prefix(t, "include "@) {
                Some(r) => r,
                None => match strip_prefix(t, "using "@) {
                    Some(r) => r,
                    None => t,
                },
            },
        },
    };
    trim_char(trim_char(trim_char(spec_trim(body), '"'), '<'), '>')
}

/// The import a syntax node makes, as `(target, binding)`:
/// - Rust `use_declaration`: the path after `use `, binding its last `::` segment;
/// - JavaScript / TypeScript `import_statement`: the unquoted `source` field;
/// - Python `import_statement` / `import_from_statement`: the whole statement;
/// - Go `import_spec`: the unquoted path, binding its last `/` segment;
/// - any other language, any node: the cleaned line, when it is not empty and shorter than
///   200 bytes.
pub open spec fn import_of(
    language: SupportedLanguage,
    kind: Seq<char>,
    text: Seq<char>,
    source: Option<Seq<char>>,
) -> Option<(Seq<char>, Option<(Seq<char>, Seq<char>)>)> {
    match language {
        SupportedLanguage::Rust => if kind == "use_declaration"@ {
            match strip_prefix(spec_trim(trim_end_char(spec_trim(text), ';')), "use "@) {
                Some(rest) => {
                    let target = spec_trim(rest);
                    Some((target, Some((after_last(target, "::"@), target))))
                },
                None => None,
            }
        } else {
            None
        },
        SupportedLanguage::TypeScript | SupportedLanguage::Tsx | SupportedLanguage::JavaScript => if kind
            == "import_statement"@ {
            match source {
                Some(src) => Some((trim_char(trim_char(spec_trim(src), '"'), '\''), None)),
                None => None,
            }
        } else {
            None
        },
        SupportedLanguage::Python => if kind == "import_statement"@ || kind == "import_from_statement"@ {
            Some((spec_trim(text), None))
        } else {
            None
        },
        SupportedLanguage::Go => if kind == "import_spec"@ {
            let path = trim_char(spec_trim(text), '"');
            Some((path, Some((after_last(path, "/"@), path))))
        } else {
            None
        },
        _ => {
            let clean = generic_import(text);
            if clean.len() > 0 && byte_len(clean) < 200 {
                Some((clean, None))
            } else {
                None
            }
        },
    }
}

/// The view of a found import.
pub open spec fn found_view(f: ImportFound) -> (Seq<char>, Option<(Seq<char>, Seq<char>)>) {
    (
        f.target@,
        match f.binding {
            Some(b) => Some((b.0@, b.1@)),
            None => None,
        },
    )
}

/// Drops every leading `c`.
fn chars_trim_start_char(s: &[char], c: char) -> (r: Vec<char>)
    ensures
        r@ == trim_start_char(s@, c),
{
    let mut a: usize = 0;
    assert(s@.skip(0) =~= s@);
    while a < s.len() && s[a] == c
        invariant
            a <= s.len(),
            trim_start_char(s@, c) == trim_start_char(s@.skip(a as int), c),
        decreases s.len() - a,
    {
        assert(s@.skip(a as int).drop_first() =~= s@.skip(a + 1));
        a += 1;
    }
    let r = chars_slice(s, a, s.len());
    assert(r@ =~= s@.skip(a as int));
    r
}

/// Drops every trailing `c`.
pub(crate) fn chars_trim_end_char(s: &[char], c: char) -> (r: Vec<char>)
    ensures
        r@ == trim_end_char(s@, c),
{
    let mut b: usize = s.len();
    assert(s@.take(s.len() as int) =~= s@);
    while b > 0 && s[b - 1] == c
        invariant
            b <= s.len(),
            trim_end_char(s@, c) == trim_end_char(s@.take(b as int), c),
        decreases b,
    {
        assert(s@.take(b as int).drop_last() =~= s@.take(b - 1));
        b -= 1;
    }
    let r = chars_slice(s, 0, b);
    assert(r@ =~= s@.take(b as int));
    r
}

/// Drops every `c` at both ends.
fn chars_trim_char(s: &[char], c: char) -> (r: Vec<char>)
    ensures
        r@ == trim_char(s@, c),
{
    let t = chars_trim_start_char(s, c);
    chars_trim_end_char(t.as_slice(), c)
}

/// What follows `prefix`, when `s` begins with it.
fn chars_strip_prefix(s: &[char], prefix: &[char]) -> (r: Option<Vec<char>>)
    ensures
        match r {
            Some(v) => strip_prefix(s@, prefix@) == Some(v@),
            None => strip_prefix(s@, prefix@) is None,
        },
{
    if chars_starts_with(s, prefix) {
        let v = chars_slice(s, prefix.len(), s.len());
        assert(v@ =~= s@.skip(prefix.len() as int));
        Some(v)
    } else {
        None
    }
}

/// What follows the last occurrence of `sep` in `s`, or all of `s`.
pub(crate) fn chars_after_last(s: &[char], sep: &[char]) -> (r: Vec<char>)
    ensures
        r@ == after_last(s@, sep@),
{
    let mut n: usize = s.len();
    // Positions past the end hold no occurrence.
    assert(!occurs_at(s@, sep@, s.len() as int) || sep@.len() == 0);
    if sep.len() == 0 {
        assert(occurs_at(s@, sep@, s.len() as int)) by {
            assert(s@.subrange(s.len() as int, s.len() as int) =~= sep@);
        }
        let v = chars_slice(s, s.len(), s.len());
        assert(v@ =~= s@.skip(s.len() as int));
        return v;
    }
    assert(last_occurrence_below(s@, sep@, (s.len() + 1) as nat) == last_occurrence_below(s@, sep@, s.len() as nat));
    loop
        invariant
            n <= s.len(),
            after_last(s@, sep@) == match last_occurrence_below(s@, sep@, n as nat) {
                Some(i) => s@.skip(i + sep@.len()),
                None => s@,
            },
        decreases n,
    {
        if n == 0 {
            return chars_slice(s, 0, s.len());
        }
        if chars_occur_at(s, sep, n - 1) {
            let v = chars_slice(s, n - 1 + sep.len(), s.len());
            assert(v@ =~= s@.skip(n - 1 + sep@.len()));
            return v;
        }
        n -= 1;
    }
}

/// The byte length of `s` is below 200.
fn chars_short(s: &[char]) -> (b: bool)
    ensures
        b == (byte_len(s@) < 200),
{
    chars_byte_len(s) < 200
}

/// Builds a found import.
fn found(target: &[char], binding: Option<(&[char], &[char])>) -> (f: ImportFound)
    ensures
        found_view(f) == (
            target@,
            match binding {
                Some(b) => Some((b.0@, b.1@)),
                None => None,
            },
        ),
{
    let b = match binding {
        Some((sym, path)) => Some((string_from_chars(sym), string_from_chars(path))),
        None => None,
    };
    ImportFound { target: string_from_chars(target), binding: b }
}

/// The cleaned line of an import without a dedicated rule.
fn generic_import_exec(text: &[char]) -> (r: Vec<char>)
    ensures
        r@ == generic_import(text@),
{
    let t0 = chars_trim(text);
    let t1 = chars_trim_end_char(t0.as_slice(), ';');
    let t = chars_trim(t1.as_slice());
    let kw_import = str_chars("import ");
    let kw_hash_include = str_chars("#include ");
    let kw_include = str_chars("include ");
    let kw_using = str_chars("using ");
    let body = match chars_strip_prefix(t.as_slice(), kw_import.as_slice()) {
        Some(r) => r,
        None => match chars_strip_prefix(t.as_slice(), kw_hash_include.as_slice()) {
            Some(r) => r,
            None => match chars_strip_prefix(t.as_slice(), kw_include.as_slice()) {
                Some(r) => r,
                None => match chars_strip_prefix(t.as_slice(), kw_using.as_slice()) {
                    Some(r) => r,
                    None => t,
                },
            },
        },
    };
    let b = chars_trim(body.as_slice());
    let q = chars_trim_char(b.as_slice(), '"');
    let l = chars_trim_char(q.as_slice(), '<');
    chars_trim_char(l.as_slice(), '>')
}

/// Extract the import that a syntax node of `language` makes, from the node's kind, its
/// text and (for JavaScript and TypeScript) the text of its `source` field.
pub fn extract_import(language: SupportedLanguage, kind: &str, text: &str, source: Option<&str>) -> (r: Option<ImportFound>)
    ensures
        match r {
            Some(f) => import_of(language, kind@, text@, match source {
                Some(s) => Some(s@),
                None => None,
            }) == Some(found_view(f)),
            None => import_of(language, kind@, text@, match source {
                Some(s) => Some(s@),
                None => None,
            }) is None,
        },
{
    let tc = str_chars(text);
    match language {
        SupportedLanguage::Rust => {
            if !crate::text::str_eq(kind, "use_declaration") {
                return None;
            }
            let t0 = chars_trim(tc.as_slice());
            let t1 = chars_trim_end_char(t0.as_slice(), ';');
            let t = chars_trim(t1.as_slice());
            let kw = str_chars("use ");
            match chars_strip_prefix(t.as_slice(), kw.as_slice()) {
                Some(rest) => {
                    let target = chars_trim(rest.as_slice());
                    let sep = str_chars("::");
                    let sym = chars_after_last(target.as_slice(), sep.as_slice());
                    Some(found(target.as_slice(), Some((sym.as_slice(), target.as_slice()))))
                },
                None => None,
            }
        },
        SupportedLanguage::TypeScript | SupportedLanguage::Tsx | SupportedLanguage::JavaScript => {
            if !crate::text::str_eq(kind, "import_statement") {
                return None;
            }
            match source {
                Some(src) => {
                    let sc = str_chars(src);
                    let t = chars_trim(sc.as_slice());
                    let q = chars_trim_char(t.as_slice(), '"');
                    let raw = chars_trim_char(q.as_slice(), '\'');
                    Some(found(raw.as_slice(), None))
                },
                None => None,
            }
        },
        SupportedLanguage::Python => {
            if !crate::text::str_eq(kind, "import_statement") && !crate::text::str_eq(kind, "import_from_statement") {
                return None;
            }
            let t = chars_trim(tc.as_slice());
            Some(found(t.as_slice(), None))
        },
        SupportedLanguage::Go => {
            if !crate::text::str_eq(kind, "import_spec") {
                return None;
            }
            let t = chars_trim(tc.as_slice());
            let path = chars_trim_char(t.as_slice(), '"');
            let slash = str_chars("/");
            let pkg = chars_after_last(path.as_slice(), slash.as_slice());
            Some(found(path.as_slice(), Some((pkg.as_slice(), path.as_slice()))))
        },
        _ => {
            let clean = generic_import_exec(tc.as_slice());
            if clean.len() > 0 && chars_short(clean.as_slice()) {
                Some(found(clean.as_slice(), None))
            } else {
                None
            }
        },
    }
}

} // verus!
