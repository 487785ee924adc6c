//! Call sites and trait implementations in source code: the receiver and the name of the
//! called function, read from a call node of any supported language, and the type and trait
//! of a Rust `impl` block.
//!
//! A syntax node is read as plain values: its kind, the nodes of its named fields and its
//! first child, each with its kind, its text and the texts of its own named fields.
use vstd::prelude::*;

use crate::imports::last_occurrence_below;
use crate::languages::SupportedLanguage;
use crate::search::{chars_trim, spec_trim};
use crate::text::{chars_occur_at, chars_slice, str_chars, string_from_chars};

verus! {

/// A node below a call node: its kind, its text, and the texts of its named fields (a name
/// may repeat; the first one counts).
#[derive(Debug, Clone)]
pub struct SubNode {
    /// The node kind.
    pub kind: String,
    /// The node's source text.
    pub text: String,
    /// `(field name, text of the field's node)`.
    pub fields: Vec<(String, String)>,
}

/// A call node: its kind, the nodes of its named fields, and its first child.
#[derive(Debug, Clone)]
pub struct CallNode {
    /// The node kind.
    pub kind: String,
    /// `(field name, the field's node)`.
    pub fields: Vec<(String, SubNode)>,
    /// The node's first child.
    pub first_child: Option<SubNode>,
}

/// The text of the first field named `name`.
pub open spec fn field_text(fs: Seq<(String, String)>, name: Seq<char>) -> Option<Seq<char>>
    decreases fs.len(),
{
    if fs.len() == 0 {
        None
    } else if fs[0].0@ == name {
        Some(fs[0].1@)
    } else {
        field_text(fs.drop_first(), name)
    }
}

/// The node of the first field named `name`.
pub open spec fn field_node(fs: Seq<(String, SubNode)>, name: Seq<char>) -> Option<SubNode>
    decreases fs.len(),
{
    if fs.len() == 0 {
        None
    } else if fs[0].0@ == name {
        Some(fs[0].1)
    } else {
        field_node(fs.drop_first(), name)
    }
}

/// A trimmed optional text.
pub open spec fn trimmed_opt(t: Option<Seq<char>>) -> Option<Seq<char>> {
    match t {
        Some(s) => Some(spec_trim(s)),
        None => None,
    }
}

/// `(receiver, name)` from a required name field and an optional receiver field of `fs`.
pub open spec fn named_part(fs: Seq<(String, String)>, name: Seq<char>, receiver: Option<Seq<char>>) -> Option<(Option<Seq<char>>, Seq<char>)> {
    match field_text(fs, name) {
        Some(n) => Some((trimmed_opt(receiver), spec_trim(n))),
        None => None,
    }
}

/// Splits at the last occurrence of `sep` (`str::rsplit_once`).
pub open spec fn split_last(s: Seq<char>, sep: Seq<char>) -> Option<(Seq<char>, Seq<char>)> {
    match last_occurrence_below(s, sep, s.len() + 1) {
        Some(i) => Some((s.take(i), s.skip(i + sep.len()))),
        None => None,
    }
}

/// The parts of a call through a function node whose kind has no dedicated field rule: its
/// text split at the last `.`, else the last `::`, else the last `->`, or the whole name.
pub open spec fn text_parts(full: Seq<char>) -> Option<(Option<Seq<char>>, Seq<char>)> {
    match split_last(full, "."@) {
        Some((r, m)) => Some((Some(spec_trim(r)), spec_trim(m))),
        None => match split_last(full, "::"@) {
            Some((r, m)) => Some((Some(spec_trim(r)), spec_trim(m))),
            None => match split_last(full, "->"@) {
                Some((r, m)) => Some((Some(spec_trim(r)), spec_trim(m))),
                None => if full.len() > 0 {
                    Some((None, full))
                } else {
                    None
                },
            },
        },
    }
}

/// The parts of a call through the function node `f`.
pub open spec fn function_parts(f: SubNode) -> Option<(Option<Seq<char>>, Seq<char>)> {
    let fs = f.fields@;
    let k = f.kind@;
    if k == "field_expression"@ {
        named_part(
            fs,
            "field"@,
            match field_text(fs, "value"@) {
                Some(v) => Some(v),
                None => field_text(fs, "argument"@),
            },
        )
    } else if k == "scoped_identifier"@ {
        named_part(fs, "name"@, field_text(fs, "path"@))
    } else if k == "member_expression"@ {
        named_part(fs, "property"@, field_text(fs, "object"@))
    } else if k == "attribute"@ {
        named_part(fs, "attribute"@, field_text(fs, "value"@))
    } else if k == "selector_expression"@ {
        named_part(fs, "field"@, field_text(fs, "operand"@))
    } else if k == "identifier"@ || k == "property_identifier"@ {
        Some((None, spec_trim(f.text@)))
    } else {
        text_parts(spec_trim(f.text@))
    }
}

/// The texts of the named fields of a call node's field nodes.
pub open spec fn own_field_texts(fs: Seq<(String, SubNode)>) -> Seq<(String, String)> {
    fs.map_values(|p: (String, SubNode)| (p.0, p.1.text))
}

/// `(receiver, name)` of a call node, if it is a call this reads:
/// - `method_call_expression` (Rust) and `method_invocation` (Java): the `name` field, with
///   the `receiver` or `object` field;
/// - `call_expression`, `call`, `function_call`: through the `function` field (or else the
///   first child), by the function node's kind;
/// - `invocation_expression` (C#) through a `member_access_expression`: its `name` and
///   `expression` fields.
pub open spec fn call_parts(c: CallNode) -> Option<(Option<Seq<char>>, Seq<char>)> {
    let k = c.kind@;
    let ft = own_field_texts(c.fields@);
    if k == "method_call_expression"@ {
        named_part(ft, "name"@, field_text(ft, "receiver"@))
    } else if k == "method_invocation"@ {
        named_part(ft, "name"@, field_text(ft, "object"@))
    } else if k == "call_expression"@ || k == "call"@ || k == "function_call"@ {
        match field_node(c.fields@, "function"@) {
            Some(f) => function_parts(f),
            None => match c.first_child {
                Some(f) => function_parts(f),
                None => None,
            },
        }
    } else if k == "invocation_expression"@ {
        match field_node(c.fields@, "expression"@) {
            Some(e) => if e.kind@ == "member_access_expression"@ {
                named_part(e.fields@, "name"@, field_text(e.fields@, "expression"@))
            } else {
                None
            },
            None => None,
        }
    } else {
        None
    }
}

/// The view of extracted call parts.
pub open spec fn parts_view(r: Option<(Option<String>, String)>) -> Option<(Option<Seq<char>>, Seq<char>)> {
    match r {
        Some((rec, name)) => Some(
            (
                match rec {
                    Some(x) => Some(x@),
                    None => None,
                },
                name@,
            ),
        ),
        None => None,
    }
}

/// The text of the first field named `name`.
pub(crate) fn find_text<'a>(fs: &'a Vec<(String, String)>, name: &str) -> (r: Option<&'a String>)
    ensures
        match r {
            Some(t) => field_text(fs@, name@) == Some(t@),
            None => field_text(fs@, name@) is None,
        },
{
    let mut i: usize = 0;
    assert(fs@.skip(0) =~= fs@);
    while i < fs.len()
        invariant
            i <= fs.len(),
            field_text(fs@, name@) == field_text(fs@.skip(i as int), name@),
        decreases fs.len() - i,
    {
        assert(fs@.skip(i as int).drop_first() =~= fs@.skip(i + 1));
        assert(fs@.skip(i as int)[0] == fs@[i as int]);
        if crate::text::str_eq(fs[i].0.as_str(), name) {
            return Some(&fs[i].1);
        }
        i += 1;
    }
    assert(fs@.skip(i as int) =~= Seq::<(String, String)>::empty());
    None
}

/// The node of the first field named `name`.
fn find_node<'a>(fs: &'a Vec<(String, SubNode)>, name: &str) -> (r: Option<&'a SubNode>)
    ensures
        match r {
            Some(t) => field_node(fs@, name@) == Some(*t),
            None => field_node(fs@, name@) is None,
        },
{
    let mut i: usize = 0;
    assert(fs@.skip(0) =~= fs@);
    while i < fs.len()
        invariant
            i <= fs.len(),
            field_node(fs@, name@) == field_node(fs@.skip(i as int), name@),
        decreases fs.len() - i,
    {
        assert(fs@.skip(i as int).drop_first() =~= fs@.skip(i + 1));
        assert(fs@.skip(i as int)[0] == fs@[i as int]);
        if crate::text::str_eq(fs[i].0.as_str(), name) {
            return Some(&fs[i].1);
        }
        i += 1;
    }
    assert(fs@.skip(i as int) =~= Seq::<(String, SubNode)>::empty());
    None
}

/// A trimmed copy of a text.
fn trim_string(s: &String) -> (r: String)
    ensures
        r@ == spec_trim(s@),
{
    let c = str_chars(s.as_str());
    let t = chars_trim(c.as_slice());
    string_from_chars(t.as_slice())
}

/// `(receiver, name)` from a required name text and an optional receiver text.
fn named(name: Option<&String>, receiver: Option<&String>) -> (r: Option<(Option<String>, String)>)
    ensures
        parts_view(r) == match name {
            Some(n) => Some(
                (
                    trimmed_opt(
                        match receiver {
                            Some(x) => Some(x@),
                            None => None,
                        },
                    ),
                    spec_trim(n@),
                ),
            ),
            None => None,
        },
{
    match name {
        Some(n) => {
            let rec = match receiver {
                Some(x) => Some(trim_string(x)),
                None => None,
            };
            Some((rec, trim_string(n)))
        },
        None => None,
    }
}

/// Splits at the last occurrence of `sep`.
fn split_last_chars(s: &[char], sep: &[char]) -> (r: Option<(Vec<char>, Vec<char>)>)
    requires
        sep.len() > 0,
    ensures
        match r {
            Some((a, b)) => split_last(s@, sep@) == Some((a@, b@)),
            None => split_last(s@, sep@) is None,
        },
{
    assert(!crate::text::occurs_at(s@, sep@, s.len() as int));
    assert(last_occurrence_below(s@, sep@, (s.len() + 1) as nat) == last_occurrence_below(s@, sep@, s.len() as nat));
    let mut n: usize = s.len();
    loop
        invariant
            n <= s.len(),
            split_last(s@, sep@) == match last_occurrence_below(s@, sep@, n as nat) {
                Some(i) => Some((s@.take(i), s@.skip(i + sep@.len()))),
                None => None::<(Seq<char>, Seq<char>)>,
            },
        decreases n,
    {
        if n == 0 {
            return None;
        }
        if chars_occur_at(s, sep, n - 1) {
            let a = chars_slice(s, 0, n - 1);
            let b = chars_slice(s, n - 1 + sep.len(), s.len());
            assert(a@ =~= s@.take(n - 1));
            assert(b@ =~= s@.skip(n - 1 + sep@.len()));
            return Some((a, b));
        }
        n -= 1;
    }
}

/// The parts of a call through a function text with no dedicated field rule.
fn text_parts_exec(full: &[char]) -> (r: Option<(Option<String>, String)>)
    ensures
        parts_view(r) == text_parts(full@),
{
    let dot = str_chars(".");
    let colons = str_chars("::");
    let arrow = str_chars("->");
    proof {
        reveal_strlit(".");
        reveal_strlit("::");
        reveal_strlit("->");
    }
    match split_last_chars(full, dot.as_slice()) {
        Some((a, b)) => {
            let ta = chars_trim(a.as_slice());
            let tb = chars_trim(b.as_slice());
            return Some((Some(string_from_chars(ta.as_slice())), string_from_chars(tb.as_slice())));
        },
        None => {},
    }
    match split_last_chars(full, colons.as_slice()) {
        Some((a, b)) => {
            let ta = chars_trim(a.as_slice());
            let tb = chars_trim(b.as_slice());
            return Some((Some(string_from_chars(ta.as_slice())), string_from_chars(tb.as_slice())));
        },
        None => {},
    }
    match split_last_chars(full, arrow.as_slice()) {
        Some((a, b)) => {
            let ta = chars_trim(a.as_slice());
            let tb = chars_trim(b.as_slice());
            return Some((Some(string_from_chars(ta.as_slice())), string_from_chars(tb.as_slice())));
        },
        None => {},
    }
    if full.len() > 0 {
        Some((None, string_from_chars(full)))
    } else {
        None
    }
}

/// The parts of a call through the function node `f`.
fn function_parts_exec(f: &SubNode) -> (r: Option<(Option<String>, String)>)
    ensures
        parts_view(r) == function_parts(*f),
{
    let k = f.kind.as_str();
    if crate::text::str_eq(k, "field_expression") {
        let rec = match find_text(&f.fields, "value") {
            Some(v) => Some(v),
            None => find_text(&f.fields, "argument"),
        };
        named(find_text(&f.fields, "field"), rec)
    } else if crate::text::str_eq(k, "scoped_identifier") {
        named(find_text(&f.fields, "name"), find_text(&f.fields, "path"))
    } else if crate::text::str_eq(k, "member_expression") {
        named(find_text(&f.fields, "property"), find_text(&f.fields, "object"))
    } else if crate::text::str_eq(k, "attribute") {
        named(find_text(&f.fields, "attribute"), find_text(&f.fields, "value"))
    } else if crate::text::str_eq(k, "selector_expression") {
        named(find_text(&f.fields, "field"), find_text(&f.fields, "operand"))
    } else if crate::text::str_eq(k, "identifier") || crate::text::str_eq(k, "property_identifier") {
        Some((None, trim_string(&f.text)))
    } else {
        let c = str_chars(f.text.as_str());
        let full = chars_trim(c.as_slice());
        text_parts_exec(full.as_slice())
    }
}

/// The texts of the call node's field nodes.
fn own_texts(fs: &Vec<(String, SubNode)>) -> (r: Vec<(String, String)>)
    ensures
        r@ == own_field_texts(fs@),
{
    let mut r: Vec<(String, String)> = Vec::new();
    let mut i: usize = 0;
    while i < fs.len()
        invariant
            i <= fs.len(),
            r@ == own_field_texts(fs@.take(i as int)),
        decreases fs.len() - i,
    {
        let ghost r0 = r@;
        let name = fs[i].0.clone();
        let text = fs[i].1.text.clone();
        r.push((name, text));
        proof {
            assert(own_field_texts(fs@.take(i + 1)) =~= own_field_texts(fs@.take(i as int)).push((fs@[i as int].0, fs@[i as int].1.text)));
            assert(r@ =~= r0.push((name, text)));
        }
        i += 1;
    }
    assert(fs@.take(fs.len() as int) =~= fs@);
    r
}

/// Extract `(receiver, callee name)` from a call node: method calls give their name and
/// receiver, plain calls are read through their function node, and C# invocations through a
/// member access. Nodes that are no call, or lack the name a rule needs, give `None`.
pub fn extract_call_parts(node: &CallNode) -> (r: Option<(Option<String>, String)>)
    ensures
        parts_view(r) == call_parts(*node),
{
    let k = node.kind.as_str();
    if crate::text::str_eq(k, "method_call_expression") {
        let ft = own_texts(&node.fields);
        named(find_text(&ft, "name"), find_text(&ft, "receiver"))
    } else if crate::text::str_eq(k, "method_invocation") {
        let ft = own_texts(&node.fields);
        named(find_text(&ft, "name"), find_text(&ft, "object"))
    } else if crate::text::str_eq(k, "call_expression") || crate::text::str_eq(k, "call") || crate::text::str_eq(
        k,
        "function_call",
    ) {
        match find_node(&node.fields, "function") {
            Some(f) => function_parts_exec(f),
            None => match &node.first_child {
                Some(f) => function_parts_exec(f),
                None => None,
            },
        }
    } else if crate::text::str_eq(k, "invocation_expression") {
        match find_node(&node.fields, "expression") {
            Some(e) => {
                if crate::text::str_eq(e.kind.as_str(), "member_access_expression") {
                    named(find_text(&e.fields, "name"), find_text(&e.fields, "expression"))
                } else {
                    None
                }
            },
            None => None,
        }
    } else {
        None
    }
}

/// The `(type, trait)` that a Rust `impl Trait for Type` block relates, both trimmed.
pub open spec fn implements_of(language: SupportedLanguage, node: CallNode) -> Option<(Seq<char>, Seq<char>)> {
    if language == SupportedLanguage::Rust && node.kind@ == "impl_item"@ {
        match field_node(node.fields@, "trait"@) {
            Some(tr) => match field_node(node.fields@, "type"@) {
                Some(ty) => Some((spec_trim(ty.text@), spec_trim(tr.text@))),
                None => None,
            },
            None => None,
        }
    } else {
        None
    }
}

/// Extract `(type, trait)` from a Rust `impl Trait for Type` node; other nodes, other
/// languages and inherent `impl` blocks give `None`.
pub fn extract_implements(language: SupportedLanguage, node: &CallNode) -> (r: Option<(String, String)>)
    ensures
        match r {
            Some((ty, tr)) => implements_of(language, *node) == Some((ty@, tr@)),
            None => implements_of(language, *node) is None,
        },
{
    if language != SupportedLanguage::Rust || !crate::text::str_eq(node.kind.as_str(), "impl_item") {
        return None;
    }
    match find_node(&node.fields, "trait") {
        Some(tr) => match find_node(&node.fields, "type") {
            Some(ty) => Some((trim_string(&ty.text), trim_string(&tr.text))),
            None => None,
        },
        None => None,
    }
}

} // verus!
