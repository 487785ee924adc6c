//! Symbol declarations in source code: which syntax nodes declare a function, method, type,
//! trait or module in each supported language, with the symbol's name and signature line.
//!
//! A syntax node is read as plain values: its kind and text, the nodes of its named fields,
//! and its children, each with its kind, its text and the texts of its own named fields.
use vstd::prelude::*;
use vstd::string::StringExecFns;

use crate::calls::{field_node, field_text, SubNode};
use crate::imports::{chars_trim_end_char, trim_end_char};
use crate::languages::{spec_comment_prefix, spec_language_name, SupportedLanguage};
use crate::search::{chars_trim, spec_trim};
use crate::text::{
    chars_contains, first_occurrence, is_white_space, lemma_first_occurrence, seq_contains, seq_ends_with, seq_starts_with, str_chars,
    string_from_chars,
};

verus! {

/// The kind of a code symbol.
#[derive(Debug, Clone, Copy, PartialEq, Eq, Structural)]
pub enum CodeSymbolType {
    /// A free function.
    Function,
    /// A function inside a type or class.
    Method,
    /// A class.
    Class,
    /// A struct or record type.
    Struct,
    /// An enumeration.
    Enum,
    /// A Rust trait, PHP trait or Elixir protocol.
    Trait,
    /// An interface or protocol.
    Interface,
    /// A module, namespace or `impl` block.
    Module,
    /// A type alias.
    TypeAlias,
}

/// A declaration candidate: a syntax node with its named fields and its children.
#[derive(Debug, Clone)]
pub struct DeclNode {
    /// The node kind.
    pub kind: String,
    /// The node's source text.
    pub text: String,
    /// `(field name, the field's node)`.
    pub fields: Vec<(String, SubNode)>,
    /// The children, in order.
    pub children: Vec<SubNode>,
}

/// The first line of a text (`str::lines().next()`, or the whole text when it has no line
/// break): up to the first `\n`, without a `\r` just before it.
pub open spec fn first_line(s: Seq<char>) -> Seq<char> {
    match first_occurrence(s, seq!['\n']) {
        Some(i) => {
            let l = s.take(i);
            if l.len() > 0 && l.last() == '\r' {
                l.drop_last()
            } else {
                l
            }
        },
        None => s,
    }
}

/// The signature of a declaration: its first line, trimmed, without trailing `{`.
pub open spec fn signature_of(text: Seq<char>) -> Seq<char> {
    spec_trim(trim_end_char(spec_trim(first_line(text)), '{'))
}

/// A child kind that names a declaration.
pub open spec fn is_identifier_kind(k: Seq<char>) -> bool {
    k == "identifier"@ || k == "type_identifier"@ || k == "property_identifier"@ || k == "field_identifier"@
}

/// The text of the first child whose kind names a declaration.
pub open spec fn first_identifier_child(cs: Seq<SubNode>) -> Option<Seq<char>>
    decreases cs.len(),
{
    if cs.len() == 0 {
        None
    } else if is_identifier_kind(cs[0].kind@) {
        Some(cs[0].text@)
    } else {
        first_identifier_child(cs.drop_first())
    }
}

/// The name of a declaration: its `name` field, or else its first identifier child.
pub open spec fn child_identifier(n: DeclNode) -> Option<Seq<char>> {
    match field_node(n.fields@, "name"@) {
        Some(f) => Some(f.text@),
        None => first_identifier_child(n.children@),
    }
}

/// The text of a declaration's `name` field.
pub open spec fn name_field(n: DeclNode) -> Option<Seq<char>> {
    match field_node(n.fields@, "name"@) {
        Some(f) => Some(f.text@),
        None => None,
    }
}

/// A symbol named `name`, if there is a name.
pub open spec fn named_symbol(t: CodeSymbolType, name: Option<Seq<char>>, sig: Seq<char>) -> Option<(CodeSymbolType, Seq<char>, Seq<char>)> {
    match name {
        Some(x) => Some((t, x, sig)),
        None => None,
    }
}

/// A child kind that names the type of a Rust `impl` block.
pub open spec fn is_impl_type_kind(k: Seq<char>) -> bool {
    k == "type_identifier"@ || k == "generic_type"@ || k == "primitive_type"@ || k == "scoped_type_identifier"@
}

/// The text of the last child whose kind names the type of an `impl` block.
pub open spec fn last_impl_type_child(cs: Seq<SubNode>) -> Option<Seq<char>>
    decreases cs.len(),
{
    if cs.len() == 0 {
        None
    } else if is_impl_type_kind(cs.last().kind@) {
        Some(cs.last().text@)
    } else {
        last_impl_type_child(cs.drop_last())
    }
}

/// The name of a Rust `impl` block: `<Trait> for <Type>`, or just the type; the type is the
/// `type` field, or else the last type child, or else `impl`.
pub open spec fn impl_name(n: DeclNode) -> Seq<char> {
    let ty = match field_node(n.fields@, "type"@) {
        Some(f) => f.text@,
        None => match last_impl_type_child(n.children@) {
            Some(t) => t,
            None => "impl"@,
        },
    };
    match field_node(n.fields@, "trait"@) {
        Some(t) => t.text@ + " for "@ + ty,
        None => ty,
    }
}

pub open spec fn rust_symbol(n: DeclNode) -> Option<(CodeSymbolType, Seq<char>, Seq<char>)> {
    let k = n.kind@;
    let sig = signature_of(n.text@);
    if k == "function_item"@ {
        named_symbol(CodeSymbolType::Function, child_identifier(n), sig)
    } else if k == "struct_item"@ {
        named_symbol(CodeSymbolType::Struct, child_identifier(n), sig)
    } else if k == "enum_item"@ {
        named_symbol(CodeSymbolType::Enum, child_identifier(n), sig)
    } else if k == "trait_item"@ {
        named_symbol(CodeSymbolType::Trait, child_identifier(n), sig)
    } else if k == "impl_item"@ {
        Some((CodeSymbolType::Module, impl_name(n), sig))
    } else if k == "mod_item"@ {
        match child_identifier(n) {
            Some(x) => Some((CodeSymbolType::Module, x, "mod "@ + x)),
            None => None,
        }
    } else if k == "type_item"@ {
        named_symbol(CodeSymbolType::TypeAlias, child_identifier(n), sig)
    } else {
        None
    }
}

pub open spec fn script_symbol(n: DeclNode) -> Option<(CodeSymbolType, Seq<char>, Seq<char>)> {
    let k = n.kind@;
    let sig = signature_of(n.text@);
    if k == "function_declaration"@ || k == "function"@ {
        named_symbol(CodeSymbolType::Function, child_identifier(n), sig)
    } else if k == "method_definition"@ {
        named_symbol(CodeSymbolType::Method, child_identifier(n), sig)
    } else if k == "class_declaration"@ || k == "class"@ {
        named_symbol(CodeSymbolType::Class, child_identifier(n), sig)
    } else if k == "interface_declaration"@ {
        named_symbol(CodeSymbolType::Interface, child_identifier(n), sig)
    } else if k == "type_alias_declaration"@ {
        named_symbol(CodeSymbolType::TypeAlias, child_identifier(n), sig)
    } else if k == "enum_declaration"@ {
        named_symbol(CodeSymbolType::Enum, child_identifier(n), sig)
    } else {
        None
    }
}

pub open spec fn python_symbol(n: DeclNode, in_scope: bool) -> Option<(CodeSymbolType, Seq<char>, Seq<char>)> {
    let k = n.kind@;
    let sig = signature_of(n.text@);
    if k == "function_definition"@ {
        named_symbol(if in_scope { CodeSymbolType::Method } else { CodeSymbolType::Function }, child_identifier(n), sig)
    } else if k == "class_definition"@ {
        named_symbol(CodeSymbolType::Class, child_identifier(n), sig)
    } else {
        None
    }
}

pub open spec fn go_symbol(n: DeclNode) -> Option<(CodeSymbolType, Seq<char>, Seq<char>)> {
    let k = n.kind@;
    let sig = signature_of(n.text@);
    if k == "function_declaration"@ {
        named_symbol(CodeSymbolType::Function, name_field(n), sig)
    } else if k == "method_declaration"@ {
        named_symbol(CodeSymbolType::Method, name_field(n), sig)
    } else if k == "type_declaration"@ {
        let name = if n.children@.len() > 0 {
            match field_text(n.children@[0].fields@, "name"@) {
                Some(x) => x,
                None => sig,
            }
        } else {
            sig
        };
        Some((CodeSymbolType::Struct, name, sig))
    } else {
        None
    }
}

pub open spec fn c_symbol(n: DeclNode) -> Option<(CodeSymbolType, Seq<char>, Seq<char>)> {
    let k = n.kind@;
    let sig = signature_of(n.text@);
    if k == "function_definition"@ {
        let name = match field_node(n.fields@, "declarator"@) {
            Some(d) => d.text@,
            None => "function"@,
        };
        Some((CodeSymbolType::Function, name, sig))
    } else if k == "class_specifier"@ {
        named_symbol(CodeSymbolType::Class, name_field(n), sig)
    } else if k == "struct_specifier"@ {
        named_symbol(CodeSymbolType::Struct, name_field(n), sig)
    } else if k == "enum_specifier"@ {
        named_symbol(CodeSymbolType::Enum, name_field(n), sig)
    } else {
        None
    }
}

pub open spec fn java_symbol(n: DeclNode) -> Option<(CodeSymbolType, Seq<char>, Seq<char>)> {
    let k = n.kind@;
    let sig = signature_of(n.text@);
    if k == "method_declaration"@ {
        named_symbol(CodeSymbolType::Method, name_field(n), sig)
    } else if k == "class_declaration"@ {
        named_symbol(CodeSymbolType::Class, name_field(n), sig)
    } else if k == "interface_declaration"@ {
        named_symbol(CodeSymbolType::Interface, name_field(n), sig)
    } else if k == "enum_declaration"@ {
        named_symbol(CodeSymbolType::Enum, name_field(n), sig)
    } else {
        None
    }
}

pub open spec fn csharp_symbol(n: DeclNode) -> Option<(CodeSymbolType, Seq<char>, Seq<char>)> {
    let k = n.kind@;
    if k == "struct_declaration"@ {
        named_symbol(CodeSymbolType::Struct, name_field(n), signature_of(n.text@))
    } else {
        java_symbol(n)
    }
}

pub open spec fn ruby_symbol(n: DeclNode) -> Option<(CodeSymbolType, Seq<char>, Seq<char>)> {
    let k = n.kind@;
    let sig = signature_of(n.text@);
    if k == "class"@ {
        named_symbol(CodeSymbolType::Class, name_field(n), sig)
    } else if k == "module"@ {
        named_symbol(CodeSymbolType::Module, name_field(n), sig)
    } else if k == "method"@ || k == "singleton_method"@ {
        named_symbol(CodeSymbolType::Method, name_field(n), sig)
    } else {
        None
    }
}

pub open spec fn php_symbol(n: DeclNode) -> Option<(CodeSymbolType, Seq<char>, Seq<char>)> {
    let k = n.kind@;
    let sig = signature_of(n.text@);
    if k == "class_declaration"@ {
        named_symbol(CodeSymbolType::Class, name_field(n), sig)
    } else if k == "interface_declaration"@ {
        named_symbol(CodeSymbolType::Interface, name_field(n), sig)
    } else if k == "trait_declaration"@ {
        named_symbol(CodeSymbolType::Trait, name_field(n), sig)
    } else if k == "enum_declaration"@ {
        named_symbol(CodeSymbolType::Enum, name_field(n), sig)
    } else if k == "method_declaration"@ {
        named_symbol(CodeSymbolType::Method, name_field(n), sig)
    } else if k == "function_definition"@ {
        named_symbol(CodeSymbolType::Function, name_field(n), sig)
    } else {
        None
    }
}

pub open spec fn swift_symbol(n: DeclNode) -> Option<(CodeSymbolType, Seq<char>, Seq<char>)> {
    let k = n.kind@;
    let sig = signature_of(n.text@);
    if k == "class_declaration"@ {
        named_symbol(CodeSymbolType::Class, child_identifier(n), sig)
    } else if k == "struct_declaration"@ {
        named_symbol(CodeSymbolType::Struct, child_identifier(n), sig)
    } else if k == "protocol_declaration"@ {
        named_symbol(CodeSymbolType::Interface, child_identifier(n), sig)
    } else if k == "enum_declaration"@ {
        named_symbol(CodeSymbolType::Enum, child_identifier(n), sig)
    } else if k == "function_declaration"@ {
        named_symbol(CodeSymbolType::Function, child_identifier(n), sig)
    } else if k == "init_declaration"@ {
        Some((CodeSymbolType::Method, "init"@, sig))
    } else {
        None
    }
}

/// The text before the first white space (`str::split_whitespace().next()` of a trimmed,
/// non-empty text).
pub open spec fn first_word(s: Seq<char>) -> Seq<char>
    decreases s.len(),
{
    if s.len() == 0 || is_white_space(s[0]) {
        Seq::empty()
    } else {
        seq![s[0]] + first_word(s.drop_first())
    }
}

/// The text before the first `(` (`str::split('(').next()`).
pub open spec fn before_paren(s: Seq<char>) -> Seq<char>
    decreases s.len(),
{
    if s.len() == 0 || s[0] == '(' {
        Seq::empty()
    } else {
        seq![s[0]] + before_paren(s.drop_first())
    }
}

pub open spec fn elixir_symbol(n: DeclNode) -> Option<(CodeSymbolType, Seq<char>, Seq<char>)> {
    let cs = n.children@;
    let sig = signature_of(n.text@);
    if n.kind@ == "call"@ && cs.len() > 0 {
        let target = spec_trim(cs[0].text@);
        let arg: Option<Seq<char>> = if cs.len() > 1 { Some(spec_trim(cs[1].text@)) } else { None };
        if target == "defmodule"@ {
            Some((CodeSymbolType::Module, match arg { Some(a) => first_word(a), None => "Module"@ }, sig))
        } else if target == "def"@ || target == "defp"@ || target == "defmacro"@ {
            Some((CodeSymbolType::Function, match arg { Some(a) => spec_trim(before_paren(a)), None => "function"@ }, sig))
        } else if target == "defprotocol"@ || target == "defimpl"@ {
            Some((CodeSymbolType::Trait, match arg { Some(a) => a, None => "Protocol"@ }, sig))
        } else {
            None
        }
    } else {
        None
    }
}

pub open spec fn lua_symbol(n: DeclNode) -> Option<(CodeSymbolType, Seq<char>, Seq<char>)> {
    let k = n.kind@;
    if k == "function_declaration"@ || k == "local_function"@ {
        Some((
            CodeSymbolType::Function,
            match child_identifier(n) {
                Some(x) => x,
                None => "function"@,
            },
            signature_of(n.text@),
        ))
    } else {
        None
    }
}

pub open spec fn bash_symbol(n: DeclNode) -> Option<(CodeSymbolType, Seq<char>, Seq<char>)> {
    if n.kind@ == "function_definition"@ {
        Some((
            CodeSymbolType::Function,
            match name_field(n) {
                Some(x) => x,
                None => match child_identifier(n) {
                    Some(x) => x,
                    None => "func"@,
                },
            },
            signature_of(n.text@),
        ))
    } else {
        None
    }
}

/// The symbol a node declares, as `(kind, name, signature)`, by the rules of its language;
/// `in_scope` says whether the node is nested in another symbol (a Python function there is
/// a method).
pub open spec fn symbol_of(language: SupportedLanguage, n: DeclNode, in_scope: bool) -> Option<(CodeSymbolType, Seq<char>, Seq<char>)> {
    match language {
        SupportedLanguage::Rust => rust_symbol(n),
        SupportedLanguage::TypeScript | SupportedLanguage::Tsx | SupportedLanguage::JavaScript => script_symbol(n),
        SupportedLanguage::Python => python_symbol(n, in_scope),
        SupportedLanguage::Go => go_symbol(n),
        SupportedLanguage::C | SupportedLanguage::Cpp => c_symbol(n),
        SupportedLanguage::Java => java_symbol(n),
        SupportedLanguage::CSharp => csharp_symbol(n),
        SupportedLanguage::Ruby => ruby_symbol(n),
        SupportedLanguage::Php => php_symbol(n),
        SupportedLanguage::Swift => swift_symbol(n),
        SupportedLanguage::Elixir => elixir_symbol(n),
        SupportedLanguage::Lua => lua_symbol(n),
        SupportedLanguage::Bash => bash_symbol(n),
        SupportedLanguage::Html => None,
    }
}

/// The view of a found symbol.
pub open spec fn symbol_view(r: Option<(CodeSymbolType, String, String)>) -> Option<(CodeSymbolType, Seq<char>, Seq<char>)> {
    match r {
        Some((t, n, g)) => Some((t, n@, g@)),
        None => None,
    }
}

/// The view of an optional string.
pub open spec fn opt_chars(o: Option<String>) -> Option<Seq<char>> {
    match o {
        Some(x) => Some(x@),
        None => None,
    }
}

fn kind_is(k: &String, name: &str) -> (b: bool)
    ensures
        b == (k@ == name@),
{
    crate::text::str_eq(k.as_str(), name)
}

/// The first line of a text.
fn first_line_exec(s: &[char]) -> (r: Vec<char>)
    ensures
        r@ == first_line(s@),
{
    let mut nl: Vec<char> = Vec::new();
    nl.push('\n');
    assert(nl@ =~= seq!['\n']);
    match crate::text::chars_find(s, nl.as_slice()) {
        Some(i) => {
            proof {
                lemma_first_occurrence(s@, nl@);
            }
            let l = crate::text::chars_slice(s, 0, i);
            assert(l@ =~= s@.take(i as int));
            if l.len() > 0 && l[l.len() - 1] == '\r' {
                let d = crate::text::chars_slice(l.as_slice(), 0, l.len() - 1);
                assert(d@ =~= l@.drop_last());
                d
            } else {
                l
            }
        },
        None => crate::text::chars_slice(s, 0, s.len()),
    }
}

/// The signature line of a declaration text.
fn signature_exec(text: &String) -> (r: String)
    ensures
        r@ == signature_of(text@),
{
    let c = str_chars(text.as_str());
    let l = first_line_exec(c.as_slice());
    let t = chars_trim(l.as_slice());
    let u = chars_trim_end_char(t.as_slice(), '{');
    let v = chars_trim(u.as_slice());
    string_from_chars(v.as_slice())
}

/// The text of the first identifier child.
fn first_identifier_child_exec(cs: &Vec<SubNode>) -> (r: Option<String>)
    ensures
        opt_chars(r) == first_identifier_child(cs@),
{
    let mut i: usize = 0;
    assert(cs@.skip(0) =~= cs@);
    while i < cs.len()
        invariant
            i <= cs.len(),
            first_identifier_child(cs@) == first_identifier_child(cs@.skip(i as int)),
        decreases cs.len() - i,
    {
        assert(cs@.skip(i as int).drop_first() =~= cs@.skip(i + 1));
        assert(cs@.skip(i as int)[0] == cs@[i as int]);
        let k = &cs[i].kind;
        if kind_is(k, "identifier") || kind_is(k, "type_identifier") || kind_is(k, "property_identifier") || kind_is(
            k,
            "field_identifier",
        ) {
            return Some(cs[i].text.clone());
        }
        i += 1;
    }
    assert(cs@.skip(i as int) =~= Seq::<SubNode>::empty());
    None
}

/// The node of the first field named `name`.
fn field_of<'a>(fs: &'a Vec<(String, SubNode)>, name: &str) -> (r: Option<&'a SubNode>)
    ensures
        match r {
            Some(t) => field_node(fs@, name@) == Some(*t),
            None => field_node(fs@, name@) is None,
        },
{
    let mut i: usize = 0;
    assert(fs@.skip(0) =~= fs@);
    while i < fs.len()
        invariant
            i <= fs.len(),
            field_node(fs@, name@) == field_node(fs@.skip(i as int), name@),
        decreases fs.len() - i,
    {
        assert(fs@.skip(i as int).drop_first() =~= fs@.skip(i + 1));
        assert(fs@.skip(i as int)[0] == fs@[i as int]);
        if crate::text::str_eq(fs[i].0.as_str(), name) {
            return Some(&fs[i].1);
        }
        i += 1;
    }
    assert(fs@.skip(i as int) =~= Seq::<(String, SubNode)>::empty());
    None
}

/// The name of a declaration: its `name` field, or else its first identifier child.
fn child_identifier_exec(n: &DeclNode) -> (r: Option<String>)
    ensures
        opt_chars(r) == child_identifier(*n),
{
    match field_of(&n.fields, "name") {
        Some(f) => Some(f.text.clone()),
        None => first_identifier_child_exec(&n.children),
    }
}

/// The text of the `name` field.
fn name_field_exec(n: &DeclNode) -> (r: Option<String>)
    ensures
        opt_chars(r) == name_field(*n),
{
    match field_of(&n.fields, "name") {
        Some(f) => Some(f.text.clone()),
        None => None,
    }
}

fn named_exec(t: CodeSymbolType, name: Option<String>, sig: String) -> (r: Option<(CodeSymbolType, String, String)>)
    ensures
        symbol_view(r) == named_symbol(t, opt_chars(name), sig@),
{
    match name {
        Some(x) => Some((t, x, sig)),
        None => None,
    }
}

/// The text of the last child that names the type of an `impl` block.
fn last_impl_type_child_exec(cs: &Vec<SubNode>) -> (r: Option<String>)
    ensures
        opt_chars(r) == last_impl_type_child(cs@),
{
    let mut i: usize = cs.len();
    assert(cs@.take(cs.len() as int) =~= cs@);
    while i > 0
        invariant
            i <= cs.len(),
            last_impl_type_child(cs@) == last_impl_type_child(cs@.take(i as int)),
        decreases i,
    {
        assert(cs@.take(i as int).drop_last() =~= cs@.take(i - 1));
        assert(cs@.take(i as int).last() == cs@[i - 1]);
        let k = &cs[i - 1].kind;
        if kind_is(k, "type_identifier") || kind_is(k, "generic_type") || kind_is(k, "primitive_type") || kind_is(
            k,
            "scoped_type_identifier",
        ) {
            return Some(cs[i - 1].text.clone());
        }
        i -= 1;
    }
    assert(cs@.take(0) =~= Seq::<SubNode>::empty());
    None
}

/// The name of a Rust `impl` block.
fn impl_name_exec(n: &DeclNode) -> (r: String)
    ensures
        r@ == impl_name(*n),
{
    let ty = match field_of(&n.fields, "type") {
        Some(f) => f.text.clone(),
        None => match last_impl_type_child_exec(&n.children) {
            Some(t) => t,
            None => String::from_str("impl"),
        },
    };
    match field_of(&n.fields, "trait") {
        Some(t) => {
            let mut r = t.text.clone();
            r.append(" for ");
            r.append(ty.as_str());
            r
        },
        None => ty,
    }
}

fn rust_symbol_exec(n: &DeclNode) -> (r: Option<(CodeSymbolType, String, String)>)
    ensures
        symbol_view(r) == rust_symbol(*n),
{
    let k = &n.kind;
    let sig = signature_exec(&n.text);
    if kind_is(k, "function_item") {
        named_exec(CodeSymbolType::Function, child_identifier_exec(n), sig)
    } else if kind_is(k, "struct_item") {
        named_exec(CodeSymbolType::Struct, child_identifier_exec(n), sig)
    } else if kind_is(k, "enum_item") {
        named_exec(CodeSymbolType::Enum, child_identifier_exec(n), sig)
    } else if kind_is(k, "trait_item") {
        named_exec(CodeSymbolType::Trait, child_identifier_exec(n), sig)
    } else if kind_is(k, "impl_item") {
        Some((CodeSymbolType::Module, impl_name_exec(n), sig))
    } else if kind_is(k, "mod_item") {
        match child_identifier_exec(n) {
            Some(x) => {
                let mut g = String::from_str("mod ");
                g.append(x.as_str());
                Some((CodeSymbolType::Module, x, g))
            },
            None => None,
        }
    } else if kind_is(k, "type_item") {
        named_exec(CodeSymbolType::TypeAlias, child_identifier_exec(n), sig)
    } else {
        None
    }
}

fn script_symbol_exec(n: &DeclNode) -> (r: Option<(CodeSymbolType, String, String)>)
    ensures
        symbol_view(r) == script_symbol(*n),
{
    let k = &n.kind;
    let sig = signature_exec(&n.text);
    if kind_is(k, "function_declaration") || kind_is(k, "function") {
        named_exec(CodeSymbolType::Function, child_identifier_exec(n), sig)
    } else if kind_is(k, "method_definition") {
        named_exec(CodeSymbolType::Method, child_identifier_exec(n), sig)
    } else if kind_is(k, "class_declaration") || kind_is(k, "class") {
        named_exec(CodeSymbolType::Class, child_identifier_exec(n), sig)
    } else if kind_is(k, "interface_declaration") {
        named_exec(CodeSymbolType::Interface, child_identifier_exec(n), sig)
    } else if kind_is(k, "type_alias_declaration") {
        named_exec(CodeSymbolType::TypeAlias, child_identifier_exec(n), sig)
    } else if kind_is(k, "enum_declaration") {
        named_exec(CodeSymbolType::Enum, child_identifier_exec(n), sig)
    } else {
        None
    }
}

fn python_symbol_exec(n: &DeclNode, in_scope: bool) -> (r: Option<(CodeSymbolType, String, String)>)
    ensures
        symbol_view(r) == python_symbol(*n, in_scope),
{
    let k = &n.kind;
    let sig = signature_exec(&n.text);
    if kind_is(k, "function_definition") {
        let t = if in_scope { CodeSymbolType::Method } else { CodeSymbolType::Function };
        named_exec(t, child_identifier_exec(n), sig)
    } else if kind_is(k, "class_definition") {
        named_exec(CodeSymbolType::Class, child_identifier_exec(n), sig)
    } else {
        None
    }
}

fn go_symbol_exec(n: &DeclNode) -> (r: Option<(CodeSymbolType, String, String)>)
    ensures
        symbol_view(r) == go_symbol(*n),
{
    let k = &n.kind;
    let sig = signature_exec(&n.text);
    if kind_is(k, "function_declaration") {
        named_exec(CodeSymbolType::Function, name_field_exec(n), sig)
    } else if kind_is(k, "method_declaration") {
        named_exec(CodeSymbolType::Method, name_field_exec(n), sig)
    } else if kind_is(k, "type_declaration") {
        let name = if n.children.len() > 0 {
            match crate::calls::find_text(&n.children[0].fields, "name") {
                Some(x) => x.clone(),
                None => sig.clone(),
            }
        } else {
            sig.clone()
        };
        Some((CodeSymbolType::Struct, name, sig))
    } else {
        None
    }
}

fn c_symbol_exec(n: &DeclNode) -> (r: Option<(CodeSymbolType, String, String)>)
    ensures
        symbol_view(r) == c_symbol(*n),
{
    let k = &n.kind;
    let sig = signature_exec(&n.text);
    if kind_is(k, "function_definition") {
        let name = match field_of(&n.fields, "declarator") {
            Some(d) => d.text.clone(),
            None => String::from_str("function"),
        };
        Some((CodeSymbolType::Function, name, sig))
    } else if kind_is(k, "class_specifier") {
        named_exec(CodeSymbolType::Class, name_field_exec(n), sig)
    } else if kind_is(k, "struct_specifier") {
        named_exec(CodeSymbolType::Struct, name_field_exec(n), sig)
    } else if kind_is(k, "enum_specifier") {
        named_exec(CodeSymbolType::Enum, name_field_exec(n), sig)
    } else {
        None
    }
}

fn java_symbol_exec(n: &DeclNode) -> (r: Option<(CodeSymbolType, String, String)>)
    ensures
        symbol_view(r) == java_symbol(*n),
{
    let k = &n.kind;
    let sig = signature_exec(&n.text);
    if kind_is(k, "method_declaration") {
        named_exec(CodeSymbolType::Method, name_field_exec(n), sig)
    } else if kind_is(k, "class_declaration") {
        named_exec(CodeSymbolType::Class, name_field_exec(n), sig)
    } else if kind_is(k, "interface_declaration") {
        named_exec(CodeSymbolType::Interface, name_field_exec(n), sig)
    } else if kind_is(k, "enum_declaration") {
        named_exec(CodeSymbolType::Enum, name_field_exec(n), sig)
    } else {
        None
    }
}

fn csharp_symbol_exec(n: &DeclNode) -> (r: Option<(CodeSymbolType, String, String)>)
    ensures
        symbol_view(r) == csharp_symbol(*n),
{
    if kind_is(&n.kind, "struct_declaration") {
        named_exec(CodeSymbolType::Struct, name_field_exec(n), signature_exec(&n.text))
    } else {
        java_symbol_exec(n)
    }
}

fn ruby_symbol_exec(n: &DeclNode) -> (r: Option<(CodeSymbolType, String, String)>)
    ensures
        symbol_view(r) == ruby_symbol(*n),
{
    let k = &n.kind;
    let sig = signature_exec(&n.text);
    if kind_is(k, "class") {
        named_exec(CodeSymbolType::Class, name_field_exec(n), sig)
    } else if kind_is(k, "module") {
        named_exec(CodeSymbolType::Module, name_field_exec(n), sig)
    } else if kind_is(k, "method") || kind_is(k, "singleton_method") {
        named_exec(CodeSymbolType::Method, name_field_exec(n), sig)
    } else {
        None
    }
}

fn php_symbol_exec(n: &DeclNode) -> (r: Option<(CodeSymbolType, String, String)>)
    ensures
        symbol_view(r) == php_symbol(*n),
{
    let k = &n.kind;
    let sig = signature_exec(&n.text);
    if kind_is(k, "class_declaration") {
        named_exec(CodeSymbolType::Class, name_field_exec(n), sig)
    } else if kind_is(k, "interface_declaration") {
        named_exec(CodeSymbolType::Interface, name_field_exec(n), sig)
    } else if kind_is(k, "trait_declaration") {
        named_exec(CodeSymbolType::Trait, name_field_exec(n), sig)
    } else if kind_is(k, "enum_declaration") {
        named_exec(CodeSymbolType::Enum, name_field_exec(n), sig)
    } else if kind_is(k, "method_declaration") {
        named_exec(CodeSymbolType::Method, name_field_exec(n), sig)
    } else if kind_is(k, "function_definition") {
        named_exec(CodeSymbolType::Function, name_field_exec(n), sig)
    } else {
        None
    }
}

fn swift_symbol_exec(n: &DeclNode) -> (r: Option<(CodeSymbolType, String, String)>)
    ensures
        symbol_view(r) == swift_symbol(*n),
{
    let k = &n.kind;
    let sig = signature_exec(&n.text);
    if kind_is(k, "class_declaration") {
        named_exec(CodeSymbolType::Class, child_identifier_exec(n), sig)
    } else if kind_is(k, "struct_declaration") {
        named_exec(CodeSymbolType::Struct, child_identifier_exec(n), sig)
    } else if kind_is(k, "protocol_declaration") {
        named_exec(CodeSymbolType::Interface, child_identifier_exec(n), sig)
    } else if kind_is(k, "enum_declaration") {
        named_exec(CodeSymbolType::Enum, child_identifier_exec(n), sig)
    } else if kind_is(k, "function_declaration") {
        named_exec(CodeSymbolType::Function, child_identifier_exec(n), sig)
    } else if kind_is(k, "init_declaration") {
        Some((CodeSymbolType::Method, String::from_str("init"), sig))
    } else {
        None
    }
}

/// The text before the first white space.
fn first_word_exec(s: &[char]) -> (r: Vec<char>)
    ensures
        r@ == first_word(s@),
{
    let mut i: usize = 0;
    while i < s.len() && !crate::text::char_is_whitespace(s[i])
        invariant
            i <= s.len(),
            forall|j: int| 0 <= j < i ==> !is_white_space(s@[j]),
        decreases s.len() - i,
    {
        i += 1;
    }
    proof {
        lemma_first_word(s@, i as int);
    }
    crate::text::chars_slice(s, 0, i)
}

proof fn lemma_first_word(s: Seq<char>, i: int)
    requires
        0 <= i <= s.len(),
        forall|j: int| 0 <= j < i ==> !is_white_space(s[j]),
        i == s.len() || is_white_space(s[i]),
    ensures
        first_word(s) == s.subrange(0, i),
    decreases s.len(),
{
    if s.len() > 0 && !is_white_space(s[0]) {
        lemma_first_word(s.drop_first(), i - 1);
        assert(seq![s[0]] + s.drop_first().subrange(0, i - 1) =~= s.subrange(0, i));
    } else {
        assert(s.subrange(0, i) =~= Seq::<char>::empty());
    }
}

/// The text before the first `(`.
fn before_paren_exec(s: &[char]) -> (r: Vec<char>)
    ensures
        r@ == before_paren(s@),
{
    let mut i: usize = 0;
    while i < s.len() && s[i] != '('
        invariant
            i <= s.len(),
            forall|j: int| 0 <= j < i ==> s@[j] != '(',
        decreases s.len() - i,
    {
        i += 1;
    }
    proof {
        lemma_before_paren(s@, i as int);
    }
    crate::text::chars_slice(s, 0, i)
}

proof fn lemma_before_paren(s: Seq<char>, i: int)
    requires
        0 <= i <= s.len(),
        forall|j: int| 0 <= j < i ==> s[j] != '(',
        i == s.len() || s[i] == '(',
    ensures
        before_paren(s) == s.subrange(0, i),
    decreases s.len(),
{
    if s.len() > 0 && s[0] != '(' {
        lemma_before_paren(s.drop_first(), i - 1);
        assert(seq![s[0]] + s.drop_first().subrange(0, i - 1) =~= s.subrange(0, i));
    } else {
        assert(s.subrange(0, i) =~= Seq::<char>::empty());
    }
}

fn elixir_symbol_exec(n: &DeclNode) -> (r: Option<(CodeSymbolType, String, String)>)
    ensures
        symbol_view(r) == elixir_symbol(*n),
{
    if !kind_is(&n.kind, "call") || n.children.len() == 0 {
        return None;
    }
    let sig = signature_exec(&n.text);
    let tc = str_chars(n.children[0].text.as_str());
    let target = chars_trim(tc.as_slice());
    let arg: Option<Vec<char>> = if n.children.len() > 1 {
        let ac = str_chars(n.children[1].text.as_str());
        Some(chars_trim(ac.as_slice()))
    } else {
        None
    };
    let t = string_from_chars(target.as_slice());
    if kind_is(&t, "defmodule") {
        let name = match arg {
            Some(a) => string_from_chars(first_word_exec(a.as_slice()).as_slice()),
            None => String::from_str("Module"),
        };
        Some((CodeSymbolType::Module, name, sig))
    } else if kind_is(&t, "def") || kind_is(&t, "defp") || kind_is(&t, "defmacro") {
        let name = match arg {
            Some(a) => {
                let b = before_paren_exec(a.as_slice());
                let tb = chars_trim(b.as_slice());
                string_from_chars(tb.as_slice())
            },
            None => String::from_str("function"),
        };
        Some((CodeSymbolType::Function, name, sig))
    } else if kind_is(&t, "defprotocol") || kind_is(&t, "defimpl") {
        let name = match arg {
            Some(a) => string_from_chars(a.as_slice()),
            None => String::from_str("Protocol"),
        };
        Some((CodeSymbolType::Trait, name, sig))
    } else {
        None
    }
}

fn lua_symbol_exec(n: &DeclNode) -> (r: Option<(CodeSymbolType, String, String)>)
    ensures
        symbol_view(r) == lua_symbol(*n),
{
    if kind_is(&n.kind, "function_declaration") || kind_is(&n.kind, "local_function") {
        let name = match child_identifier_exec(n) {
            Some(x) => x,
            None => String::from_str("function"),
        };
        Some((CodeSymbolType::Function, name, signature_exec(&n.text)))
    } else {
        None
    }
}

fn bash_symbol_exec(n: &DeclNode) -> (r: Option<(CodeSymbolType, String, String)>)
    ensures
        symbol_view(r) == bash_symbol(*n),
{
    if kind_is(&n.kind, "function_definition") {
        let name = match name_field_exec(n) {
            Some(x) => x,
            None => match child_identifier_exec(n) {
                Some(x) => x,
                None => String::from_str("func"),
            },
        };
        Some((CodeSymbolType::Function, name, signature_exec(&n.text)))
    } else {
        None
    }
}

/// Classify a syntax node by the rules of its language: the symbol it declares, as
/// `(kind, name, signature line)`, or `None` when it declares none or lacks the name its
/// rule needs. `in_scope` says whether the node is nested in another symbol.
pub fn classify_node(language: SupportedLanguage, node: &DeclNode, in_scope: bool) -> (r: Option<(CodeSymbolType, String, String)>)
    ensures
        symbol_view(r) == symbol_of(language, *node, in_scope),
{
    match language {
        SupportedLanguage::Rust => rust_symbol_exec(node),
        SupportedLanguage::TypeScript | SupportedLanguage::Tsx | SupportedLanguage::JavaScript => script_symbol_exec(node),
        SupportedLanguage::Python => python_symbol_exec(node, in_scope),
        SupportedLanguage::Go => go_symbol_exec(node),
        SupportedLanguage::C | SupportedLanguage::Cpp => c_symbol_exec(node),
        SupportedLanguage::Java => java_symbol_exec(node),
        SupportedLanguage::CSharp => csharp_symbol_exec(node),
        SupportedLanguage::Ruby => ruby_symbol_exec(node),
        SupportedLanguage::Php => php_symbol_exec(node),
        SupportedLanguage::Swift => swift_symbol_exec(node),
        SupportedLanguage::Elixir => elixir_symbol_exec(node),
        SupportedLanguage::Lua => lua_symbol_exec(node),
        SupportedLanguage::Bash => bash_symbol_exec(node),
        SupportedLanguage::Html => None,
    }
}

/// Scope names joined by `" > "`.
pub open spec fn join_scope(stack: Seq<Seq<char>>) -> Seq<char>
    decreases stack.len(),
{
    if stack.len() == 0 {
        Seq::empty()
    } else if stack.len() == 1 {
        stack[0]
    } else {
        join_scope(stack.drop_last()) + " > "@ + stack.last()
    }
}

/// The scope a declaration is found in: the enclosing symbols, or the file at top level.
pub open spec fn current_scope(file_path: Seq<char>, stack: Seq<Seq<char>>) -> Seq<char> {
    if stack.len() == 0 {
        file_path
    } else {
        join_scope(stack)
    }
}

/// The scope path of a symbol named `name`: just the name at top level, else the enclosing
/// scope, `" > "` and the name.
pub open spec fn full_scope(file_path: Seq<char>, stack: Seq<Seq<char>>, name: Seq<char>) -> Seq<char> {
    let parent = current_scope(file_path, stack);
    if parent == file_path {
        name
    } else {
        parent + " > "@ + name
    }
}

/// Whether the children of a symbol of this kind are scoped under it.
pub open spec fn is_container(t: CodeSymbolType) -> bool {
    t == CodeSymbolType::Class || t == CodeSymbolType::Struct || t == CodeSymbolType::Trait || t
        == CodeSymbolType::Interface || t == CodeSymbolType::Module || t == CodeSymbolType::Enum
}

/// The text of a symbol's chunk: a breadcrumb of comment lines naming the scope, the language
/// and the file, then the docstring on its own line when there is one, then the node's text.
pub open spec fn chunk_text(
    language: SupportedLanguage,
    scope: Seq<char>,
    file_path: Seq<char>,
    docstring: Option<Seq<char>>,
    raw: Seq<char>,
) -> Seq<char> {
    let c = spec_comment_prefix(language);
    let breadcrumb = c + " Scope: "@ + scope + "\n"@ + c + " Language: "@ + spec_language_name(language) + "\n"@ + c
        + " File: "@ + file_path + "\n"@;
    match docstring {
        Some(d) => breadcrumb + d + "\n"@ + raw,
        None => breadcrumb + raw,
    }
}

/// The scope a declaration is found in: the enclosing symbols joined by `" > "`, or the file
/// at top level.
pub fn current_scope_of(file_path: &str, scope_stack: &Vec<String>) -> (r: String)
    ensures
        r@ == current_scope(file_path@, scope_stack@.map_values(|x: String| x@)),
{
    let ghost sv = scope_stack@.map_values(|x: String| x@);
    if scope_stack.len() == 0 {
        return file_path.to_owned();
    }
    let mut r = scope_stack[0].clone();
    let mut i: usize = 1;
    assert(sv.take(1).drop_last() =~= Seq::<Seq<char>>::empty());
    while i < scope_stack.len()
        invariant
            1 <= i <= scope_stack.len(),
            sv == scope_stack@.map_values(|x: String| x@),
            r@ == join_scope(sv.take(i as int)),
        decreases scope_stack.len() - i,
    {
        assert(sv.take(i + 1).drop_last() =~= sv.take(i as int));
        r.append(" > ");
        r.append(scope_stack[i].as_str());
        i += 1;
    }
    assert(sv.take(i as int) =~= sv);
    r
}

/// The scope path of a symbol named `name` found under `scope_stack`.
pub fn full_scope_of(file_path: &str, scope_stack: &Vec<String>, name: &str) -> (r: String)
    ensures
        r@ == full_scope(file_path@, scope_stack@.map_values(|x: String| x@), name@),
{
    let parent = current_scope_of(file_path, scope_stack);
    if crate::text::str_eq(parent.as_str(), file_path) {
        name.to_owned()
    } else {
        let mut r = parent;
        r.append(" > ");
        r.append(name);
        r
    }
}

/// Whether the children of a symbol of this kind are scoped under it.
pub fn is_container_kind(t: CodeSymbolType) -> (b: bool)
    ensures
        b == is_container(t),
{
    match t {
        CodeSymbolType::Class | CodeSymbolType::Struct | CodeSymbolType::Trait | CodeSymbolType::Interface
        | CodeSymbolType::Module | CodeSymbolType::Enum => true,
        _ => false,
    }
}

/// Build the text of a symbol's chunk: the scope breadcrumb, the docstring and the node text.
pub fn build_chunk_text(
    language: SupportedLanguage,
    scope: &str,
    file_path: &str,
    docstring: Option<&str>,
    raw: &str,
) -> (r: String)
    ensures
        r@ == chunk_text(
            language,
            scope@,
            file_path@,
            match docstring {
                Some(d) => Some(d@),
                None => None,
            },
            raw@,
        ),
{
    let c = language.comment_prefix();
    let mut r = String::from_str(c);
    r.append(" Scope: ");
    r.append(scope);
    r.append("\n");
    r.append(c);
    r.append(" Language: ");
    r.append(language.name());
    r.append("\n");
    r.append(c);
    r.append(" File: ");
    r.append(file_path);
    r.append("\n");
    match docstring {
        Some(d) => {
            r.append(d);
            r.append("\n");
        },
        None => {},
    }
    r.append(raw);
    r
}

/// What the docstring of a declaration is read from.
#[derive(Debug, Clone)]
pub struct DocContext {
    /// The first child of the declaration's `body` field, if any.
    pub body_first: Option<SubNode>,
    /// The declaration's preceding siblings, nearest first.
    pub before: Vec<SubNode>,
    /// The kind of the declaration's parent, if any.
    pub parent_kind: Option<String>,
    /// The parent's preceding siblings, nearest first.
    pub parent_before: Vec<SubNode>,
    /// The declaration's children, in order.
    pub children: Vec<SubNode>,
}

/// A node kind that is a comment.
pub open spec fn is_comment_kind(k: Seq<char>) -> bool {
    seq_contains(k, "comment"@)
}

/// The trimmed texts of the comments that directly precede, nearest first.
pub open spec fn leading_comments(sibs: Seq<SubNode>) -> Seq<Seq<char>>
    decreases sibs.len(),
{
    if sibs.len() > 0 && is_comment_kind(sibs[0].kind@) {
        seq![spec_trim(sibs[0].text@)] + leading_comments(sibs.drop_first())
    } else {
        Seq::empty()
    }
}

/// The trimmed texts of the comments among the first children, skipping unnamed children,
/// decorators and attributes, up to the first other child.
pub open spec fn inner_comments(cs: Seq<SubNode>) -> Seq<Seq<char>>
    decreases cs.len(),
{
    if cs.len() == 0 {
        Seq::empty()
    } else if is_comment_kind(cs[0].kind@) {
        seq![spec_trim(cs[0].text@)] + inner_comments(cs.drop_first())
    } else if cs[0].kind@.len() > 0 && cs[0].kind@ != "decorator"@ && cs[0].kind@ != "attribute_item"@ {
        Seq::empty()
    } else {
        inner_comments(cs.drop_first())
    }
}

/// Lines joined by `\n`.
pub open spec fn join_lines(ls: Seq<Seq<char>>) -> Seq<char>
    decreases ls.len(),
{
    if ls.len() == 0 {
        Seq::empty()
    } else if ls.len() == 1 {
        ls[0]
    } else {
        join_lines(ls.drop_last()) + "\n"@ + ls.last()
    }
}

/// Three double quotes.
pub open spec fn triple_double() -> Seq<char> {
    seq!['"', '"', '"']
}

/// Three single quotes.
pub open spec fn triple_single() -> Seq<char> {
    seq!['\'', '\'', '\'']
}

/// A Python string literal statement in triple quotes.
pub open spec fn is_triple_quoted(t: Seq<char>) -> bool {
    (seq_starts_with(t, triple_double()) && seq_ends_with(t, triple_double())) || (seq_starts_with(t, triple_single())
        && seq_ends_with(t, triple_single()))
}

/// The docstring of a declaration: for Python, a triple-quoted string that opens its body;
/// else the comments just before it (before its `export` statement, when it is exported),
/// or else the comments at the start of its children; joined in reverse order of collection.
pub open spec fn docstring_of(language: SupportedLanguage, d: DocContext) -> Option<Seq<char>> {
    let py = match d.body_first {
        Some(f) => if f.kind@ == "expression_statement"@ && is_triple_quoted(spec_trim(f.text@)) {
            Some(spec_trim(f.text@))
        } else {
            None
        },
        None => None,
    };
    if language == SupportedLanguage::Python && py is Some {
        py
    } else {
        let sibs = match d.parent_kind {
            Some(k) => if k@ == "export_statement"@ { d.parent_before@ } else { d.before@ },
            None => d.before@,
        };
        let lead = leading_comments(sibs);
        let comments = if lead.len() > 0 { lead } else { inner_comments(d.children@) };
        if comments.len() == 0 {
            None
        } else {
            Some(join_lines(comments.reverse()))
        }
    }
}

fn is_comment_exec(k: &String) -> (b: bool)
    ensures
        b == is_comment_kind(k@),
{
    let kc = str_chars(k.as_str());
    let pat = str_chars("comment");
    chars_contains(kc.as_slice(), pat.as_slice())
}

fn trimmed_text(n: &SubNode) -> (r: Vec<char>)
    ensures
        r@ == spec_trim(n.text@),
{
    let c = str_chars(n.text.as_str());
    chars_trim(c.as_slice())
}

/// The trimmed comments directly preceding, nearest first.
fn leading_comments_exec(sibs: &Vec<SubNode>) -> (r: Vec<Vec<char>>)
    ensures
        r@.map_values(|v: Vec<char>| v@) == leading_comments(sibs@),
{
    let mut r: Vec<Vec<char>> = Vec::new();
    let mut i: usize = 0;
    assert(sibs@.skip(0) =~= sibs@);
    assert(leading_comments(sibs@) =~= r@.map_values(|v: Vec<char>| v@) + leading_comments(sibs@.skip(0)));
    while i < sibs.len() && is_comment_exec(&sibs[i].kind)
        invariant
            i <= sibs.len(),
            leading_comments(sibs@) == r@.map_values(|v: Vec<char>| v@) + leading_comments(sibs@.skip(i as int)),
        decreases sibs.len() - i,
    {
        assert(sibs@.skip(i as int).drop_first() =~= sibs@.skip(i + 1));
        assert(sibs@.skip(i as int)[0] == sibs@[i as int]);
        let ghost r0 = r@.map_values(|v: Vec<char>| v@);
        let t = trimmed_text(&sibs[i]);
        r.push(t);
        assert(r@.map_values(|v: Vec<char>| v@) =~= r0.push(t@));
        assert(r0 + (seq![t@] + leading_comments(sibs@.skip(i + 1))) =~= r0.push(t@) + leading_comments(sibs@.skip(i + 1)));
        i += 1;
    }
    proof {
        if i < sibs.len() {
            assert(sibs@.skip(i as int)[0] == sibs@[i as int]);
        }
        assert(leading_comments(sibs@.skip(i as int)) =~= Seq::<Seq<char>>::empty());
        assert(r@.map_values(|v: Vec<char>| v@) + Seq::<Seq<char>>::empty() =~= r@.map_values(|v: Vec<char>| v@));
    }
    r
}

/// The trimmed comments at the start of the children.
fn inner_comments_exec(cs: &Vec<SubNode>) -> (r: Vec<Vec<char>>)
    ensures
        r@.map_values(|v: Vec<char>| v@) == inner_comments(cs@),
{
    let mut r: Vec<Vec<char>> = Vec::new();
    let mut i: usize = 0;
    assert(cs@.skip(0) =~= cs@);
    assert(inner_comments(cs@) =~= r@.map_values(|v: Vec<char>| v@) + inner_comments(cs@.skip(0)));
    while i < cs.len()
        invariant
            i <= cs.len(),
            inner_comments(cs@) == r@.map_values(|v: Vec<char>| v@) + inner_comments(cs@.skip(i as int)),
        decreases cs.len() - i,
    {
        assert(cs@.skip(i as int).drop_first() =~= cs@.skip(i + 1));
        assert(cs@.skip(i as int)[0] == cs@[i as int]);
        let ghost r0 = r@.map_values(|v: Vec<char>| v@);
        let k = &cs[i].kind;
        if is_comment_exec(k) {
            let t = trimmed_text(&cs[i]);
            r.push(t);
            assert(r@.map_values(|v: Vec<char>| v@) =~= r0.push(t@));
            assert(r0 + (seq![t@] + inner_comments(cs@.skip(i + 1))) =~= r0.push(t@) + inner_comments(cs@.skip(i + 1)));
        } else if !k.as_str().is_empty() && !kind_is(k, "decorator") && !kind_is(k, "attribute_item") {
            assert(r0 + Seq::<Seq<char>>::empty() =~= r0);
            return r;
        }
        i += 1;
    }
    assert(cs@.skip(i as int) =~= Seq::<SubNode>::empty());
    assert(r@.map_values(|v: Vec<char>| v@) + Seq::<Seq<char>>::empty() =~= r@.map_values(|v: Vec<char>| v@));
    r
}

/// The lines in reverse order, joined by `\n`.
fn join_reversed(ls: &Vec<Vec<char>>) -> (r: String)
    requires
        ls.len() > 0,
    ensures
        r@ == join_lines(ls@.map_values(|v: Vec<char>| v@).reverse()),
{
    let ghost lv = ls@.map_values(|v: Vec<char>| v@);
    let n = ls.len();
    let mut r = string_from_chars(ls[n - 1].as_slice());
    let mut k: usize = 1;
    assert(lv.reverse().take(1) =~= seq![lv[n - 1]]);
    while k < n
        invariant
            n == ls.len(),
            lv == ls@.map_values(|v: Vec<char>| v@),
            1 <= k <= n,
            r@ == join_lines(lv.reverse().take(k as int)),
        decreases n - k,
    {
        assert(lv.reverse().take(k + 1).drop_last() =~= lv.reverse().take(k as int));
        assert(lv.reverse().take(k + 1).last() == lv[n - 1 - k]);
        r.append("\n");
        let line = string_from_chars(ls[n - 1 - k].as_slice());
        r.append(line.as_str());
        k += 1;
    }
    assert(lv.reverse().take(n as int) =~= lv.reverse());
    r
}

/// Three copies of a character.
fn triple(c: char) -> (v: Vec<char>)
    ensures
        v@ == seq![c, c, c],
{
    let mut v: Vec<char> = Vec::new();
    v.push(c);
    v.push(c);
    v.push(c);
    assert(v@ =~= seq![c, c, c]);
    v
}

/// Whether a trimmed statement is a triple-quoted string.
fn is_triple_quoted_exec(t: &[char]) -> (b: bool)
    ensures
        b == is_triple_quoted(t@),
{
    let dq = triple('"');
    let sq = triple('\'');
    (crate::text::chars_starts_with(t, dq.as_slice()) && crate::text::chars_ends_with(t, dq.as_slice())) || (
    crate::text::chars_starts_with(t, sq.as_slice()) && crate::text::chars_ends_with(t, sq.as_slice()))
}

/// Extract the docstring of a declaration: for Python a triple-quoted string opening its
/// body; otherwise the comments just before it (before its `export` statement when it is
/// exported), or else the comments at the start of its children, in reverse order of
/// collection, joined by line breaks.
pub fn extract_docstring(language: SupportedLanguage, d: &DocContext) -> (r: Option<String>)
    ensures
        opt_chars(r) == docstring_of(language, *d),
{
    if language == SupportedLanguage::Python {
        match &d.body_first {
            Some(f) => {
                if kind_is(&f.kind, "expression_statement") {
                    let t = trimmed_text(f);
                    if is_triple_quoted_exec(t.as_slice()) {
                        return Some(string_from_chars(t.as_slice()));
                    }
                }
            },
            None => {},
        }
    }
    let sibs = match &d.parent_kind {
        Some(k) => if kind_is(k, "export_statement") {
            &d.parent_before
        } else {
            &d.before
        },
        None => &d.before,
    };
    let lead = leading_comments_exec(sibs);
    let comments = if lead.len() > 0 {
        lead
    } else {
        inner_comments_exec(&d.children)
    };
    if comments.len() == 0 {
        None
    } else {
        Some(join_reversed(&comments))
    }
}

} // verus!
