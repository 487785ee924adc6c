//! Cypher-Lite linear path pattern grammar and its recursive-descent parser.
//!
//! Grammar:
//! ```text
//! PathPattern  := NodePattern ( EdgePattern NodePattern )*
//! NodePattern  := '(' ( Ident )? ( ':' Ident )? ( '{' Properties '}' )? ')'
//! EdgePattern  := ( '<-' | '-' ) '[' ( EdgeTypes )? ( '*' MinHops '..' MaxHops )? ']' ( '->' | '-' )
//!              | '-->' | '<--' | '--'
//! EdgeTypes    := ':' Identifier ( '|' Identifier )*
//! Properties   := Identifier ':' StringLiteral ( ',' Identifier ':' StringLiteral )*
//! ```
//!
//! The meaning of the grammar is given by the spec functions `spec_*` below, which read
//! a sequence of characters and give back the parsed value and the unread rest.
use vstd::prelude::*;

use crate::text::{
    char_is_alphanumeric, char_is_whitespace, is_alphanumeric_char, is_white_space, seq_starts_with,
    opt_view, str_eq, string_eq, string_from_chars, str_chars,
};

verus! {

// ---------------------------------------------------------------------------
// Pattern types
// ---------------------------------------------------------------------------
/// Direction of an edge in the query pattern.
#[derive(Debug, Clone, Copy, PartialEq, Eq, Structural)]
pub enum QueryDirection {
    /// Outbound: `-[...]->`
    Outgoing,
    /// Inbound: `<-[...]-`
    Incoming,
    /// Bidirectional / Undirected: `-[...]-`
    Undirected,
}

/// Exact property filters of a node pattern: each key occurs once, a later binding of a key
/// replaces the earlier one.
#[derive(Debug, Clone)]
pub struct Properties {
    entries: Vec<(String, String)>,
}

/// The mapping that a list of (key, value) bindings denotes, later bindings winning.
pub open spec fn entries_map(s: Seq<(String, String)>) -> Map<Seq<char>, Seq<char>>
    decreases s.len(),
{
    if s.len() == 0 {
        Map::empty()
    } else {
        entries_map(s.drop_last()).insert(s.last().0@, s.last().1@)
    }
}

/// No key is bound twice.
pub open spec fn keys_unique(s: Seq<(String, String)>) -> bool {
    forall|i: int, j: int| 0 <= i < j < s.len() ==> s[i].0@ != s[j].0@
}

pub proof fn lemma_entries_map_absent(s: Seq<(String, String)>, k: Seq<char>)
    requires
        forall|i: int| 0 <= i < s.len() ==> s[i].0@ != k,
    ensures
        !entries_map(s).dom().contains(k),
    decreases s.len(),
{
    if s.len() > 0 {
        lemma_entries_map_absent(s.drop_last(), k);
    }
}

pub proof fn lemma_entries_map_has(s: Seq<(String, String)>, i: int)
    requires
        keys_unique(s),
        0 <= i < s.len(),
    ensures
        entries_map(s).dom().contains(s[i].0@),
        entries_map(s)[s[i].0@] == s[i].1@,
    decreases s.len(),
{
    if i < s.len() - 1 {
        lemma_entries_map_has(s.drop_last(), i);
    }
}

pub proof fn lemma_entries_map_update(s: Seq<(String, String)>, i: int, p: (String, String))
    requires
        keys_unique(s),
        0 <= i < s.len(),
        s[i].0@ == p.0@,
    ensures
        entries_map(s.update(i, p)) == entries_map(s).insert(p.0@, p.1@),
    decreases s.len(),
{
    let t = s.update(i, p);
    if i == s.len() - 1 {
        assert(t.drop_last() =~= s.drop_last());
        assert(entries_map(t) =~= entries_map(s).insert(p.0@, p.1@));
    } else {
        assert(t.drop_last() =~= s.drop_last().update(i, p));
        lemma_entries_map_update(s.drop_last(), i, p);
        assert(s.last().0@ != p.0@);
        assert(entries_map(t) =~= entries_map(s).insert(p.0@, p.1@));
    }
}

impl View for Properties {
    type V = Map<Seq<char>, Seq<char>>;

    closed spec fn view(&self) -> Map<Seq<char>, Seq<char>> {
        entries_map(self.entries@)
    }
}

impl Properties {
    /// The well-formedness of the binding list.
    pub closed spec fn wf(&self) -> bool {
        keys_unique(self.entries@)
    }

    /// No bindings.
    pub fn new() -> (p: Properties)
        ensures
            p.wf(),
            p@ == Map::<Seq<char>, Seq<char>>::empty(),
    {
        Properties { entries: Vec::new() }
    }

    /// Number of bound keys.
    pub fn len(&self) -> (n: usize)
        requires
            self.wf(),
        ensures
            n == self@.dom().len(),
    {
        proof {
            self.lemma_len();
        }
        self.entries.len()
    }

    proof fn lemma_len(&self)
        requires
            self.wf(),
        ensures
            self@.dom().finite(),
            self@.dom().len() == self.entries@.len(),
    {
        lemma_dom_len(self.entries@);
    }

    /// Binds `key` to `value`, replacing an earlier binding of `key`.
    pub fn insert(&mut self, key: String, value: String)
        requires
            old(self).wf(),
        ensures
            final(self).wf(),
            final(self)@ == old(self)@.insert(key@, value@),
    {
        let mut i: usize = 0;
        while i < self.entries.len()
            invariant
                i <= self.entries.len(),
                self.entries@ == old(self).entries@,
                keys_unique(self.entries@),
                forall|j: int| 0 <= j < i ==> self.entries@[j].0@ != key@,
            decreases self.entries.len() - i,
        {
            if string_eq(&self.entries[i].0, &key) {
                proof {
                    lemma_entries_map_update(self.entries@, i as int, (key, value));
                }
                self.entries.set(i, (key, value));
                assert(keys_unique(self.entries@));
                return;
            }
            i += 1;
        }
        proof {
            lemma_entries_map_absent(self.entries@, key@);
        }
        let ghost k = key@;
        self.entries.push((key, value));
        assert(self.entries@.drop_last() =~= old(self).entries@);
        assert(keys_unique(self.entries@));
    }

    /// The value bound to `key`, if any.
    pub fn get(&self, key: &str) -> (r: Option<&String>)
        requires
            self.wf(),
        ensures
            match r {
                Some(v) => self@.dom().contains(key@) && self@[key@] == v@,
                None => !self@.dom().contains(key@),
            },
    {
        let mut i: usize = 0;
        while i < self.entries.len()
            invariant
                i <= self.entries.len(),
                keys_unique(self.entries@),
                forall|j: int| 0 <= j < i ==> self.entries@[j].0@ != key@,
            decreases self.entries.len() - i,
        {
            if str_eq(self.entries[i].0.as_str(), key) {
                proof {
                    lemma_entries_map_has(self.entries@, i as int);
                }
                return Some(&self.entries[i].1);
            }
            i += 1;
        }
        proof {
            lemma_entries_map_absent(self.entries@, key@);
        }
        None
    }

    /// Whether `key` is bound.
    pub fn contains_key(&self, key: &str) -> (b: bool)
        requires
            self.wf(),
        ensures
            b == self@.dom().contains(key@),
    {
        match self.get(key) {
            Some(_) => true,
            None => false,
        }
    }
}

pub proof fn lemma_dom_len(s: Seq<(String, String)>)
    requires
        keys_unique(s),
    ensures
        entries_map(s).dom().finite(),
        entries_map(s).dom().len() == s.len(),
    decreases s.len(),
{
    if s.len() > 0 {
        lemma_dom_len(s.drop_last());
        lemma_entries_map_absent(s.drop_last(), s.last().0@);
    }
}

/// A parsed node pattern, e.g. `(c:CodeSymbol {name: 'SelectVictimsOnNode'})`.
#[derive(Debug, Clone)]
pub struct NodePattern {
    /// Optional variable name (e.g. `c`, `doc`).
    pub variable: Option<String>,
    /// Optional node label (e.g. `CodeSymbol`, `DocNode`, `Interface`).
    pub label: Option<String>,
    /// Exact property match filters (e.g. `name: '...'`).
    pub properties: Properties,
}

/// A parsed edge pattern, e.g. `<-[:calls|implements*1..2]-`.
#[derive(Debug, Clone)]
pub struct EdgePattern {
    /// Traversal direction relative to preceding node.
    pub direction: QueryDirection,
    /// Allowed edge types (empty means any edge type).
    pub edge_types: Vec<String>,
    /// Minimum hops (inclusive, default 1).
    pub min_hops: usize,
    /// Maximum hops (inclusive, default 1).
    pub max_hops: usize,
}

/// A full linear path pattern, e.g. `(A)-[:implements]->(B)<-[:calls*1..2]-(C)`.
#[derive(Debug, Clone)]
pub struct PathPattern {
    /// Starting node pattern (anchor).
    pub start_node: NodePattern,
    /// Chained edge and subsequent node steps.
    pub steps: Vec<(EdgePattern, NodePattern)>,
}

/// Why a pattern could not be parsed; `at` is the unread rest of the input.
#[derive(Debug, Clone)]
pub enum PatternError {
    /// A fixed token was required.
    ExpectedToken { token: String, at: String },
    /// A quoted string was required.
    ExpectedStringLiteral { at: String },
    /// A quoted string has no closing quote.
    UnterminatedString,
    /// A property key was required.
    ExpectedPropertyKey { at: String },
    /// A property value was required.
    ExpectedPropertyValue { at: String },
    /// A `,` or `}` was required after a property.
    ExpectedPropertySeparator { at: String },
    /// Input remained after the whole pattern.
    TrailingInput { at: String },
}

// ---------------------------------------------------------------------------
// Abstract values
// ---------------------------------------------------------------------------
/// A node pattern as plain values.
pub struct NodeV {
    pub variable: Option<Seq<char>>,
    pub label: Option<Seq<char>>,
    pub properties: Map<Seq<char>, Seq<char>>,
}

/// An edge pattern as plain values.
pub struct EdgeV {
    pub direction: QueryDirection,
    pub edge_types: Seq<Seq<char>>,
    pub min_hops: nat,
    pub max_hops: nat,
}

/// A path pattern as plain values.
pub struct PathV {
    pub start_node: NodeV,
    pub steps: Seq<(EdgeV, NodeV)>,
}

/// A parse error as plain values.
pub enum ErrV {
    ExpectedToken(Seq<char>, Seq<char>),
    ExpectedStringLiteral(Seq<char>),
    UnterminatedString,
    ExpectedPropertyKey(Seq<char>),
    ExpectedPropertyValue(Seq<char>),
    ExpectedPropertySeparator(Seq<char>),
    TrailingInput(Seq<char>),
}

impl NodePattern {
    pub open spec fn view_v(&self) -> NodeV {
        NodeV {
            variable: opt_view(self.variable),
            label: opt_view(self.label),
            properties: self.properties@,
        }
    }

    pub open spec fn wf(&self) -> bool {
        self.properties.wf()
    }
}

impl EdgePattern {
    pub open spec fn view_v(&self) -> EdgeV {
        EdgeV {
            direction: self.direction,
            edge_types: self.edge_types@.map_values(|s: String| s@),
            min_hops: self.min_hops as nat,
            max_hops: self.max_hops as nat,
        }
    }
}

impl PathPattern {
    pub open spec fn view_v(&self) -> PathV {
        PathV {
            start_node: self.start_node.view_v(),
            steps: self.steps@.map_values(|p: (EdgePattern, NodePattern)| (p.0.view_v(), p.1.view_v())),
        }
    }

    pub open spec fn wf(&self) -> bool {
        &&& self.start_node.wf()
        &&& forall|i: int| 0 <= i < self.steps@.len() ==> (#[trigger] self.steps@[i]).1.wf()
    }
}

impl PatternError {
    pub open spec fn view_v(&self) -> ErrV {
        match self {
            PatternError::ExpectedToken { token, at } => ErrV::ExpectedToken(token@, at@),
            PatternError::ExpectedStringLiteral { at } => ErrV::ExpectedStringLiteral(at@),
            PatternError::UnterminatedString => ErrV::UnterminatedString,
            PatternError::ExpectedPropertyKey { at } => ErrV::ExpectedPropertyKey(at@),
            PatternError::ExpectedPropertyValue { at } => ErrV::ExpectedPropertyValue(at@),
            PatternError::ExpectedPropertySeparator { at } => ErrV::ExpectedPropertySeparator(at@),
            PatternError::TrailingInput { at } => ErrV::TrailingInput(at@),
        }
    }
}

// ---------------------------------------------------------------------------
// Lexical layer
// ---------------------------------------------------------------------------
/// Drops leading white space (`str::trim_start`).
pub open spec fn spec_trim_start(s: Seq<char>) -> Seq<char>
    decreases s.len(),
{
    if s.len() > 0 && is_white_space(s[0]) {
        spec_trim_start(s.drop_first())
    } else {
        s
    }
}

/// Skips white space, then takes `p` off the front if it is there. The white space is
/// skipped either way.
pub open spec fn spec_consume(s: Seq<char>, p: Seq<char>) -> (bool, Seq<char>) {
    let t = spec_trim_start(s);
    if seq_starts_with(t, p) {
        (true, t.skip(p.len() as int))
    } else {
        (false, t)
    }
}

/// A character that may occur in an identifier.
pub open spec fn is_ident_char(c: char) -> bool {
    is_alphanumeric_char(c) || c == '_' || c == '.' || c == '-'
}

/// Length of the longest prefix of identifier characters.
pub open spec fn ident_len(s: Seq<char>) -> nat
    decreases s.len(),
{
    if s.len() > 0 && is_ident_char(s[0]) {
        1 + ident_len(s.drop_first())
    } else {
        0
    }
}

/// Skips white space, then reads the longest non-empty run of identifier characters.
pub open spec fn spec_parse_ident(s: Seq<char>) -> (Option<Seq<char>>, Seq<char>) {
    let t = spec_trim_start(s);
    let n = ident_len(t);
    if n == 0 {
        (None, t)
    } else {
        (Some(t.take(n as int)), t.skip(n as int))
    }
}

/// Position of the first `q` in `s`, if any.
pub open spec fn index_of_char(s: Seq<char>, q: char) -> Option<nat>
    decreases s.len(),
{
    if s.len() == 0 {
        None
    } else if s[0] == q {
        Some(0)
    } else {
        match index_of_char(s.drop_first(), q) {
            Some(k) => Some(k + 1),
            None => None,
        }
    }
}

/// Skips white space, then reads a `'...'` or `"..."` literal.
pub open spec fn spec_parse_string_literal(s: Seq<char>) -> (Result<Seq<char>, ErrV>, Seq<char>) {
    let t = spec_trim_start(s);
    if t.len() == 0 || (t[0] != '\'' && t[0] != '"') {
        (Err(ErrV::ExpectedStringLiteral(t)), t)
    } else {
        let u = t.drop_first();
        match index_of_char(u, t[0]) {
            None => (Err(ErrV::UnterminatedString), u),
            Some(k) => (Ok(u.take(k as int)), u.skip(k + 1 as int)),
        }
    }
}

pub open spec fn is_ascii_digit(c: char) -> bool {
    '0' <= c && c <= '9'
}

/// Length of the longest prefix of ASCII digits.
pub open spec fn digits_len(s: Seq<char>) -> nat
    decreases s.len(),
{
    if s.len() > 0 && is_ascii_digit(s[0]) {
        1 + digits_len(s.drop_first())
    } else {
        0
    }
}

/// The decimal number that a string of ASCII digits spells.
pub open spec fn decimal_value(d: Seq<char>) -> nat
    decreases d.len(),
{
    if d.len() == 0 {
        0
    } else {
        decimal_value(d.drop_last()) * 10 + ((d.last() as u32) - ('0' as u32)) as nat
    }
}

/// `str::parse::<usize>` on a non-empty string of ASCII digits, with `default` in place of
/// the overflow error.
pub open spec fn parse_usize_or(d: Seq<char>, default: nat) -> nat {
    if decimal_value(d) <= usize::MAX {
        decimal_value(d)
    } else {
        default
    }
}

// ---------------------------------------------------------------------------
// Syntactic layer
// ---------------------------------------------------------------------------
pub open spec fn lit_open_paren() -> Seq<char> { seq!['('] }
pub open spec fn lit_close_paren() -> Seq<char> { seq![')'] }
pub open spec fn lit_colon() -> Seq<char> { seq![':'] }
pub open spec fn lit_open_brace() -> Seq<char> { seq!['{'] }
pub open spec fn lit_close_brace() -> Seq<char> { seq!['}'] }
pub open spec fn lit_comma() -> Seq<char> { seq![','] }
pub open spec fn lit_dash() -> Seq<char> { seq!['-'] }
pub open spec fn lit_in_dash() -> Seq<char> { seq!['<', '-'] }
pub open spec fn lit_out_arrow() -> Seq<char> { seq!['-', '>'] }
pub open spec fn lit_short_out() -> Seq<char> { seq!['-', '-', '>'] }
pub open spec fn lit_short_in() -> Seq<char> { seq!['<', '-', '-'] }
pub open spec fn lit_short_und() -> Seq<char> { seq!['-', '-'] }
pub open spec fn lit_open_bracket() -> Seq<char> { seq!['['] }
pub open spec fn lit_close_bracket() -> Seq<char> { seq![']'] }
pub open spec fn lit_bar() -> Seq<char> { seq!['|'] }
pub open spec fn lit_star() -> Seq<char> { seq!['*'] }
pub open spec fn lit_range() -> Seq<char> { seq!['.', '.'] }

pub proof fn lemma_trim_len(s: Seq<char>)
    ensures
        spec_trim_start(s).len() <= s.len(),
    decreases s.len(),
{
    if s.len() > 0 && is_white_space(s[0]) {
        lemma_trim_len(s.drop_first());
    }
}

pub proof fn lemma_consume_len(s: Seq<char>, p: Seq<char>)
    ensures
        spec_consume(s, p).1.len() <= s.len(),
        spec_consume(s, p).0 ==> spec_consume(s, p).1.len() + p.len() <= s.len(),
{
    lemma_trim_len(s);
}

pub proof fn lemma_ident_len(s: Seq<char>)
    ensures
        ident_len(s) <= s.len(),
    decreases s.len(),
{
    if s.len() > 0 && is_ident_char(s[0]) {
        lemma_ident_len(s.drop_first());
    }
}

pub proof fn lemma_parse_ident_len(s: Seq<char>)
    ensures
        spec_parse_ident(s).1.len() <= s.len(),
        spec_parse_ident(s).0 is Some ==> spec_parse_ident(s).1.len() < s.len(),
{
    lemma_trim_len(s);
    lemma_ident_len(spec_trim_start(s));
}

pub proof fn lemma_index_of_char(s: Seq<char>, q: char)
    ensures
        match index_of_char(s, q) {
            Some(k) => k < s.len() && s[k as int] == q && forall|j: int| 0 <= j < k ==> s[j] != q,
            None => forall|j: int| 0 <= j < s.len() ==> s[j] != q,
        },
    decreases s.len(),
{
    if s.len() > 0 && s[0] != q {
        lemma_index_of_char(s.drop_first(), q);
        match index_of_char(s.drop_first(), q) {
            Some(k) => {
                assert forall|j: int| 0 <= j < k + 1 implies s[j] != q by {
                    if j > 0 {
                        assert(s[j] == s.drop_first()[j - 1]);
                    }
                }
            },
            None => {
                assert forall|j: int| 0 <= j < s.len() implies s[j] != q by {
                    if j > 0 {
                        assert(s[j] == s.drop_first()[j - 1]);
                    }
                }
            },
        }
    }
}

pub proof fn lemma_string_literal_len(s: Seq<char>)
    ensures
        spec_parse_string_literal(s).1.len() <= s.len(),
{
    lemma_trim_len(s);
    let t = spec_trim_start(s);
    if t.len() > 0 {
        lemma_index_of_char(t.drop_first(), t[0]);
    }
}

/// The property bindings inside `{ ... }`, after the `{`.
pub open spec fn spec_parse_props(s: Seq<char>, m: Map<Seq<char>, Seq<char>>) -> (Result<
    Map<Seq<char>, Seq<char>>,
    ErrV,
>, Seq<char>)
    decreases s.len(),
{
    let t = spec_trim_start(s);
    let (closed, t1) = spec_consume(t, lit_close_brace());
    if closed {
        (Ok(m), t1)
    } else {
        let (key, t2) = spec_parse_ident(t1);
        match key {
            None => (Err(ErrV::ExpectedPropertyKey(t2)), t2),
            Some(k) => {
                let (colon, t3) = spec_consume(t2, lit_colon());
                if !colon {
                    (Err(ErrV::ExpectedToken(lit_colon(), t3)), t3)
                } else {
                    let t4 = spec_trim_start(t3);
                    let (val, t5) = if t4.len() > 0 && (t4[0] == '\'' || t4[0] == '"') {
                        spec_parse_string_literal(t4)
                    } else {
                        let (v, r) = spec_parse_ident(t4);
                        match v {
                            Some(v) => (Ok(v), r),
                            None => (Err(ErrV::ExpectedPropertyValue(r)), r),
                        }
                    };
                    match val {
                        Err(e) => (Err(e), t5),
                        Ok(v) => {
                            let m2 = m.insert(k, v);
                            let t6 = spec_trim_start(t5);
                            let (comma, t7) = spec_consume(t6, lit_comma());
                            if comma {
                                proof {
                                    lemma_trim_len(s);
                                    lemma_consume_len(t, lit_close_brace());
                                    lemma_parse_ident_len(t1);
                                    lemma_consume_len(t2, lit_colon());
                                    lemma_trim_len(t3);
                                    lemma_string_literal_len(t4);
                                    lemma_parse_ident_len(t4);
                                    lemma_trim_len(t5);
                                    lemma_consume_len(t6, lit_comma());
                                }
                                spec_parse_props(t7, m2)
                            } else {
                                let (brace, t8) = spec_consume(t7, lit_close_brace());
                                if brace {
                                    (Ok(m2), t8)
                                } else {
                                    (Err(ErrV::ExpectedPropertySeparator(t8)), t8)
                                }
                            }
                        },
                    }
                }
            },
        }
    }
}

/// The optional variable and label of a node pattern, after the `(`.
pub open spec fn spec_node_head(s: Seq<char>) -> (Option<Seq<char>>, Option<Seq<char>>, Seq<char>) {
    let s2 = spec_trim_start(s);
    let (id1, s3) = spec_parse_ident(s2);
    let (colon, s4) = spec_consume(s3, lit_colon());
    if colon {
        let (lbl, s5) = spec_parse_ident(s4);
        (id1, lbl, s5)
    } else {
        (id1, None, s4)
    }
}

/// A node pattern.
pub open spec fn spec_parse_node(s: Seq<char>) -> (Result<NodeV, ErrV>, Seq<char>) {
    let (open, s1) = spec_consume(s, lit_open_paren());
    if !open {
        (Err(ErrV::ExpectedToken(lit_open_paren(), s1)), s1)
    } else {
        let (var, lbl, s5) = spec_node_head(s1);
        let (brace, s6) = spec_consume(s5, lit_open_brace());
        let (props, s7) = if brace {
            spec_parse_props(s6, Map::empty())
        } else {
            (Ok(Map::empty()), s6)
        };
        match props {
            Err(e) => (Err(e), s7),
            Ok(m) => {
                let (close, s8) = spec_consume(s7, lit_close_paren());
                if !close {
                    (Err(ErrV::ExpectedToken(lit_close_paren(), s8)), s8)
                } else {
                    (Ok(NodeV { variable: var, label: lbl, properties: m }), s8)
                }
            },
        }
    }
}

/// The `|`-separated edge types, after the `:`.
pub open spec fn spec_parse_edge_types(s: Seq<char>, acc: Seq<Seq<char>>) -> (Seq<Seq<char>>, Seq<char>)
    decreases s.len(),
{
    let (id, t1) = spec_parse_ident(s);
    let acc2 = match id {
        Some(x) => acc.push(x),
        None => acc,
    };
    let t2 = spec_trim_start(t1);
    let (bar, t3) = spec_consume(t2, lit_bar());
    if bar {
        proof {
            lemma_parse_ident_len(s);
            lemma_trim_len(t1);
            lemma_consume_len(t2, lit_bar());
        }
        spec_parse_edge_types(t3, acc2)
    } else {
        (acc2, t3)
    }
}

/// The `*min..max` hop range, after the `*`: (min, max, rest).
pub open spec fn spec_parse_hops(s: Seq<char>) -> (nat, nat, Seq<char>) {
    let t = spec_trim_start(s);
    let n1 = digits_len(t);
    let min = if n1 > 0 {
        parse_usize_or(t.take(n1 as int), 1)
    } else {
        1
    };
    let t1 = t.skip(n1 as int);
    let (range, t2) = spec_consume(t1, lit_range());
    if range {
        let n2 = digits_len(t2);
        let max = if n2 > 0 {
            parse_usize_or(t2.take(n2 as int), 5)
        } else {
            5
        };
        (min, max, t2.skip(n2 as int))
    } else {
        (min, min, t2)
    }
}

pub open spec fn simple_edge(d: QueryDirection) -> EdgeV {
    EdgeV { direction: d, edge_types: Seq::empty(), min_hops: 1, max_hops: 1 }
}

/// An edge pattern.
pub open spec fn spec_parse_edge(s: Seq<char>) -> (Result<EdgeV, ErrV>, Seq<char>) {
    let s0 = spec_trim_start(s);
    let (a, s1) = spec_consume(s0, lit_short_out());
    let (b, s2) = spec_consume(s1, lit_short_in());
    let (c, s3) = spec_consume(s2, lit_short_und());
    if a {
        (Ok(simple_edge(QueryDirection::Outgoing)), s1)
    } else if b {
        (Ok(simple_edge(QueryDirection::Incoming)), s2)
    } else if c {
        (Ok(simple_edge(QueryDirection::Undirected)), s3)
    } else {
        let (inbound, s4) = spec_consume(s3, lit_in_dash());
        let (dash, s5) = if inbound {
            (true, s4)
        } else {
            spec_consume(s4, lit_dash())
        };
        if !dash {
            (Err(ErrV::ExpectedToken(lit_dash(), s5)), s5)
        } else {
            let (bracket, s6) = spec_consume(s5, lit_open_bracket());
            if !bracket {
                (Err(ErrV::ExpectedToken(lit_open_bracket(), s6)), s6)
            } else {
                let (colon, s7) = spec_consume(s6, lit_colon());
                let (types, s8) = if colon {
                    spec_parse_edge_types(s7, Seq::empty())
                } else {
                    (Seq::empty(), s7)
                };
                let (star, s9) = spec_consume(s8, lit_star());
                let (min, max, s10) = if star {
                    spec_parse_hops(s9)
                } else {
                    (1, 1, s9)
                };
                let (close, s11) = spec_consume(s10, lit_close_bracket());
                if !close {
                    (Err(ErrV::ExpectedToken(lit_close_bracket(), s11)), s11)
                } else {
                    let (outbound, s12) = spec_consume(s11, lit_out_arrow());
                    let (tail, s13) = if outbound {
                        (true, s12)
                    } else {
                        spec_consume(s12, lit_dash())
                    };
                    if !tail {
                        (Err(ErrV::ExpectedToken(lit_dash(), s13)), s13)
                    } else {
                        let direction = if inbound && !outbound {
                            QueryDirection::Incoming
                        } else if !inbound && outbound {
                            QueryDirection::Outgoing
                        } else {
                            QueryDirection::Undirected
                        };
                        let max2 = if max >= min {
                            max
                        } else {
                            min
                        };
                        (
                            Ok(EdgeV { direction, edge_types: types, min_hops: min, max_hops: max2 }),
                            s13,
                        )
                    }
                }
            }
        }
    }
}

pub proof fn lemma_props_len(s: Seq<char>, m: Map<Seq<char>, Seq<char>>)
    ensures
        spec_parse_props(s, m).1.len() <= s.len(),
    decreases s.len(),
{
    let t = spec_trim_start(s);
    let t1 = spec_consume(t, lit_close_brace()).1;
    let t2 = spec_parse_ident(t1).1;
    let t3 = spec_consume(t2, lit_colon()).1;
    let t4 = spec_trim_start(t3);
    lemma_trim_len(s);
    lemma_consume_len(t, lit_close_brace());
    lemma_parse_ident_len(t1);
    lemma_consume_len(t2, lit_colon());
    lemma_trim_len(t3);
    lemma_string_literal_len(t4);
    lemma_parse_ident_len(t4);
    let (val, t5) = if t4.len() > 0 && (t4[0] == '\'' || t4[0] == '"') {
        spec_parse_string_literal(t4)
    } else {
        let (v, r) = spec_parse_ident(t4);
        match v {
            Some(v) => (Ok(v), r),
            None => (Err(ErrV::ExpectedPropertyValue(r)), r),
        }
    };
    lemma_trim_len(t5);
    let t6 = spec_trim_start(t5);
    lemma_consume_len(t6, lit_comma());
    let t7 = spec_consume(t6, lit_comma()).1;
    lemma_consume_len(t7, lit_close_brace());
    if let (Some(k), Ok(v)) = (spec_parse_ident(t1).0, val) {
        lemma_props_len(t7, m.insert(k, v));
    }
}

pub proof fn lemma_node_len(s: Seq<char>)
    ensures
        spec_parse_node(s).0 is Ok ==> spec_parse_node(s).1.len() < s.len(),
{
    let s1 = spec_consume(s, lit_open_paren()).1;
    lemma_consume_len(s, lit_open_paren());
    let s2 = spec_trim_start(s1);
    lemma_trim_len(s1);
    let s3 = spec_parse_ident(s2).1;
    lemma_parse_ident_len(s2);
    let s4 = spec_consume(s3, lit_colon()).1;
    lemma_consume_len(s3, lit_colon());
    lemma_parse_ident_len(s4);
    let s5 = spec_node_head(s1).2;
    lemma_consume_len(s5, lit_open_brace());
    let s6 = spec_consume(s5, lit_open_brace()).1;
    lemma_props_len(s6, Map::empty());
    let s7 = if spec_consume(s5, lit_open_brace()).0 {
        spec_parse_props(s6, Map::empty()).1
    } else {
        s6
    };
    lemma_consume_len(s7, lit_close_paren());
}

pub proof fn lemma_edge_types_len(s: Seq<char>, acc: Seq<Seq<char>>)
    ensures
        spec_parse_edge_types(s, acc).1.len() <= s.len(),
    decreases s.len(),
{
    let (id, t1) = spec_parse_ident(s);
    lemma_parse_ident_len(s);
    lemma_trim_len(t1);
    let t2 = spec_trim_start(t1);
    lemma_consume_len(t2, lit_bar());
    let acc2 = match id {
        Some(x) => acc.push(x),
        None => acc,
    };
    if spec_consume(t2, lit_bar()).0 {
        lemma_edge_types_len(spec_consume(t2, lit_bar()).1, acc2);
    }
}

pub proof fn lemma_digits_len(s: Seq<char>)
    ensures
        digits_len(s) <= s.len(),
        forall|j: int| 0 <= j < digits_len(s) ==> is_ascii_digit(#[trigger] s[j]),
        digits_len(s) < s.len() ==> !is_ascii_digit(s[digits_len(s) as int]),
    decreases s.len(),
{
    if s.len() > 0 && is_ascii_digit(s[0]) {
        lemma_digits_len(s.drop_first());
        assert forall|j: int| 0 <= j < digits_len(s) implies is_ascii_digit(#[trigger] s[j]) by {
            if j > 0 {
                assert(s[j] == s.drop_first()[j - 1]);
            }
        }
        if digits_len(s) < s.len() {
            assert(s[digits_len(s) as int] == s.drop_first()[digits_len(s.drop_first()) as int]);
        }
    }
}

pub proof fn lemma_edge_len(s: Seq<char>)
    ensures
        spec_parse_edge(s).1.len() <= s.len(),
{
    let s0 = spec_trim_start(s);
    lemma_trim_len(s);
    let s1 = spec_consume(s0, lit_short_out()).1;
    lemma_consume_len(s0, lit_short_out());
    let s2 = spec_consume(s1, lit_short_in()).1;
    lemma_consume_len(s1, lit_short_in());
    let s3 = spec_consume(s2, lit_short_und()).1;
    lemma_consume_len(s2, lit_short_und());
    let s4 = spec_consume(s3, lit_in_dash()).1;
    lemma_consume_len(s3, lit_in_dash());
    lemma_consume_len(s4, lit_dash());
    let s5 = if spec_consume(s3, lit_in_dash()).0 {
        s4
    } else {
        spec_consume(s4, lit_dash()).1
    };
    lemma_consume_len(s5, lit_open_bracket());
    let s6 = spec_consume(s5, lit_open_bracket()).1;
    lemma_consume_len(s6, lit_colon());
    let s7 = spec_consume(s6, lit_colon()).1;
    lemma_edge_types_len(s7, Seq::empty());
    let s8 = if spec_consume(s6, lit_colon()).0 {
        spec_parse_edge_types(s7, Seq::empty()).1
    } else {
        s7
    };
    lemma_consume_len(s8, lit_star());
    let s9 = spec_consume(s8, lit_star()).1;
    let t = spec_trim_start(s9);
    lemma_trim_len(s9);
    lemma_digits_len(t);
    let t1 = t.skip(digits_len(t) as int);
    lemma_consume_len(t1, lit_range());
    let t2 = spec_consume(t1, lit_range()).1;
    lemma_digits_len(t2);
    let s10 = if spec_consume(s8, lit_star()).0 {
        spec_parse_hops(s9).2
    } else {
        s9
    };
    lemma_consume_len(s10, lit_close_bracket());
    let s11 = spec_consume(s10, lit_close_bracket()).1;
    lemma_consume_len(s11, lit_out_arrow());
    let s12 = spec_consume(s11, lit_out_arrow()).1;
    lemma_consume_len(s12, lit_dash());
}

/// The `( edge node )*` steps that follow the first node.
pub open spec fn spec_parse_steps(s: Seq<char>, acc: Seq<(EdgeV, NodeV)>) -> (Result<
    Seq<(EdgeV, NodeV)>,
    ErrV,
>, Seq<char>)
    decreases s.len(),
{
    let t = spec_trim_start(s);
    if t.len() == 0 {
        (Ok(acc), t)
    } else if seq_starts_with(t, lit_dash()) || seq_starts_with(t, lit_in_dash()) {
        let (e, r1) = spec_parse_edge(t);
        match e {
            Err(x) => (Err(x), r1),
            Ok(e) => {
                let (n, r2) = spec_parse_node(r1);
                match n {
                    Err(x) => (Err(x), r2),
                    Ok(n) => {
                        proof {
                            lemma_trim_len(s);
                            lemma_edge_len(t);
                            lemma_node_len(r1);
                        }
                        spec_parse_steps(r2, acc.push((e, n)))
                    },
                }
            },
        }
    } else {
        (Ok(acc), t)
    }
}

/// A whole path pattern, and the rest of the input after it.
pub open spec fn spec_parse(s: Seq<char>) -> (Result<PathV, ErrV>, Seq<char>) {
    let (n, r) = spec_parse_node(s);
    match n {
        Err(e) => (Err(e), r),
        Ok(n) => {
            let (steps, r2) = spec_parse_steps(r, Seq::empty());
            match steps {
                Err(e) => (Err(e), r2),
                Ok(st) => (Ok(PathV { start_node: n, steps: st }), r2),
            }
        },
    }
}

/// What `parse_path_pattern` gives for an input: the pattern, or the first error, or a
/// complaint about what is left after the pattern.
pub open spec fn spec_parse_path_pattern(s: Seq<char>) -> Result<PathV, ErrV> {
    let (p, r) = spec_parse(s);
    match p {
        Err(e) => Err(e),
        Ok(p) => {
            let t = spec_trim_start(r);
            if t.len() > 0 {
                Err(ErrV::TrailingInput(t))
            } else {
                Ok(p)
            }
        },
    }
}

pub proof fn lemma_trim_idem(s: Seq<char>)
    ensures
        spec_trim_start(spec_trim_start(s)) == spec_trim_start(s),
    decreases s.len(),
{
    if s.len() > 0 && is_white_space(s[0]) {
        lemma_trim_idem(s.drop_first());
    }
}

pub proof fn lemma_ident_chars(s: Seq<char>)
    ensures
        ident_len(s) <= s.len(),
        forall|j: int| 0 <= j < ident_len(s) ==> is_ident_char(#[trigger] s[j]),
        ident_len(s) < s.len() ==> !is_ident_char(s[ident_len(s) as int]),
    decreases s.len(),
{
    if s.len() > 0 && is_ident_char(s[0]) {
        lemma_ident_chars(s.drop_first());
        assert forall|j: int| 0 <= j < ident_len(s) implies is_ident_char(#[trigger] s[j]) by {
            if j > 0 {
                assert(s[j] == s.drop_first()[j - 1]);
            }
        }
        if ident_len(s) < s.len() {
            assert(s[ident_len(s) as int] == s.drop_first()[ident_len(s.drop_first()) as int]);
        }
    }
}

/// `ident_len` is the length of the maximal run of identifier characters.
pub proof fn lemma_ident_len_unique(s: Seq<char>, n: nat)
    requires
        n <= s.len(),
        forall|j: int| 0 <= j < n ==> is_ident_char(#[trigger] s[j]),
        n < s.len() ==> !is_ident_char(s[n as int]),
    ensures
        ident_len(s) == n,
{
    lemma_ident_chars(s);
    if ident_len(s) < n {
        assert(is_ident_char(s[ident_len(s) as int]));
    }
    if ident_len(s) > n {
        assert(is_ident_char(s[n as int]));
    }
}

/// `digits_len` is the length of the maximal run of ASCII digits.
pub proof fn lemma_digits_len_unique(s: Seq<char>, n: nat)
    requires
        n <= s.len(),
        forall|j: int| 0 <= j < n ==> is_ascii_digit(#[trigger] s[j]),
        n < s.len() ==> !is_ascii_digit(s[n as int]),
    ensures
        digits_len(s) == n,
{
    lemma_digits_len(s);
    if digits_len(s) < n {
        assert(is_ascii_digit(s[digits_len(s) as int]));
    }
    if digits_len(s) > n {
        assert(is_ascii_digit(s[n as int]));
    }
}

fn tok_open_paren() -> (r: &'static [char])
    ensures
        r@ == lit_open_paren(),
{
    let r: &'static [char] = &['('];
    assert(r@ == lit_open_paren());
    r
}

fn tok_close_paren() -> (r: &'static [char])
    ensures
        r@ == lit_close_paren(),
{
    let r: &'static [char] = &[')'];
    assert(r@ == lit_close_paren());
    r
}

fn tok_colon() -> (r: &'static [char])
    ensures
        r@ == lit_colon(),
{
    let r: &'static [char] = &[':'];
    assert(r@ == lit_colon());
    r
}

fn tok_open_brace() -> (r: &'static [char])
    ensures
        r@ == lit_open_brace(),
{
    let r: &'static [char] = &['{'];
    assert(r@ == lit_open_brace());
    r
}

fn tok_close_brace() -> (r: &'static [char])
    ensures
        r@ == lit_close_brace(),
{
    let r: &'static [char] = &['}'];
    assert(r@ == lit_close_brace());
    r
}

fn tok_comma() -> (r: &'static [char])
    ensures
        r@ == lit_comma(),
{
    let r: &'static [char] = &[','];
    assert(r@ == lit_comma());
    r
}

fn tok_dash() -> (r: &'static [char])
    ensures
        r@ == lit_dash(),
{
    let r: &'static [char] = &['-'];
    assert(r@ == lit_dash());
    r
}

fn tok_in_dash() -> (r: &'static [char])
    ensures
        r@ == lit_in_dash(),
{
    let r: &'static [char] = &['<', '-'];
    assert(r@ == lit_in_dash());
    r
}

fn tok_out_arrow() -> (r: &'static [char])
    ensures
        r@ == lit_out_arrow(),
{
    let r: &'static [char] = &['-', '>'];
    assert(r@ == lit_out_arrow());
    r
}

fn tok_short_out() -> (r: &'static [char])
    ensures
        r@ == lit_short_out(),
{
    let r: &'static [char] = &['-', '-', '>'];
    assert(r@ == lit_short_out());
    r
}

fn tok_short_in() -> (r: &'static [char])
    ensures
        r@ == lit_short_in(),
{
    let r: &'static [char] = &['<', '-', '-'];
    assert(r@ == lit_short_in());
    r
}

fn tok_short_und() -> (r: &'static [char])
    ensures
        r@ == lit_short_und(),
{
    let r: &'static [char] = &['-', '-'];
    assert(r@ == lit_short_und());
    r
}

fn tok_open_bracket() -> (r: &'static [char])
    ensures
        r@ == lit_open_bracket(),
{
    let r: &'static [char] = &['['];
    assert(r@ == lit_open_bracket());
    r
}

fn tok_close_bracket() -> (r: &'static [char])
    ensures
        r@ == lit_close_bracket(),
{
    let r: &'static [char] = &[']'];
    assert(r@ == lit_close_bracket());
    r
}

fn tok_bar() -> (r: &'static [char])
    ensures
        r@ == lit_bar(),
{
    let r: &'static [char] = &['|'];
    assert(r@ == lit_bar());
    r
}

fn tok_star() -> (r: &'static [char])
    ensures
        r@ == lit_star(),
{
    let r: &'static [char] = &['*'];
    assert(r@ == lit_star());
    r
}

fn tok_range() -> (r: &'static [char])
    ensures
        r@ == lit_range(),
{
    let r: &'static [char] = &['.', '.'];
    assert(r@ == lit_range());
    r
}

// ---------------------------------------------------------------------------
// Recursive descent parser
// ---------------------------------------------------------------------------
/// Reads a pattern from left to right; `pos` is how far it has read.
struct PatternParser {
    chars: Vec<char>,
    pos: usize,
}

impl PatternParser {
    /// The unread rest of the input.
    spec fn rest(&self) -> Seq<char> {
        self.chars@.skip(self.pos as int)
    }

    spec fn wf(&self) -> bool {
        self.pos <= self.chars@.len()
    }

    fn new(input: &str) -> (p: Self)
        ensures
            p.wf(),
            p.rest() == input@,
    {
        let chars = str_chars(input);
        let p = PatternParser { chars, pos: 0 };
        assert(p.rest() =~= input@);
        p
    }

    /// The unread rest as a `String`.
    fn rest_string(&self) -> (r: String)
        requires
            self.wf(),
        ensures
            r@ == self.rest(),
    {
        let v = crate::text::chars_slice(self.chars.as_slice(), self.pos, self.chars.len());
        assert(v@ =~= self.rest());
        string_from_chars(v.as_slice())
    }

    fn skip_ws(&mut self)
        requires
            old(self).wf(),
        ensures
            final(self).wf(),
            final(self).chars@ == old(self).chars@,
            final(self).rest() == spec_trim_start(old(self).rest()),
    {
        while self.pos < self.chars.len() && char_is_whitespace(self.chars[self.pos])
            invariant
                self.wf(),
                self.chars@ == old(self).chars@,
                spec_trim_start(old(self).rest()) == spec_trim_start(self.rest()),
            decreases self.chars.len() - self.pos,
        {
            assert(self.rest().drop_first() =~= self.chars@.skip(self.pos + 1));
            self.pos = self.pos + 1;
        }
    }

    fn peek(&self) -> (r: Option<char>)
        requires
            self.wf(),
        ensures
            r == (if self.rest().len() > 0 {
                Some(self.rest()[0])
            } else {
                None::<char>
            }),
    {
        if self.pos < self.chars.len() {
            Some(self.chars[self.pos])
        } else {
            None
        }
    }

    fn starts_with(&self, prefix: &[char]) -> (r: bool)
        requires
            self.wf(),
        ensures
            r == seq_starts_with(self.rest(), prefix@),
    {
        let r = crate::text::chars_occur_at(self.chars.as_slice(), prefix, self.pos);
        proof {
            if prefix@.len() <= self.rest().len() {
                assert(self.rest().subrange(0, prefix@.len() as int) =~= self.chars@.subrange(
                    self.pos as int,
                    self.pos + prefix@.len(),
                ));
            }
        }
        r
    }

    fn consume_str(&mut self, prefix: &[char]) -> (r: bool)
        requires
            old(self).wf(),
        ensures
            final(self).wf(),
            final(self).chars@ == old(self).chars@,
            (r, final(self).rest()) == spec_consume(old(self).rest(), prefix@),
    {
        self.skip_ws();
        if self.starts_with(prefix) {
            let ghost before = self.rest();
            assert(prefix@.len() <= before.len());
            assert(before.len() == self.chars@.len() - self.pos);
            assert(self.pos + prefix.len() <= self.chars.len());
            self.pos = self.pos + prefix.len();
            assert(self.rest() =~= before.skip(prefix@.len() as int));
            true
        } else {
            false
        }
    }

    fn expect_str(&mut self, prefix: &[char]) -> (r: Result<(), PatternError>)
        requires
            old(self).wf(),
        ensures
            final(self).wf(),
            final(self).chars@ == old(self).chars@,
            match r {
                Ok(_) => spec_consume(old(self).rest(), prefix@) == (true, final(self).rest()),
                Err(e) => {
                    &&& !spec_consume(old(self).rest(), prefix@).0
                    &&& e.view_v() == ErrV::ExpectedToken(
                        prefix@,
                        spec_consume(old(self).rest(), prefix@).1,
                    )
                },
            },
    {
        proof {
            lemma_trim_idem(self.rest());
        }
        self.skip_ws();
        if self.consume_str(prefix) {
            Ok(())
        } else {
            let token = string_from_chars(prefix);
            let at = self.rest_string();
            Err(PatternError::ExpectedToken { token, at })
        }
    }

    fn parse_ident(&mut self) -> (r: Option<String>)
        requires
            old(self).wf(),
        ensures
            final(self).wf(),
            final(self).chars@ == old(self).chars@,
            (opt_view(r), final(self).rest()) == spec_parse_ident(old(self).rest()),
    {
        self.skip_ws();
        let ghost t = self.rest();
        let start = self.pos;
        let mut end = self.pos;
        while end < self.chars.len() && (char_is_alphanumeric(self.chars[end]) || self.chars[end]
            == '_' || self.chars[end] == '.' || self.chars[end] == '-')
            invariant
                self.wf(),
                start == self.pos,
                start <= end <= self.chars@.len(),
                t == self.rest(),
                forall|j: int| 0 <= j < end - start ==> is_ident_char(#[trigger] t[j]),
            decreases self.chars.len() - end,
        {
            assert(t[end - start] == self.chars@[end as int]);
            end = end + 1;
        }
        proof {
            if end < self.chars.len() {
                assert(t[end - start] == self.chars@[end as int]);
            }
            lemma_ident_len_unique(t, (end - start) as nat);
        }
        if end == start {
            None
        } else {
            let v = crate::text::chars_slice(self.chars.as_slice(), start, end);
            assert(v@ =~= t.take(end - start));
            let s = string_from_chars(v.as_slice());
            self.pos = end;
            assert(self.rest() =~= t.skip(end - start));
            Some(s)
        }
    }

    fn parse_string_literal(&mut self) -> (r: Result<String, PatternError>)
        requires
            old(self).wf(),
        ensures
            final(self).wf(),
            final(self).chars@ == old(self).chars@,
            match r {
                Ok(s) => spec_parse_string_literal(old(self).rest()) == (
                    Ok::<Seq<char>, ErrV>(s@),
                    final(self).rest(),
                ),
                Err(e) => spec_parse_string_literal(old(self).rest()).0 == Err::<Seq<char>, ErrV>(
                    e.view_v(),
                ),
            },
    {
        self.skip_ws();
        let ghost t = self.rest();
        let quote = match self.peek() {
            Some(c) => {
                if c == '\'' || c == '"' {
                    c
                } else {
                    let at = self.rest_string();
                    return Err(PatternError::ExpectedStringLiteral { at });
                }
            },
            None => {
                let at = self.rest_string();
                return Err(PatternError::ExpectedStringLiteral { at });
            },
        };
        assert(t.len() > 0);
        assert(t.len() == self.chars@.len() - self.pos);
        assert(self.pos < self.chars.len());
        self.pos = self.pos + 1;
        let ghost u = self.rest();
        assert(u =~= t.drop_first());
        proof {
            lemma_index_of_char(u, quote);
        }
        let start = self.pos;
        let mut k = self.pos;
        while k < self.chars.len() && self.chars[k] != quote
            invariant
                self.wf(),
                start == self.pos,
                start <= k <= self.chars@.len(),
                u == self.rest(),
                forall|j: int| 0 <= j < k - start ==> u[j] != quote,
            decreases self.chars.len() - k,
        {
            assert(u[k - start] == self.chars@[k as int]);
            k = k + 1;
        }
        if k == self.chars.len() {
            proof {
                match index_of_char(u, quote) {
                    Some(i) => {
                        assert(u[i as int] == quote);
                    },
                    None => {},
                }
            }
            return Err(PatternError::UnterminatedString);
        }
        proof {
            assert(u[k - start] == self.chars@[k as int]);
            match index_of_char(u, quote) {
                Some(i) => {
                    if i < k - start {
                        assert(u[i as int] == quote);
                    }
                    if i > k - start {
                        assert(u[k - start] != quote);
                    }
                },
                None => {
                    assert(u[k - start] == quote);
                },
            }
        }
        let v = crate::text::chars_slice(self.chars.as_slice(), start, k);
        assert(v@ =~= u.take(k - start));
        let s = string_from_chars(v.as_slice());
        self.pos = k + 1;
        assert(self.rest() =~= u.skip(k - start + 1));
        Ok(s)
    }

    /// The property bindings up to and including the closing `}`.
    fn parse_props(&mut self) -> (r: Result<Properties, PatternError>)
        requires
            old(self).wf(),
        ensures
            final(self).wf(),
            final(self).chars@ == old(self).chars@,
            match r {
                Ok(p) => p.wf() && spec_parse_props(old(self).rest(), Map::empty()) == (
                    Ok::<Map<Seq<char>, Seq<char>>, ErrV>(p@),
                    final(self).rest(),
                ),
                Err(e) => spec_parse_props(old(self).rest(), Map::empty()).0 == Err::<
                    Map<Seq<char>, Seq<char>>,
                    ErrV,
                >(e.view_v()),
            },
    {
        let mut props = Properties::new();
        let ghost goal = spec_parse_props(self.rest(), Map::empty());
        loop
            invariant
                self.wf(),
                self.chars@ == old(self).chars@,
                props.wf(),
                goal == spec_parse_props(old(self).rest(), Map::empty()),
                goal == spec_parse_props(self.rest(), props@),
            decreases self.rest().len(),
        {
            let ghost s0 = self.rest();
            let ghost m0 = props@;
            self.skip_ws();
            let ghost t0 = self.rest();
            assert(t0 == spec_trim_start(s0));
            if self.consume_str(tok_close_brace()) {
                assert(spec_consume(t0, lit_close_brace()) == (true, self.rest()));
                assert(spec_parse_props(s0, m0) == (Ok::<Map<Seq<char>, Seq<char>>, ErrV>(m0), self.rest()));
                return Ok(props);
            }
            let ghost t1 = self.rest();
            let key = match self.parse_ident() {
                Some(k) => k,
                None => {
                    let at = self.rest_string();
                    return Err(PatternError::ExpectedPropertyKey { at });
                },
            };
            let ghost t2 = self.rest();
            match self.expect_str(tok_colon()) {
                Ok(_) => {},
                Err(e) => {
                    return Err(e);
                },
            }
            let ghost t3 = self.rest();
            self.skip_ws();
            let ghost t4 = self.rest();
            let c = self.peek();
            let val = if c == Some('\'') || c == Some('"') {
                match self.parse_string_literal() {
                    Ok(v) => v,
                    Err(e) => {
                        return Err(e);
                    },
                }
            } else {
                match self.parse_ident() {
                    Some(v) => v,
                    None => {
                        let at = self.rest_string();
                        return Err(PatternError::ExpectedPropertyValue { at });
                    },
                }
            };
            props.insert(key, val);
            let ghost t5 = self.rest();
            self.skip_ws();
            let ghost t6 = self.rest();
            if self.consume_str(tok_comma()) {
                proof {
                    lemma_trim_len(s0);
                    lemma_consume_len(spec_trim_start(s0), lit_close_brace());
                    lemma_parse_ident_len(t1);
                    lemma_consume_len(t2, lit_colon());
                    lemma_trim_len(t3);
                    lemma_string_literal_len(t4);
                    lemma_parse_ident_len(t4);
                    lemma_trim_len(t5);
                    lemma_consume_len(t6, lit_comma());
                }
                continue;
            } else if self.consume_str(tok_close_brace()) {
                return Ok(props);
            } else {
                let at = self.rest_string();
                return Err(PatternError::ExpectedPropertySeparator { at });
            }
        }
    }

    fn parse_node(&mut self) -> (r: Result<NodePattern, PatternError>)
        requires
            old(self).wf(),
        ensures
            final(self).wf(),
            final(self).chars@ == old(self).chars@,
            match r {
                Ok(n) => n.wf() && spec_parse_node(old(self).rest()) == (
                    Ok::<NodeV, ErrV>(n.view_v()),
                    final(self).rest(),
                ),
                Err(e) => spec_parse_node(old(self).rest()).0 == Err::<NodeV, ErrV>(e.view_v()),
            },
    {
        match self.expect_str(tok_open_paren()) {
            Ok(_) => {},
            Err(e) => {
                return Err(e);
            },
        }
        let ghost s1 = self.rest();
        self.skip_ws();
        let mut variable: Option<String> = None;
        let mut label: Option<String> = None;
        match self.parse_ident() {
            Some(id1) => {
                if self.consume_str(tok_colon()) {
                    variable = Some(id1);
                    label = self.parse_ident();
                } else {
                    variable = Some(id1);
                }
            },
            None => {
                if self.consume_str(tok_colon()) {
                    label = self.parse_ident();
                }
            },
        }
        assert(spec_node_head(s1) == (opt_view(variable), opt_view(label), self.rest()));
        let properties = if self.consume_str(tok_open_brace()) {
            match self.parse_props() {
                Ok(p) => p,
                Err(e) => {
                    return Err(e);
                },
            }
        } else {
            Properties::new()
        };
        match self.expect_str(tok_close_paren()) {
            Ok(_) => {},
            Err(e) => {
                return Err(e);
            },
        }
        Ok(NodePattern { variable, label, properties })
    }

    /// A run of ASCII digits and the number it spells, with `default` when it does not fit
    /// in `usize`.
    fn parse_digits(&mut self, default: usize) -> (r: (bool, usize))
        requires
            old(self).wf(),
        ensures
            final(self).wf(),
            final(self).chars@ == old(self).chars@,
            ({
                let n = digits_len(old(self).rest());
                &&& r.0 == (n > 0)
                &&& n > 0 ==> r.1 == parse_usize_or(old(self).rest().take(n as int), default as nat)
                &&& final(self).rest() == old(self).rest().skip(n as int)
            }),
    {
        let ghost t = self.rest();
        let start = self.pos;
        let mut value: Option<usize> = Some(0);
        while self.pos < self.chars.len() && '0' <= self.chars[self.pos] && self.chars[self.pos]
            <= '9'
            invariant
                self.wf(),
                self.chars@ == old(self).chars@,
                start <= self.pos,
                t == self.chars@.skip(start as int),
                forall|j: int| 0 <= j < self.pos - start ==> is_ascii_digit(#[trigger] t[j]),
                match value {
                    Some(v) => v == decimal_value(t.take(self.pos - start)),
                    None => decimal_value(t.take(self.pos - start)) > usize::MAX,
                },
            decreases self.chars.len() - self.pos,
        {
            let c = self.chars[self.pos];
            let d = (c as u32 - '0' as u32) as usize;
            let ghost k = self.pos - start;
            assert(t[k] == c);
            assert(t.take(k + 1).drop_last() =~= t.take(k));
            assert(t.take(k + 1).last() == c);
            value = match value {
                Some(v) => match v.checked_mul(10) {
                    Some(v10) => v10.checked_add(d),
                    None => None,
                },
                None => None,
            };
            self.pos = self.pos + 1;
        }
        proof {
            if self.pos < self.chars.len() {
                assert(t[self.pos - start] == self.chars@[self.pos as int]);
            }
            lemma_digits_len_unique(t, (self.pos - start) as nat);
            assert(self.rest() =~= t.skip(self.pos - start));
        }
        let n = self.pos - start;
        match value {
            Some(v) => (n > 0, v),
            None => (n > 0, default),
        }
    }

    fn parse_edge(&mut self) -> (r: Result<EdgePattern, PatternError>)
        requires
            old(self).wf(),
        ensures
            final(self).wf(),
            final(self).chars@ == old(self).chars@,
            match r {
                Ok(e) => spec_parse_edge(old(self).rest()) == (
                    Ok::<EdgeV, ErrV>(e.view_v()),
                    final(self).rest(),
                ),
                Err(e) => spec_parse_edge(old(self).rest()).0 == Err::<EdgeV, ErrV>(e.view_v()),
            },
    {
        self.skip_ws();
        if self.consume_str(tok_short_out()) {
            let e = EdgePattern {
                direction: QueryDirection::Outgoing,
                edge_types: Vec::new(),
                min_hops: 1,
                max_hops: 1,
            };
            assert(e.view_v().edge_types =~= Seq::<Seq<char>>::empty());
            return Ok(e);
        }
        if self.consume_str(tok_short_in()) {
            let e = EdgePattern {
                direction: QueryDirection::Incoming,
                edge_types: Vec::new(),
                min_hops: 1,
                max_hops: 1,
            };
            assert(e.view_v().edge_types =~= Seq::<Seq<char>>::empty());
            return Ok(e);
        }
        if self.consume_str(tok_short_und()) {
            let e = EdgePattern {
                direction: QueryDirection::Undirected,
                edge_types: Vec::new(),
                min_hops: 1,
                max_hops: 1,
            };
            assert(e.view_v().edge_types =~= Seq::<Seq<char>>::empty());
            return Ok(e);
        }
        let inbound = self.consume_str(tok_in_dash());
        if !inbound {
            match self.expect_str(tok_dash()) {
                Ok(_) => {},
                Err(e) => {
                    return Err(e);
                },
            }
        }
        match self.expect_str(tok_open_bracket()) {
            Ok(_) => {},
            Err(e) => {
                return Err(e);
            },
        }
        let mut edge_types: Vec<String> = Vec::new();
        if self.consume_str(tok_colon()) {
            let ghost s7 = self.rest();
            let ghost goal = spec_parse_edge_types(s7, Seq::empty());
            let ghost before_types = old(self).rest();
            assert(edge_types@.map_values(|x: String| x@) =~= Seq::<Seq<char>>::empty());
            loop
                invariant_except_break
                    self.wf(),
                    self.chars@ == old(self).chars@,
                    goal == spec_parse_edge_types(
                        self.rest(),
                        edge_types@.map_values(|x: String| x@),
                    ),
                ensures
                    self.wf(),
                    self.chars@ == old(self).chars@,
                    goal == (edge_types@.map_values(|x: String| x@), self.rest()),
                decreases self.rest().len(),
            {
                let ghost s0 = self.rest();
                let ghost acc0 = edge_types@.map_values(|x: String| x@);
                match self.parse_ident() {
                    Some(et) => {
                        edge_types.push(et);
                        assert(edge_types@.map_values(|x: String| x@) =~= acc0.push(et@));
                    },
                    None => {},
                }
                let ghost t1 = self.rest();
                self.skip_ws();
                if self.consume_str(tok_bar()) {
                    proof {
                        lemma_parse_ident_len(s0);
                        lemma_trim_len(t1);
                        lemma_consume_len(spec_trim_start(t1), lit_bar());
                    }
                    continue;
                } else {
                    break;
                }
            }
            assert(goal == (edge_types@.map_values(|x: String| x@), self.rest()));
        } else {
            assert(edge_types@.map_values(|x: String| x@) =~= Seq::<Seq<char>>::empty());
        }
        let mut min_hops: usize = 1;
        let mut max_hops: usize = 1;
        if self.consume_str(tok_star()) {
            self.skip_ws();
            let (has1, n1) = self.parse_digits(1);
            if has1 {
                min_hops = n1;
            }
            if self.consume_str(tok_range()) {
                let (has2, n2) = self.parse_digits(5);
                max_hops = if has2 {
                    n2
                } else {
                    5
                };
            } else {
                max_hops = min_hops;
            }
        }
        match self.expect_str(tok_close_bracket()) {
            Ok(_) => {},
            Err(e) => {
                return Err(e);
            },
        }
        let outbound = self.consume_str(tok_out_arrow());
        if !outbound {
            match self.expect_str(tok_dash()) {
                Ok(_) => {},
                Err(e) => {
                    return Err(e);
                },
            }
        }
        let direction = if inbound && !outbound {
            QueryDirection::Incoming
        } else if !inbound && outbound {
            QueryDirection::Outgoing
        } else {
            QueryDirection::Undirected
        };
        let max2 = if max_hops >= min_hops {
            max_hops
        } else {
            min_hops
        };
        Ok(EdgePattern { direction, edge_types, min_hops, max_hops: max2 })
    }

    fn parse(&mut self) -> (r: Result<PathPattern, PatternError>)
        requires
            old(self).wf(),
        ensures
            final(self).wf(),
            final(self).chars@ == old(self).chars@,
            match r {
                Ok(p) => p.wf() && spec_parse(old(self).rest()) == (
                    Ok::<PathV, ErrV>(p.view_v()),
                    final(self).rest(),
                ),
                Err(e) => spec_parse(old(self).rest()).0 == Err::<PathV, ErrV>(e.view_v()),
            },
    {
        let start_node = match self.parse_node() {
            Ok(n) => n,
            Err(e) => {
                return Err(e);
            },
        };
        let mut steps: Vec<(EdgePattern, NodePattern)> = Vec::new();
        let ghost r0 = self.rest();
        let ghost goal = spec_parse_steps(self.rest(), Seq::empty());
        assert(steps@.map_values(|p: (EdgePattern, NodePattern)| (p.0.view_v(), p.1.view_v()))
            =~= Seq::<(EdgeV, NodeV)>::empty());
        loop
            invariant_except_break
                self.wf(),
                self.chars@ == old(self).chars@,
                spec_parse_node(old(self).rest()) == (Ok::<NodeV, ErrV>(start_node.view_v()), r0),
                goal == spec_parse_steps(r0, Seq::empty()),
                forall|i: int| 0 <= i < steps@.len() ==> (#[trigger] steps@[i]).1.wf(),
                goal == spec_parse_steps(
                    self.rest(),
                    steps@.map_values(|p: (EdgePattern, NodePattern)| (p.0.view_v(), p.1.view_v())),
                ),
            ensures
                self.wf(),
                self.chars@ == old(self).chars@,
                forall|i: int| 0 <= i < steps@.len() ==> (#[trigger] steps@[i]).1.wf(),
                goal == (
                    Ok::<Seq<(EdgeV, NodeV)>, ErrV>(
                        steps@.map_values(|p: (EdgePattern, NodePattern)| (p.0.view_v(), p.1.view_v())),
                    ),
                    self.rest(),
                ),
            decreases self.rest().len(),
        {
            let ghost s0 = self.rest();
            let ghost acc0 = steps@.map_values(
                |p: (EdgePattern, NodePattern)| (p.0.view_v(), p.1.view_v()),
            );
            self.skip_ws();
            if self.pos >= self.chars.len() {
                break;
            }
            if self.starts_with(tok_dash()) || self.starts_with(tok_in_dash()) {
                let ghost t = self.rest();
                let edge = match self.parse_edge() {
                    Ok(e) => e,
                    Err(e) => {
                        return Err(e);
                    },
                };
                let ghost r1 = self.rest();
                let node = match self.parse_node() {
                    Ok(n) => n,
                    Err(e) => {
                        return Err(e);
                    },
                };
                proof {
                    lemma_trim_len(s0);
                    lemma_edge_len(t);
                    lemma_node_len(r1);
                }
                steps.push((edge, node));
                assert(steps@.map_values(
                    |p: (EdgePattern, NodePattern)| (p.0.view_v(), p.1.view_v()),
                ) =~= acc0.push((edge.view_v(), node.view_v())));
            } else {
                break;
            }
        }
        let p = PathPattern { start_node, steps };
        assert(p.view_v().steps == steps@.map_values(
            |p: (EdgePattern, NodePattern)| (p.0.view_v(), p.1.view_v()),
        ));
        Ok(p)
    }
}

/// Parses a linear Cypher-Lite path pattern.
pub fn parse_path_pattern(input: &str) -> (r: Result<PathPattern, PatternError>)
    ensures
        match r {
            Ok(p) => p.wf() && spec_parse_path_pattern(input@) == Ok::<PathV, ErrV>(p.view_v()),
            Err(e) => spec_parse_path_pattern(input@) == Err::<PathV, ErrV>(e.view_v()),
        },
{
    let mut parser = PatternParser::new(input);
    let pattern = match parser.parse() {
        Ok(p) => p,
        Err(e) => {
            return Err(e);
        },
    };
    parser.skip_ws();
    if parser.pos < parser.chars.len() {
        let at = parser.rest_string();
        return Err(PatternError::TrailingInput { at });
    }
    Ok(pattern)
}

} // verus!
