//! AST-aware chunking of source files: a walk over the syntax tree that records each
//! declared symbol and makes one chunk per symbol, its text headed by a scope breadcrumb,
//! with the members of classes, structs, traits, interfaces, modules and enums scoped
//! under their container.
//!
//! The syntax tree is read as plain values: an arena of nodes, each with what symbol
//! classification and docstring extraction read of it, its byte range, its rows, and the
//! indices of its children.
use vstd::prelude::*;

use crate::languages::{detect_language, spec_detect_language, spec_language_name, SupportedLanguage};
use crate::symbols::{
    build_chunk_text, chunk_text, classify_node, docstring_of, extract_docstring, full_scope, full_scope_of,
    is_container, is_container_kind, opt_chars, symbol_of, CodeSymbolType, DeclNode, DocContext,
};

verus! {

/// A node of a syntax tree.
#[derive(Debug, Clone)]
pub struct TreeNode {
    /// What symbol classification reads of the node.
    pub decl: DeclNode,
    /// What docstring extraction reads around the node.
    pub doc: DocContext,
    /// Byte offset where the node starts.
    pub start_byte: usize,
    /// Byte offset where the node ends.
    pub end_byte: usize,
    /// Zero-based row where the node starts.
    pub start_row: usize,
    /// Zero-based row where the node ends.
    pub end_row: usize,
    /// Indices of the children in the tree's arena, in order.
    pub children: Vec<usize>,
}

/// A syntax tree: an arena of nodes; the root is the first.
#[derive(Debug, Clone)]
pub struct SyntaxTree {
    /// The nodes.
    pub nodes: Vec<TreeNode>,
}

/// A code symbol definition.
#[derive(Debug, Clone)]
pub struct CodeSymbol {
    /// File that defines the symbol.
    pub file_path: String,
    /// The symbol's name.
    pub name: String,
    /// Enclosing scopes and the name, joined by `" > "`.
    pub scope_path: String,
    /// The kind of symbol.
    pub symbol_type: CodeSymbolType,
    /// The language's identifier.
    pub language: String,
    /// The declaration's first line.
    pub signature: String,
    /// The symbol's documentation, if any.
    pub docstring: Option<String>,
    /// One-based first line.
    pub start_line: usize,
    /// One-based last line.
    pub end_line: usize,
}

/// A chunk of a code file: one symbol's text with its breadcrumb.
#[derive(Debug, Clone)]
pub struct CodeChunk {
    /// File the chunk comes from.
    pub doc_path: String,
    /// Position of the chunk in the file.
    pub chunk_index: usize,
    /// Breadcrumb, docstring and source text.
    pub text: String,
    /// Byte offset where the symbol starts.
    pub start_byte: usize,
    /// Byte offset where the symbol ends.
    pub end_byte: usize,
    /// The language's identifier.
    pub language: String,
    /// The symbol's scope path.
    pub scope_path: String,
    /// One-based first line.
    pub start_line: usize,
    /// One-based last line.
    pub end_line: usize,
}

/// Result of chunking a code file.
#[derive(Debug, Clone)]
pub struct CodeParseResult {
    /// The chunks, one per symbol.
    pub chunks: Vec<CodeChunk>,
    /// The symbols, in the order of the walk.
    pub symbols: Vec<CodeSymbol>,
}

/// A symbol as `(name, scope, kind, signature, docstring, start line, end line)`.
pub type SymbolV = (Seq<char>, Seq<char>, CodeSymbolType, Seq<char>, Option<Seq<char>>, nat, nat);

/// A chunk as `(text, start byte, end byte, scope, start line, end line)`; its index is its
/// position.
pub type ChunkV = (Seq<char>, usize, usize, Seq<char>, nat, nat);

/// Row numbers fit when made one-based.
pub open spec fn rows_fit(t: Seq<TreeNode>) -> bool {
    forall|i: int| 0 <= i < t.len() ==> #[trigger] t[i].start_row < usize::MAX && t[i].end_row < usize::MAX
}

/// The walk of the subtree at `idx`, under the enclosing scopes `stack`, from the symbols and
/// chunks found so far: a node that declares a symbol adds the symbol and its chunk; then its
/// children are walked in order, under the symbol's name when it is a container.
pub open spec fn visit(
    t: Seq<TreeNode>,
    lang: SupportedLanguage,
    file: Seq<char>,
    idx: int,
    stack: Seq<Seq<char>>,
    st: (Seq<SymbolV>, Seq<ChunkV>),
) -> (Seq<SymbolV>, Seq<ChunkV>)
    decreases t.len() - idx, 1int, 0int,
{
    if idx < 0 || idx >= t.len() {
        st
    } else {
        let n = t[idx];
        match symbol_of(lang, n.decl, stack.len() > 0) {
            Some((ty, name, sig)) => {
                let scope = full_scope(file, stack, name);
                let doc = docstring_of(lang, n.doc);
                let text = chunk_text(lang, scope, file, doc, n.decl.text@);
                let lines = ((n.start_row + 1) as nat, (n.end_row + 1) as nat);
                let st1 = (
                    st.0.push((name, scope, ty, sig, doc, lines.0, lines.1)),
                    st.1.push((text, n.start_byte, n.end_byte, scope, lines.0, lines.1)),
                );
                visit_children(t, lang, file, idx, 0, if is_container(ty) { stack.push(name) } else { stack }, st1)
            },
            None => visit_children(t, lang, file, idx, 0, stack, st),
        }
    }
}

/// The walk of the children of `parent` from the `k`-th on (children not after their parent
/// in the arena are skipped).
pub open spec fn visit_children(
    t: Seq<TreeNode>,
    lang: SupportedLanguage,
    file: Seq<char>,
    parent: int,
    k: int,
    stack: Seq<Seq<char>>,
    st: (Seq<SymbolV>, Seq<ChunkV>),
) -> (Seq<SymbolV>, Seq<ChunkV>)
    decreases t.len() - parent, 0int, t[parent].children.len() - k,
{
    if parent < 0 || parent >= t.len() || k < 0 || k >= t[parent].children.len() {
        st
    } else {
        let c = t[parent].children@[k] as int;
        let st1 = if parent < c && c < t.len() { visit(t, lang, file, c, stack, st) } else { st };
        visit_children(t, lang, file, parent, k + 1, stack, st1)
    }
}

/// The views of symbols.
pub open spec fn symbols_view(v: Seq<CodeSymbol>) -> Seq<SymbolV> {
    v.map_values(
        |s: CodeSymbol|
            (s.name@, s.scope_path@, s.symbol_type, s.signature@, opt_chars(s.docstring), s.start_line as nat, s.end_line as nat),
    )
}

/// The views of chunks.
pub open spec fn chunks_view(v: Seq<CodeChunk>) -> Seq<ChunkV> {
    v.map_values(|c: CodeChunk| (c.text@, c.start_byte, c.end_byte, c.scope_path@, c.start_line as nat, c.end_line as nat))
}

/// Every symbol and chunk belongs to `file` in `lang`, and each chunk's index is its position.
pub open spec fn labelled(syms: Seq<CodeSymbol>, chunks: Seq<CodeChunk>, file: Seq<char>, lang: SupportedLanguage) -> bool {
    &&& forall|i: int| 0 <= i < syms.len() ==> #[trigger] syms[i].file_path@ == file && syms[i].language@ == spec_language_name(lang)
    &&& forall|i: int| 0 <= i < chunks.len() ==> #[trigger] chunks[i].doc_path@ == file && chunks[i].language@
        == spec_language_name(lang) && chunks[i].chunk_index == i
}

/// The names of scopes.
pub open spec fn names_view(v: Seq<String>) -> Seq<Seq<char>> {
    v.map_values(|s: String| s@)
}

/// Walks the subtree at `idx`, appending its symbols and chunks.
fn visit_exec(
    tree: &SyntaxTree,
    lang: SupportedLanguage,
    file: &str,
    idx: usize,
    stack: &mut Vec<String>,
    symbols: &mut Vec<CodeSymbol>,
    chunks: &mut Vec<CodeChunk>,
)
    requires
        idx < tree.nodes.len(),
        rows_fit(tree.nodes@),
        labelled(old(symbols)@, old(chunks)@, file@, lang),
    ensures
        names_view(final(stack)@) == names_view(old(stack)@),
        labelled(final(symbols)@, final(chunks)@, file@, lang),
        (symbols_view(final(symbols)@), chunks_view(final(chunks)@)) == visit(
            tree.nodes@,
            lang,
            file@,
            idx as int,
            names_view(old(stack)@),
            (symbols_view(old(symbols)@), chunks_view(old(chunks)@)),
        ),
    decreases tree.nodes.len() - idx,
{
    let ghost t = tree.nodes@;
    let ghost stack0 = names_view(stack@);
    let ghost st0 = (symbols_view(symbols@), chunks_view(chunks@));
    let n = &tree.nodes[idx];
    let in_scope = stack.len() > 0;
    let found = classify_node(lang, &n.decl, in_scope);
    let mut pushed = false;
    match found {
        Some((ty, name, sig)) => {
            let scope = full_scope_of(file, stack, name.as_str());
            let doc = extract_docstring(lang, &n.doc);
            let doc_str: Option<&str> = match &doc {
                Some(d) => Some(d.as_str()),
                None => None,
            };
            let text = build_chunk_text(lang, scope.as_str(), file, doc_str, n.decl.text.as_str());
            let start_line = n.start_row + 1;
            let end_line = n.end_row + 1;
            let ghost s0 = symbols@;
            let ghost c0 = chunks@;
            let sym = CodeSymbol {
                file_path: file.to_owned(),
                name: name.clone(),
                scope_path: scope.clone(),
                symbol_type: ty,
                language: lang.name().to_owned(),
                signature: sig,
                docstring: doc,
                start_line,
                end_line,
            };
            let chunk = CodeChunk {
                doc_path: file.to_owned(),
                chunk_index: chunks.len(),
                text,
                start_byte: n.start_byte,
                end_byte: n.end_byte,
                language: lang.name().to_owned(),
                scope_path: scope,
                start_line,
                end_line,
            };
            symbols.push(sym);
            chunks.push(chunk);
            proof {
                assert(symbols_view(symbols@) =~= symbols_view(s0).push(
                    (sym.name@, sym.scope_path@, sym.symbol_type, sym.signature@, opt_chars(sym.docstring), sym.start_line as nat, sym.end_line as nat),
                ));
                assert(chunks_view(chunks@) =~= chunks_view(c0).push(
                    (chunk.text@, chunk.start_byte, chunk.end_byte, chunk.scope_path@, chunk.start_line as nat, chunk.end_line as nat),
                ));
                lemma_labelled_push(s0, c0, sym, chunk, file@, lang);
            }
            if is_container_kind(ty) {
                stack.push(name);
                pushed = true;
            }
        },
        None => {},
    }
    let ghost stack1 = names_view(stack@);
    let ghost st1 = (symbols_view(symbols@), chunks_view(chunks@));
    proof {
        if pushed {
            assert(stack1 =~= stack0.push(found.unwrap().1@));
        } else {
            assert(stack1 =~= stack0);
        }
    }
    let mut k: usize = 0;
    while k < n.children.len()
        invariant
            t == tree.nodes@,
            idx < t.len(),
            *n == t[idx as int],
            rows_fit(t),
            names_view(stack@) == stack1,
            labelled(symbols@, chunks@, file@, lang),
            k <= n.children.len(),
            visit_children(t, lang, file@, idx as int, 0, stack1, st1) == visit_children(
                t,
                lang,
                file@,
                idx as int,
                k as int,
                stack1,
                (symbols_view(symbols@), chunks_view(chunks@)),
            ),
        decreases n.children.len() - k,
    {
        let c = n.children[k];
        let ghost sk = (symbols_view(symbols@), chunks_view(chunks@));
        if idx < c && c < tree.nodes.len() {
            visit_exec(tree, lang, file, c, stack, symbols, chunks);
        }
        proof {
            assert(n.children@[k as int] == c);
        }
        k += 1;
    }
    let ghost before_pop = stack@;
    if pushed {
        stack.pop();
        assert(names_view(stack@) =~= names_view(before_pop).drop_last());
    }
    proof {
        assert(names_view(stack@) =~= stack0);
    }
}

proof fn lemma_labelled_push(
    s0: Seq<CodeSymbol>,
    c0: Seq<CodeChunk>,
    sym: CodeSymbol,
    chunk: CodeChunk,
    file: Seq<char>,
    lang: SupportedLanguage,
)
    requires
        labelled(s0, c0, file, lang),
        sym.file_path@ == file,
        sym.language@ == spec_language_name(lang),
        chunk.doc_path@ == file,
        chunk.language@ == spec_language_name(lang),
        chunk.chunk_index == c0.len(),
    ensures
        labelled(s0.push(sym), c0.push(chunk), file, lang),
{
    let s1 = s0.push(sym);
    let c1 = c0.push(chunk);
    assert forall|i: int| 0 <= i < s1.len() implies #[trigger] s1[i].file_path@ == file && s1[i].language@ == spec_language_name(lang) by {
        if i < s0.len() {
            assert(s1[i] == s0[i]);
        } else {
            assert(s1[i] == sym);
        }
    }
    assert forall|i: int| 0 <= i < c1.len() implies #[trigger] c1[i].doc_path@ == file && c1[i].language@ == spec_language_name(lang)
        && c1[i].chunk_index == i by {
        if i < c0.len() {
            assert(c1[i] == c0[i]);
        } else {
            assert(c1[i] == chunk);
        }
    }
}

/// Chunk a parsed source file: walk its syntax tree from the root, making one chunk per
/// declared symbol, members scoped under their containers.
pub fn chunk_syntax_tree(tree: &SyntaxTree, file_path: &str, language: SupportedLanguage) -> (r: CodeParseResult)
    requires
        rows_fit(tree.nodes@),
    ensures
        labelled(r.symbols@, r.chunks@, file_path@, language),
        tree.nodes.len() == 0 ==> r.symbols.len() == 0 && r.chunks.len() == 0,
        tree.nodes.len() > 0 ==> (symbols_view(r.symbols@), chunks_view(r.chunks@)) == visit(
            tree.nodes@,
            language,
            file_path@,
            0,
            Seq::empty(),
            (Seq::empty(), Seq::empty()),
        ),
{
    let mut symbols: Vec<CodeSymbol> = Vec::new();
    let mut chunks: Vec<CodeChunk> = Vec::new();
    let mut stack: Vec<String> = Vec::new();
    if tree.nodes.len() > 0 {
        assert(symbols_view(symbols@) =~= Seq::<SymbolV>::empty());
        assert(chunks_view(chunks@) =~= Seq::<ChunkV>::empty());
        assert(names_view(stack@) =~= Seq::<Seq<char>>::empty());
        visit_exec(tree, language, file_path, 0, &mut stack, &mut symbols, &mut chunks);
    }
    CodeParseResult { chunks, symbols }
}

/// Symbols and chunks correspond one to one: the `i`-th chunk is the `i`-th symbol's, with
/// its scope and lines.
pub open spec fn paired(st: (Seq<SymbolV>, Seq<ChunkV>)) -> bool {
    &&& st.0.len() == st.1.len()
    &&& forall|i: int| 0 <= i < st.0.len() ==> #[trigger] st.0[i].1 == st.1[i].3 && st.0[i].5 == st.1[i].4 && st.0[i].6
        == st.1[i].5
}

proof fn lemma_visit_paired(
    t: Seq<TreeNode>,
    lang: SupportedLanguage,
    file: Seq<char>,
    idx: int,
    stack: Seq<Seq<char>>,
    st: (Seq<SymbolV>, Seq<ChunkV>),
)
    requires
        paired(st),
    ensures
        paired(visit(t, lang, file, idx, stack, st)),
    decreases t.len() - idx, 1int, 0int,
{
    if 0 <= idx < t.len() {
        let n = t[idx];
        match symbol_of(lang, n.decl, stack.len() > 0) {
            Some((ty, name, sig)) => {
                let scope = full_scope(file, stack, name);
                let doc = docstring_of(lang, n.doc);
                let text = chunk_text(lang, scope, file, doc, n.decl.text@);
                let lines = ((n.start_row + 1) as nat, (n.end_row + 1) as nat);
                let st1 = (
                    st.0.push((name, scope, ty, sig, doc, lines.0, lines.1)),
                    st.1.push((text, n.start_byte, n.end_byte, scope, lines.0, lines.1)),
                );
                assert forall|i: int| 0 <= i < st1.0.len() implies #[trigger] st1.0[i].1 == st1.1[i].3 && st1.0[i].5 == st1.1[i].4
                    && st1.0[i].6 == st1.1[i].5 by {
                    if i < st.0.len() {
                        assert(st1.0[i] == st.0[i] && st1.1[i] == st.1[i]);
                    } else {
                        assert(st1.0[i] == (name, scope, ty, sig, doc, lines.0, lines.1));
                        assert(st1.1[i] == (text, n.start_byte, n.end_byte, scope, lines.0, lines.1));
                    }
                }
                assert(st1.0.len() == st1.1.len());
                assert(paired(st1));
                lemma_children_paired(t, lang, file, idx, 0, if is_container(ty) { stack.push(name) } else { stack }, st1);
            },
            None => {
                lemma_children_paired(t, lang, file, idx, 0, stack, st);
            },
        }
    }
}

proof fn lemma_children_paired(
    t: Seq<TreeNode>,
    lang: SupportedLanguage,
    file: Seq<char>,
    parent: int,
    k: int,
    stack: Seq<Seq<char>>,
    st: (Seq<SymbolV>, Seq<ChunkV>),
)
    requires
        paired(st),
    ensures
        paired(visit_children(t, lang, file, parent, k, stack, st)),
    decreases t.len() - parent, 0int, t[parent].children.len() - k,
{
    if 0 <= parent < t.len() && 0 <= k < t[parent].children.len() {
        let c = t[parent].children@[k] as int;
        if parent < c && c < t.len() {
            lemma_visit_paired(t, lang, file, c, stack, st);
            lemma_children_paired(t, lang, file, parent, k + 1, stack, visit(t, lang, file, c, stack, st));
        } else {
            lemma_children_paired(t, lang, file, parent, k + 1, stack, st);
        }
    }
}

/// Chunking makes exactly one chunk per symbol, in the same order: the `i`-th chunk carries
/// the `i`-th symbol's scope path and lines.
pub proof fn law_one_chunk_per_symbol(t: Seq<TreeNode>, lang: SupportedLanguage, file: Seq<char>)
    ensures
        paired(visit(t, lang, file, 0, Seq::empty(), (Seq::empty(), Seq::empty()))),
{
    lemma_visit_paired(t, lang, file, 0, Seq::empty(), (Seq::empty(), Seq::empty()));
}

/// AST-aware code chunking.
pub struct CodeChunker;

impl CodeChunker {
    /// Chunks a source file from its syntax tree: `None` for a path of no supported
    /// language, else what `chunk_syntax_tree` gives in the path's language.
    pub fn parse_and_chunk(file_path: &str, tree: &SyntaxTree) -> (r: Option<CodeParseResult>)
        requires
            rows_fit(tree.nodes@),
        ensures
            r is None <==> spec_detect_language(file_path@) is None,
            r matches Some(res) ==> {
                let language = spec_detect_language(file_path@)->0;
                &&& labelled(res.symbols@, res.chunks@, file_path@, language)
                &&& tree.nodes.len() == 0 ==> res.symbols.len() == 0 && res.chunks.len() == 0
                &&& tree.nodes.len() > 0 ==> (symbols_view(res.symbols@), chunks_view(res.chunks@)) == visit(
                    tree.nodes@,
                    language,
                    file_path@,
                    0,
                    Seq::empty(),
                    (Seq::empty(), Seq::empty()),
                )
            },
    {
        let language = detect_language(file_path)?;
        Some(chunk_syntax_tree(tree, file_path, language))
    }
}

} // verus!
