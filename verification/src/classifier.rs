//! Corpus modality classifier: a file is a documentation note, source code, a rich
//! document (HTML, PDF, DOCX) or ignored, decided by extension, explicit directory
//! patterns, the corpus type, and for HTML in a mixed corpus a look at its content.
use vstd::prelude::*;

use ignore::gitignore::{Gitignore, GitignoreBuilder};

use crate::languages::{
    detect_language, extension_of_file_name, file_name_of, is_code_file, path_file_name, spec_detect_language,
    spec_extension, SupportedLanguage,
};
use crate::text::{
    ascii_lower_seq, char_is_whitespace, chars_ascii_lower, chars_contains, chars_eq, is_white_space, occurs_at,
    seq_contains, str_chars,
};

verus! {

// ---------------------------------------------------------------------------
// Lossy UTF-8 decoding (std)
// ---------------------------------------------------------------------------
/// The name for what `String::from_utf8_lossy` gives for a byte sequence: the decoded
/// characters, with U+FFFD in place of each invalid sequence.
pub uninterp spec fn utf8_lossy(bytes: Seq<u8>) -> Seq<char>;

/// Calls `String::from_utf8_lossy` and returns the characters. The contract ties the result
/// to the bytes alone; the decoding rules are not restated here.
#[verifier::external_body]
fn lossy_chars(bytes: &[u8]) -> (r: Vec<char>)
    ensures
        r@ == utf8_lossy(bytes@),
{
    String::from_utf8_lossy(bytes).chars().collect()
}

// ---------------------------------------------------------------------------
// The HTML content heuristic
// ---------------------------------------------------------------------------
/// Markers of templated UI code.
pub open spec fn ui_markers() -> Seq<Seq<char>> {
    seq!["<template"@, "<router-outlet"@, "ng-"@, "v-if"@, "v-for"@]
}

/// Markers of document structure.
pub open spec fn article_markers() -> Seq<Seq<char>> {
    seq!["<article"@, "<main"@, "<section"@]
}

/// Scanning `s` left to right: whether it ends inside a tag, the number of characters that
/// belong to tags (the angle brackets included) and the number of other non-whitespace
/// characters.
pub open spec fn tag_text_scan(s: Seq<char>) -> (bool, nat, nat)
    decreases s.len(),
{
    if s.len() == 0 {
        (false, 0, 0)
    } else {
        let (in_tag, tags, text) = tag_text_scan(s.drop_last());
        let c = s.last();
        if c == '<' {
            (true, tags + 1, text)
        } else if c == '>' {
            (false, tags + 1, text)
        } else if in_tag {
            (true, tags + 1, text)
        } else if !is_white_space(c) {
            (false, tags, text + 1)
        } else {
            (false, tags, text)
        }
    }
}

/// The verdict on a lower-cased HTML sample: UI markers say no, structure markers (or a
/// heading with a paragraph) say yes, and otherwise the text is more than 40% of the
/// counted characters.
pub open spec fn html_article_verdict(s: Seq<char>) -> bool {
    if exists|k: int| 0 <= k < ui_markers().len() && seq_contains(s, #[trigger] ui_markers()[k]) {
        false
    } else if (exists|k: int| 0 <= k < article_markers().len() && seq_contains(s, #[trigger] article_markers()[k]))
        || (seq_contains(s, "<h1"@) && seq_contains(s, "<p"@)) {
        true
    } else {
        let (_, tags, text) = tag_text_scan(s);
        tags + text > 0 && 5 * text > 2 * (tags + text)
    }
}

/// The sample examined: the first 4096 bytes, decoded leniently and ASCII-lower-cased.
pub open spec fn html_sample(bytes: Seq<u8>) -> Seq<char> {
    let n = if bytes.len() < 4096 { bytes.len() } else { 4096 };
    ascii_lower_seq(utf8_lossy(bytes.subrange(0, n as int)))
}

fn contains_marker(s: &[char], marker: &str) -> (r: bool)
    ensures
        r == seq_contains(s@, marker@),
{
    let m = str_chars(marker);
    chars_contains(s, m.as_slice())
}

/// Counts tag and text characters of `s` as `tag_text_scan` does.
fn count_tag_text(s: &[char]) -> (r: (usize, usize))
    requires
        s.len() <= usize::MAX,
    ensures
        r.0 == tag_text_scan(s@).1,
        r.1 == tag_text_scan(s@).2,
        r.0 + r.1 <= s.len(),
{
    let mut in_tag = false;
    let mut tags: usize = 0;
    let mut text: usize = 0;
    let mut i: usize = 0;
    while i < s.len()
        invariant
            i <= s.len(),
            tag_text_scan(s@.take(i as int)) == (in_tag, tags as nat, text as nat),
            tags + text <= i,
        decreases s.len() - i,
    {
        let c = s[i];
        proof {
            assert(s@.take(i + 1).drop_last() == s@.take(i as int));
            assert(s@.take(i + 1).last() == c);
        }
        if c == '<' {
            in_tag = true;
            tags += 1;
        } else if c == '>' {
            in_tag = false;
            tags += 1;
        } else if in_tag {
            tags += 1;
        } else if !char_is_whitespace(c) {
            text += 1;
        }
        i += 1;
    }
    proof {
        assert(s@.take(s.len() as int) == s@);
    }
    (tags, text)
}

/// Inspect up to 4 KB of HTML to heuristically determine if it is an article/documentation.
pub fn is_html_documentation_article(bytes: &[u8]) -> (r: bool)
    ensures
        r == html_article_verdict(html_sample(bytes@)),
{
    let n: usize = if bytes.len() < 4096 { bytes.len() } else { 4096 };
    let head = slice_prefix(bytes, n);
    let decoded = lossy_chars(head);
    let sample = chars_ascii_lower(decoded.as_slice());
    let s = sample.as_slice();
    proof {
        reveal_strlit("<template");
        reveal_strlit("<router-outlet");
        reveal_strlit("ng-");
        reveal_strlit("v-if");
        reveal_strlit("v-for");
        reveal_strlit("<article");
        reveal_strlit("<main");
        reveal_strlit("<section");
        reveal_strlit("<h1");
        reveal_strlit("<p");
    }
    let ui = contains_marker(s, "<template") || contains_marker(s, "<router-outlet") || contains_marker(s, "ng-")
        || contains_marker(s, "v-if") || contains_marker(s, "v-for");
    proof {
        let m = ui_markers();
        if ui {
            if seq_contains(s@, "<template"@) {
                assert(seq_contains(s@, m[0]));
            } else if seq_contains(s@, "<router-outlet"@) {
                assert(seq_contains(s@, m[1]));
            } else if seq_contains(s@, "ng-"@) {
                assert(seq_contains(s@, m[2]));
            } else if seq_contains(s@, "v-if"@) {
                assert(seq_contains(s@, m[3]));
            } else {
                assert(seq_contains(s@, m[4]));
            }
        } else {
            assert forall|k: int| 0 <= k < m.len() implies !seq_contains(s@, #[trigger] m[k]) by {
                if k == 0 {
                } else if k == 1 {
                } else if k == 2 {
                } else if k == 3 {
                } else {
                }
            }
        }
    }
    if ui {
        return false;
    }
    let structured = contains_marker(s, "<article") || contains_marker(s, "<main") || contains_marker(s, "<section");
    let heading = contains_marker(s, "<h1") && contains_marker(s, "<p");
    proof {
        let m = article_markers();
        if structured {
            if seq_contains(s@, "<article"@) {
                assert(seq_contains(s@, m[0]));
            } else if seq_contains(s@, "<main"@) {
                assert(seq_contains(s@, m[1]));
            } else {
                assert(seq_contains(s@, m[2]));
            }
        } else {
            assert forall|k: int| 0 <= k < m.len() implies !seq_contains(s@, #[trigger] m[k]) by {
                if k == 0 {
                } else if k == 1 {
                } else {
                }
            }
        }
    }
    if structured || heading {
        return true;
    }
    let (tags, text) = count_tag_text(s);
    proof {
        assert(tags + text <= s.len());
    }
    let total = tags + text;
    if total == 0 {
        return false;
    }
    5 * (text as u128) > 2 * (total as u128)
}

/// The first `n` bytes.
fn slice_prefix(bytes: &[u8], n: usize) -> (r: &[u8])
    requires
        n <= bytes.len(),
    ensures
        r@ == bytes@.subrange(0, n as int),
{
    vstd::slice::slice_subrange(bytes, 0, n)
}

// ---------------------------------------------------------------------------
// Classification
// ---------------------------------------------------------------------------
/// Format of an indexed file.
#[derive(Debug, Clone, Copy, PartialEq, Eq, Structural)]
pub enum FileFormat {
    /// A source file read as text (Markdown notes and code).
    Source,
    /// An HTML document whose text is indexed.
    HtmlDoc,
    /// A PDF document.
    Pdf,
    /// A Word document.
    Docx,
}

/// The role of a corpus, which decides rich files that no pattern claims.
#[derive(Debug, Clone, Copy, PartialEq, Eq, Structural)]
pub enum CorpusType {
    /// A source-code repository.
    CodeRepo,
    /// A documentation vault.
    DocVault,
    /// Both code and documentation.
    Mixed,
}

/// Categorization of a file discovered in a corpus root.
#[derive(Debug, Clone, Copy, PartialEq, Eq, Structural)]
pub enum FileClassification {
    /// Native Markdown documentation note (.md).
    MarkdownDoc,
    /// Polyglot source code file.
    Code(SupportedLanguage),
    /// Rich document file that will produce a Derived Text Projection.
    Document(FileFormat),
    /// Ignored file (binary asset, test fixture, or unsupported format).
    Ignored,
}

impl FileClassification {
    /// Returns true if this file is indexable (doc, code, or rich document).
    pub fn is_indexable(&self) -> (r: bool)
        ensures
            r == !(*self is Ignored),
    {
        !matches!(self, FileClassification::Ignored)
    }

    /// Returns the corresponding `FileFormat`: a rich document's own, `Source` otherwise.
    pub fn file_format(&self) -> (r: FileFormat)
        ensures
            r == match *self {
                FileClassification::Document(f) => f,
                _ => FileFormat::Source,
            },
    {
        match self {
            FileClassification::Document(fmt) => *fmt,
            _ => FileFormat::Source,
        }
    }

    /// Returns whether this file is treated as documentation for retrieval modality.
    pub fn is_documentation(&self) -> (r: bool)
        ensures
            r == (*self is MarkdownDoc || *self is Document),
    {
        matches!(self, FileClassification::MarkdownDoc | FileClassification::Document(_))
    }
}

/// The extension of a path (empty when it has none), ASCII-lower-cased.
pub open spec fn path_extension_lower(p: Seq<char>) -> Seq<char> {
    match path_file_name(p) {
        None => Seq::empty(),
        Some(f) => match spec_extension(f) {
            None => Seq::empty(),
            Some(e) => ascii_lower_seq(e),
        },
    }
}

/// The rich-document format an extension names, if any.
pub open spec fn rich_format(ext: Seq<char>) -> Option<FileFormat> {
    if ext == "html"@ || ext == "htm"@ {
        Some(FileFormat::HtmlDoc)
    } else if ext == "pdf"@ {
        Some(FileFormat::Pdf)
    } else if ext == "docx"@ {
        Some(FileFormat::Docx)
    } else {
        None
    }
}

/// The classification of `path` given whether a documentation pattern and a code pattern
/// match it (or one of its parents), the corpus type, and an optional content sample.
pub open spec fn spec_classify(
    path: Seq<char>,
    corpus_type: CorpusType,
    doc_hit: bool,
    code_hit: bool,
    sample: Option<Seq<u8>>,
) -> FileClassification {
    let ext = path_extension_lower(path);
    if ext == "md"@ || ext == "markdown"@ {
        FileClassification::MarkdownDoc
    } else {
        match rich_format(ext) {
            None => match spec_detect_language(path) {
                Some(l) => FileClassification::Code(l),
                None => FileClassification::Ignored,
            },
            Some(fmt) => {
                let is_html = fmt == FileFormat::HtmlDoc;
                if doc_hit {
                    FileClassification::Document(fmt)
                } else if code_hit {
                    if is_html { FileClassification::Code(SupportedLanguage::Html) } else { FileClassification::Ignored }
                } else {
                    match corpus_type {
                        CorpusType::DocVault => FileClassification::Document(fmt),
                        CorpusType::CodeRepo => if is_html {
                            FileClassification::Code(SupportedLanguage::Html)
                        } else {
                            FileClassification::Ignored
                        },
                        CorpusType::Mixed => if !is_html {
                            FileClassification::Document(fmt)
                        } else {
                            let doc_like = match sample {
                                Some(b) => html_article_verdict(html_sample(b)),
                                None => {
                                    let lp = ascii_lower_seq(path);
                                    seq_contains(lp, "doc"@) || seq_contains(lp, "wiki"@) || seq_contains(lp, "spec"@)
                                },
                            };
                            if doc_like {
                                FileClassification::Document(FileFormat::HtmlDoc)
                            } else {
                                FileClassification::Code(SupportedLanguage::Html)
                            }
                        },
                    }
                }
            },
        }
    }
}

/// The view of an optional byte sample.
pub open spec fn sample_view(s: Option<&[u8]>) -> Option<Seq<u8>> {
    match s {
        Some(b) => Some(b@),
        None => None,
    }
}

fn str_is(s: &[char], lit: &str) -> (r: bool)
    ensures
        r == (s@ == lit@),
{
    let l = str_chars(lit);
    chars_eq(s, l.as_slice())
}

/// The ASCII-lower-cased extension of `path`, empty when it has none.
fn lower_extension(path: &str) -> (r: Vec<char>)
    ensures
        r@ == path_extension_lower(path@),
{
    match file_name_of(path) {
        None => Vec::new(),
        Some(f) => {
            let fc = str_chars(f.as_str());
            match extension_of_file_name(fc.as_slice()) {
                None => Vec::new(),
                Some(e) => chars_ascii_lower(e.as_slice()),
            }
        },
    }
}

/// Classifies `path` given whether a documentation pattern (`doc_hit`) and a code pattern
/// (`code_hit`) match it: Markdown is documentation; other non-rich files are code when their
/// language is known; rich files follow the documentation patterns, then the code patterns,
/// then the corpus type, and in a mixed corpus HTML is judged by its content (or, without a
/// sample, by a docs-like path).
pub fn classify_with_matches(
    path: &str,
    corpus_type: CorpusType,
    doc_hit: bool,
    code_hit: bool,
    sample_bytes: Option<&[u8]>,
) -> (r: FileClassification)
    ensures
        r == spec_classify(path@, corpus_type, doc_hit, code_hit, sample_view(sample_bytes)),
{
    let ext = lower_extension(path);
    let e = ext.as_slice();
    proof {
        reveal_strlit("md");
        reveal_strlit("markdown");
        reveal_strlit("html");
        reveal_strlit("htm");
        reveal_strlit("pdf");
        reveal_strlit("docx");
    }
    if str_is(e, "md") || str_is(e, "markdown") {
        return FileClassification::MarkdownDoc;
    }
    let is_html = str_is(e, "html") || str_is(e, "htm");
    let is_pdf = str_is(e, "pdf");
    let is_docx = str_is(e, "docx");
    if !is_html && !is_pdf && !is_docx {
        if is_code_file(path) {
            if let Some(lang) = detect_language(path) {
                return FileClassification::Code(lang);
            }
        }
        return FileClassification::Ignored;
    }
    let fmt = if is_html {
        FileFormat::HtmlDoc
    } else if is_pdf {
        FileFormat::Pdf
    } else {
        FileFormat::Docx
    };
    proof {
        assert(rich_format(e@) == Some(fmt));
    }
    if doc_hit {
        return FileClassification::Document(fmt);
    }
    if code_hit {
        if is_html {
            return FileClassification::Code(SupportedLanguage::Html);
        } else {
            return FileClassification::Ignored;
        }
    }
    match corpus_type {
        CorpusType::DocVault => FileClassification::Document(fmt),
        CorpusType::CodeRepo => {
            if is_html {
                FileClassification::Code(SupportedLanguage::Html)
            } else {
                FileClassification::Ignored
            }
        },
        CorpusType::Mixed => {
            if !is_html {
                FileClassification::Document(fmt)
            } else {
                let doc_like = match sample_bytes {
                    Some(bytes) => is_html_documentation_article(bytes),
                    None => {
                        let pc = str_chars(path);
                        let lp = chars_ascii_lower(pc.as_slice());
                        let l = lp.as_slice();
                        contains_marker(l, "doc") || contains_marker(l, "wiki") || contains_marker(l, "spec")
                    },
                };
                if doc_like {
                    FileClassification::Document(FileFormat::HtmlDoc)
                } else {
                    FileClassification::Code(SupportedLanguage::Html)
                }
            }
        },
    }
}

// ---------------------------------------------------------------------------
// Pattern matchers (ignore)
// ---------------------------------------------------------------------------
#[verifier::external_type_specification]
#[verifier::external_body]
pub struct ExGitignore(Gitignore);

#[verifier::external_type_specification]
#[verifier::external_body]
pub struct ExGitignoreBuilder(GitignoreBuilder);

/// The root a gitignore builder was made with and the pattern lines given to it, in order.
pub uninterp spec fn builder_source(b: GitignoreBuilder) -> (Seq<char>, Seq<Seq<char>>);

/// The root and the pattern lines a gitignore matcher was built from.
pub uninterp spec fn matcher_source(m: Gitignore) -> (Seq<char>, Seq<Seq<char>>);

/// The name for what `Gitignore::matched_path_or_any_parents(path, false).is_ignore()` gives
/// for a matcher built from `root` and the pattern `lines`: whether the last pattern that
/// matches the file or one of its parent directories is an ignore (not a whitelist) pattern.
pub uninterp spec fn gitignore_ignores(root: Seq<char>, lines: Seq<Seq<char>>, path: Seq<char>) -> bool;

/// `GitignoreBuilder::new`: a builder for patterns relative to `root`, with no lines yet.
#[verifier::external_body]
fn gi_builder(root: &str) -> (b: GitignoreBuilder)
    ensures
        builder_source(b) == (root@, Seq::<Seq<char>>::empty()),
{
    GitignoreBuilder::new(root)
}

/// `GitignoreBuilder::add_line`: adds one gitignore pattern line (a line that does not
/// parse as a glob takes no part in matching).
#[verifier::external_body]
fn gi_add_line(b: &mut GitignoreBuilder, line: &str)
    ensures
        builder_source(*final(b)) == (builder_source(*old(b)).0, builder_source(*old(b)).1.push(line@)),
{
    let _ = b.add_line(None, line);
}

/// `GitignoreBuilder::build`: the matcher for the builder's root and lines, or `None` when
/// the glob set cannot be built.
#[verifier::external_body]
fn gi_build(b: &GitignoreBuilder) -> (r: Option<Gitignore>)
    ensures
        r matches Some(m) ==> matcher_source(m) == builder_source(*b),
{
    b.build().ok()
}

/// `p` without a leading `./`.
pub open spec fn without_dot_slash(p: Seq<char>) -> Seq<char> {
    if p.len() >= 2 && p[0] == '.' && p[1] == '/' { p.skip(2) } else { p }
}

/// `p` begins like a path with a root or a prefix on some platform: a separator (`/` or
/// `\`), or a drive letter and a colon.
pub open spec fn starts_rooted(p: Seq<char>) -> bool {
    (p.len() > 0 && (p[0] == '/' || p[0] == '\\')) || (p.len() >= 2 && p[1] == ':' && (('a' <= p[0] && p[0] <= 'z') || (
    'A' <= p[0] && p[0] <= 'Z')))
}

/// The matcher strips the root `r` from the path `p` (both without a leading `./`): the root
/// is not `.`, the path has a separator and starts with the root.
pub open spec fn strips_root(r: Seq<char>, p: Seq<char>) -> bool {
    r != "."@ && (p.contains('/') || p.contains('\\')) && r.len() <= p.len() && p.take(r.len() as int) == r
}

/// `c` separates path components on some platform.
pub open spec fn is_separator(c: char) -> bool {
    c == '/' || c == '\\'
}

/// A path that a matcher rooted at `root` can take: what is left of it once the matcher has
/// stripped a leading `./` and the root (and then one leading `/`) does not begin rooted.
/// A path that begins rooted must therefore start with the root, followed by a separator or
/// with the root ending in one, so that the root is stripped whole, component by component
/// as well as character by character. The matcher panics on a rooted remainder.
pub open spec fn safe_under_root(root: Seq<char>, path: Seq<char>) -> bool {
    let p = without_dot_slash(path);
    let r = without_dot_slash(root);
    let rest = p.skip(r.len() as int);
    let rest1 = if rest.len() > 0 && rest[0] == '/' { rest.skip(1) } else { rest };
    &&& strips_root(r, p) ==> !starts_rooted(rest1)
    &&& starts_rooted(p) ==> strips_root(r, p) && r.len() > 0 && ((rest.len() > 0 && is_separator(rest[0])) || is_separator(
        r.last(),
    ))
}

/// `Gitignore::matched_path_or_any_parents(path, false).is_ignore()`, for a file path the
/// matcher can take (the crate panics on a path whose stripped form has a root, which
/// `requires` rules out).
#[verifier::external_body]
fn gi_matches(m: &Gitignore, path: &str) -> (b: bool)
    requires
        safe_under_root(matcher_source(*m).0, path@),
    ensures
        b == gitignore_ignores(matcher_source(*m).0, matcher_source(*m).1, path@),
{
    m.matched_path_or_any_parents(path, false).is_ignore()
}

/// The characters of a list of strings.
pub open spec fn line_views(v: Seq<String>) -> Seq<Seq<char>> {
    v.map_values(|s: String| s@)
}

/// Compiles the pattern lines into a matcher for `root`, or `None` when there are none (or
/// they do not compile).
fn compile_patterns(root: &str, patterns: &[String]) -> (r: Option<Gitignore>)
    ensures
        patterns.len() == 0 ==> r is None,
        r matches Some(m) ==> matcher_source(m) == (root@, line_views(patterns@)),
{
    if patterns.len() == 0 {
        return None;
    }
    let mut builder = gi_builder(root);
    let mut i: usize = 0;
    while i < patterns.len()
        invariant
            i <= patterns.len(),
            builder_source(builder) == (root@, line_views(patterns@).take(i as int)),
        decreases patterns.len() - i,
    {
        gi_add_line(&mut builder, patterns[i].as_str());
        i += 1;
        assert(line_views(patterns@).take(i as int) =~= line_views(patterns@).take(i - 1).push(patterns@[i - 1]@));
    }
    assert(line_views(patterns@).take(patterns.len() as int) =~= line_views(patterns@));
    gi_build(&builder)
}

/// A compiled classifier for determining file modalities.
pub struct FileClassifier {
    root: String,
    corpus_type: CorpusType,
    doc_matcher: Option<Gitignore>,
    code_matcher: Option<Gitignore>,
}

impl FileClassifier {
    /// The corpus type the classifier was built for.
    pub closed spec fn spec_corpus_type(&self) -> CorpusType {
        self.corpus_type
    }

    /// Whether documentation patterns were compiled.
    pub closed spec fn has_doc_matcher(&self) -> bool {
        self.doc_matcher is Some
    }

    /// Whether code patterns were compiled.
    pub closed spec fn has_code_matcher(&self) -> bool {
        self.code_matcher is Some
    }

    /// The corpus root the patterns are relative to.
    pub closed spec fn spec_root(&self) -> Seq<char> {
        self.root@
    }

    /// The documentation patterns, as lines, when they were compiled.
    pub closed spec fn doc_lines(&self) -> Option<Seq<Seq<char>>> {
        match self.doc_matcher {
            Some(m) => Some(matcher_source(m).1),
            None => None,
        }
    }

    /// The code patterns, as lines, when they were compiled.
    pub closed spec fn code_lines(&self) -> Option<Seq<Seq<char>>> {
        match self.code_matcher {
            Some(m) => Some(matcher_source(m).1),
            None => None,
        }
    }

    /// The compiled patterns are relative to the root.
    pub closed spec fn wf(&self) -> bool {
        &&& (self.doc_matcher matches Some(m) ==> matcher_source(m).0 == self.root@)
        &&& (self.code_matcher matches Some(m) ==> matcher_source(m).0 == self.root@)
    }

    /// The patterns of `lines`, if compiled, mark the file at `path` as ignored-by-pattern.
    pub open spec fn pattern_hit(&self, lines: Option<Seq<Seq<char>>>, path: Seq<char>) -> bool {
        match lines {
            Some(l) => gitignore_ignores(self.spec_root(), l, path),
            None => false,
        }
    }

    /// The documentation patterns decide for a rich document at `path`.
    pub open spec fn doc_hit(&self, path: Seq<char>) -> bool {
        rich_format(path_extension_lower(path)) is Some && self.pattern_hit(self.doc_lines(), path)
    }

    /// The code patterns decide for a rich document at `path` that the documentation
    /// patterns do not claim.
    pub open spec fn code_hit(&self, path: Seq<char>) -> bool {
        rich_format(path_extension_lower(path)) is Some && !self.doc_hit(path) && self.pattern_hit(self.code_lines(), path)
    }

    /// Build a classifier from the corpus root, its type and its documentation and code
    /// patterns (gitignore syntax, relative to `root`).
    pub fn new(root: &str, corpus_type: CorpusType, doc_patterns: &[String], code_patterns: &[String]) -> (c: Self)
        ensures
            c.wf(),
            c.spec_corpus_type() == corpus_type,
            c.spec_root() == root@,
            doc_patterns.len() == 0 ==> !c.has_doc_matcher(),
            code_patterns.len() == 0 ==> !c.has_code_matcher(),
            c.has_doc_matcher() <==> c.doc_lines() is Some,
            c.has_code_matcher() <==> c.code_lines() is Some,
            c.doc_lines() matches Some(l) ==> l == line_views(doc_patterns@),
            c.code_lines() matches Some(l) ==> l == line_views(code_patterns@),
    {
        FileClassifier {
            root: String::from_str(root),
            corpus_type,
            doc_matcher: compile_patterns(root, doc_patterns),
            code_matcher: compile_patterns(root, code_patterns),
        }
    }

    /// Classify a file by path, optionally reading sample bytes for the content heuristic.
    /// The patterns are consulted only for rich documents, so only their paths must be ones
    /// the matchers can take.
    pub fn classify(&self, path: &str, sample_bytes: Option<&[u8]>) -> (r: FileClassification)
        requires
            self.wf(),
            rich_format(path_extension_lower(path@)) is Some ==> safe_under_root(self.spec_root(), path@),
        ensures
            r == spec_classify(path@, self.spec_corpus_type(), self.doc_hit(path@), self.code_hit(path@), sample_view(sample_bytes)),
    {
        let ext = lower_extension(path);
        let e = ext.as_slice();
        proof {
            reveal_strlit("html");
            reveal_strlit("htm");
            reveal_strlit("pdf");
            reveal_strlit("docx");
        }
        let rich = str_is(e, "html") || str_is(e, "htm") || str_is(e, "pdf") || str_is(e, "docx");
        proof {
            assert(rich == (rich_format(path_extension_lower(path@)) is Some));
        }
        let doc_hit = rich && match &self.doc_matcher {
            Some(m) => gi_matches(m, path),
            None => false,
        };
        let code_hit = rich && !doc_hit && match &self.code_matcher {
            Some(m) => gi_matches(m, path),
            None => false,
        };
        let r = classify_with_matches(path, self.corpus_type, doc_hit, code_hit, sample_bytes);
        proof {
            assert(rich == (rich_format(path_extension_lower(path@)) is Some));
            assert(doc_hit == self.doc_hit(path@));
            assert(code_hit == self.code_hit(path@));
        }
        r
    }
}

} // verus!
