//! Language detection for polyglot source trees.
use vstd::prelude::*;

use crate::text::{
    all_ascii, ascii_lower, ascii_lower_seq, opt_view, str_chars, str_eq, str_to_lowercase, string_from_chars, unicode_lowercase,
};

verus! {

/// Supported source code languages for AST-aware parsing.
#[derive(Debug, Clone, Copy, PartialEq, Eq, Hash, Structural)]
pub enum SupportedLanguage {
    /// Rust (`.rs`)
    Rust,
    /// TypeScript (`.ts`, `.mts`, `.cts`)
    TypeScript,
    /// TSX (`.tsx`)
    Tsx,
    /// JavaScript (`.js`, `.jsx`, `.mjs`, `.cjs`)
    JavaScript,
    /// Python (`.py`, `.pyi`)
    Python,
    /// Go (`.go`)
    Go,
    /// C (`.c`, `.h`)
    C,
    /// C++ (`.cpp`, `.hpp`, `.cc`, `.cxx`, `.hh`)
    Cpp,
    /// Java (`.java`)
    Java,
    /// C# (`.cs`)
    CSharp,
    /// Ruby (`.rb`, `.rake`, `.gemspec`)
    Ruby,
    /// PHP (`.php`, `.phtml`)
    Php,
    /// Swift (`.swift`)
    Swift,
    /// Elixir (`.ex`, `.exs`)
    Elixir,
    /// Lua (`.lua`)
    Lua,
    /// Bash / Shell (`.sh`, `.bash`, `.zsh`)
    Bash,
    /// HTML treated as source (UI templates in a code repository); never chosen by extension.
    Html,
}

/// The canonical identifier of each language.
pub open spec fn spec_language_name(l: SupportedLanguage) -> Seq<char> {
    match l {
        SupportedLanguage::Rust => "rust"@,
        SupportedLanguage::TypeScript => "typescript"@,
        SupportedLanguage::Tsx => "tsx"@,
        SupportedLanguage::JavaScript => "javascript"@,
        SupportedLanguage::Python => "python"@,
        SupportedLanguage::Go => "go"@,
        SupportedLanguage::C => "c"@,
        SupportedLanguage::Cpp => "cpp"@,
        SupportedLanguage::Java => "java"@,
        SupportedLanguage::CSharp => "csharp"@,
        SupportedLanguage::Ruby => "ruby"@,
        SupportedLanguage::Php => "php"@,
        SupportedLanguage::Swift => "swift"@,
        SupportedLanguage::Elixir => "elixir"@,
        SupportedLanguage::Lua => "lua"@,
        SupportedLanguage::Bash => "bash"@,
        SupportedLanguage::Html => "html"@,
    }
}

/// The single-line comment prefix of each language.
pub open spec fn spec_comment_prefix(l: SupportedLanguage) -> Seq<char> {
    match l {
        SupportedLanguage::Python | SupportedLanguage::Ruby | SupportedLanguage::Elixir
        | SupportedLanguage::Bash => "#"@,
        SupportedLanguage::Lua => "--"@,
        _ => "//"@,
    }
}

impl SupportedLanguage {
    /// Canonical language identifier string (e.g., "rust", "typescript", "python").
    pub fn name(&self) -> (r: &'static str)
        ensures
            r@ == spec_language_name(*self),
    {
        match self {
            SupportedLanguage::Rust => "rust",
            SupportedLanguage::TypeScript => "typescript",
            SupportedLanguage::Tsx => "tsx",
            SupportedLanguage::JavaScript => "javascript",
            SupportedLanguage::Python => "python",
            SupportedLanguage::Go => "go",
            SupportedLanguage::C => "c",
            SupportedLanguage::Cpp => "cpp",
            SupportedLanguage::Java => "java",
            SupportedLanguage::CSharp => "csharp",
            SupportedLanguage::Ruby => "ruby",
            SupportedLanguage::Php => "php",
            SupportedLanguage::Swift => "swift",
            SupportedLanguage::Elixir => "elixir",
            SupportedLanguage::Lua => "lua",
            SupportedLanguage::Bash => "bash",
            SupportedLanguage::Html => "html",
        }
    }

    /// Single line comment prefix for scope breadcrumbs.
    pub fn comment_prefix(&self) -> (r: &'static str)
        ensures
            r@ == spec_comment_prefix(*self),
    {
        match self {
            SupportedLanguage::Python | SupportedLanguage::Ruby | SupportedLanguage::Elixir
            | SupportedLanguage::Bash => "#",
            SupportedLanguage::Lua => "--",
            _ => "//",
        }
    }
}

/// The language that a lower-cased file extension stands for.
pub open spec fn language_for_extension(e: Seq<char>) -> Option<SupportedLanguage> {
    if e == "rs"@ {
        Some(SupportedLanguage::Rust)
    } else if e == "ts"@ || e == "mts"@ || e == "cts"@ {
        Some(SupportedLanguage::TypeScript)
    } else if e == "tsx"@ {
        Some(SupportedLanguage::Tsx)
    } else if e == "js"@ || e == "jsx"@ || e == "mjs"@ || e == "cjs"@ {
        Some(SupportedLanguage::JavaScript)
    } else if e == "py"@ || e == "pyi"@ {
        Some(SupportedLanguage::Python)
    } else if e == "go"@ {
        Some(SupportedLanguage::Go)
    } else if e == "c"@ || e == "h"@ {
        Some(SupportedLanguage::C)
    } else if e == "cpp"@ || e == "hpp"@ || e == "cc"@ || e == "cxx"@ || e == "hh"@ || e
        == "hxx"@ {
        Some(SupportedLanguage::Cpp)
    } else if e == "java"@ {
        Some(SupportedLanguage::Java)
    } else if e == "cs"@ {
        Some(SupportedLanguage::CSharp)
    } else if e == "rb"@ || e == "rake"@ || e == "gemspec"@ {
        Some(SupportedLanguage::Ruby)
    } else if e == "php"@ || e == "phtml"@ || e == "php3"@ || e == "php4"@ || e == "php5"@ || e
        == "phps"@ {
        Some(SupportedLanguage::Php)
    } else if e == "swift"@ {
        Some(SupportedLanguage::Swift)
    } else if e == "ex"@ || e == "exs"@ {
        Some(SupportedLanguage::Elixir)
    } else if e == "lua"@ {
        Some(SupportedLanguage::Lua)
    } else if e == "sh"@ || e == "bash"@ || e == "zsh"@ || e == "ksh"@ {
        Some(SupportedLanguage::Bash)
    } else {
        None
    }
}

/// Maps a lower-cased extension to its language.
pub fn language_from_extension(e: &str) -> (r: Option<SupportedLanguage>)
    ensures
        r == language_for_extension(e@),
{
    if str_eq(e, "rs") {
        Some(SupportedLanguage::Rust)
    } else if str_eq(e, "ts") || str_eq(e, "mts") || str_eq(e, "cts") {
        Some(SupportedLanguage::TypeScript)
    } else if str_eq(e, "tsx") {
        Some(SupportedLanguage::Tsx)
    } else if str_eq(e, "js") || str_eq(e, "jsx") || str_eq(e, "mjs") || str_eq(e, "cjs") {
        Some(SupportedLanguage::JavaScript)
    } else if str_eq(e, "py") || str_eq(e, "pyi") {
        Some(SupportedLanguage::Python)
    } else if str_eq(e, "go") {
        Some(SupportedLanguage::Go)
    } else if str_eq(e, "c") || str_eq(e, "h") {
        Some(SupportedLanguage::C)
    } else if str_eq(e, "cpp") || str_eq(e, "hpp") || str_eq(e, "cc") || str_eq(e, "cxx")
        || str_eq(e, "hh") || str_eq(e, "hxx") {
        Some(SupportedLanguage::Cpp)
    } else if str_eq(e, "java") {
        Some(SupportedLanguage::Java)
    } else if str_eq(e, "cs") {
        Some(SupportedLanguage::CSharp)
    } else if str_eq(e, "rb") || str_eq(e, "rake") || str_eq(e, "gemspec") {
        Some(SupportedLanguage::Ruby)
    } else if str_eq(e, "php") || str_eq(e, "phtml") || str_eq(e, "php3") || str_eq(e, "php4")
        || str_eq(e, "php5") || str_eq(e, "phps") {
        Some(SupportedLanguage::Php)
    } else if str_eq(e, "swift") {
        Some(SupportedLanguage::Swift)
    } else if str_eq(e, "ex") || str_eq(e, "exs") {
        Some(SupportedLanguage::Elixir)
    } else if str_eq(e, "lua") {
        Some(SupportedLanguage::Lua)
    } else if str_eq(e, "sh") || str_eq(e, "bash") || str_eq(e, "zsh") || str_eq(e, "ksh") {
        Some(SupportedLanguage::Bash)
    } else {
        None
    }
}

/// The name for what `Path::file_name` gives for a path, as characters.
pub uninterp spec fn path_file_name(p: Seq<char>) -> Option<Seq<char>>;

/// Calls `Path::file_name` on the path spelled by `path`. The contract says only that the
/// result is determined by the characters of `path`.
#[verifier::external_body]
pub(crate) fn file_name_of(path: &str) -> (r: Option<String>)
    ensures
        opt_view(r) == path_file_name(path@),
{
    std::path::Path::new(path).file_name().and_then(|f| f.to_str()).map(|s| s.to_string())
}

/// Position of the last `.` in a file name.
pub open spec fn last_dot(f: Seq<char>) -> Option<nat>
    decreases f.len(),
{
    if f.len() == 0 {
        None
    } else if f.last() == '.' {
        Some((f.len() - 1) as nat)
    } else {
        last_dot(f.drop_last())
    }
}

/// `Path::extension` in terms of the file name: the part after the last `.`, unless there
/// is no `.` or the only one that counts opens the name.
pub open spec fn spec_extension(f: Seq<char>) -> Option<Seq<char>> {
    match last_dot(f) {
        None => None,
        Some(i) => if i == 0 {
            None
        } else {
            Some(f.skip(i + 1 as int))
        },
    }
}

pub proof fn lemma_last_dot(f: Seq<char>)
    ensures
        match last_dot(f) {
            Some(i) => i < f.len() && f[i as int] == '.' && forall|j: int| i < j < f.len() ==> f[j] != '.',
            None => forall|j: int| 0 <= j < f.len() ==> f[j] != '.',
        },
    decreases f.len(),
{
    if f.len() > 0 && f.last() != '.' {
        lemma_last_dot(f.drop_last());
        assert forall|j: int| 0 <= j < f.len() - 1 implies f[j] == f.drop_last()[j] by {}
    }
}

/// The extension of a file name (what `Path::extension` gives for that name).
pub fn extension_of_file_name(f: &[char]) -> (r: Option<Vec<char>>)
    ensures
        match r {
            Some(v) => spec_extension(f@) == Some(v@),
            None => spec_extension(f@) is None,
        },
{
    let mut i: usize = f.len();
    assert(f@.subrange(0, i as int) =~= f@);
    while i > 0 && f[i - 1] != '.'
        invariant
            i <= f.len(),
            forall|j: int| i <= j < f.len() ==> f@[j] != '.',
            last_dot(f@) == last_dot(f@.subrange(0, i as int)),
        decreases i,
    {
        assert(f@.subrange(0, i as int).drop_last() =~= f@.subrange(0, i - 1));
        i = i - 1;
    }
    proof {
        lemma_last_dot(f@);
    }
    if i == 0 {
        assert(f@.subrange(0, 0) =~= Seq::<char>::empty());
        None
    } else if i == 1 {
        assert(f@.subrange(0, 1).last() == '.');
        None
    } else {
        assert(f@.subrange(0, i as int).last() == '.');
        let v = crate::text::chars_slice(f, i, f.len());
        assert(v@ =~= f@.skip(i as int));
        Some(v)
    }
}

/// The language of a path: `Gemfile` and `Rakefile` by name, the rest by extension.
pub open spec fn spec_detect_language(p: Seq<char>) -> Option<SupportedLanguage> {
    match path_file_name(p) {
        None => None,
        Some(f) => {
            let lower = unicode_lowercase(f);
            if lower == "gemfile"@ || lower == "rakefile"@ {
                Some(SupportedLanguage::Ruby)
            } else {
                match spec_extension(f) {
                    None => None,
                    Some(e) => language_for_extension(unicode_lowercase(e)),
                }
            }
        },
    }
}

/// The language of a file whose name, lower-cased, is `l`.
pub open spec fn language_by_lower_name(l: Seq<char>) -> Option<SupportedLanguage> {
    if l == "gemfile"@ || l == "rakefile"@ {
        Some(SupportedLanguage::Ruby)
    } else {
        match spec_extension(l) {
            None => None,
            Some(e) => language_for_extension(e),
        }
    }
}

/// ASCII lower-casing moves no `.`: the last one stays where it was.
pub proof fn lemma_last_dot_lower(f: Seq<char>)
    ensures
        last_dot(ascii_lower_seq(f)) == last_dot(f),
    decreases f.len(),
{
    if f.len() > 0 {
        assert(ascii_lower_seq(f).drop_last() =~= ascii_lower_seq(f.drop_last()));
        lemma_last_dot_lower(f.drop_last());
        let c = f.last();
        assert(ascii_lower_seq(f).last() == ascii_lower(c));
        if 'A' <= c && c <= 'Z' {
            assert(ascii_lower(c) != '.');
        }
    }
}

/// The extension of a lower-cased file name is the lower-cased extension.
pub proof fn lemma_extension_lower(f: Seq<char>)
    ensures
        spec_extension(ascii_lower_seq(f)) == (match spec_extension(f) {
            None => None,
            Some(e) => Some(ascii_lower_seq(e)),
        }),
{
    lemma_last_dot_lower(f);
    if let Some(i) = last_dot(f) {
        lemma_last_dot(f);
        assert(ascii_lower_seq(f).skip(i + 1 as int) =~= ascii_lower_seq(f.skip(i + 1 as int)));
    }
}

/// Detect programming language from file path extension.
pub fn detect_language(path: &str) -> (r: Option<SupportedLanguage>)
    ensures
        r == spec_detect_language(path@),
        path_file_name(path@) matches Some(f) ==> (all_ascii(f) ==> r == language_by_lower_name(ascii_lower_seq(f))),
{
    let filename = match file_name_of(path) {
        Some(f) => f,
        None => {
            return None;
        },
    };
    let lower = str_to_lowercase(filename.as_str());
    if str_eq(lower.as_str(), "gemfile") || str_eq(lower.as_str(), "rakefile") {
        return Some(SupportedLanguage::Ruby);
    }
    let name_chars = str_chars(filename.as_str());
    proof {
        lemma_extension_lower(filename@);
    }
    let ext = match extension_of_file_name(name_chars.as_slice()) {
        Some(e) => string_from_chars(e.as_slice()),
        None => {
            return None;
        },
    };
    proof {
        lemma_last_dot(filename@);
        if all_ascii(filename@) {
            let i = last_dot(filename@)->0;
            assert forall|j: int| 0 <= j < ext@.len() implies (#[trigger] ext@[j] as u32) < 128 by {
                assert(ext@[j] == filename@[i + 1 + j]);
            }
        }
    }
    let lower_ext = str_to_lowercase(ext.as_str());
    language_from_extension(lower_ext.as_str())
}

/// Which language a file is detected as, by the lower-cased extension of its name (for a
/// name that, lower-cased, is neither `gemfile` nor `rakefile`): with `l` the lower-cased
/// extension, each listed extension gives its language, and any other gives none.
pub proof fn law_language_by_extension(p: Seq<char>, f: Seq<char>, e: Seq<char>, l: Seq<char>)
    requires
        path_file_name(p) == Some(f),
        unicode_lowercase(f) != "gemfile"@,
        unicode_lowercase(f) != "rakefile"@,
        spec_extension(f) == Some(e),
        l == unicode_lowercase(e),
    ensures
        (l == "rs"@) ==> spec_detect_language(p) == Some(SupportedLanguage::Rust),
        (l == "ts"@ || l == "mts"@ || l == "cts"@) ==> spec_detect_language(p) == Some(SupportedLanguage::TypeScript),
        (l == "tsx"@) ==> spec_detect_language(p) == Some(SupportedLanguage::Tsx),
        (l == "js"@ || l == "jsx"@ || l == "mjs"@ || l == "cjs"@) ==> spec_detect_language(p) == Some(SupportedLanguage::JavaScript),
        (l == "py"@ || l == "pyi"@) ==> spec_detect_language(p) == Some(SupportedLanguage::Python),
        (l == "go"@) ==> spec_detect_language(p) == Some(SupportedLanguage::Go),
        (l == "c"@ || l == "h"@) ==> spec_detect_language(p) == Some(SupportedLanguage::C),
        (l == "cpp"@ || l == "hpp"@ || l == "cc"@ || l == "cxx"@ || l == "hh"@ || l == "hxx"@) ==> spec_detect_language(p) == Some(SupportedLanguage::Cpp),
        (l == "java"@) ==> spec_detect_language(p) == Some(SupportedLanguage::Java),
        (l == "cs"@) ==> spec_detect_language(p) == Some(SupportedLanguage::CSharp),
        (l == "rb"@ || l == "rake"@ || l == "gemspec"@) ==> spec_detect_language(p) == Some(SupportedLanguage::Ruby),
        (l == "php"@ || l == "phtml"@ || l == "php3"@ || l == "php4"@ || l == "php5"@ || l == "phps"@) ==> spec_detect_language(p) == Some(SupportedLanguage::Php),
        (l == "swift"@) ==> spec_detect_language(p) == Some(SupportedLanguage::Swift),
        (l == "ex"@ || l == "exs"@) ==> spec_detect_language(p) == Some(SupportedLanguage::Elixir),
        (l == "lua"@) ==> spec_detect_language(p) == Some(SupportedLanguage::Lua),
        (l == "sh"@ || l == "bash"@ || l == "zsh"@ || l == "ksh"@) ==> spec_detect_language(p) == Some(SupportedLanguage::Bash),
        (l != "rs"@ && l != "ts"@ && l != "mts"@ && l != "cts"@ && l != "tsx"@ && l != "js"@ && l != "jsx"@ && l != "mjs"@ && l != "cjs"@ && l != "py"@ && l != "pyi"@ && l != "go"@ && l != "c"@ && l != "h"@ && l != "cpp"@ && l != "hpp"@ && l != "cc"@ && l != "cxx"@ && l != "hh"@ && l != "hxx"@ && l != "java"@ && l != "cs"@ && l != "rb"@ && l != "rake"@ && l != "gemspec"@ && l != "php"@ && l != "phtml"@ && l != "php3"@ && l != "php4"@ && l != "php5"@ && l != "phps"@ && l != "swift"@ && l != "ex"@ && l != "exs"@ && l != "lua"@ && l != "sh"@ && l != "bash"@ && l != "zsh"@ && l != "ksh"@) ==> spec_detect_language(p) is None,
{
    reveal_strlit("rs");
    reveal_strlit("ts");
    reveal_strlit("mts");
    reveal_strlit("cts");
    reveal_strlit("tsx");
    reveal_strlit("js");
    reveal_strlit("jsx");
    reveal_strlit("mjs");
    reveal_strlit("cjs");
    reveal_strlit("py");
    reveal_strlit("pyi");
    reveal_strlit("go");
    reveal_strlit("c");
    reveal_strlit("h");
    reveal_strlit("cpp");
    reveal_strlit("hpp");
    reveal_strlit("cc");
    reveal_strlit("cxx");
    reveal_strlit("hh");
    reveal_strlit("hxx");
    reveal_strlit("java");
    reveal_strlit("cs");
    reveal_strlit("rb");
    reveal_strlit("rake");
    reveal_strlit("gemspec");
    reveal_strlit("php");
    reveal_strlit("phtml");
    reveal_strlit("php3");
    reveal_strlit("php4");
    reveal_strlit("php5");
    reveal_strlit("phps");
    reveal_strlit("swift");
    reveal_strlit("ex");
    reveal_strlit("exs");
    reveal_strlit("lua");
    reveal_strlit("sh");
    reveal_strlit("bash");
    reveal_strlit("zsh");
    reveal_strlit("ksh");
    reveal_strlit("gemfile");
    reveal_strlit("rakefile");
    assert(spec_detect_language(p) == language_for_extension(l));
    if l == "rs"@ {
    }
    if l == "ts"@ {
        assert("ts"@[0] != "rs"@[0]);
    }
    if l == "mts"@ {
        assert("mts"@.len() != "rs"@.len());
        assert("mts"@.len() != "ts"@.len());
    }
    if l == "cts"@ {
        assert("cts"@.len() != "rs"@.len());
        assert("cts"@.len() != "ts"@.len());
        assert("cts"@[0] != "mts"@[0]);
    }
    if l == "tsx"@ {
        assert("tsx"@.len() != "rs"@.len());
        assert("tsx"@.len() != "ts"@.len());
        assert("tsx"@[0] != "mts"@[0]);
        assert("tsx"@[0] != "cts"@[0]);
    }
    if l == "js"@ {
        assert("js"@[0] != "rs"@[0]);
        assert("js"@[0] != "ts"@[0]);
        assert("js"@.len() != "mts"@.len());
        assert("js"@.len() != "cts"@.len());
        assert("js"@.len() != "tsx"@.len());
    }
    if l == "jsx"@ {
        assert("jsx"@.len() != "rs"@.len());
        assert("jsx"@.len() != "ts"@.len());
        assert("jsx"@[0] != "mts"@[0]);
        assert("jsx"@[0] != "cts"@[0]);
        assert("jsx"@[0] != "tsx"@[0]);
        assert("jsx"@.len() != "js"@.len());
    }
    if l == "mjs"@ {
        assert("mjs"@.len() != "rs"@.len());
        assert("mjs"@.len() != "ts"@.len());
        assert("mjs"@[1] != "mts"@[1]);
        assert("mjs"@[0] != "cts"@[0]);
        assert("mjs"@[0] != "tsx"@[0]);
        assert("mjs"@.len() != "js"@.len());
        assert("mjs"@[0] != "jsx"@[0]);
    }
    if l == "cjs"@ {
        assert("cjs"@.len() != "rs"@.len());
        assert("cjs"@.len() != "ts"@.len());
        assert("cjs"@[0] != "mts"@[0]);
        assert("cjs"@[1] != "cts"@[1]);
        assert("cjs"@[0] != "tsx"@[0]);
        assert("cjs"@.len() != "js"@.len());
        assert("cjs"@[0] != "jsx"@[0]);
        assert("cjs"@[0] != "mjs"@[0]);
    }
    if l == "py"@ {
        assert("py"@[0] != "rs"@[0]);
        assert("py"@[0] != "ts"@[0]);
        assert("py"@.len() != "mts"@.len());
        assert("py"@.len() != "cts"@.len());
        assert("py"@.len() != "tsx"@.len());
        assert("py"@[0] != "js"@[0]);
        assert("py"@.len() != "jsx"@.len());
        assert("py"@.len() != "mjs"@.len());
        assert("py"@.len() != "cjs"@.len());
    }
    if l == "pyi"@ {
        assert("pyi"@.len() != "rs"@.len());
        assert("pyi"@.len() != "ts"@.len());
        assert("pyi"@[0] != "mts"@[0]);
        assert("pyi"@[0] != "cts"@[0]);
        assert("pyi"@[0] != "tsx"@[0]);
        assert("pyi"@.len() != "js"@.len());
        assert("pyi"@[0] != "jsx"@[0]);
        assert("pyi"@[0] != "mjs"@[0]);
        assert("pyi"@[0] != "cjs"@[0]);
        assert("pyi"@.len() != "py"@.len());
    }
    if l == "go"@ {
        assert("go"@[0] != "rs"@[0]);
        assert("go"@[0] != "ts"@[0]);
        assert("go"@.len() != "mts"@.len());
        assert("go"@.len() != "cts"@.len());
        assert("go"@.len() != "tsx"@.len());
        assert("go"@[0] != "js"@[0]);
        assert("go"@.len() != "jsx"@.len());
        assert("go"@.len() != "mjs"@.len());
        assert("go"@.len() != "cjs"@.len());
        assert("go"@[0] != "py"@[0]);
        assert("go"@.len() != "pyi"@.len());
    }
    if l == "c"@ {
        assert("c"@.len() != "rs"@.len());
        assert("c"@.len() != "ts"@.len());
        assert("c"@.len() != "mts"@.len());
        assert("c"@.len() != "cts"@.len());
        assert("c"@.len() != "tsx"@.len());
        assert("c"@.len() != "js"@.len());
        assert("c"@.len() != "jsx"@.len());
        assert("c"@.len() != "mjs"@.len());
        assert("c"@.len() != "cjs"@.len());
        assert("c"@.len() != "py"@.len());
        assert("c"@.len() != "pyi"@.len());
        assert("c"@.len() != "go"@.len());
    }
    if l == "h"@ {
        assert("h"@.len() != "rs"@.len());
        assert("h"@.len() != "ts"@.len());
        assert("h"@.len() != "mts"@.len());
        assert("h"@.len() != "cts"@.len());
        assert("h"@.len() != "tsx"@.len());
        assert("h"@.len() != "js"@.len());
        assert("h"@.len() != "jsx"@.len());
        assert("h"@.len() != "mjs"@.len());
        assert("h"@.len() != "cjs"@.len());
        assert("h"@.len() != "py"@.len());
        assert("h"@.len() != "pyi"@.len());
        assert("h"@.len() != "go"@.len());
        assert("h"@[0] != "c"@[0]);
    }
    if l == "cpp"@ {
        assert("cpp"@.len() != "rs"@.len());
        assert("cpp"@.len() != "ts"@.len());
        assert("cpp"@[0] != "mts"@[0]);
        assert("cpp"@[1] != "cts"@[1]);
        assert("cpp"@[0] != "tsx"@[0]);
        assert("cpp"@.len() != "js"@.len());
        assert("cpp"@[0] != "jsx"@[0]);
        assert("cpp"@[0] != "mjs"@[0]);
        assert("cpp"@[1] != "cjs"@[1]);
        assert("cpp"@.len() != "py"@.len());
        assert("cpp"@[0] != "pyi"@[0]);
        assert("cpp"@.len() != "go"@.len());
        assert("cpp"@.len() != "c"@.len());
        assert("cpp"@.len() != "h"@.len());
    }
    if l == "hpp"@ {
        assert("hpp"@.len() != "rs"@.len());
        assert("hpp"@.len() != "ts"@.len());
        assert("hpp"@[0] != "mts"@[0]);
        assert("hpp"@[0] != "cts"@[0]);
        assert("hpp"@[0] != "tsx"@[0]);
        assert("hpp"@.len() != "js"@.len());
        assert("hpp"@[0] != "jsx"@[0]);
        assert("hpp"@[0] != "mjs"@[0]);
        assert("hpp"@[0] != "cjs"@[0]);
        assert("hpp"@.len() != "py"@.len());
        assert("hpp"@[0] != "pyi"@[0]);
        assert("hpp"@.len() != "go"@.len());
        assert("hpp"@.len() != "c"@.len());
        assert("hpp"@.len() != "h"@.len());
        assert("hpp"@[0] != "cpp"@[0]);
    }
    if l == "cc"@ {
        assert("cc"@[0] != "rs"@[0]);
        assert("cc"@[0] != "ts"@[0]);
        assert("cc"@.len() != "mts"@.len());
        assert("cc"@.len() != "cts"@.len());
        assert("cc"@.len() != "tsx"@.len());
        assert("cc"@[0] != "js"@[0]);
        assert("cc"@.len() != "jsx"@.len());
        assert("cc"@.len() != "mjs"@.len());
        assert("cc"@.len() != "cjs"@.len());
        assert("cc"@[0] != "py"@[0]);
        assert("cc"@.len() != "pyi"@.len());
        assert("cc"@[0] != "go"@[0]);
        assert("cc"@.len() != "c"@.len());
        assert("cc"@.len() != "h"@.len());
        assert("cc"@.len() != "cpp"@.len());
        assert("cc"@.len() != "hpp"@.len());
    }
    if l == "cxx"@ {
        assert("cxx"@.len() != "rs"@.len());
        assert("cxx"@.len() != "ts"@.len());
        assert("cxx"@[0] != "mts"@[0]);
        assert("cxx"@[1] != "cts"@[1]);
        assert("cxx"@[0] != "tsx"@[0]);
        assert("cxx"@.len() != "js"@.len());
        assert("cxx"@[0] != "jsx"@[0]);
        assert("cxx"@[0] != "mjs"@[0]);
        assert("cxx"@[1] != "cjs"@[1]);
        assert("cxx"@.len() != "py"@.len());
        assert("cxx"@[0] != "pyi"@[0]);
        assert("cxx"@.len() != "go"@.len());
        assert("cxx"@.len() != "c"@.len());
        assert("cxx"@.len() != "h"@.len());
        assert("cxx"@[1] != "cpp"@[1]);
        assert("cxx"@[0] != "hpp"@[0]);
        assert("cxx"@.len() != "cc"@.len());
    }
    if l == "hh"@ {
        assert("hh"@[0] != "rs"@[0]);
        assert("hh"@[0] != "ts"@[0]);
        assert("hh"@.len() != "mts"@.len());
        assert("hh"@.len() != "cts"@.len());
        assert("hh"@.len() != "tsx"@.len());
        assert("hh"@[0] != "js"@[0]);
        assert("hh"@.len() != "jsx"@.len());
        assert("hh"@.len() != "mjs"@.len());
        assert("hh"@.len() != "cjs"@.len());
        assert("hh"@[0] != "py"@[0]);
        assert("hh"@.len() != "pyi"@.len());
        assert("hh"@[0] != "go"@[0]);
        assert("hh"@.len() != "c"@.len());
        assert("hh"@.len() != "h"@.len());
        assert("hh"@.len() != "cpp"@.len());
        assert("hh"@.len() != "hpp"@.len());
        assert("hh"@[0] != "cc"@[0]);
        assert("hh"@.len() != "cxx"@.len());
    }
    if l == "hxx"@ {
        assert("hxx"@.len() != "rs"@.len());
        assert("hxx"@.len() != "ts"@.len());
        assert("hxx"@[0] != "mts"@[0]);
        assert("hxx"@[0] != "cts"@[0]);
        assert("hxx"@[0] != "tsx"@[0]);
        assert("hxx"@.len() != "js"@.len());
        assert("hxx"@[0] != "jsx"@[0]);
        assert("hxx"@[0] != "mjs"@[0]);
        assert("hxx"@[0] != "cjs"@[0]);
        assert("hxx"@.len() != "py"@.len());
        assert("hxx"@[0] != "pyi"@[0]);
        assert("hxx"@.len() != "go"@.len());
        assert("hxx"@.len() != "c"@.len());
        assert("hxx"@.len() != "h"@.len());
        assert("hxx"@[0] != "cpp"@[0]);
        assert("hxx"@[1] != "hpp"@[1]);
        assert("hxx"@.len() != "cc"@.len());
        assert("hxx"@[0] != "cxx"@[0]);
        assert("hxx"@.len() != "hh"@.len());
    }
    if l == "java"@ {
        assert("java"@.len() != "rs"@.len());
        assert("java"@.len() != "ts"@.len());
        assert("java"@.len() != "mts"@.len());
        assert("java"@.len() != "cts"@.len());
        assert("java"@.len() != "tsx"@.len());
        assert("java"@.len() != "js"@.len());
        assert("java"@.len() != "jsx"@.len());
        assert("java"@.len() != "mjs"@.len());
        assert("java"@.len() != "cjs"@.len());
        assert("java"@.len() != "py"@.len());
        assert("java"@.len() != "pyi"@.len());
        assert("java"@.len() != "go"@.len());
        assert("java"@.len() != "c"@.len());
        assert("java"@.len() != "h"@.len());
        assert("java"@.len() != "cpp"@.len());
        assert("java"@.len() != "hpp"@.len());
        assert("java"@.len() != "cc"@.len());
        assert("java"@.len() != "cxx"@.len());
        assert("java"@.len() != "hh"@.len());
        assert("java"@.len() != "hxx"@.len());
    }
    if l == "cs"@ {
        assert("cs"@[0] != "rs"@[0]);
        assert("cs"@[0] != "ts"@[0]);
        assert("cs"@.len() != "mts"@.len());
        assert("cs"@.len() != "cts"@.len());
        assert("cs"@.len() != "tsx"@.len());
        assert("cs"@[0] != "js"@[0]);
        assert("cs"@.len() != "jsx"@.len());
        assert("cs"@.len() != "mjs"@.len());
        assert("cs"@.len() != "cjs"@.len());
        assert("cs"@[0] != "py"@[0]);
        assert("cs"@.len() != "pyi"@.len());
        assert("cs"@[0] != "go"@[0]);
        assert("cs"@.len() != "c"@.len());
        assert("cs"@.len() != "h"@.len());
        assert("cs"@.len() != "cpp"@.len());
        assert("cs"@.len() != "hpp"@.len());
        assert("cs"@[1] != "cc"@[1]);
        assert("cs"@.len() != "cxx"@.len());
        assert("cs"@[0] != "hh"@[0]);
        assert("cs"@.len() != "hxx"@.len());
        assert("cs"@.len() != "java"@.len());
    }
    if l == "rb"@ {
        assert("rb"@[1] != "rs"@[1]);
        assert("rb"@[0] != "ts"@[0]);
        assert("rb"@.len() != "mts"@.len());
        assert("rb"@.len() != "cts"@.len());
        assert("rb"@.len() != "tsx"@.len());
        assert("rb"@[0] != "js"@[0]);
        assert("rb"@.len() != "jsx"@.len());
        assert("rb"@.len() != "mjs"@.len());
        assert("rb"@.len() != "cjs"@.len());
        assert("rb"@[0] != "py"@[0]);
        assert("rb"@.len() != "pyi"@.len());
        assert("rb"@[0] != "go"@[0]);
        assert("rb"@.len() != "c"@.len());
        assert("rb"@.len() != "h"@.len());
        assert("rb"@.len() != "cpp"@.len());
        assert("rb"@.len() != "hpp"@.len());
        assert("rb"@[0] != "cc"@[0]);
        assert("rb"@.len() != "cxx"@.len());
        assert("rb"@[0] != "hh"@[0]);
        assert("rb"@.len() != "hxx"@.len());
        assert("rb"@.len() != "java"@.len());
        assert("rb"@[0] != "cs"@[0]);
    }
    if l == "rake"@ {
        assert("rake"@.len() != "rs"@.len());
        assert("rake"@.len() != "ts"@.len());
        assert("rake"@.len() != "mts"@.len());
        assert("rake"@.len() != "cts"@.len());
        assert("rake"@.len() != "tsx"@.len());
        assert("rake"@.len() != "js"@.len());
        assert("rake"@.len() != "jsx"@.len());
        assert("rake"@.len() != "mjs"@.len());
        assert("rake"@.len() != "cjs"@.len());
        assert("rake"@.len() != "py"@.len());
        assert("rake"@.len() != "pyi"@.len());
        assert("rake"@.len() != "go"@.len());
        assert("rake"@.len() != "c"@.len());
        assert("rake"@.len() != "h"@.len());
        assert("rake"@.len() != "cpp"@.len());
        assert("rake"@.len() != "hpp"@.len());
        assert("rake"@.len() != "cc"@.len());
        assert("rake"@.len() != "cxx"@.len());
        assert("rake"@.len() != "hh"@.len());
        assert("rake"@.len() != "hxx"@.len());
        assert("rake"@[0] != "java"@[0]);
        assert("rake"@.len() != "cs"@.len());
        assert("rake"@.len() != "rb"@.len());
    }
    if l == "gemspec"@ {
        assert("gemspec"@.len() != "rs"@.len());
        assert("gemspec"@.len() != "ts"@.len());
        assert("gemspec"@.len() != "mts"@.len());
        assert("gemspec"@.len() != "cts"@.len());
        assert("gemspec"@.len() != "tsx"@.len());
        assert("gemspec"@.len() != "js"@.len());
        assert("gemspec"@.len() != "jsx"@.len());
        assert("gemspec"@.len() != "mjs"@.len());
        assert("gemspec"@.len() != "cjs"@.len());
        assert("gemspec"@.len() != "py"@.len());
        assert("gemspec"@.len() != "pyi"@.len());
        assert("gemspec"@.len() != "go"@.len());
        assert("gemspec"@.len() != "c"@.len());
        assert("gemspec"@.len() != "h"@.len());
        assert("gemspec"@.len() != "cpp"@.len());
        assert("gemspec"@.len() != "hpp"@.len());
        assert("gemspec"@.len() != "cc"@.len());
        assert("gemspec"@.len() != "cxx"@.len());
        assert("gemspec"@.len() != "hh"@.len());
        assert("gemspec"@.len() != "hxx"@.len());
        assert("gemspec"@.len() != "java"@.len());
        assert("gemspec"@.len() != "cs"@.len());
        assert("gemspec"@.len() != "rb"@.len());
        assert("gemspec"@.len() != "rake"@.len());
    }
    if l == "php"@ {
        assert("php"@.len() != "rs"@.len());
        assert("php"@.len() != "ts"@.len());
        assert("php"@[0] != "mts"@[0]);
        assert("php"@[0] != "cts"@[0]);
        assert("php"@[0] != "tsx"@[0]);
        assert("php"@.len() != "js"@.len());
        assert("php"@[0] != "jsx"@[0]);
        assert("php"@[0] != "mjs"@[0]);
        assert("php"@[0] != "cjs"@[0]);
        assert("php"@.len() != "py"@.len());
        assert("php"@[1] != "pyi"@[1]);
        assert("php"@.len() != "go"@.len());
        assert("php"@.len() != "c"@.len());
        assert("php"@.len() != "h"@.len());
        assert("php"@[0] != "cpp"@[0]);
        assert("php"@[0] != "hpp"@[0]);
        assert("php"@.len() != "cc"@.len());
        assert("php"@[0] != "cxx"@[0]);
        assert("php"@.len() != "hh"@.len());
        assert("php"@[0] != "hxx"@[0]);
        assert("php"@.len() != "java"@.len());
        assert("php"@.len() != "cs"@.len());
        assert("php"@.len() != "rb"@.len());
        assert("php"@.len() != "rake"@.len());
        assert("php"@.len() != "gemspec"@.len());
    }
    if l == "phtml"@ {
        assert("phtml"@.len() != "rs"@.len());
        assert("phtml"@.len() != "ts"@.len());
        assert("phtml"@.len() != "mts"@.len());
        assert("phtml"@.len() != "cts"@.len());
        assert("phtml"@.len() != "tsx"@.len());
        assert("phtml"@.len() != "js"@.len());
        assert("phtml"@.len() != "jsx"@.len());
        assert("phtml"@.len() != "mjs"@.len());
        assert("phtml"@.len() != "cjs"@.len());
        assert("phtml"@.len() != "py"@.len());
        assert("phtml"@.len() != "pyi"@.len());
        assert("phtml"@.len() != "go"@.len());
        assert("phtml"@.len() != "c"@.len());
        assert("phtml"@.len() != "h"@.len());
        assert("phtml"@.len() != "cpp"@.len());
        assert("phtml"@.len() != "hpp"@.len());
        assert("phtml"@.len() != "cc"@.len());
        assert("phtml"@.len() != "cxx"@.len());
        assert("phtml"@.len() != "hh"@.len());
        assert("phtml"@.len() != "hxx"@.len());
        assert("phtml"@.len() != "java"@.len());
        assert("phtml"@.len() != "cs"@.len());
        assert("phtml"@.len() != "rb"@.len());
        assert("phtml"@.len() != "rake"@.len());
        assert("phtml"@.len() != "gemspec"@.len());
        assert("phtml"@.len() != "php"@.len());
    }
    if l == "php3"@ {
        assert("php3"@.len() != "rs"@.len());
        assert("php3"@.len() != "ts"@.len());
        assert("php3"@.len() != "mts"@.len());
        assert("php3"@.len() != "cts"@.len());
        assert("php3"@.len() != "tsx"@.len());
        assert("php3"@.len() != "js"@.len());
        assert("php3"@.len() != "jsx"@.len());
        assert("php3"@.len() != "mjs"@.len());
        assert("php3"@.len() != "cjs"@.len());
        assert("php3"@.len() != "py"@.len());
        assert("php3"@.len() != "pyi"@.len());
        assert("php3"@.len() != "go"@.len());
        assert("php3"@.len() != "c"@.len());
        assert("php3"@.len() != "h"@.len());
        assert("php3"@.len() != "cpp"@.len());
        assert("php3"@.len() != "hpp"@.len());
        assert("php3"@.len() != "cc"@.len());
        assert("php3"@.len() != "cxx"@.len());
        assert("php3"@.len() != "hh"@.len());
        assert("php3"@.len() != "hxx"@.len());
        assert("php3"@[0] != "java"@[0]);
        assert("php3"@.len() != "cs"@.len());
        assert("php3"@.len() != "rb"@.len());
        assert("php3"@[0] != "rake"@[0]);
        assert("php3"@.len() != "gemspec"@.len());
        assert("php3"@.len() != "php"@.len());
        assert("php3"@.len() != "phtml"@.len());
    }
    if l == "php4"@ {
        assert("php4"@.len() != "rs"@.len());
        assert("php4"@.len() != "ts"@.len());
        assert("php4"@.len() != "mts"@.len());
        assert("php4"@.len() != "cts"@.len());
        assert("php4"@.len() != "tsx"@.len());
        assert("php4"@.len() != "js"@.len());
        assert("php4"@.len() != "jsx"@.len());
        assert("php4"@.len() != "mjs"@.len());
        assert("php4"@.len() != "cjs"@.len());
        assert("php4"@.len() != "py"@.len());
        assert("php4"@.len() != "pyi"@.len());
        assert("php4"@.len() != "go"@.len());
        assert("php4"@.len() != "c"@.len());
        assert("php4"@.len() != "h"@.len());
        assert("php4"@.len() != "cpp"@.len());
        assert("php4"@.len() != "hpp"@.len());
        assert("php4"@.len() != "cc"@.len());
        assert("php4"@.len() != "cxx"@.len());
        assert("php4"@.len() != "hh"@.len());
        assert("php4"@.len() != "hxx"@.len());
        assert("php4"@[0] != "java"@[0]);
        assert("php4"@.len() != "cs"@.len());
        assert("php4"@.len() != "rb"@.len());
        assert("php4"@[0] != "rake"@[0]);
        assert("php4"@.len() != "gemspec"@.len());
        assert("php4"@.len() != "php"@.len());
        assert("php4"@.len() != "phtml"@.len());
        assert("php4"@[3] != "php3"@[3]);
    }
    if l == "php5"@ {
        assert("php5"@.len() != "rs"@.len());
        assert("php5"@.len() != "ts"@.len());
        assert("php5"@.len() != "mts"@.len());
        assert("php5"@.len() != "cts"@.len());
        assert("php5"@.len() != "tsx"@.len());
        assert("php5"@.len() != "js"@.len());
        assert("php5"@.len() != "jsx"@.len());
        assert("php5"@.len() != "mjs"@.len());
        assert("php5"@.len() != "cjs"@.len());
        assert("php5"@.len() != "py"@.len());
        assert("php5"@.len() != "pyi"@.len());
        assert("php5"@.len() != "go"@.len());
        assert("php5"@.len() != "c"@.len());
        assert("php5"@.len() != "h"@.len());
        assert("php5"@.len() != "cpp"@.len());
        assert("php5"@.len() != "hpp"@.len());
        assert("php5"@.len() != "cc"@.len());
        assert("php5"@.len() != "cxx"@.len());
        assert("php5"@.len() != "hh"@.len());
        assert("php5"@.len() != "hxx"@.len());
        assert("php5"@[0] != "java"@[0]);
        assert("php5"@.len() != "cs"@.len());
        assert("php5"@.len() != "rb"@.len());
        assert("php5"@[0] != "rake"@[0]);
        assert("php5"@.len() != "gemspec"@.len());
        assert("php5"@.len() != "php"@.len());
        assert("php5"@.len() != "phtml"@.len());
        assert("php5"@[3] != "php3"@[3]);
        assert("php5"@[3] != "php4"@[3]);
    }
    if l == "phps"@ {
        assert("phps"@.len() != "rs"@.len());
        assert("phps"@.len() != "ts"@.len());
        assert("phps"@.len() != "mts"@.len());
        assert("phps"@.len() != "cts"@.len());
        assert("phps"@.len() != "tsx"@.len());
        assert("phps"@.len() != "js"@.len());
        assert("phps"@.len() != "jsx"@.len());
        assert("phps"@.len() != "mjs"@.len());
        assert("phps"@.len() != "cjs"@.len());
        assert("phps"@.len() != "py"@.len());
        assert("phps"@.len() != "pyi"@.len());
        assert("phps"@.len() != "go"@.len());
        assert("phps"@.len() != "c"@.len());
        assert("phps"@.len() != "h"@.len());
        assert("phps"@.len() != "cpp"@.len());
        assert("phps"@.len() != "hpp"@.len());
        assert("phps"@.len() != "cc"@.len());
        assert("phps"@.len() != "cxx"@.len());
        assert("phps"@.len() != "hh"@.len());
        assert("phps"@.len() != "hxx"@.len());
        assert("phps"@[0] != "java"@[0]);
        assert("phps"@.len() != "cs"@.len());
        assert("phps"@.len() != "rb"@.len());
        assert("phps"@[0] != "rake"@[0]);
        assert("phps"@.len() != "gemspec"@.len());
        assert("phps"@.len() != "php"@.len());
        assert("phps"@.len() != "phtml"@.len());
        assert("phps"@[3] != "php3"@[3]);
        assert("phps"@[3] != "php4"@[3]);
        assert("phps"@[3] != "php5"@[3]);
    }
    if l == "swift"@ {
        assert("swift"@.len() != "rs"@.len());
        assert("swift"@.len() != "ts"@.len());
        assert("swift"@.len() != "mts"@.len());
        assert("swift"@.len() != "cts"@.len());
        assert("swift"@.len() != "tsx"@.len());
        assert("swift"@.len() != "js"@.len());
        assert("swift"@.len() != "jsx"@.len());
        assert("swift"@.len() != "mjs"@.len());
        assert("swift"@.len() != "cjs"@.len());
        assert("swift"@.len() != "py"@.len());
        assert("swift"@.len() != "pyi"@.len());
        assert("swift"@.len() != "go"@.len());
        assert("swift"@.len() != "c"@.len());
        assert("swift"@.len() != "h"@.len());
        assert("swift"@.len() != "cpp"@.len());
        assert("swift"@.len() != "hpp"@.len());
        assert("swift"@.len() != "cc"@.len());
        assert("swift"@.len() != "cxx"@.len());
        assert("swift"@.len() != "hh"@.len());
        assert("swift"@.len() != "hxx"@.len());
        assert("swift"@.len() != "java"@.len());
        assert("swift"@.len() != "cs"@.len());
        assert("swift"@.len() != "rb"@.len());
        assert("swift"@.len() != "rake"@.len());
        assert("swift"@.len() != "gemspec"@.len());
        assert("swift"@.len() != "php"@.len());
        assert("swift"@[0] != "phtml"@[0]);
        assert("swift"@.len() != "php3"@.len());
        assert("swift"@.len() != "php4"@.len());
        assert("swift"@.len() != "php5"@.len());
        assert("swift"@.len() != "phps"@.len());
    }
    if l == "ex"@ {
        assert("ex"@[0] != "rs"@[0]);
        assert("ex"@[0] != "ts"@[0]);
        assert("ex"@.len() != "mts"@.len());
        assert("ex"@.len() != "cts"@.len());
        assert("ex"@.len() != "tsx"@.len());
        assert("ex"@[0] != "js"@[0]);
        assert("ex"@.len() != "jsx"@.len());
        assert("ex"@.len() != "mjs"@.len());
        assert("ex"@.len() != "cjs"@.len());
        assert("ex"@[0] != "py"@[0]);
        assert("ex"@.len() != "pyi"@.len());
        assert("ex"@[0] != "go"@[0]);
        assert("ex"@.len() != "c"@.len());
        assert("ex"@.len() != "h"@.len());
        assert("ex"@.len() != "cpp"@.len());
        assert("ex"@.len() != "hpp"@.len());
        assert("ex"@[0] != "cc"@[0]);
        assert("ex"@.len() != "cxx"@.len());
        assert("ex"@[0] != "hh"@[0]);
        assert("ex"@.len() != "hxx"@.len());
        assert("ex"@.len() != "java"@.len());
        assert("ex"@[0] != "cs"@[0]);
        assert("ex"@[0] != "rb"@[0]);
        assert("ex"@.len() != "rake"@.len());
        assert("ex"@.len() != "gemspec"@.len());
        assert("ex"@.len() != "php"@.len());
        assert("ex"@.len() != "phtml"@.len());
        assert("ex"@.len() != "php3"@.len());
        assert("ex"@.len() != "php4"@.len());
        assert("ex"@.len() != "php5"@.len());
        assert("ex"@.len() != "phps"@.len());
        assert("ex"@.len() != "swift"@.len());
    }
    if l == "exs"@ {
        assert("exs"@.len() != "rs"@.len());
        assert("exs"@.len() != "ts"@.len());
        assert("exs"@[0] != "mts"@[0]);
        assert("exs"@[0] != "cts"@[0]);
        assert("exs"@[0] != "tsx"@[0]);
        assert("exs"@.len() != "js"@.len());
        assert("exs"@[0] != "jsx"@[0]);
        assert("exs"@[0] != "mjs"@[0]);
        assert("exs"@[0] != "cjs"@[0]);
        assert("exs"@.len() != "py"@.len());
        assert("exs"@[0] != "pyi"@[0]);
        assert("exs"@.len() != "go"@.len());
        assert("exs"@.len() != "c"@.len());
        assert("exs"@.len() != "h"@.len());
        assert("exs"@[0] != "cpp"@[0]);
        assert("exs"@[0] != "hpp"@[0]);
        assert("exs"@.len() != "cc"@.len());
        assert("exs"@[0] != "cxx"@[0]);
        assert("exs"@.len() != "hh"@.len());
        assert("exs"@[0] != "hxx"@[0]);
        assert("exs"@.len() != "java"@.len());
        assert("exs"@.len() != "cs"@.len());
        assert("exs"@.len() != "rb"@.len());
        assert("exs"@.len() != "rake"@.len());
        assert("exs"@.len() != "gemspec"@.len());
        assert("exs"@[0] != "php"@[0]);
        assert("exs"@.len() != "phtml"@.len());
        assert("exs"@.len() != "php3"@.len());
        assert("exs"@.len() != "php4"@.len());
        assert("exs"@.len() != "php5"@.len());
        assert("exs"@.len() != "phps"@.len());
        assert("exs"@.len() != "swift"@.len());
        assert("exs"@.len() != "ex"@.len());
    }
    if l == "lua"@ {
        assert("lua"@.len() != "rs"@.len());
        assert("lua"@.len() != "ts"@.len());
        assert("lua"@[0] != "mts"@[0]);
        assert("lua"@[0] != "cts"@[0]);
        assert("lua"@[0] != "tsx"@[0]);
        assert("lua"@.len() != "js"@.len());
        assert("lua"@[0] != "jsx"@[0]);
        assert("lua"@[0] != "mjs"@[0]);
        assert("lua"@[0] != "cjs"@[0]);
        assert("lua"@.len() != "py"@.len());
        assert("lua"@[0] != "pyi"@[0]);
        assert("lua"@.len() != "go"@.len());
        assert("lua"@.len() != "c"@.len());
        assert("lua"@.len() != "h"@.len());
        assert("lua"@[0] != "cpp"@[0]);
        assert("lua"@[0] != "hpp"@[0]);
        assert("lua"@.len() != "cc"@.len());
        assert("lua"@[0] != "cxx"@[0]);
        assert("lua"@.len() != "hh"@.len());
        assert("lua"@[0] != "hxx"@[0]);
        assert("lua"@.len() != "java"@.len());
        assert("lua"@.len() != "cs"@.len());
        assert("lua"@.len() != "rb"@.len());
        assert("lua"@.len() != "rake"@.len());
        assert("lua"@.len() != "gemspec"@.len());
        assert("lua"@[0] != "php"@[0]);
        assert("lua"@.len() != "phtml"@.len());
        assert("lua"@.len() != "php3"@.len());
        assert("lua"@.len() != "php4"@.len());
        assert("lua"@.len() != "php5"@.len());
        assert("lua"@.len() != "phps"@.len());
        assert("lua"@.len() != "swift"@.len());
        assert("lua"@.len() != "ex"@.len());
        assert("lua"@[0] != "exs"@[0]);
    }
    if l == "sh"@ {
        assert("sh"@[0] != "rs"@[0]);
        assert("sh"@[0] != "ts"@[0]);
        assert("sh"@.len() != "mts"@.len());
        assert("sh"@.len() != "cts"@.len());
        assert("sh"@.len() != "tsx"@.len());
        assert("sh"@[0] != "js"@[0]);
        assert("sh"@.len() != "jsx"@.len());
        assert("sh"@.len() != "mjs"@.len());
        assert("sh"@.len() != "cjs"@.len());
        assert("sh"@[0] != "py"@[0]);
        assert("sh"@.len() != "pyi"@.len());
        assert("sh"@[0] != "go"@[0]);
        assert("sh"@.len() != "c"@.len());
        assert("sh"@.len() != "h"@.len());
        assert("sh"@.len() != "cpp"@.len());
        assert("sh"@.len() != "hpp"@.len());
        assert("sh"@[0] != "cc"@[0]);
        assert("sh"@.len() != "cxx"@.len());
        assert("sh"@[0] != "hh"@[0]);
        assert("sh"@.len() != "hxx"@.len());
        assert("sh"@.len() != "java"@.len());
        assert("sh"@[0] != "cs"@[0]);
        assert("sh"@[0] != "rb"@[0]);
        assert("sh"@.len() != "rake"@.len());
        assert("sh"@.len() != "gemspec"@.len());
        assert("sh"@.len() != "php"@.len());
        assert("sh"@.len() != "phtml"@.len());
        assert("sh"@.len() != "php3"@.len());
        assert("sh"@.len() != "php4"@.len());
        assert("sh"@.len() != "php5"@.len());
        assert("sh"@.len() != "phps"@.len());
        assert("sh"@.len() != "swift"@.len());
        assert("sh"@[0] != "ex"@[0]);
        assert("sh"@.len() != "exs"@.len());
        assert("sh"@.len() != "lua"@.len());
    }
    if l == "bash"@ {
        assert("bash"@.len() != "rs"@.len());
        assert("bash"@.len() != "ts"@.len());
        assert("bash"@.len() != "mts"@.len());
        assert("bash"@.len() != "cts"@.len());
        assert("bash"@.len() != "tsx"@.len());
        assert("bash"@.len() != "js"@.len());
        assert("bash"@.len() != "jsx"@.len());
        assert("bash"@.len() != "mjs"@.len());
        assert("bash"@.len() != "cjs"@.len());
        assert("bash"@.len() != "py"@.len());
        assert("bash"@.len() != "pyi"@.len());
        assert("bash"@.len() != "go"@.len());
        assert("bash"@.len() != "c"@.len());
        assert("bash"@.len() != "h"@.len());
        assert("bash"@.len() != "cpp"@.len());
        assert("bash"@.len() != "hpp"@.len());
        assert("bash"@.len() != "cc"@.len());
        assert("bash"@.len() != "cxx"@.len());
        assert("bash"@.len() != "hh"@.len());
        assert("bash"@.len() != "hxx"@.len());
        assert("bash"@[0] != "java"@[0]);
        assert("bash"@.len() != "cs"@.len());
        assert("bash"@.len() != "rb"@.len());
        assert("bash"@[0] != "rake"@[0]);
        assert("bash"@.len() != "gemspec"@.len());
        assert("bash"@.len() != "php"@.len());
        assert("bash"@.len() != "phtml"@.len());
        assert("bash"@[0] != "php3"@[0]);
        assert("bash"@[0] != "php4"@[0]);
        assert("bash"@[0] != "php5"@[0]);
        assert("bash"@[0] != "phps"@[0]);
        assert("bash"@.len() != "swift"@.len());
        assert("bash"@.len() != "ex"@.len());
        assert("bash"@.len() != "exs"@.len());
        assert("bash"@.len() != "lua"@.len());
        assert("bash"@.len() != "sh"@.len());
    }
    if l == "zsh"@ {
        assert("zsh"@.len() != "rs"@.len());
        assert("zsh"@.len() != "ts"@.len());
        assert("zsh"@[0] != "mts"@[0]);
        assert("zsh"@[0] != "cts"@[0]);
        assert("zsh"@[0] != "tsx"@[0]);
        assert("zsh"@.len() != "js"@.len());
        assert("zsh"@[0] != "jsx"@[0]);
        assert("zsh"@[0] != "mjs"@[0]);
        assert("zsh"@[0] != "cjs"@[0]);
        assert("zsh"@.len() != "py"@.len());
        assert("zsh"@[0] != "pyi"@[0]);
        assert("zsh"@.len() != "go"@.len());
        assert("zsh"@.len() != "c"@.len());
        assert("zsh"@.len() != "h"@.len());
        assert("zsh"@[0] != "cpp"@[0]);
        assert("zsh"@[0] != "hpp"@[0]);
        assert("zsh"@.len() != "cc"@.len());
        assert("zsh"@[0] != "cxx"@[0]);
        assert("zsh"@.len() != "hh"@.len());
        assert("zsh"@[0] != "hxx"@[0]);
        assert("zsh"@.len() != "java"@.len());
        assert("zsh"@.len() != "cs"@.len());
        assert("zsh"@.len() != "rb"@.len());
        assert("zsh"@.len() != "rake"@.len());
        assert("zsh"@.len() != "gemspec"@.len());
        assert("zsh"@[0] != "php"@[0]);
        assert("zsh"@.len() != "phtml"@.len());
        assert("zsh"@.len() != "php3"@.len());
        assert("zsh"@.len() != "php4"@.len());
        assert("zsh"@.len() != "php5"@.len());
        assert("zsh"@.len() != "phps"@.len());
        assert("zsh"@.len() != "swift"@.len());
        assert("zsh"@.len() != "ex"@.len());
        assert("zsh"@[0] != "exs"@[0]);
        assert("zsh"@[0] != "lua"@[0]);
        assert("zsh"@.len() != "sh"@.len());
        assert("zsh"@.len() != "bash"@.len());
    }
    if l == "ksh"@ {
        assert("ksh"@.len() != "rs"@.len());
        assert("ksh"@.len() != "ts"@.len());
        assert("ksh"@[0] != "mts"@[0]);
        assert("ksh"@[0] != "cts"@[0]);
        assert("ksh"@[0] != "tsx"@[0]);
        assert("ksh"@.len() != "js"@.len());
        assert("ksh"@[0] != "jsx"@[0]);
        assert("ksh"@[0] != "mjs"@[0]);
        assert("ksh"@[0] != "cjs"@[0]);
        assert("ksh"@.len() != "py"@.len());
        assert("ksh"@[0] != "pyi"@[0]);
        assert("ksh"@.len() != "go"@.len());
        assert("ksh"@.len() != "c"@.len());
        assert("ksh"@.len() != "h"@.len());
        assert("ksh"@[0] != "cpp"@[0]);
        assert("ksh"@[0] != "hpp"@[0]);
        assert("ksh"@.len() != "cc"@.len());
        assert("ksh"@[0] != "cxx"@[0]);
        assert("ksh"@.len() != "hh"@.len());
        assert("ksh"@[0] != "hxx"@[0]);
        assert("ksh"@.len() != "java"@.len());
        assert("ksh"@.len() != "cs"@.len());
        assert("ksh"@.len() != "rb"@.len());
        assert("ksh"@.len() != "rake"@.len());
        assert("ksh"@.len() != "gemspec"@.len());
        assert("ksh"@[0] != "php"@[0]);
        assert("ksh"@.len() != "phtml"@.len());
        assert("ksh"@.len() != "php3"@.len());
        assert("ksh"@.len() != "php4"@.len());
        assert("ksh"@.len() != "php5"@.len());
        assert("ksh"@.len() != "phps"@.len());
        assert("ksh"@.len() != "swift"@.len());
        assert("ksh"@.len() != "ex"@.len());
        assert("ksh"@[0] != "exs"@[0]);
        assert("ksh"@[0] != "lua"@[0]);
        assert("ksh"@.len() != "sh"@.len());
        assert("ksh"@.len() != "bash"@.len());
        assert("ksh"@[0] != "zsh"@[0]);
    }
}

/// A file named `Gemfile` or `Rakefile` (in any case) is Ruby, whatever its extension.
pub proof fn law_ruby_build_files(p: Seq<char>, f: Seq<char>)
    requires
        path_file_name(p) == Some(f),
        unicode_lowercase(f) == "gemfile"@ || unicode_lowercase(f) == "rakefile"@,
    ensures
        spec_detect_language(p) == Some(SupportedLanguage::Ruby),
{
}

/// A file without a file name or without an extension (other than `Gemfile` and
/// `Rakefile`) is not code.
pub proof fn law_no_extension_no_language(p: Seq<char>)
    requires
        path_file_name(p) matches Some(f) ==> unicode_lowercase(f) != "gemfile"@ && unicode_lowercase(f) != "rakefile"@
            && spec_extension(f) is None,
    ensures
        spec_detect_language(p) is None,
{
}

/// Determine whether a given file path is an indexable source code file.
pub fn is_code_file(path: &str) -> (b: bool)
    ensures
        b == (spec_detect_language(path@) is Some),
{
    match detect_language(path) {
        Some(_) => true,
        None => false,
    }
}

} // verus!
