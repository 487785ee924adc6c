//! Layout helpers of the graph viewer: cluster keys, cluster hashing and node colouring.
//!
//! The force simulation itself works in floating point and is not part of this library.
use vstd::prelude::*;
use vstd::string::StringSliceAdditionalSpecFns;

use crate::text::{
    chars_contains, chars_ends_with, first_occurrence, seq_contains, seq_ends_with, str_chars,
    str_eq, str_to_lowercase, string_from_chars, unicode_lowercase,
};

verus! {

/// Method used to group nodes into spatial cluster anchors.
#[derive(Debug, Clone, Copy, PartialEq, Eq, Structural)]
pub enum ClusterMode {
    /// Group by filesystem directory module hierarchy (first 2–3 path components).
    Directory,
    /// Group by topological graph communities (Leiden/Louvain modularity).
    Community,
}

impl Default for ClusterMode {
    fn default() -> (r: Self)
        ensures
            r == ClusterMode::Directory,
    {
        ClusterMode::Directory
    }
}

// ---------------------------------------------------------------------------
// Splitting
// ---------------------------------------------------------------------------
/// `str::split` on one character: the pieces between occurrences of `sep`, empty ones
/// included; there is always at least one.
pub open spec fn split_char(s: Seq<char>, sep: char) -> Seq<Seq<char>>
    decreases s.len(),
{
    if s.len() == 0 {
        seq![Seq::empty()]
    } else {
        let init = split_char(s.drop_last(), sep);
        if s.last() == sep {
            init.push(Seq::empty())
        } else {
            init.update(init.len() - 1, init.last().push(s.last()))
        }
    }
}

pub proof fn lemma_split_char_nonempty(s: Seq<char>, sep: char)
    ensures
        split_char(s, sep).len() >= 1,
    decreases s.len(),
{
    if s.len() > 0 {
        lemma_split_char_nonempty(s.drop_last(), sep);
    }
}

/// Backslashes turned into slashes.
pub open spec fn normalize_slashes(s: Seq<char>) -> Seq<char> {
    s.map_values(|c: char| if c == '\\' { '/' } else { c })
}

/// The non-empty `/`-separated components of a path, with `\` read as `/`.
pub open spec fn path_components(s: Seq<char>) -> Seq<Seq<char>> {
    split_char(normalize_slashes(s), '/').filter(|p: Seq<char>| p.len() > 0)
}

/// Joins pieces with `/` between them.
pub open spec fn join_slash(parts: Seq<Seq<char>>) -> Seq<char>
    decreases parts.len(),
{
    if parts.len() == 0 {
        Seq::empty()
    } else if parts.len() == 1 {
        parts[0]
    } else {
        join_slash(parts.drop_last()) + seq!['/'] + parts.last()
    }
}

/// The cluster key of a path: up to its first three directory components, or `root`.
pub open spec fn spec_directory_key(path: Seq<char>) -> Seq<char> {
    let parts = path_components(path);
    if parts.len() <= 1 {
        "root"@
    } else {
        let dirs = parts.drop_last();
        let n = if dirs.len() < 3 {
            dirs.len()
        } else {
            3
        };
        join_slash(dirs.take(n as int))
    }
}

/// The non-empty components of a path, with `\` read as `/`.
fn components_of(path: &[char]) -> (r: Vec<Vec<char>>)
    ensures
        r@.map_values(|x: Vec<char>| x@) == path_components(path@),
{
    let ghost norm = normalize_slashes(path@);
    let mut pieces: Vec<Vec<char>> = Vec::new();
    let mut cur: Vec<char> = Vec::new();
    let mut i: usize = 0;
    proof {
        reveal_with_fuel(Seq::<Seq<char>>::filter, 1);
        assert(norm.take(0) =~= Seq::<char>::empty());
        assert(split_char(norm.take(0), '/').drop_last() =~= Seq::<Seq<char>>::empty());
        assert(pieces@.map_values(|x: Vec<char>| x@) =~= Seq::<Seq<char>>::empty());
    }
    while i < path.len()
        invariant
            i <= path@.len(),
            norm == normalize_slashes(path@),
            norm.len() == path@.len(),
            split_char(norm.take(i as int), '/').len() >= 1,
            cur@ == split_char(norm.take(i as int), '/').last(),
            pieces@.map_values(|x: Vec<char>| x@) == split_char(norm.take(i as int), '/').drop_last().filter(
                |p: Seq<char>| p.len() > 0,
            ),
        decreases path.len() - i,
    {
        let c = if path[i] == '\\' {
            '/'
        } else {
            path[i]
        };
        let ghost sp = split_char(norm.take(i as int), '/');
        proof {
            assert(norm[i as int] == c);
            assert(norm.take(i + 1).drop_last() =~= norm.take(i as int));
            assert(norm.take(i + 1).last() == c);
            reveal_with_fuel(Seq::<Seq<char>>::filter, 1);
        }
        if c == '/' {
            let ghost before = pieces@.map_values(|x: Vec<char>| x@);
            proof {
                assert(split_char(norm.take(i + 1), '/') == sp.push(Seq::empty()));
                assert(sp.push(Seq::<char>::empty()).drop_last() =~= sp);
                assert(sp =~= sp.drop_last().push(sp.last()));
                assert(sp.drop_last().push(sp.last()).drop_last() =~= sp.drop_last());
            }
            if cur.len() > 0 {
                pieces.push(cur);
                assert(pieces@.map_values(|x: Vec<char>| x@) =~= before.push(sp.last()));
            } else {
                assert(pieces@.map_values(|x: Vec<char>| x@) =~= before);
            }
            cur = Vec::new();
        } else {
            proof {
                assert(split_char(norm.take(i + 1), '/') == sp.update(sp.len() - 1, sp.last().push(c)));
                assert(sp.update(sp.len() - 1, sp.last().push(c)).drop_last() =~= sp.drop_last());
            }
            cur.push(c);
        }
        i += 1;
    }
    proof {
        assert(norm.take(path@.len() as int) =~= norm);
        let sp = split_char(norm, '/');
        assert(sp =~= sp.drop_last().push(sp.last()));
        reveal_with_fuel(Seq::<Seq<char>>::filter, 1);
    }
    let ghost before = pieces@.map_values(|x: Vec<char>| x@);
    if cur.len() > 0 {
        pieces.push(cur);
        assert(pieces@.map_values(|x: Vec<char>| x@) =~= before.push(split_char(norm, '/').last()));
    }
    pieces
}

/// Extract a 2-3 component directory cluster key from a relative path.
pub fn extract_directory_key(path: &str) -> (r: String)
    ensures
        r@ == spec_directory_key(path@),
{
    let chars = str_chars(path);
    let parts = components_of(chars.as_slice());
    let ghost pv = parts@.map_values(|x: Vec<char>| x@);
    if parts.len() <= 1 {
        return "root".to_string();
    }
    let take_count = if parts.len() - 1 < 3 {
        parts.len() - 1
    } else {
        3
    };
    let mut out: Vec<char> = Vec::new();
    let mut j: usize = 0;
    assert(pv.drop_last().take(0) =~= Seq::<Seq<char>>::empty());
    while j < take_count
        invariant
            j <= take_count <= parts@.len() - 1,
            pv == parts@.map_values(|x: Vec<char>| x@),
            out@ == join_slash(pv.drop_last().take(j as int)),
        decreases take_count - j,
    {
        let ghost prev = pv.drop_last().take(j as int);
        assert(pv.drop_last().take(j + 1).drop_last() =~= prev);
        if j > 0 {
            out.push('/');
        }
        let piece = &parts[j];
        let mut k: usize = 0;
        let ghost base = out@;
        while k < piece.len()
            invariant
                k <= piece@.len(),
                out@ == base + piece@.take(k as int),
            decreases piece.len() - k,
        {
            out.push(piece[k]);
            k += 1;
            assert(out@ =~= base + piece@.take(k as int));
        }
        proof {
            assert(piece@.take(piece@.len() as int) =~= piece@);
            assert(pv.drop_last().take(j + 1).last() == piece@);
            if j == 0 {
                assert(out@ =~= join_slash(pv.drop_last().take(1)));
            } else {
                assert(out@ =~= join_slash(pv.drop_last().take(j + 1)));
            }
        }
        j += 1;
    }
    string_from_chars(out.as_slice())
}

// ---------------------------------------------------------------------------
// Hashing
// ---------------------------------------------------------------------------
pub open spec fn fnv_step(h: u32, b: u8) -> u32 {
    (h ^ (b as u32)).wrapping_mul(0x01000193u32)
}

/// FNV-1a over a byte sequence, starting from `h`.
pub open spec fn fnv1a_from(h: u32, bytes: Seq<u8>) -> u32
    decreases bytes.len(),
{
    if bytes.len() == 0 {
        h
    } else {
        fnv_step(fnv1a_from(h, bytes.drop_last()), bytes.last())
    }
}

/// FNV-1a 32-bit hash for cluster strings.
pub fn fnv1a_hash(s: &str) -> (r: u32)
    ensures
        r == fnv1a_from(0x811c9dc5u32, s.spec_bytes()),
{
    let bytes = s.as_bytes();
    let mut hash: u32 = 0x811c9dc5;
    let mut i: usize = 0;
    while i < bytes.len()
        invariant
            i <= bytes@.len(),
            bytes@ == s.spec_bytes(),
            hash == fnv1a_from(0x811c9dc5u32, bytes@.take(i as int)),
        decreases bytes.len() - i,
    {
        assert(bytes@.take(i + 1).drop_last() =~= bytes@.take(i as int));
        hash ^= bytes[i] as u32;
        hash = hash.wrapping_mul(0x01000193);
        i += 1;
    }
    assert(bytes@.take(bytes@.len() as int) =~= bytes@);
    hash
}

// ---------------------------------------------------------------------------
// Colours
// ---------------------------------------------------------------------------
/// The fallback palette, indexed by community.
pub open spec fn palette() -> Seq<u32> {
    seq![
        0x3b82f6u32,
        0x10b981u32,
        0x8b5cf6u32,
        0xf59e0bu32,
        0xec4899u32,
        0x06b6d4u32,
        0x14b8a6u32,
        0x6366f1u32,
        0xe11d48u32,
        0x84cc16u32,
    ]
}

fn palette_color(community: u32) -> (r: u32)
    ensures
        r == palette()[(community % 10) as int],
{
    let p: [u32; 10] = [
        0x3b82f6, 0x10b981, 0x8b5cf6, 0xf59e0b, 0xec4899, 0x06b6d4, 0x14b8a6, 0x6366f1, 0xe11d48,
        0x84cc16,
    ];
    let i = (community % 10) as usize;
    assert(p@ == palette());
    p[i]
}

/// The colour of an entity type (matched after lower-casing), or the community's palette
/// colour for an unknown type.
pub open spec fn spec_color_for_type(lower: Seq<char>, community: u32) -> u32 {
    if lower == "docnode"@ || lower == "doc"@ || lower == "document"@ || lower == "markdown"@ {
        0x3b82f6
    } else if lower == "function"@ || lower == "method"@ {
        0x10b981
    } else if lower == "struct"@ || lower == "class"@ {
        0x8b5cf6
    } else if lower == "trait"@ || lower == "interface"@ {
        0xec4899
    } else if lower == "enum"@ || lower == "typealias"@ || lower == "type"@ {
        0xf59e0b
    } else if lower == "module"@ || lower == "file"@ || lower == "package"@ {
        0x06b6d4
    } else if lower == "constant"@ || lower == "macro"@ {
        0x14b8a6
    } else {
        palette()[(community % 10) as int]
    }
}

/// The colour of an entity type, with `l` its lower-cased name: each listed type has its
/// own fixed colour, the same for every community `c` and `c2`; any other type takes the
/// palette colour of its community.
pub proof fn law_entity_colors(l: Seq<char>, c: u32, c2: u32)
    ensures
        (l == "docnode"@ || l == "doc"@ || l == "document"@ || l == "markdown"@) ==> spec_color_for_type(l, c) == 0x3b82f6u32,
        (l == "function"@ || l == "method"@) ==> spec_color_for_type(l, c) == 0x10b981u32,
        (l == "struct"@ || l == "class"@) ==> spec_color_for_type(l, c) == 0x8b5cf6u32,
        (l == "trait"@ || l == "interface"@) ==> spec_color_for_type(l, c) == 0xec4899u32,
        (l == "enum"@ || l == "typealias"@ || l == "type"@) ==> spec_color_for_type(l, c) == 0xf59e0bu32,
        (l == "module"@ || l == "file"@ || l == "package"@) ==> spec_color_for_type(l, c) == 0x06b6d4u32,
        (l == "constant"@ || l == "macro"@) ==> spec_color_for_type(l, c) == 0x14b8a6u32,
        (l != "docnode"@ && l != "doc"@ && l != "document"@ && l != "markdown"@ && l != "function"@ && l != "method"@ && l != "struct"@ && l != "class"@ && l != "trait"@ && l != "interface"@ && l != "enum"@ && l != "typealias"@ && l != "type"@ && l != "module"@ && l != "file"@ && l != "package"@ && l != "constant"@ && l != "macro"@) ==> spec_color_for_type(l, c) == seq![0x3b82f6u32, 0x10b981u32, 0x8b5cf6u32, 0xf59e0bu32, 0xec4899u32, 0x06b6d4u32, 0x14b8a6u32, 0x6366f1u32, 0xe11d48u32, 0x84cc16u32][(c % 10) as int],
        !(l != "docnode"@ && l != "doc"@ && l != "document"@ && l != "markdown"@ && l != "function"@ && l != "method"@ && l != "struct"@ && l != "class"@ && l != "trait"@ && l != "interface"@ && l != "enum"@ && l != "typealias"@ && l != "type"@ && l != "module"@ && l != "file"@ && l != "package"@ && l != "constant"@ && l != "macro"@) ==> spec_color_for_type(l, c) == spec_color_for_type(l, c2),
{
    reveal_strlit("docnode");
    reveal_strlit("doc");
    reveal_strlit("document");
    reveal_strlit("markdown");
    reveal_strlit("function");
    reveal_strlit("method");
    reveal_strlit("struct");
    reveal_strlit("class");
    reveal_strlit("trait");
    reveal_strlit("interface");
    reveal_strlit("enum");
    reveal_strlit("typealias");
    reveal_strlit("type");
    reveal_strlit("module");
    reveal_strlit("file");
    reveal_strlit("package");
    reveal_strlit("constant");
    reveal_strlit("macro");
    if l == "docnode"@ {
    }
    if l == "doc"@ {
        assert("doc"@.len() != "docnode"@.len());
    }
    if l == "document"@ {
        assert("document"@.len() != "docnode"@.len());
        assert("document"@.len() != "doc"@.len());
    }
    if l == "markdown"@ {
        assert("markdown"@.len() != "docnode"@.len());
        assert("markdown"@.len() != "doc"@.len());
        assert("markdown"@[0] != "document"@[0]);
    }
    if l == "function"@ {
        assert("function"@.len() != "docnode"@.len());
        assert("function"@.len() != "doc"@.len());
        assert("function"@[0] != "document"@[0]);
        assert("function"@[0] != "markdown"@[0]);
    }
    if l == "method"@ {
        assert("method"@.len() != "docnode"@.len());
        assert("method"@.len() != "doc"@.len());
        assert("method"@.len() != "document"@.len());
        assert("method"@.len() != "markdown"@.len());
        assert("method"@.len() != "function"@.len());
    }
    if l == "struct"@ {
        assert("struct"@.len() != "docnode"@.len());
        assert("struct"@.len() != "doc"@.len());
        assert("struct"@.len() != "document"@.len());
        assert("struct"@.len() != "markdown"@.len());
        assert("struct"@.len() != "function"@.len());
        assert("struct"@[0] != "method"@[0]);
    }
    if l == "class"@ {
        assert("class"@.len() != "docnode"@.len());
        assert("class"@.len() != "doc"@.len());
        assert("class"@.len() != "document"@.len());
        assert("class"@.len() != "markdown"@.len());
        assert("class"@.len() != "function"@.len());
        assert("class"@.len() != "method"@.len());
        assert("class"@.len() != "struct"@.len());
    }
    if l == "trait"@ {
        assert("trait"@.len() != "docnode"@.len());
        assert("trait"@.len() != "doc"@.len());
        assert("trait"@.len() != "document"@.len());
        assert("trait"@.len() != "markdown"@.len());
        assert("trait"@.len() != "function"@.len());
        assert("trait"@.len() != "method"@.len());
        assert("trait"@.len() != "struct"@.len());
        assert("trait"@[0] != "class"@[0]);
    }
    if l == "interface"@ {
        assert("interface"@.len() != "docnode"@.len());
        assert("interface"@.len() != "doc"@.len());
        assert("interface"@.len() != "document"@.len());
        assert("interface"@.len() != "markdown"@.len());
        assert("interface"@.len() != "function"@.len());
        assert("interface"@.len() != "method"@.len());
        assert("interface"@.len() != "struct"@.len());
        assert("interface"@.len() != "class"@.len());
        assert("interface"@.len() != "trait"@.len());
    }
    if l == "enum"@ {
        assert("enum"@.len() != "docnode"@.len());
        assert("enum"@.len() != "doc"@.len());
        assert("enum"@.len() != "document"@.len());
        assert("enum"@.len() != "markdown"@.len());
        assert("enum"@.len() != "function"@.len());
        assert("enum"@.len() != "method"@.len());
        assert("enum"@.len() != "struct"@.len());
        assert("enum"@.len() != "class"@.len());
        assert("enum"@.len() != "trait"@.len());
        assert("enum"@.len() != "interface"@.len());
    }
    if l == "typealias"@ {
        assert("typealias"@.len() != "docnode"@.len());
        assert("typealias"@.len() != "doc"@.len());
        assert("typealias"@.len() != "document"@.len());
        assert("typealias"@.len() != "markdown"@.len());
        assert("typealias"@.len() != "function"@.len());
        assert("typealias"@.len() != "method"@.len());
        assert("typealias"@.len() != "struct"@.len());
        assert("typealias"@.len() != "class"@.len());
        assert("typealias"@.len() != "trait"@.len());
        assert("typealias"@[0] != "interface"@[0]);
        assert("typealias"@.len() != "enum"@.len());
    }
    if l == "type"@ {
        assert("type"@.len() != "docnode"@.len());
        assert("type"@.len() != "doc"@.len());
        assert("type"@.len() != "document"@.len());
        assert("type"@.len() != "markdown"@.len());
        assert("type"@.len() != "function"@.len());
        assert("type"@.len() != "method"@.len());
        assert("type"@.len() != "struct"@.len());
        assert("type"@.len() != "class"@.len());
        assert("type"@.len() != "trait"@.len());
        assert("type"@.len() != "interface"@.len());
        assert("type"@[0] != "enum"@[0]);
        assert("type"@.len() != "typealias"@.len());
    }
    if l == "module"@ {
        assert("module"@.len() != "docnode"@.len());
        assert("module"@.len() != "doc"@.len());
        assert("module"@.len() != "document"@.len());
        assert("module"@.len() != "markdown"@.len());
        assert("module"@.len() != "function"@.len());
        assert("module"@[1] != "method"@[1]);
        assert("module"@[0] != "struct"@[0]);
        assert("module"@.len() != "class"@.len());
        assert("module"@.len() != "trait"@.len());
        assert("module"@.len() != "interface"@.len());
        assert("module"@.len() != "enum"@.len());
        assert("module"@.len() != "typealias"@.len());
        assert("module"@.len() != "type"@.len());
    }
    if l == "file"@ {
        assert("file"@.len() != "docnode"@.len());
        assert("file"@.len() != "doc"@.len());
        assert("file"@.len() != "document"@.len());
        assert("file"@.len() != "markdown"@.len());
        assert("file"@.len() != "function"@.len());
        assert("file"@.len() != "method"@.len());
        assert("file"@.len() != "struct"@.len());
        assert("file"@.len() != "class"@.len());
        assert("file"@.len() != "trait"@.len());
        assert("file"@.len() != "interface"@.len());
        assert("file"@[0] != "enum"@[0]);
        assert("file"@.len() != "typealias"@.len());
        assert("file"@[0] != "type"@[0]);
        assert("file"@.len() != "module"@.len());
    }
    if l == "package"@ {
        assert("package"@[0] != "docnode"@[0]);
        assert("package"@.len() != "doc"@.len());
        assert("package"@.len() != "document"@.len());
        assert("package"@.len() != "markdown"@.len());
        assert("package"@.len() != "function"@.len());
        assert("package"@.len() != "method"@.len());
        assert("package"@.len() != "struct"@.len());
        assert("package"@.len() != "class"@.len());
        assert("package"@.len() != "trait"@.len());
        assert("package"@.len() != "interface"@.len());
        assert("package"@.len() != "enum"@.len());
        assert("package"@.len() != "typealias"@.len());
        assert("package"@.len() != "type"@.len());
        assert("package"@.len() != "module"@.len());
        assert("package"@.len() != "file"@.len());
    }
    if l == "constant"@ {
        assert("constant"@.len() != "docnode"@.len());
        assert("constant"@.len() != "doc"@.len());
        assert("constant"@[0] != "document"@[0]);
        assert("constant"@[0] != "markdown"@[0]);
        assert("constant"@[0] != "function"@[0]);
        assert("constant"@.len() != "method"@.len());
        assert("constant"@.len() != "struct"@.len());
        assert("constant"@.len() != "class"@.len());
        assert("constant"@.len() != "trait"@.len());
        assert("constant"@.len() != "interface"@.len());
        assert("constant"@.len() != "enum"@.len());
        assert("constant"@.len() != "typealias"@.len());
        assert("constant"@.len() != "type"@.len());
        assert("constant"@.len() != "module"@.len());
        assert("constant"@.len() != "file"@.len());
        assert("constant"@.len() != "package"@.len());
    }
    if l == "macro"@ {
        assert("macro"@.len() != "docnode"@.len());
        assert("macro"@.len() != "doc"@.len());
        assert("macro"@.len() != "document"@.len());
        assert("macro"@.len() != "markdown"@.len());
        assert("macro"@.len() != "function"@.len());
        assert("macro"@.len() != "method"@.len());
        assert("macro"@.len() != "struct"@.len());
        assert("macro"@[0] != "class"@[0]);
        assert("macro"@[0] != "trait"@[0]);
        assert("macro"@.len() != "interface"@.len());
        assert("macro"@.len() != "enum"@.len());
        assert("macro"@.len() != "typealias"@.len());
        assert("macro"@.len() != "type"@.len());
        assert("macro"@.len() != "module"@.len());
        assert("macro"@.len() != "file"@.len());
        assert("macro"@.len() != "package"@.len());
        assert("macro"@.len() != "constant"@.len());
    }
}

/// Map entity type name to a distinct cyber-aesthetic neon color.
pub fn color_for_entity_type(entity_type: &str, community: u32) -> (r: u32)
    ensures
        r == spec_color_for_type(unicode_lowercase(entity_type@), community),
{
    let lower = str_to_lowercase(entity_type);
    let l = lower.as_str();
    if str_eq(l, "docnode") || str_eq(l, "doc") || str_eq(l, "document") || str_eq(l, "markdown") {
        0x3b82f6
    } else if str_eq(l, "function") || str_eq(l, "method") {
        0x10b981
    } else if str_eq(l, "struct") || str_eq(l, "class") {
        0x8b5cf6
    } else if str_eq(l, "trait") || str_eq(l, "interface") {
        0xec4899
    } else if str_eq(l, "enum") || str_eq(l, "typealias") || str_eq(l, "type") {
        0xf59e0b
    } else if str_eq(l, "module") || str_eq(l, "file") || str_eq(l, "package") {
        0x06b6d4
    } else if str_eq(l, "constant") || str_eq(l, "macro") {
        0x14b8a6
    } else {
        palette_color(community)
    }
}

/// The pieces of `s` between occurrences of `sep` (`str::split` on a character).
fn split_pieces(s: &[char], sep: char) -> (r: Vec<Vec<char>>)
    ensures
        r@.map_values(|x: Vec<char>| x@) == split_char(s@, sep),
{
    let mut pieces: Vec<Vec<char>> = Vec::new();
    let mut cur: Vec<char> = Vec::new();
    let mut i: usize = 0;
    assert(s@.take(0) =~= Seq::<char>::empty());
    assert(split_char(s@.take(0), sep).drop_last() =~= Seq::<Seq<char>>::empty());
    assert(pieces@.map_values(|x: Vec<char>| x@) =~= Seq::<Seq<char>>::empty());
    while i < s.len()
        invariant
            i <= s@.len(),
            split_char(s@.take(i as int), sep).len() >= 1,
            cur@ == split_char(s@.take(i as int), sep).last(),
            pieces@.map_values(|x: Vec<char>| x@) == split_char(s@.take(i as int), sep).drop_last(),
        decreases s.len() - i,
    {
        let c = s[i];
        let ghost sp = split_char(s@.take(i as int), sep);
        assert(s@.take(i + 1).drop_last() =~= s@.take(i as int));
        if c == sep {
            let ghost before = pieces@.map_values(|x: Vec<char>| x@);
            let ghost last = cur@;
            pieces.push(cur);
            cur = Vec::new();
            assert(pieces@.map_values(|x: Vec<char>| x@) =~= before.push(last));
            assert(sp.push(Seq::<char>::empty()).drop_last() =~= sp);
            assert(sp =~= sp.drop_last().push(sp.last()));
        } else {
            cur.push(c);
            assert(sp.update(sp.len() - 1, sp.last().push(c)).drop_last() =~= sp.drop_last());
        }
        i += 1;
    }
    assert(s@.take(s@.len() as int) =~= s@);
    let ghost sp = split_char(s@, sep);
    let ghost before = pieces@.map_values(|x: Vec<char>| x@);
    pieces.push(cur);
    assert(sp =~= sp.drop_last().push(sp.last()));
    assert(pieces@.map_values(|x: Vec<char>| x@) =~= before.push(sp.last()));
    pieces
}

/// The last piece of `str::split` on a string separator: pieces are cut left to right.
#[verifier::opaque]
pub open spec fn split_str_last(s: Seq<char>, sep: Seq<char>) -> Seq<char>
    decreases s.len(),
{
    match first_occurrence(s, sep) {
        Some(i) => if sep.len() > 0 {
            proof {
                crate::text::lemma_first_occurrence(s, sep);
            }
            split_str_last(s.skip(i + sep.len() as int), sep)
        } else {
            s
        },
        None => s,
    }
}

pub proof fn lemma_split_str_last_step(s: Seq<char>, sep: Seq<char>)
    requires
        sep.len() > 0,
    ensures
        match first_occurrence(s, sep) {
            Some(i) => 0 <= i && i + sep.len() <= s.len() && split_str_last(s, sep) == split_str_last(
                s.skip(i + sep.len() as int),
                sep,
            ),
            None => split_str_last(s, sep) == s,
        },
{
    reveal(split_str_last);
    crate::text::lemma_first_occurrence(s, sep);
}

/// The last piece of `s` split on `sep`.
fn split_last_on(s: &[char], sep: &[char]) -> (r: Vec<char>)
    requires
        sep@.len() > 0,
    ensures
        r@ == split_str_last(s@, sep@),
{
    let mut cur: Vec<char> = crate::text::chars_slice(s, 0, s.len());
    assert(cur@ =~= s@);
    loop
        invariant
            sep@.len() > 0,
            split_str_last(s@, sep@) == split_str_last(cur@, sep@),
        decreases cur@.len(),
    {
        proof {
            lemma_split_str_last_step(cur@, sep@);
        }
        match crate::text::chars_find(cur.as_slice(), sep) {
            Some(i) => {
                assert(first_occurrence(cur@, sep@) == Some(i as int));
                assert(i + sep@.len() <= cur@.len());
                assert(i + sep.len() <= cur.len());
                let next = crate::text::chars_slice(cur.as_slice(), i + sep.len(), cur.len());
                assert(next@ =~= cur@.skip(i + sep@.len()));
                cur = next;
            },
            None => {
                return cur;
            },
        }
    }
}

/// The name for the string-to-string mapping that a `HashMap<String, String>` holds.
pub uninterp spec fn string_map_contents(m: std::collections::HashMap<String, String>) -> Map<
    Seq<char>,
    Seq<char>,
>;

/// Calls `HashMap::get` and clones the value: the value bound to `key`, if any.
#[verifier::external_body]
pub(crate) fn string_map_get(m: &std::collections::HashMap<String, String>, key: &str) -> (r: Option<String>)
    ensures
        match r {
            Some(v) => string_map_contents(*m).dom().contains(key@) && string_map_contents(*m)[key@] == v@,
            None => !string_map_contents(*m).dom().contains(key@),
        },
{
    m.get(key).cloned()
}

/// The looked-up type and its colour.
pub open spec fn typed(t: Seq<char>, community: u32) -> (Seq<char>, u32) {
    (t, spec_color_for_type(unicode_lowercase(t), community))
}

/// Colouring by path shape when no type is known.
pub open spec fn spec_heuristic_type(path: Seq<char>, community: u32) -> (Seq<char>, u32) {
    if seq_ends_with(path, ".md"@) || seq_contains(path, "docs/"@) || seq_contains(path, "adr/"@) {
        ("DocNode"@, 0x3b82f6)
    } else if seq_ends_with(path, ".rs"@) || seq_ends_with(path, ".ts"@) || seq_ends_with(path, ".js"@)
        || seq_ends_with(path, ".py"@) || seq_ends_with(path, ".go"@) {
        ("Module"@, 0x06b6d4)
    } else if seq_contains(path, "::fn "@) || seq_contains(path, "() "@) || seq_ends_with(path, ".rs#"@) {
        ("Function"@, 0x10b981)
    } else if seq_contains(path, "struct "@) || seq_contains(path, "class "@) || seq_contains(path, "interface "@) {
        ("Struct"@, 0x8b5cf6)
    } else {
        ("CodeSymbol"@, palette()[(community % 10) as int])
    }
}

/// Type and colour of a node: the type table is consulted for the path itself, then for the
/// part after the first `#`, then for the part after the last `::`, then for the file name;
/// without a hit the path's shape decides.
pub open spec fn spec_assign(path: Seq<char>, community: u32, types: Option<Map<Seq<char>, Seq<char>>>) -> (Seq<char>, u32) {
    match types {
        Some(t) => {
            let clean = normalize_slashes(path);
            let hashes = split_char(clean, '#');
            let colons = split_str_last(clean, "::"@);
            let base = split_char(clean, '/').last();
            if t.dom().contains(path) {
                typed(t[path], community)
            } else if hashes.len() > 1 && t.dom().contains(hashes[1]) {
                typed(t[hashes[1]], community)
            } else if t.dom().contains(colons) {
                typed(t[colons], community)
            } else if t.dom().contains(base) {
                typed(t[base], community)
            } else {
                spec_heuristic_type(path, community)
            }
        },
        None => spec_heuristic_type(path, community),
    }
}

fn lit(s: &str) -> (r: Vec<char>)
    ensures
        r@ == s@,
{
    str_chars(s)
}

fn heuristic_type(path: &[char], community: u32) -> (r: (String, u32))
    ensures
        (r.0@, r.1) == spec_heuristic_type(path@, community),
{
    if chars_ends_with(path, lit(".md").as_slice()) || chars_contains(path, lit("docs/").as_slice())
        || chars_contains(path, lit("adr/").as_slice()) {
        ("DocNode".to_string(), 0x3b82f6)
    } else if chars_ends_with(path, lit(".rs").as_slice()) || chars_ends_with(path, lit(".ts").as_slice())
        || chars_ends_with(path, lit(".js").as_slice()) || chars_ends_with(path, lit(".py").as_slice())
        || chars_ends_with(path, lit(".go").as_slice()) {
        ("Module".to_string(), 0x06b6d4)
    } else if chars_contains(path, lit("::fn ").as_slice()) || chars_contains(path, lit("() ").as_slice())
        || chars_ends_with(path, lit(".rs#").as_slice()) {
        ("Function".to_string(), 0x10b981)
    } else if chars_contains(path, lit("struct ").as_slice()) || chars_contains(path, lit("class ").as_slice())
        || chars_contains(path, lit("interface ").as_slice()) {
        ("Struct".to_string(), 0x8b5cf6)
    } else {
        ("CodeSymbol".to_string(), palette_color(community))
    }
}

fn typed_exec(t: String, community: u32) -> (r: (String, u32))
    ensures
        (r.0@, r.1) == typed(t@, community),
{
    let c = color_for_entity_type(t.as_str(), community);
    (t, c)
}

/// Assign distinct aesthetic neon colors based on AST entity type, path heuristics, and community.
pub fn assign_color_and_type(
    path: &str,
    community: u32,
    ast_types: Option<&std::collections::HashMap<String, String>>,
) -> (r: (String, u32))
    ensures
        (r.0@, r.1) == spec_assign(
            path@,
            community,
            match ast_types {
                Some(m) => Some(string_map_contents(*m)),
                None => None,
            },
        ),
{
    let chars = str_chars(path);
    if let Some(types) = ast_types {
        let ghost t = string_map_contents(*types);
        if let Some(sym_type) = string_map_get(types, path) {
            return typed_exec(sym_type, community);
        }
        let mut clean: Vec<char> = Vec::new();
        let mut i: usize = 0;
        while i < chars.len()
            invariant
                i <= chars@.len(),
                clean@ == normalize_slashes(chars@.take(i as int)),
            decreases chars.len() - i,
        {
            clean.push(if chars[i] == '\\' { '/' } else { chars[i] });
            i += 1;
            assert(clean@ =~= normalize_slashes(chars@.take(i as int)));
        }
        assert(chars@.take(chars@.len() as int) =~= chars@);
        let hashes = split_pieces(clean.as_slice(), '#');
        if hashes.len() > 1 {
            let sub = string_from_chars(hashes[1].as_slice());
            if let Some(sym_type) = string_map_get(types, sub.as_str()) {
                return typed_exec(sym_type, community);
            }
        }
        let sep = str_chars("::");
        proof {
            reveal_strlit("::");
        }
        let colons = string_from_chars(split_last_on(clean.as_slice(), sep.as_slice()).as_slice());
        if let Some(sym_type) = string_map_get(types, colons.as_str()) {
            return typed_exec(sym_type, community);
        }
        let slashes = split_pieces(clean.as_slice(), '/');
        proof {
            lemma_split_char_nonempty(clean@, '/');
        }
        let base = string_from_chars(slashes[slashes.len() - 1].as_slice());
        if let Some(sym_type) = string_map_get(types, base.as_str()) {
            return typed_exec(sym_type, community);
        }
    }
    heuristic_type(chars.as_slice(), community)
}

/// The distinct items among the first `n`, in order of first appearance.
pub open spec fn distinct_in_order<T>(items: Seq<T>, n: nat) -> Seq<T>
    decreases n,
{
    if n == 0 {
        Seq::empty()
    } else {
        let d = distinct_in_order(items, (n - 1) as nat);
        if d.contains(items[n - 1]) {
            d
        } else {
            d.push(items[n - 1])
        }
    }
}

/// `keys` lists the distinct items in order of first appearance and `slots` gives, for each
/// item, its position in `keys`.
pub open spec fn grouped<T>(items: Seq<T>, keys: Seq<T>, slots: Seq<usize>) -> bool {
    &&& keys == distinct_in_order(items, items.len())
    &&& slots.len() == items.len()
    &&& forall|i: int| 0 <= i < items.len() ==> (#[trigger] slots[i]) < keys.len() && keys[slots[i] as int] == items[i]
}

/// The directory cluster keys of paths.
pub open spec fn directory_keys(paths: Seq<String>) -> Seq<Seq<char>> {
    paths.map_values(|p: String| spec_directory_key(p@))
}

/// Groups paths by directory cluster key: the distinct keys in order of first appearance,
/// and each path's position among them.
pub fn directory_clusters(paths: &[String]) -> (r: (Vec<String>, Vec<usize>))
    ensures
        grouped(directory_keys(paths@), r.0@.map_values(|k: String| k@), r.1@),
{
    let ghost items = directory_keys(paths@);
    let mut keys: Vec<String> = Vec::new();
    let mut slots: Vec<usize> = Vec::new();
    let mut i: usize = 0;
    while i < paths.len()
        invariant
            i <= paths.len(),
            items == directory_keys(paths@),
            keys@.map_values(|k: String| k@) == distinct_in_order(items, i as nat),
            slots.len() == i,
            forall|j: int| 0 <= j < i ==> (#[trigger] slots[j]) < keys.len() && keys[slots[j] as int]@ == items[j],
        decreases paths.len() - i,
    {
        let key = extract_directory_key(paths[i].as_str());
        let ghost kv = keys@.map_values(|k: String| k@);
        let mut j: usize = 0;
        while j < keys.len() && !crate::text::string_eq(&keys[j], &key)
            invariant
                j <= keys.len(),
                forall|m: int| 0 <= m < j ==> keys[m]@ != key@,
            decreases keys.len() - j,
        {
            j += 1;
        }
        proof {
            assert(items[i as int] == key@);
        }
        if j < keys.len() {
            proof {
                assert(kv[j as int] == key@);
                assert(kv.contains(key@));
            }
            slots.push(j);
        } else {
            proof {
                assert forall|m: int| 0 <= m < kv.len() implies kv[m] != key@ by {
                    assert(kv[m] == keys[m]@);
                }
            }
            let ghost k0 = keys@;
            keys.push(key);
            slots.push(j);
            proof {
                assert(keys@.map_values(|k: String| k@) =~= kv.push(items[i as int]));
                assert forall|m: int| 0 <= m < i implies (#[trigger] slots[m]) < keys.len() && keys[slots[m] as int]@ == items[m] by {
                    assert(keys[slots[m] as int] == k0[slots[m] as int]);
                }
            }
        }
        i += 1;
        proof {
            assert forall|m: int| 0 <= m < i implies (#[trigger] slots[m]) < keys.len() && keys[slots[m] as int]@ == items[m] by {}
        }
    }
    proof {
        let kv = keys@.map_values(|k: String| k@);
        assert forall|m: int| 0 <= m < items.len() implies (#[trigger] slots@[m]) < kv.len() && kv[slots@[m] as int] == items[m] by {
            assert(kv[slots@[m] as int] == keys[slots[m] as int]@);
        }
    }
    (keys, slots)
}

/// Groups nodes by community: the distinct communities in order of first appearance, and
/// each node's position among them.
pub fn community_clusters(communities: &[u32]) -> (r: (Vec<u32>, Vec<usize>))
    ensures
        grouped(communities@, r.0@, r.1@),
{
    let mut keys: Vec<u32> = Vec::new();
    let mut slots: Vec<usize> = Vec::new();
    let mut i: usize = 0;
    while i < communities.len()
        invariant
            i <= communities.len(),
            keys@ == distinct_in_order(communities@, i as nat),
            slots.len() == i,
            forall|j: int| 0 <= j < i ==> (#[trigger] slots[j]) < keys.len() && keys[slots[j] as int] == communities[j],
        decreases communities.len() - i,
    {
        let c = communities[i];
        let mut j: usize = 0;
        while j < keys.len() && keys[j] != c
            invariant
                j <= keys.len(),
                forall|m: int| 0 <= m < j ==> keys[m] != c,
            decreases keys.len() - j,
        {
            j += 1;
        }
        if j < keys.len() {
            proof {
                assert(keys@.contains(c));
            }
            slots.push(j);
        } else {
            let ghost k0 = keys@;
            keys.push(c);
            slots.push(j);
            proof {
                assert forall|m: int| 0 <= m < i implies (#[trigger] slots[m]) < keys.len() && keys[slots[m] as int] == communities[m] by {
                    assert(keys[slots[m] as int] == k0[slots[m] as int]);
                }
            }
        }
        i += 1;
    }
    (keys, slots)
}

/// The distinct items in order of first appearance hold each of those items exactly once.
pub proof fn lemma_distinct_in_order<T>(items: Seq<T>, n: nat)
    requires
        n <= items.len(),
    ensures
        forall|a: int, b: int| 0 <= a < b < distinct_in_order(items, n).len() ==> distinct_in_order(items, n)[a] != distinct_in_order(items, n)[b],
        forall|i: int| 0 <= i < n ==> distinct_in_order(items, n).contains(#[trigger] items[i]),
        forall|k: int| 0 <= k < distinct_in_order(items, n).len() ==> exists|i: int| 0 <= i < n && items[i] == #[trigger] distinct_in_order(items, n)[k],
    decreases n,
{
    if n > 0 {
        lemma_distinct_in_order(items, (n - 1) as nat);
        let d = distinct_in_order(items, (n - 1) as nat);
        if !d.contains(items[n - 1]) {
            let e = d.push(items[n - 1]);
            assert forall|a: int, b: int| 0 <= a < b < e.len() implies e[a] != e[b] by {
                if b == d.len() {
                    assert(d.contains(d[a]));
                }
            }
            assert forall|i: int| 0 <= i < n implies e.contains(#[trigger] items[i]) by {
                if i < n - 1 {
                    let k = choose|k: int| 0 <= k < d.len() && d[k] == items[i];
                    assert(e[k] == items[i]);
                } else {
                    assert(e[d.len() as int] == items[i]);
                }
            }
            assert forall|k: int| 0 <= k < e.len() implies exists|i: int| 0 <= i < n && items[i] == #[trigger] e[k] by {
                if k < d.len() {
                    assert(e[k] == d[k]);
                    let i = choose|i: int| 0 <= i < n - 1 && items[i] == d[k];
                } else {
                    assert(items[n - 1] == e[k]);
                }
            }
        } else {
            assert forall|i: int| 0 <= i < n implies d.contains(#[trigger] items[i]) by {}
            assert forall|k: int| 0 <= k < d.len() implies exists|i: int| 0 <= i < n && items[i] == #[trigger] d[k] by {
                let i = choose|i: int| 0 <= i < n - 1 && items[i] == d[k];
            }
        }
    }
}

} // verus!
