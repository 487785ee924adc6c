use ctxvault::calls::SubNode;
use ctxvault::chunker::{chunk_syntax_tree, CodeChunker, SyntaxTree, TreeNode};
use ctxvault::languages::SupportedLanguage;
use ctxvault::symbols::{CodeSymbolType, DeclNode, DocContext};

fn sub(kind: &str, text: &str) -> SubNode {
    SubNode { kind: kind.to_string(), text: text.to_string(), fields: vec![] }
}

fn node(kind: &str, text: &str, name: Option<&str>, before: Vec<SubNode>, rows: (usize, usize), children: Vec<usize>) -> TreeNode {
    let fields = match name {
        Some(n) => vec![("name".to_string(), sub("identifier", n))],
        None => vec![],
    };
    TreeNode {
        decl: DeclNode { kind: kind.to_string(), text: text.to_string(), fields, children: vec![] },
        doc: DocContext { body_first: None, before, parent_kind: None, parent_before: vec![], children: vec![] },
        start_byte: 0,
        end_byte: text.len(),
        start_row: rows.0,
        end_row: rows.1,
        children,
    }
}

#[test]
fn rust_members_are_scoped_under_their_impl() {
    let method_text = "pub fn search_hybrid(&self, query: &str) -> Vec<String> {\n        vec![]\n    }";
    let mut imp = node("impl_item", "impl SearchEngine {\n}", None, vec![], (6, 12), vec![3]);
    imp.decl.fields = vec![("type".to_string(), sub("type_identifier", "SearchEngine"))];
    let tree = SyntaxTree {
        nodes: vec![
            node("source_file", "...", None, vec![], (0, 13), vec![1, 2]),
            node("struct_item", "pub struct SearchEngine {\n    pub name: String,\n}", Some("SearchEngine"), vec![sub("line_comment", "/// High performance search engine.")], (2, 4), vec![]),
            imp,
            node("function_item", method_text, Some("search_hybrid"), vec![sub("line_comment", "/// Execute hybrid search across all modalities.")], (8, 12), vec![]),
        ],
    };
    let res = chunk_syntax_tree(&tree, "src/search/engine.rs", SupportedLanguage::Rust);
    assert!(res.symbols.iter().any(|s| s.name == "SearchEngine" && s.symbol_type == CodeSymbolType::Struct));
    assert!(res.symbols.iter().any(|s| s.name == "search_hybrid" && s.symbol_type == CodeSymbolType::Function));
    let chunk = res.chunks.iter().find(|c| c.scope_path == "SearchEngine > search_hybrid").expect("method chunk");
    assert!(chunk.text.contains("// Scope: SearchEngine > search_hybrid"));
    assert!(chunk.text.contains("// Language: rust"));
    assert!(chunk.text.contains("Execute hybrid search"));
    assert_eq!(chunk.start_line, 9);
    assert_eq!(res.chunks.len(), 3);
    assert_eq!(res.symbols.len(), res.chunks.len());
    for (s, c) in res.symbols.iter().zip(res.chunks.iter()) {
        assert_eq!(s.scope_path, c.scope_path);
        assert_eq!((s.start_line, s.end_line), (c.start_line, c.end_line));
    }
    for (i, c) in res.chunks.iter().enumerate() {
        assert_eq!(c.chunk_index, i);
        assert_eq!(c.doc_path, "src/search/engine.rs");
    }
}

#[test]
fn python_methods_inside_classes() {
    let tree = SyntaxTree {
        nodes: vec![
            node("module", "", None, vec![], (0, 6), vec![1]),
            node("class_definition", "class DataProcessor:", Some("DataProcessor"), vec![], (1, 6), vec![2]),
            node("function_definition", "def process_batch(self, items):", Some("process_batch"), vec![], (4, 6), vec![]),
        ],
    };
    let res = chunk_syntax_tree(&tree, "processor.py", SupportedLanguage::Python);
    assert!(res.symbols.iter().any(|s| s.name == "DataProcessor" && s.symbol_type == CodeSymbolType::Class));
    assert!(res.symbols.iter().any(|s| s.name == "process_batch" && s.symbol_type == CodeSymbolType::Method));
    assert!(res.chunks.iter().any(|c| c.scope_path == "DataProcessor > process_batch" && c.text.starts_with("# Scope:")));
    let empty = chunk_syntax_tree(&SyntaxTree { nodes: vec![] }, "x.py", SupportedLanguage::Python);
    assert!(empty.chunks.is_empty() && empty.symbols.is_empty());
}

#[test]
fn parse_and_chunk_uses_the_language_of_the_path() {
    let tree = SyntaxTree {
        nodes: vec![
            node("module", "...", None, vec![], (0, 3), vec![1]),
            node("function_definition", "def greet():\n    pass", Some("greet"), vec![], (1, 2), vec![]),
        ],
    };
    assert!(CodeChunker::parse_and_chunk("notes/readme.md", &tree).is_none());
    let res = CodeChunker::parse_and_chunk("app/hello.py", &tree).unwrap();
    assert_eq!(res.symbols.len(), 1);
    assert_eq!(res.symbols[0].name, "greet");
    assert_eq!(res.symbols[0].language, "python");
    assert_eq!(res.chunks[0].doc_path, "app/hello.py");
}
