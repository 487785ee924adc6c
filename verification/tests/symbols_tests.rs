use ctxvault::calls::SubNode;
use ctxvault::languages::SupportedLanguage;
use ctxvault::symbols::{
    build_chunk_text, classify_node, current_scope_of, extract_docstring, full_scope_of, is_container_kind, CodeSymbolType, DeclNode,
    DocContext,
};

fn sub(kind: &str, text: &str, fields: &[(&str, &str)]) -> SubNode {
    SubNode {
        kind: kind.to_string(),
        text: text.to_string(),
        fields: fields.iter().map(|(n, t)| (n.to_string(), t.to_string())).collect(),
    }
}

fn decl(kind: &str, text: &str, fields: Vec<(&str, SubNode)>, children: Vec<SubNode>) -> DeclNode {
    DeclNode {
        kind: kind.to_string(),
        text: text.to_string(),
        fields: fields.into_iter().map(|(n, s)| (n.to_string(), s)).collect(),
        children,
    }
}

fn classify(l: SupportedLanguage, n: &DeclNode, in_scope: bool) -> Option<(CodeSymbolType, String, String)> {
    classify_node(l, n, in_scope)
}

#[test]
fn rust_struct_and_function() {
    let s = decl(
        "struct_item",
        "pub struct SearchEngine {\n    pub name: String,\n}",
        vec![("name", sub("type_identifier", "SearchEngine", &[]))],
        vec![],
    );
    assert_eq!(
        classify(SupportedLanguage::Rust, &s, false),
        Some((CodeSymbolType::Struct, "SearchEngine".to_string(), "pub struct SearchEngine".to_string()))
    );
    let f = decl(
        "function_item",
        "pub fn search_hybrid(&self, query: &str) -> Vec<String> {\r\n    x\n}",
        vec![],
        vec![sub("visibility_modifier", "pub", &[]), sub("identifier", "search_hybrid", &[])],
    );
    assert_eq!(
        classify(SupportedLanguage::Rust, &f, true),
        Some((
            CodeSymbolType::Function,
            "search_hybrid".to_string(),
            "pub fn search_hybrid(&self, query: &str) -> Vec<String>".to_string()
        ))
    );
    let nameless = decl("function_item", "fn", vec![], vec![]);
    assert_eq!(classify(SupportedLanguage::Rust, &nameless, false), None);
}

#[test]
fn rust_impl_blocks_and_modules() {
    let trait_impl = decl(
        "impl_item",
        "impl Display for Token {",
        vec![("trait", sub("type_identifier", "Display", &[])), ("type", sub("type_identifier", "Token", &[]))],
        vec![],
    );
    assert_eq!(
        classify(SupportedLanguage::Rust, &trait_impl, false),
        Some((CodeSymbolType::Module, "Display for Token".to_string(), "impl Display for Token".to_string()))
    );
    let inherent = decl("impl_item", "impl<T> Stack<T> {", vec![], vec![sub("type_parameters", "<T>", &[]), sub("generic_type", "Stack<T>", &[])]);
    assert_eq!(classify(SupportedLanguage::Rust, &inherent, false).unwrap().1, "Stack<T>");
    let m = decl("mod_item", "mod tests {", vec![("name", sub("identifier", "tests", &[]))], vec![]);
    assert_eq!(
        classify(SupportedLanguage::Rust, &m, false),
        Some((CodeSymbolType::Module, "tests".to_string(), "mod tests".to_string()))
    );
}

#[test]
fn python_functions_in_a_class_are_methods() {
    let f = decl("function_definition", "def process_batch(self, items):", vec![("name", sub("identifier", "process_batch", &[]))], vec![]);
    assert_eq!(classify(SupportedLanguage::Python, &f, true).unwrap().0, CodeSymbolType::Method);
    assert_eq!(classify(SupportedLanguage::Python, &f, false).unwrap().0, CodeSymbolType::Function);
}

#[test]
fn go_c_and_elixir_rules() {
    let ty = decl("type_declaration", "type Server struct {", vec![], vec![sub("type_spec", "Server struct {}", &[("name", "Server")])]);
    assert_eq!(classify(SupportedLanguage::Go, &ty, false).unwrap().1, "Server");
    let cfn = decl("function_definition", "int main(void) {", vec![("declarator", sub("function_declarator", "main(void)", &[]))], vec![]);
    assert_eq!(classify(SupportedLanguage::C, &cfn, false).unwrap().1, "main(void)");
    let ex = decl("call", "def handle(conn, params) do", vec![], vec![sub("identifier", "def", &[]), sub("arguments", " handle(conn, params) ", &[])]);
    assert_eq!(
        classify(SupportedLanguage::Elixir, &ex, false),
        Some((CodeSymbolType::Function, "handle".to_string(), "def handle(conn, params) do".to_string()))
    );
    let exm = decl("call", "defmodule MyApp.Router do", vec![], vec![sub("identifier", "defmodule", &[]), sub("alias", "MyApp.Router do", &[])]);
    assert_eq!(classify(SupportedLanguage::Elixir, &exm, false).unwrap().1, "MyApp.Router");
    let bash = decl("function_definition", "deploy() {", vec![], vec![sub("word", "deploy", &[])]);
    assert_eq!(classify(SupportedLanguage::Bash, &bash, false).unwrap().1, "func");
    let swift_init = decl("init_declaration", "init(name: String) {", vec![], vec![]);
    assert_eq!(classify(SupportedLanguage::Swift, &swift_init, true).unwrap(), (CodeSymbolType::Method, "init".to_string(), "init(name: String)".to_string()));
}

#[test]
fn scopes_and_chunk_breadcrumbs() {
    let none: Vec<String> = vec![];
    let stack = vec!["SearchEngine".to_string()];
    assert_eq!(current_scope_of("src/search/engine.rs", &none), "src/search/engine.rs");
    assert_eq!(full_scope_of("src/search/engine.rs", &none, "SearchEngine"), "SearchEngine");
    assert_eq!(full_scope_of("src/search/engine.rs", &stack, "search_hybrid"), "SearchEngine > search_hybrid");
    let deep = vec!["a".to_string(), "B".to_string()];
    assert_eq!(current_scope_of("f.rs", &deep), "a > B");

    let text = build_chunk_text(
        SupportedLanguage::Rust,
        "SearchEngine > search_hybrid",
        "src/search/engine.rs",
        Some("/// Execute hybrid search across all modalities."),
        "pub fn search_hybrid() {}",
    );
    assert!(text.contains("// Scope: SearchEngine > search_hybrid"));
    assert!(text.contains("// Language: rust"));
    assert!(text.contains("Execute hybrid search"));
    assert_eq!(
        build_chunk_text(SupportedLanguage::Python, "C", "p.py", None, "class C: pass"),
        "# Scope: C\n# Language: python\n# File: p.py\nclass C: pass"
    );
    assert!(is_container_kind(CodeSymbolType::Struct));
    assert!(!is_container_kind(CodeSymbolType::Function));
}

fn ctx(body_first: Option<SubNode>, before: Vec<SubNode>, children: Vec<SubNode>) -> DocContext {
    DocContext { body_first, before, parent_kind: None, parent_before: vec![], children }
}

#[test]
fn docstrings_from_comments_and_python_bodies() {
    // Preceding comments, nearest first, come out in source order.
    let d = ctx(
        None,
        vec![sub("line_comment", "/// second line ", &[]), sub("line_comment", "/// first line", &[]), sub("function_item", "fn x() {}", &[])],
        vec![],
    );
    assert_eq!(extract_docstring(SupportedLanguage::Rust, &d).as_deref(), Some("/// first line\n/// second line"));

    let py = ctx(Some(sub("expression_statement", "  \"\"\"Processes large datasets.\"\"\" ", &[])), vec![], vec![]);
    assert_eq!(extract_docstring(SupportedLanguage::Python, &py).as_deref(), Some("\"\"\"Processes large datasets.\"\"\""));
    // The same body in another language is not a docstring.
    assert_eq!(extract_docstring(SupportedLanguage::Ruby, &py), None);

    // Exported declarations take the comments before the export statement.
    let mut exported = ctx(None, vec![], vec![]);
    exported.parent_kind = Some("export_statement".to_string());
    exported.parent_before = vec![sub("comment", "/** Adds. */", &[])];
    assert_eq!(extract_docstring(SupportedLanguage::TypeScript, &exported).as_deref(), Some("/** Adds. */"));

    // Comments inside the node, after attributes, up to the first other child.
    let inner = ctx(
        None,
        vec![],
        vec![sub("attribute_item", "#[test]", &[]), sub("line_comment", "// a", &[]), sub("line_comment", "// b", &[]), sub("identifier", "f", &[]), sub("line_comment", "// c", &[])],
    );
    assert_eq!(extract_docstring(SupportedLanguage::Rust, &inner).as_deref(), Some("// b\n// a"));
    assert_eq!(extract_docstring(SupportedLanguage::Rust, &ctx(None, vec![], vec![])), None);
}
