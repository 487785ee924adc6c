use ctxvault::imports::extract_import;
use ctxvault::languages::SupportedLanguage;

fn target(l: SupportedLanguage, kind: &str, text: &str, source: Option<&str>) -> Option<String> {
    extract_import(l, kind, text, source).map(|f| f.target)
}

#[test]
fn rust_use_binds_last_segment() {
    let f = extract_import(SupportedLanguage::Rust, "use_declaration", "  use std::collections::HashMap; ", None).unwrap();
    assert_eq!(f.target, "std::collections::HashMap");
    assert_eq!(f.binding, Some(("HashMap".to_string(), "std::collections::HashMap".to_string())));
    let g = extract_import(SupportedLanguage::Rust, "use_declaration", "use crate::a::{b, c};", None).unwrap();
    assert_eq!(g.binding.unwrap().0, "{b, c}");
    assert!(extract_import(SupportedLanguage::Rust, "function_item", "use x;", None).is_none());
    assert!(extract_import(SupportedLanguage::Rust, "use_declaration", "pub use x;", None).is_none());
}

#[test]
fn script_imports_take_the_unquoted_source() {
    assert_eq!(
        target(SupportedLanguage::TypeScript, "import_statement", "import { a } from './utils';", Some("'./utils'")),
        Some("./utils".to_string())
    );
    assert_eq!(
        target(SupportedLanguage::JavaScript, "import_statement", "import React from \"react\"", Some("\"react\"")),
        Some("react".to_string())
    );
    assert_eq!(target(SupportedLanguage::Tsx, "import_statement", "import x", None), None);
}

#[test]
fn python_and_go_imports() {
    assert_eq!(
        target(SupportedLanguage::Python, "import_from_statement", " from os import path ", None),
        Some("from os import path".to_string())
    );
    let g = extract_import(SupportedLanguage::Go, "import_spec", "\"net/http\"", None).unwrap();
    assert_eq!(g.target, "net/http");
    assert_eq!(g.binding, Some(("http".to_string(), "net/http".to_string())));
}

#[test]
fn other_languages_clean_the_line() {
    assert_eq!(target(SupportedLanguage::C, "preproc_include", "#include <stdio.h>", None), Some("stdio.h".to_string()));
    assert_eq!(
        target(SupportedLanguage::Java, "import_declaration", "import java.util.List;", None),
        Some("java.util.List".to_string())
    );
    assert_eq!(
        target(SupportedLanguage::CSharp, "using_directive", "using System.Text;", None),
        Some("System.Text".to_string())
    );
    assert_eq!(target(SupportedLanguage::Ruby, "call", "  ;; ", None), None);
    let long = format!("import {}", "x".repeat(250));
    assert_eq!(target(SupportedLanguage::Java, "import_declaration", &long, None), None);
}
