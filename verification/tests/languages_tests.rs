use ctxvault::languages::{detect_language, is_code_file, SupportedLanguage};

#[test]
fn detects_languages_by_extension_and_name() {
    assert_eq!(detect_language("src/main.rs"), Some(SupportedLanguage::Rust));
    assert_eq!(detect_language("web/App.TSX"), Some(SupportedLanguage::Tsx));
    assert_eq!(detect_language("lib/x.mjs"), Some(SupportedLanguage::JavaScript));
    assert_eq!(detect_language("Gemfile"), Some(SupportedLanguage::Ruby));
    assert_eq!(detect_language("tools/RAKEFILE"), Some(SupportedLanguage::Ruby));
    assert_eq!(detect_language("a/b.hxx"), Some(SupportedLanguage::Cpp));
    assert_eq!(detect_language("run.zsh"), Some(SupportedLanguage::Bash));
    assert_eq!(detect_language("notes/readme.md"), None);
    assert_eq!(detect_language(".rs"), None);
    assert_eq!(detect_language("Makefile"), None);
    assert!(is_code_file("pkg/main.go"));
    assert!(!is_code_file("image.png"));
}

#[test]
fn names_and_comment_prefixes() {
    assert_eq!(SupportedLanguage::CSharp.name(), "csharp");
    assert_eq!(SupportedLanguage::Python.comment_prefix(), "#");
    assert_eq!(SupportedLanguage::Lua.comment_prefix(), "--");
    assert_eq!(SupportedLanguage::Rust.comment_prefix(), "//");
}

#[test]
fn language_ignores_ascii_case_of_file_name() {
    assert_eq!(detect_language("src/MAIN.RS"), Some(SupportedLanguage::Rust));
    assert_eq!(detect_language("GEMFILE"), Some(SupportedLanguage::Ruby));
    assert_eq!(detect_language("lib/Tasks.Rb"), Some(SupportedLanguage::Ruby));
    assert_eq!(detect_language("MAKEFILE"), None);
}
