use ctxvault::classifier::{
    classify_with_matches, is_html_documentation_article, CorpusType, FileClassification, FileClassifier,
    FileFormat,
};
use ctxvault::languages::SupportedLanguage;

#[test]
fn test_html_content_heuristic() {
    let doc_html = b"<!DOCTYPE html><html><body><article><h1>Architecture Overview</h1><p>This is a comprehensive document describing the system architecture and design principles in great detail.</p></article></body></html>";
    assert!(is_html_documentation_article(doc_html));

    let ui_html = b"<div class=\"container\"><template v-if=\"active\"><button @click=\"submit\">Submit</button></template></div>";
    assert!(!is_html_documentation_article(ui_html));
}

#[test]
fn html_ratio_decides_without_markers() {
    // 7 tag characters, 5 text characters: 5 / 12 > 0.4.
    assert!(is_html_documentation_article(b"<b>hello</b>"));
    // 11 tag characters, 2 text characters.
    assert!(!is_html_documentation_article(b"<div>hi</div>"));
    // Nothing counted at all.
    assert!(!is_html_documentation_article(b""));
    assert!(!is_html_documentation_article(b"   "));
    // Exactly 40% text is not enough: 3 tag characters, 2 text characters.
    assert!(!is_html_documentation_article(b"<a>xy"));
    // Upper-case markers count too.
    assert!(is_html_documentation_article(b"<SECTION>"));
    assert!(!is_html_documentation_article(b"<p ng-click='x'>lots of readable text here</p>"));
}

#[test]
fn test_classifier_code_repo_defaults() {
    let docs = vec!["docs/**".to_string()];
    let code = vec!["src/**".to_string()];
    let classifier = FileClassifier::new("/tmp/corpus", CorpusType::CodeRepo, &docs, &code);
    assert_eq!(classifier.classify("README.md", None), FileClassification::MarkdownDoc);
    assert_eq!(classifier.classify("src/main.rs", None), FileClassification::Code(SupportedLanguage::Rust));
    assert_eq!(classifier.classify("src/index.html", None), FileClassification::Code(SupportedLanguage::Html));
    assert_eq!(classifier.classify("docs/api.html", None), FileClassification::Document(FileFormat::HtmlDoc));
    assert_eq!(classifier.classify("tests/fixtures/sample.pdf", None), FileClassification::Ignored);
    assert_eq!(classifier.classify("docs/manual.pdf", None), FileClassification::Document(FileFormat::Pdf));
}

#[test]
fn test_classifier_doc_vault() {
    let classifier = FileClassifier::new("/tmp/vault", CorpusType::DocVault, &[], &[]);
    assert_eq!(
        classifier.classify("specs/architecture.docx", None),
        FileClassification::Document(FileFormat::Docx)
    );
    assert_eq!(classifier.classify("papers/attention.pdf", None), FileClassification::Document(FileFormat::Pdf));
    assert_eq!(classifier.classify("site/page.html", None), FileClassification::Document(FileFormat::HtmlDoc));
}

#[test]
fn mixed_corpus_html_rules() {
    assert_eq!(
        classify_with_matches("site/docs/page.html", CorpusType::Mixed, false, false, None),
        FileClassification::Document(FileFormat::HtmlDoc)
    );
    assert_eq!(
        classify_with_matches("app/page.html", CorpusType::Mixed, false, false, None),
        FileClassification::Code(SupportedLanguage::Html)
    );
    assert_eq!(
        classify_with_matches("app/page.HTM", CorpusType::Mixed, false, false, Some(b"<article>")),
        FileClassification::Document(FileFormat::HtmlDoc)
    );
    assert_eq!(
        classify_with_matches("app/report.pdf", CorpusType::Mixed, false, false, None),
        FileClassification::Document(FileFormat::Pdf)
    );
    assert_eq!(
        classify_with_matches("x.pdf", CorpusType::CodeRepo, false, true, None),
        FileClassification::Ignored
    );
    assert_eq!(
        classify_with_matches("notes/a.markdown", CorpusType::CodeRepo, false, false, None),
        FileClassification::MarkdownDoc
    );
    assert_eq!(classify_with_matches("image.png", CorpusType::Mixed, true, true, None), FileClassification::Ignored);
}

#[test]
fn classification_queries() {
    assert!(FileClassification::MarkdownDoc.is_indexable());
    assert!(!FileClassification::Ignored.is_indexable());
    assert_eq!(FileClassification::Document(FileFormat::Pdf).file_format(), FileFormat::Pdf);
    assert_eq!(FileClassification::Code(SupportedLanguage::Rust).file_format(), FileFormat::Source);
    assert!(FileClassification::Document(FileFormat::Docx).is_documentation());
    assert!(!FileClassification::Code(SupportedLanguage::Go).is_documentation());
}

#[test]
fn rooted_paths_are_classified() {
    let docs = vec!["docs/**".to_string()];
    let code = vec!["src/**".to_string()];
    let classifier = FileClassifier::new("/tmp/corpus", CorpusType::CodeRepo, &docs, &code);
    assert_eq!(classifier.classify("/abs/notes/a.md", None), FileClassification::MarkdownDoc);
    assert_eq!(
        classifier.classify("/tmp/corpus/docs/api.html", None),
        FileClassification::Document(FileFormat::HtmlDoc)
    );
}
