use std::collections::HashSet;

use ctxvault::search::{decompose_query, path_matches_modality, try_decompose_query, Modality};

#[test]
fn test_decompose_query_multi_concepts() {
    let result =
        decompose_query("How does prompt engineering relate to agent architecture and tool use?");
    assert_eq!(
        result,
        vec![
            "prompt engineering".to_string(),
            "agent architecture".to_string(),
            "tool use?".to_string(),
        ]
    );
}

#[test]
fn test_decompose_query_connect_pattern() {
    let result = decompose_query("How do embeddings connect RAG to knowledge graphs?");
    assert_eq!(
        result,
        vec!["embeddings".to_string(), "RAG".to_string(), "knowledge graphs?".to_string(),]
    );
}

#[test]
fn test_decompose_query_single_concept() {
    let result = decompose_query("rust programming language");
    assert_eq!(result, vec!["rust programming language".to_string()]);
}

#[test]
fn test_decompose_query_strips_prefix() {
    let result = decompose_query("What is machine learning?");
    assert_eq!(result, vec!["machine learning?".to_string()]);
}

#[test]
fn decompose_short_query_is_returned_whole() {
    // "What is ab" strips to "ab", shorter than 3 bytes: the query itself comes back.
    assert_eq!(decompose_query("What is ab"), vec!["What is ab".to_string()]);
}

#[test]
fn decompose_drops_short_right_parts() {
    // "x and y": both sides shorter than 3 bytes, no split.
    assert_eq!(decompose_query("x and y"), vec!["x and y".to_string()]);
    // A "the path" left side does not split either.
    assert_eq!(
        decompose_query("the path between docs"),
        vec!["the path between docs".to_string()]
    );
}

#[test]
fn try_decompose_agrees_on_ascii() {
    let q = "How do embeddings connect RAG to knowledge graphs?";
    assert_eq!(try_decompose_query(q), Some(decompose_query(q)));
}

#[test]
fn try_decompose_refuses_cut_inside_a_character() {
    // The Kelvin sign (3 bytes) lower-cases to 'k' (1 byte): the byte offset of " and "
    // in the lower-cased text falls inside a character of the query as given.
    let q = "\u{212A}\u{212A}\u{212A}\u{212A} and more things";
    assert_eq!(try_decompose_query(q), None);
}

#[test]
fn test_path_matches_modality_classifier() {
    let mut code = HashSet::new();
    code.insert("src/engine.rs".to_string());
    code.insert("crate::search::Engine".to_string());
    assert!(path_matches_modality("src/engine.rs", Modality::Code, &code));
    assert!(path_matches_modality("crate::search::Engine", Modality::Code, &code));
    assert!(!path_matches_modality("notes/guide.md", Modality::Code, &code));
    assert!(path_matches_modality("notes/guide.md", Modality::Docs, &code));
    assert!(!path_matches_modality("src/engine.rs", Modality::Docs, &code));
    assert!(path_matches_modality("src/engine.rs", Modality::Both, &code));
    assert!(path_matches_modality("notes/guide.md", Modality::Both, &code));
}
