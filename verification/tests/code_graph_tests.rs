use ctxvault::chunker::CodeSymbol;
use ctxvault::code_graph::{CodeGraphExtractor, ResolutionConfidence, SymbolSite};
use ctxvault::graph::EdgeProvenance;
use ctxvault::symbols::CodeSymbolType;

fn sym(file: &str, name: &str, scope: &str, t: CodeSymbolType) -> CodeSymbol {
    CodeSymbol {
        file_path: file.to_string(),
        name: name.to_string(),
        scope_path: scope.to_string(),
        symbol_type: t,
        language: "rust".to_string(),
        signature: format!("fn {name}()"),
        docstring: None,
        start_line: 1,
        end_line: 3,
    }
}

#[test]
fn symbol_index_groups_positions_by_name_in_order() {
    let all = vec![
        sym("a.rs", "query", "Search > query", CodeSymbolType::Method),
        sym("b.rs", "run", "run", CodeSymbolType::Function),
        sym("c.rs", "query", "Db > query", CodeSymbolType::Method),
    ];
    let idx = CodeGraphExtractor::build_symbol_index(&all);
    assert_eq!(idx.len(), 2);
    assert_eq!(idx[0], ("query".to_string(), vec![0, 2]));
    assert_eq!(idx[1], ("run".to_string(), vec![1]));
    assert_eq!(CodeGraphExtractor::lookup(&idx, "query"), Some(&vec![0, 2]));
    assert_eq!(CodeGraphExtractor::lookup(&idx, "missing"), None);
}

#[test]
fn defines_edges_point_from_the_slashed_file_to_each_symbol() {
    let file = vec![
        sym("src\\search.rs", "SearchEngine", "SearchEngine", CodeSymbolType::Struct),
        sym("src\\search.rs", "rrf_fuse", "rrf_fuse", CodeSymbolType::Function),
    ];
    let edges = CodeGraphExtractor::defines_edges("src\\search.rs", &file);
    assert_eq!(edges.len(), 2);
    assert_eq!(edges[0].source, "src/search.rs");
    assert_eq!(edges[0].target, "SearchEngine");
    assert_eq!(edges[1].target, "rrf_fuse");
    assert_eq!(edges[1].edge_type, "defines");
    assert_eq!(edges[1].weight_bits, 1.0f32.to_bits());
    assert_eq!(edges[1].provenance, EdgeProvenance::CodeDefines);
    assert_eq!(edges[1].confidence, Some(ResolutionConfidence::High));
    assert!(edges[1].target_corpus.is_none());
}

#[test]
fn unique_catalog_candidate_resolves_with_high_confidence() {
    let file = vec![sym("src/main.rs", "main", "main", CodeSymbolType::Function)];
    let all = vec![
        file[0].clone(),
        sym("src/search.rs", "rrf_fuse", "rrf_fuse", CodeSymbolType::Function),
    ];
    let idx = CodeGraphExtractor::build_symbol_index(&all);
    let r = CodeGraphExtractor::resolve_callee("src/main.rs", &file, &all, &idx, None, None, "crate::search::rrf_fuse");
    assert_eq!(r, Some((SymbolSite::Catalog(1), ResolutionConfidence::High)));
}

#[test]
fn local_symbol_wins_over_the_catalog() {
    let file = vec![
        sym("src/a.rs", "run", "run", CodeSymbolType::Function),
        sym("src/a.rs", "helper", "helper", CodeSymbolType::Function),
    ];
    let all = vec![
        sym("src/b.rs", "helper", "helper", CodeSymbolType::Function),
        file[0].clone(),
        file[1].clone(),
    ];
    let idx = CodeGraphExtractor::build_symbol_index(&all);
    let r = CodeGraphExtractor::resolve_callee("src/a.rs", &file, &all, &idx, None, None, "helper");
    assert_eq!(r, Some((SymbolSite::File(1), ResolutionConfidence::High)));
}

#[test]
fn ambiguous_candidates_prefer_the_same_directory_with_medium_confidence() {
    let file = vec![sym("src/a/caller.rs", "run", "run", CodeSymbolType::Function)];
    let all = vec![
        file[0].clone(),
        sym("src/b/other.rs", "helper", "helper", CodeSymbolType::Function),
        sym("src/a/other.rs", "helper", "helper", CodeSymbolType::Function),
    ];
    let idx = CodeGraphExtractor::build_symbol_index(&all);
    let r = CodeGraphExtractor::resolve_callee("src/a/caller.rs", &file, &all, &idx, None, None, "helper");
    assert_eq!(r, Some((SymbolSite::Catalog(2), ResolutionConfidence::Medium)));
    let r = CodeGraphExtractor::resolve_callee("src/c/caller.rs", &[], &all, &idx, None, None, "helper");
    assert_eq!(r, Some((SymbolSite::Catalog(1), ResolutionConfidence::Speculative)));
    let r = CodeGraphExtractor::resolve_callee("src/a/caller.rs", &file, &all, &idx, None, None, "nothing");
    assert_eq!(r, None);
}

#[test]
fn receiver_type_disambiguates_methods() {
    let file = vec![sym("src/service.rs", "execute", "QueryService > execute", CodeSymbolType::Method)];
    let all = vec![
        file[0].clone(),
        sym("src/db.rs", "query", "DatabaseClient > query", CodeSymbolType::Method),
        sym("src/search.rs", "query", "SearchClient > query", CodeSymbolType::Method),
    ];
    let idx = CodeGraphExtractor::build_symbol_index(&all);
    // The type environment knows `client` is a `SearchClient`.
    let r = CodeGraphExtractor::resolve_callee(
        "src/service.rs",
        &file,
        &all,
        &idx,
        Some(" client "),
        Some("SearchClient"),
        "query",
    );
    assert_eq!(r, Some((SymbolSite::Catalog(2), ResolutionConfidence::High)));
    // A capitalised receiver names its own type.
    let r = CodeGraphExtractor::resolve_callee("src/service.rs", &file, &all, &idx, Some("Db::DatabaseClient"), None, "query");
    assert_eq!(r, Some((SymbolSite::Catalog(1), ResolutionConfidence::High)));
    // An unknown lower-case receiver falls back to the name alone: two candidates, none in
    // the caller's directory.
    let r = CodeGraphExtractor::resolve_callee("lib/service.rs", &file, &all, &idx, Some("client"), None, "query");
    assert_eq!(r, Some((SymbolSite::Catalog(1), ResolutionConfidence::Speculative)));
}

#[test]
fn call_edges_are_deduplicated_per_caller_and_target() {
    let mut visited: Vec<(String, String)> = Vec::new();
    let e = CodeGraphExtractor::call_edge(
        "Search > run",
        None,
        "rrf_fuse",
        Some(("rrf_fuse".to_string(), ResolutionConfidence::High)),
        &mut visited,
    )
    .unwrap();
    assert_eq!(e.source, "Search > run");
    assert_eq!(e.target, "rrf_fuse");
    assert_eq!(e.edge_type, "calls");
    assert_eq!(e.weight_bits, 0.8f32.to_bits());
    assert_eq!(e.provenance, EdgeProvenance::CodeCalls);
    assert_eq!(e.confidence, Some(ResolutionConfidence::High));
    assert!(CodeGraphExtractor::call_edge("Search > run", None, "rrf_fuse", Some(("rrf_fuse".to_string(), ResolutionConfidence::High)), &mut visited).is_none());
    let u = CodeGraphExtractor::call_edge("Search > run", Some("client"), "fetch", None, &mut visited).unwrap();
    assert_eq!(u.target, "client.fetch");
    assert_eq!(u.weight_bits, 0.5f32.to_bits());
    assert_eq!(u.confidence, Some(ResolutionConfidence::Speculative));
    let bare = CodeGraphExtractor::call_edge("Search > run", Some(""), "fetch", None, &mut visited).unwrap();
    assert_eq!(bare.target, "fetch");
    assert!(CodeGraphExtractor::call_edge("fetch", None, "fetch", None, &mut visited).is_none());
    assert_eq!(visited.len(), 3);
}
