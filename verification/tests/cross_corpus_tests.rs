use ctxvault::cross_corpus::{cross_link_decision, SymbolMatch};
use ctxvault::graph::KnowledgeGraph;

fn sym(corpus: &str, scope: &str, name: &str) -> SymbolMatch {
    SymbolMatch { corpus: corpus.to_string(), scope_path: scope.to_string(), name: name.to_string() }
}

#[test]
fn unique_foreign_symbol_is_linked() {
    let resolved = vec![sym("code", "auth::AuthService", "AuthService")];
    let link = cross_link_decision("docs", "adr/001.md", "implements", "auth::AuthService", false, false, &resolved).unwrap();
    assert_eq!(link.node_key, "code::auth::AuthService");
    assert_eq!(link.target_corpus, "code");
    assert_eq!(link.title.as_deref(), Some("AuthService"));
    assert_eq!(link.doc_path, "adr/001.md");
    assert_eq!(link.edge_type, "implements");
}

#[test]
fn ambiguous_unresolved_own_corpus_and_local_targets_are_not_linked() {
    let two = vec![sym("a", "x::Y", "Y"), sym("b", "x::Y", "Y")];
    assert!(cross_link_decision("docs", "d.md", "t", "x::Y", false, false, &two).is_none());
    assert!(cross_link_decision("docs", "d.md", "t", "x::Y", false, false, &[]).is_none());
    let own = vec![sym("docs", "x::Y", "Y")];
    assert!(cross_link_decision("docs", "d.md", "t", "x::Y", false, false, &own).is_none());
    let one = vec![sym("code", "x::Y", "Y")];
    assert!(cross_link_decision("docs", "d.md", "t", "x::Y", true, true, &one).is_none());
    // A target that names the document itself is not taken for a local symbol.
    assert!(cross_link_decision("docs", "x::Y", "t", "x::Y", true, true, &one).is_some());
}

#[test]
fn applying_a_link_twice_changes_nothing() {
    let mut graph = KnowledgeGraph::new();
    graph.add_node("adr/001.md", Some("ADR"));
    let resolved = vec![sym("code", "auth::AuthService", "AuthService")];
    let link = cross_link_decision("docs", "adr/001.md", "implements", "auth::AuthService", false, false, &resolved).unwrap();
    graph.apply_cross_link(&link);
    let (n, e) = (graph.node_count(), graph.edge_count());
    assert_eq!((n, e), (2, 1));
    graph.apply_cross_link(&link);
    assert_eq!((graph.node_count(), graph.edge_count()), (n, e));
    let edges = graph.get_all_edges();
    assert_eq!(edges[0].target, "code::auth::AuthService");
}
