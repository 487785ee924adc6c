use ctxvault::graph::{EdgeClass, EdgeProvenance, GraphError, KnowledgeGraph};

fn w(x: f32) -> u32 {
    x.to_bits()
}

fn link(g: &mut KnowledgeGraph, a: &str, b: &str) {
    g.add_edge(a, b, "Link", w(1.0), EdgeProvenance::Wikilink, EdgeClass::StructuralLink);
}

#[test]
fn test_add_remove_nodes() {
    let mut graph = KnowledgeGraph::new();
    graph.add_node("a.md", Some("A"));
    graph.add_node("b.md", Some("B"));
    graph.add_node("c.md", Some("C"));
    assert_eq!(graph.node_count(), 3);

    graph.remove_node("b.md").unwrap();
    assert_eq!(graph.node_count(), 2);
    assert!(graph.get_node("b.md").is_none());
    assert!(graph.get_node("a.md").is_some());
    assert!(graph.get_node("c.md").is_some());

    assert!(graph.remove_node("nonexistent.md").is_err());
}

#[test]
fn test_add_edges() {
    let mut graph = KnowledgeGraph::new();
    graph.add_node("a.md", Some("A"));
    graph.add_node("b.md", Some("B"));
    graph.add_node("c.md", Some("C"));
    link(&mut graph, "a.md", "b.md");
    link(&mut graph, "b.md", "c.md");
    assert_eq!(graph.edge_count(), 2);

    let results = graph.traverse_bfs("a.md", 3, None, None);
    let paths: Vec<&str> = results.iter().map(|(p, _)| p.as_str()).collect();
    assert!(paths.contains(&"b.md"));
    assert!(paths.contains(&"c.md"));
}

#[test]
fn test_bfs_traversal() {
    let mut graph = KnowledgeGraph::new();
    link(&mut graph, "A", "B");
    link(&mut graph, "B", "C");
    link(&mut graph, "C", "D");
    link(&mut graph, "D", "E");

    let results = graph.traverse_bfs("A", 2, None, None);
    let paths: Vec<&str> = results.iter().map(|(p, _)| p.as_str()).collect();
    assert!(paths.contains(&"B"));
    assert!(paths.contains(&"C"));
    assert!(!paths.contains(&"D"));
    assert!(!paths.contains(&"E"));

    let b_depth = results.iter().find(|(p, _)| p == "B").unwrap().1;
    let c_depth = results.iter().find(|(p, _)| p == "C").unwrap().1;
    assert_eq!(b_depth, 1);
    assert_eq!(c_depth, 2);
}

#[test]
fn test_dfs_traversal() {
    let mut graph = KnowledgeGraph::new();
    link(&mut graph, "A", "B");
    link(&mut graph, "B", "C");
    link(&mut graph, "C", "D");
    link(&mut graph, "D", "E");

    let results = graph.traverse_dfs("A", 3, None, None);
    let paths: Vec<&str> = results.iter().map(|(p, _)| p.as_str()).collect();
    assert!(paths.contains(&"B"));
    assert!(paths.contains(&"C"));
    assert!(paths.contains(&"D"));
    assert!(!paths.contains(&"E"));
}

#[test]
fn test_shortest_path() {
    let mut graph = KnowledgeGraph::new();
    link(&mut graph, "A", "B");
    link(&mut graph, "B", "C");
    link(&mut graph, "C", "D");

    let path = graph.shortest_path("A", "D", None, None).unwrap();
    assert_eq!(path, vec!["A", "B", "C", "D"]);
    assert!(graph.shortest_path("D", "A", None, None).is_none());
    assert!(graph.shortest_path("A", "Z", None, None).is_none());
}

#[test]
fn shortest_path_takes_the_shortcut_and_respects_filters() {
    let mut graph = KnowledgeGraph::new();
    link(&mut graph, "A", "B");
    link(&mut graph, "B", "C");
    graph.add_edge("A", "C", "Tag", w(0.5), EdgeProvenance::SharedTag, EdgeClass::Semantic);
    assert_eq!(graph.shortest_path("A", "C", None, None).unwrap(), vec!["A", "C"]);
    assert_eq!(
        graph.shortest_path("A", "C", None, Some(EdgeClass::StructuralLink)).unwrap(),
        vec!["A", "B", "C"]
    );
    let only_tags = vec!["Tag".to_string()];
    assert_eq!(graph.shortest_path("A", "C", Some(&only_tags), None).unwrap(), vec!["A", "C"]);
    assert!(graph.shortest_path("A", "B", Some(&only_tags), None).is_none());
    assert_eq!(graph.shortest_path("B", "B", None, None).unwrap(), vec!["B"]);
}

#[test]
fn add_edge_updates_instead_of_duplicating() {
    let mut graph = KnowledgeGraph::new();
    link(&mut graph, "A", "B");
    graph.add_edge("A", "B", "Link", w(2.0), EdgeProvenance::Frontmatter, EdgeClass::Semantic);
    assert_eq!(graph.edge_count(), 1);
    graph.add_edge("A", "B", "Other", w(2.0), EdgeProvenance::Frontmatter, EdgeClass::Semantic);
    assert_eq!(graph.edge_count(), 2);
    assert_eq!(graph.node_count(), 2);
}

#[test]
fn add_edge_creates_missing_endpoints() {
    let mut graph = KnowledgeGraph::new();
    link(&mut graph, "x.md", "y.md");
    assert_eq!(graph.node_count(), 2);
    assert!(graph.get_node("x.md").is_some());
    assert!(graph.get_node("y.md").is_some());
}

#[test]
fn remove_node_drops_its_edges_and_keeps_the_rest() {
    let mut graph = KnowledgeGraph::new();
    link(&mut graph, "A", "B");
    link(&mut graph, "B", "C");
    link(&mut graph, "C", "A");
    link(&mut graph, "C", "D");
    graph.remove_node("B").unwrap();
    assert_eq!(graph.node_count(), 3);
    assert_eq!(graph.edge_count(), 2);
    let reach = graph.traverse_bfs("C", 5, None, None);
    let paths: Vec<&str> = reach.iter().map(|(p, _)| p.as_str()).collect();
    assert!(paths.contains(&"A"));
    assert!(paths.contains(&"D"));
    assert!(graph.traverse_bfs("A", 5, None, None).is_empty());
    match graph.remove_node("B") {
        Err(GraphError::NodeNotFound(p)) => assert_eq!(p, "B"),
        Ok(()) => panic!("B was removed twice"),
    }
}

#[test]
fn remove_edges_for_node_keeps_nodes() {
    let mut graph = KnowledgeGraph::new();
    link(&mut graph, "A", "B");
    link(&mut graph, "B", "C");
    link(&mut graph, "B", "B");
    link(&mut graph, "C", "A");
    graph.remove_edges_for_node("B");
    assert_eq!(graph.node_count(), 3);
    assert_eq!(graph.edge_count(), 1);
    graph.remove_edges_for_node("nope");
    assert_eq!(graph.edge_count(), 1);
}

#[test]
fn ensure_node_keeps_count_for_known_paths() {
    let mut graph = KnowledgeGraph::new();
    graph.ensure_node("a.md");
    graph.ensure_node("a.md");
    assert_eq!(graph.node_count(), 1);
    assert_eq!(graph.get_node("a.md"), Some(0));
}

#[test]
fn bfs_depths_are_hop_distances() {
    let mut graph = KnowledgeGraph::new();
    link(&mut graph, "A", "B");
    link(&mut graph, "B", "C");
    link(&mut graph, "A", "C");
    link(&mut graph, "C", "A");
    let results = graph.traverse_bfs("A", 10, None, None);
    assert_eq!(results.len(), 2);
    assert!(results.contains(&("B".to_string(), 1)));
    assert!(results.contains(&("C".to_string(), 1)));
    assert!(graph.traverse_bfs("A", 0, None, None).is_empty());
    assert!(graph.traverse_bfs("missing", 3, None, None).is_empty());
}

#[test]
fn dfs_lists_each_node_once_and_direct_neighbors_at_depth_one() {
    let mut graph = KnowledgeGraph::new();
    link(&mut graph, "A", "B");
    link(&mut graph, "A", "C");
    link(&mut graph, "B", "C");
    link(&mut graph, "C", "A");
    let results = graph.traverse_dfs("A", 5, None, None);
    assert_eq!(results.len(), 2);
    assert!(results.contains(&("B".to_string(), 1)));
    assert!(results.contains(&("C".to_string(), 1)));
}

fn fm(g: &mut KnowledgeGraph, a: &str, b: &str, ty: &str) {
    g.add_edge(a, b, ty, w(1.0), EdgeProvenance::Frontmatter, EdgeClass::StructuralLink);
}

fn group<'a>(groups: &'a [(String, Vec<String>)], ty: &str) -> Option<&'a Vec<String>> {
    groups.iter().find(|(t, _)| t == ty).map(|(_, v)| v)
}

#[test]
fn test_backlinks_forwardlinks() {
    let mut graph = KnowledgeGraph::new();
    link(&mut graph, "A", "B");
    link(&mut graph, "A", "C");

    let bl = graph.backlinks("B", None);
    let sources = group(&bl, "Link").unwrap();
    assert!(sources.contains(&"A".to_string()));
    assert_eq!(sources.len(), 1);

    let fl = graph.forwardlinks("A", None);
    let targets = group(&fl, "Link").unwrap();
    assert!(targets.contains(&"B".to_string()));
    assert!(targets.contains(&"C".to_string()));
    assert_eq!(targets.len(), 2);
}

#[test]
fn links_filter_by_class_and_group_by_type() {
    let mut graph = KnowledgeGraph::new();
    link(&mut graph, "A", "B");
    graph.add_edge("A", "C", "Tag", w(0.5), EdgeProvenance::SharedTag, EdgeClass::Semantic);
    let all = graph.forwardlinks("A", None);
    assert_eq!(all.len(), 2);
    assert_eq!(group(&all, "Tag").unwrap(), &vec!["C".to_string()]);
    let structural = graph.forwardlinks("A", Some(EdgeClass::StructuralLink));
    assert_eq!(structural.len(), 1);
    assert!(group(&structural, "Tag").is_none());
    assert!(graph.backlinks("missing", None).is_empty());
    assert!(graph.backlinks("A", None).is_empty());
}

#[test]
fn test_graph_stats() {
    let mut graph = KnowledgeGraph::new();
    graph.add_node("orphan.md", Some("Orphan"));
    link(&mut graph, "a.md", "b.md");
    graph.add_edge("a.md", "c.md", "Tag", w(0.5), EdgeProvenance::SharedTag, EdgeClass::Semantic);
    link(&mut graph, "b.md", "c.md");

    let stats = graph.stats();
    assert_eq!(stats.node_count, 4);
    assert_eq!(stats.edge_count, 3);
    assert_eq!(stats.orphan_count, 1);
    let count = |t: &str| stats.edge_type_distribution.iter().find(|(x, _)| x == t).map(|(_, c)| *c);
    assert_eq!(count("Link"), Some(2));
    assert_eq!(count("Tag"), Some(1));
    assert!(!stats.most_connected.is_empty());
}

#[test]
fn stats_rank_by_degree_then_insertion_order() {
    let mut graph = KnowledgeGraph::new();
    link(&mut graph, "hub", "a");
    link(&mut graph, "hub", "b");
    link(&mut graph, "hub", "c");
    link(&mut graph, "a", "b");
    graph.add_node("lonely", None);
    let stats = graph.stats();
    assert_eq!(
        stats.most_connected,
        vec![
            ("hub".to_string(), 3),
            ("a".to_string(), 2),
            ("b".to_string(), 2),
            ("c".to_string(), 1),
            ("lonely".to_string(), 0)
        ]
    );
    assert_eq!(graph.orphan_paths(), vec!["lonely".to_string()]);
    assert_eq!(
        graph.node_degree_list(),
        vec![
            ("hub".to_string(), 0, 3),
            ("a".to_string(), 1, 1),
            ("b".to_string(), 2, 0),
            ("c".to_string(), 1, 0),
            ("lonely".to_string(), 0, 0)
        ]
    );
}

#[test]
fn most_connected_keeps_ten() {
    let mut graph = KnowledgeGraph::new();
    for i in 0..12 {
        let name = format!("n{i}");
        for j in 0..i {
            link(&mut graph, &name, &format!("leaf{i}_{j}"));
        }
        graph.ensure_node(&name);
    }
    let stats = graph.stats();
    assert_eq!(stats.most_connected.len(), 10);
    assert_eq!(stats.most_connected[0], ("n11".to_string(), 11));
    assert_eq!(stats.most_connected[9], ("n2".to_string(), 2));
}

#[test]
fn test_traverse_lineage_outgoing() {
    let mut graph = KnowledgeGraph::new();
    fm(&mut graph, "docs/adrs/003.md", "docs/adrs/002.md", "supersedes");
    fm(&mut graph, "docs/adrs/002.md", "docs/adrs/001.md", "supersedes");

    let chain = graph.traverse_lineage("docs/adrs/003.md", "supersedes", "outgoing", 5);
    assert_eq!(chain.len(), 3);
    assert_eq!(chain[0].path, "docs/adrs/003.md");
    assert_eq!(chain[0].depth, 0);
    assert_eq!(chain[0].direction, "start");
    assert_eq!(chain[1].path, "docs/adrs/002.md");
    assert_eq!(chain[1].depth, 1);
    assert_eq!(chain[1].direction, "outgoing");
    assert_eq!(chain[2].path, "docs/adrs/001.md");
    assert_eq!(chain[2].depth, 2);
    assert_eq!(chain[2].direction, "outgoing");
}

#[test]
fn test_traverse_lineage_incoming() {
    let mut graph = KnowledgeGraph::new();
    fm(&mut graph, "docs/adrs/003.md", "docs/adrs/002.md", "supersedes");
    fm(&mut graph, "docs/adrs/002.md", "docs/adrs/001.md", "supersedes");

    let chain = graph.traverse_lineage("docs/adrs/001.md", "supersedes", "incoming", 5);
    assert_eq!(chain.len(), 3);
    assert_eq!(chain[0].path, "docs/adrs/001.md");
    assert_eq!(chain[0].depth, 0);
    assert_eq!(chain[1].path, "docs/adrs/002.md");
    assert_eq!(chain[1].depth, 1);
    assert_eq!(chain[1].direction, "incoming");
    assert_eq!(chain[2].path, "docs/adrs/003.md");
    assert_eq!(chain[2].depth, 2);
    assert_eq!(chain[2].direction, "incoming");
}

#[test]
fn test_traverse_lineage_handles_cycle() {
    let mut graph = KnowledgeGraph::new();
    fm(&mut graph, "A.md", "B.md", "supersedes");
    fm(&mut graph, "B.md", "A.md", "supersedes");

    let chain = graph.traverse_lineage("A.md", "supersedes", "outgoing", 5);
    assert_eq!(chain.len(), 2);
    assert_eq!(chain[0].path, "A.md");
    assert_eq!(chain[1].path, "B.md");
}

#[test]
fn lineage_matches_type_ignoring_case_and_respects_depth() {
    let mut graph = KnowledgeGraph::new();
    fm(&mut graph, "a", "b", "Supersedes");
    fm(&mut graph, "b", "c", "supersedes");
    fm(&mut graph, "d", "a", "SUPERSEDES");
    fm(&mut graph, "a", "x", "implements");
    let both = graph.traverse_lineage("a", "supersedes", "Both", 1);
    assert_eq!(both.len(), 3);
    assert_eq!(both[1].path, "b");
    assert_eq!(both[1].edge_type, "Supersedes");
    assert_eq!(both[2].path, "d");
    assert_eq!(both[2].direction, "incoming");
    assert_eq!(both[2].edge_type, "SUPERSEDES");
    assert_eq!(graph.traverse_lineage("a", "supersedes", "outgoing", 0).len(), 1);
    assert_eq!(graph.traverse_lineage("a", "supersedes", "sideways", 3).len(), 1);
    assert!(graph.traverse_lineage("zzz", "supersedes", "outgoing", 3).is_empty());
}

#[test]
fn test_detect_broken_links() {
    let mut graph = KnowledgeGraph::new();
    graph.add_edge("docs/valid.md", "docs/missing.md", "Wikilink", w(1.0), EdgeProvenance::Wikilink, EdgeClass::StructuralLink);
    graph.add_edge("docs/valid.md", "docs/existing.md", "Wikilink", w(1.0), EdgeProvenance::Wikilink, EdgeClass::StructuralLink);

    let mut existing = std::collections::HashSet::new();
    existing.insert("docs/valid.md".to_string());
    existing.insert("docs/existing.md".to_string());

    let broken = graph.detect_broken_links(&existing);
    assert_eq!(broken.len(), 1);
    assert_eq!(broken[0].source, "docs/valid.md");
    assert_eq!(broken[0].target, "docs/missing.md");
}

#[test]
fn broken_links_resolve_md_suffix_and_ignore_semantic_edges() {
    let mut graph = KnowledgeGraph::new();
    graph.add_edge("a", "notes/x", "Wikilink", w(1.0), EdgeProvenance::Wikilink, EdgeClass::StructuralLink);
    graph.add_edge("a", "notes/y.md", "Wikilink", w(1.0), EdgeProvenance::Wikilink, EdgeClass::StructuralLink);
    graph.add_edge("a", "ghost", "Tag", w(1.0), EdgeProvenance::SharedTag, EdgeClass::Semantic);
    let mut existing = std::collections::HashSet::new();
    existing.insert("notes/x.md".to_string());
    existing.insert("notes/y".to_string());
    assert!(graph.detect_broken_links(&existing).is_empty());
}

#[test]
fn test_detect_orphan_adrs() {
    let mut graph = KnowledgeGraph::new();
    graph.add_node("docs/adrs/001.md", Some("Connected ADR"));
    graph.add_node("docs/adrs/002.md", Some("Orphan ADR"));
    graph.add_node("docs/specs/engine.md", Some("Spec"));
    fm(&mut graph, "docs/adrs/001.md", "docs/specs/engine.md", "adr_for");

    let adr_paths = vec!["docs/adrs/001.md".to_string(), "docs/adrs/002.md".to_string()];
    let orphans = graph.detect_orphan_adrs(&adr_paths);
    assert_eq!(orphans.len(), 1);
    assert_eq!(orphans[0].path, "docs/adrs/002.md");
    assert_eq!(orphans[0].title.as_deref(), Some("Orphan ADR"));
}

#[test]
fn orphan_adrs_report_missing_notes() {
    let graph = KnowledgeGraph::new();
    let orphans = graph.detect_orphan_adrs(&["docs/adrs/009.md".to_string()]);
    assert_eq!(orphans.len(), 1);
    assert_eq!(orphans[0].title, None);
    assert_eq!(orphans[0].reason, "ADR note is not connected to the knowledge graph");
}

#[test]
fn all_edges_listed_by_path() {
    let mut graph = KnowledgeGraph::new();
    link(&mut graph, "a", "b");
    graph.add_edge("b", "c", "Tag", w(0.25), EdgeProvenance::SharedTag, EdgeClass::Semantic);
    let edges = graph.get_all_edges();
    assert_eq!(edges.len(), 2);
    assert_eq!(edges[1].source, "b");
    assert_eq!(edges[1].target, "c");
    assert_eq!(edges[1].edge_type, "Tag");
    assert_eq!(f32::from_bits(edges[1].weight_bits), 0.25);
    assert_eq!(edges[1].provenance, EdgeProvenance::SharedTag);
}

#[test]
fn test_detect_circular_dependencies() {
    let mut graph = KnowledgeGraph::new();
    // A -> B -> C -> A
    graph.add_edge("A.md", "B.md", "supersedes", w(1.0), EdgeProvenance::Frontmatter, EdgeClass::StructuralLink);
    graph.add_edge("B.md", "C.md", "supersedes", w(1.0), EdgeProvenance::Frontmatter, EdgeClass::StructuralLink);
    graph.add_edge("C.md", "A.md", "supersedes", w(1.0), EdgeProvenance::Frontmatter, EdgeClass::StructuralLink);

    let cycles = graph.detect_circular_dependencies(&["supersedes"]);
    assert!(!cycles.is_empty());
    assert_eq!(cycles[0].edge_type, "supersedes");
    assert!(cycles[0].cycle.contains(&"A.md".to_string()));
    assert!(cycles[0].cycle.contains(&"B.md".to_string()));
    assert!(cycles[0].cycle.contains(&"C.md".to_string()));
}

#[test]
fn cycle_report_closes_and_is_not_repeated() {
    let mut graph = KnowledgeGraph::new();
    graph.add_edge("A.md", "B.md", "Supersedes", w(1.0), EdgeProvenance::Frontmatter, EdgeClass::StructuralLink);
    graph.add_edge("B.md", "A.md", "supersedes", w(1.0), EdgeProvenance::Frontmatter, EdgeClass::StructuralLink);
    graph.add_edge("B.md", "C.md", "links", w(1.0), EdgeProvenance::Wikilink, EdgeClass::StructuralLink);
    let cycles = graph.detect_circular_dependencies(&["supersedes", "links"]);
    assert_eq!(cycles.len(), 1);
    assert_eq!(cycles[0].cycle, vec!["A.md".to_string(), "B.md".to_string(), "A.md".to_string()]);
    // A DAG has no cycle.
    let mut dag = KnowledgeGraph::new();
    dag.add_edge("A.md", "B.md", "supersedes", w(1.0), EdgeProvenance::Frontmatter, EdgeClass::StructuralLink);
    dag.add_edge("A.md", "C.md", "supersedes", w(1.0), EdgeProvenance::Frontmatter, EdgeClass::StructuralLink);
    dag.add_edge("C.md", "B.md", "supersedes", w(1.0), EdgeProvenance::Frontmatter, EdgeClass::StructuralLink);
    assert!(dag.detect_circular_dependencies(&["supersedes"]).is_empty());
}

#[test]
fn cycle_listed_type_twice_reported_once() {
    let mut graph = KnowledgeGraph::new();
    graph.add_edge("A.md", "B.md", "supersedes", w(1.0), EdgeProvenance::Frontmatter, EdgeClass::StructuralLink);
    graph.add_edge("B.md", "C.md", "supersedes", w(1.0), EdgeProvenance::Frontmatter, EdgeClass::StructuralLink);
    graph.add_edge("C.md", "A.md", "supersedes", w(1.0), EdgeProvenance::Frontmatter, EdgeClass::StructuralLink);
    let cycles = graph.detect_circular_dependencies(&["supersedes", "supersedes"]);
    assert_eq!(cycles.len(), 1);
    assert_eq!(cycles[0].cycle.len(), 4);
    assert_eq!(cycles[0].cycle[0], cycles[0].cycle[3]);
}

#[test]
fn adding_the_same_edge_twice_changes_nothing() {
    let mut graph = KnowledgeGraph::new();
    graph.add_node("a.md", Some("A"));
    graph.add_edge("a.md", "b.md", "Link", w(0.5), EdgeProvenance::Wikilink, EdgeClass::StructuralLink);
    let (n1, e1) = (graph.node_count(), graph.edge_count());
    graph.add_edge("a.md", "b.md", "Link", w(0.5), EdgeProvenance::Wikilink, EdgeClass::StructuralLink);
    assert_eq!((graph.node_count(), graph.edge_count()), (n1, e1));
    assert_eq!((n1, e1), (2, 1));
    let edges = graph.get_all_edges();
    assert_eq!(edges.len(), 1);
    assert_eq!(edges[0].source, "a.md");
    assert_eq!(edges[0].target, "b.md");
}

#[test]
fn removing_a_new_node_restores_the_graph() {
    let mut graph = KnowledgeGraph::new();
    link(&mut graph, "a.md", "b.md");
    link(&mut graph, "b.md", "c.md");
    graph.add_node("new.md", Some("New"));
    assert_eq!(graph.node_count(), 4);
    graph.remove_node("new.md").unwrap();
    assert_eq!(graph.node_count(), 3);
    assert_eq!(graph.edge_count(), 2);
    assert!(graph.get_node("new.md").is_none());
    assert!(graph.get_node("a.md").is_some());
    assert_eq!(graph.forwardlinks("a.md", None).len(), 1);
}

#[test]
fn type_distribution_counts_every_edge_once() {
    let mut graph = KnowledgeGraph::new();
    link(&mut graph, "a.md", "b.md");
    link(&mut graph, "b.md", "c.md");
    graph.add_edge("a.md", "c.md", "Tag", w(0.5), EdgeProvenance::SharedTag, EdgeClass::Semantic);
    let st = graph.stats();
    let total: usize = st.edge_type_distribution.iter().map(|(_, c)| *c).sum();
    assert_eq!(total, st.edge_count);
    assert_eq!(st.edge_count, 3);
    assert_eq!(st.edge_type_distribution.len(), 2);
}

#[test]
fn depth_first_listing_is_within_breadth_first_listing() {
    let mut graph = KnowledgeGraph::new();
    link(&mut graph, "A", "B");
    link(&mut graph, "B", "C");
    link(&mut graph, "A", "C");
    link(&mut graph, "C", "D");
    link(&mut graph, "D", "E");
    let dfs = graph.traverse_dfs("A", 3, None, None);
    let bfs = graph.traverse_bfs("A", 3, None, None);
    for (p, d) in &dfs {
        assert!(bfs.iter().any(|(q, e)| q == p && e <= d), "{p} at depth {d}");
    }
    assert!(bfs.iter().any(|(q, e)| q == "C" && *e == 1));
}

#[test]
fn test_extract_lineage_for_node() {
    let mut graph = KnowledgeGraph::new();
    fm(&mut graph, "B.md", "A.md", "supersedes");
    fm(&mut graph, "A.md", "C.md", "implements");
    fm(&mut graph, "D.md", "A.md", "depends_on");

    let lineage = graph.extract_lineage_for_node("A.md").expect("Should have lineage for A.md");
    assert_eq!(lineage.superseded_by, vec!["B.md"]);
    assert_eq!(lineage.implements, vec!["C.md"]);
    assert_eq!(lineage.depended_on_by, vec!["D.md"]);
    assert!(lineage.supersedes.is_empty());
}

#[test]
fn lineage_groups_other_structural_types_sorted_and_deduplicated() {
    let mut graph = KnowledgeGraph::new();
    fm(&mut graph, "A.md", "Z.md", "Depends-On");
    fm(&mut graph, "A.md", "Y.md", "DEPENDSON");
    fm(&mut graph, "A.md", "m.md", "related");
    fm(&mut graph, "A.md", "b.md", "related");
    fm(&mut graph, "A.md", "c.md", "cites");
    fm(&mut graph, "P.md", "A.md", "Parent-Of");
    graph.add_edge("A.md", "s.md", "similar", w(0.4), EdgeProvenance::SharedTag, EdgeClass::Semantic);

    let lineage = graph.extract_lineage_for_node("A.md").unwrap();
    assert_eq!(lineage.depends_on, vec!["Y.md", "Z.md"]);
    assert_eq!(lineage.child_of, vec!["P.md"]);
    assert_eq!(lineage.outgoing.len(), 2);
    assert_eq!(lineage.outgoing[0].0, "cites");
    assert_eq!(lineage.outgoing[0].1, vec!["c.md"]);
    assert_eq!(lineage.outgoing[1].0, "related");
    assert_eq!(lineage.outgoing[1].1, vec!["b.md", "m.md"]);
    assert!(lineage.incoming.is_empty());
}

#[test]
fn lineage_is_none_for_unknown_or_unlinked_notes() {
    let mut graph = KnowledgeGraph::new();
    assert!(graph.extract_lineage_for_node("nope.md").is_none());
    graph.add_node("lonely.md", Some("Lonely"));
    assert!(graph.extract_lineage_for_node("lonely.md").is_none());
    graph.add_edge("lonely.md", "x.md", "similar", w(0.4), EdgeProvenance::SharedTag, EdgeClass::Semantic);
    assert!(graph.extract_lineage_for_node("lonely.md").is_none());
}

#[test]
fn removing_a_node_keeps_petgraph_edge_order() {
    let mut graph = KnowledgeGraph::new();
    link(&mut graph, "A", "B");
    link(&mut graph, "C", "A");
    link(&mut graph, "X", "Y");
    link(&mut graph, "Z", "W");
    graph.remove_node("A").unwrap();
    let edges = graph.get_all_edges();
    assert_eq!(edges.len(), 2);
    assert_eq!((edges[0].source.as_str(), edges[0].target.as_str()), ("Z", "W"));
    assert_eq!((edges[1].source.as_str(), edges[1].target.as_str()), ("X", "Y"));
}

#[test]
fn dfs_lists_the_successors_of_nodes_below_the_depth_bound() {
    let mut graph = KnowledgeGraph::new();
    link(&mut graph, "A", "B");
    link(&mut graph, "B", "C");
    link(&mut graph, "C", "D");
    link(&mut graph, "D", "E");
    let r = graph.traverse_dfs("A", 3, None, None);
    assert_eq!(r, vec![("B".to_string(), 1), ("C".to_string(), 2), ("D".to_string(), 3)]);
}
