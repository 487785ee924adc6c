use ctxvault::graph::{EdgeClass, KnowledgeGraph};
use ctxvault::graph_build::{
    extract_frontmatter_targets, Document, EdgeDirection, EdgeSource, EdgeTypeConfig, FrontmatterValue, Wikilink,
};

fn doc(path: &str, links: &[&str], fm: Option<Vec<(String, FrontmatterValue)>>) -> Document {
    Document {
        path: path.to_string(),
        title: None,
        tags: vec![],
        wikilinks: links.iter().map(|t| Wikilink { target: t.to_string() }).collect(),
        frontmatter: fm,
    }
}

fn config(name: &str, source: EdgeSource) -> EdgeTypeConfig {
    EdgeTypeConfig {
        name: name.to_string(),
        source,
        weight_bits: 1.0f32.to_bits(),
        bidirectional: false,
        field: None,
        direction: None,
        max_frequency: None,
        class: None,
    }
}

fn targets_of(graph: &KnowledgeGraph, path: &str, ty: &str) -> Vec<String> {
    graph
        .forwardlinks(path, None)
        .into_iter()
        .filter(|(t, _)| t == ty)
        .flat_map(|(_, v)| v)
        .collect()
}

#[test]
fn wikilinks_become_edges() {
    let mut graph = KnowledgeGraph::new();
    let d = doc("note.md", &["target1.md", "target2.md"], None);
    graph.add_node(&d.path, None);
    graph.build_wikilink_edges(&d, &config("Wikilink", EdgeSource::Wikilink));
    assert_eq!(graph.edge_count(), 2);
    assert!(graph.get_node("target1.md").is_some());
    assert!(graph.get_node("target2.md").is_some());
    let t = targets_of(&graph, "note.md", "Wikilink");
    assert!(t.contains(&"target1.md".to_string()));
    assert!(t.contains(&"target2.md".to_string()));
}

#[test]
fn bidirectional_wikilinks_go_both_ways() {
    let mut graph = KnowledgeGraph::new();
    let d = doc("a.md", &["b.md"], None);
    let mut c = config("Related", EdgeSource::Wikilink);
    c.bidirectional = true;
    graph.build_wikilink_edges(&d, &c);
    assert_eq!(graph.edge_count(), 2);
    assert_eq!(targets_of(&graph, "a.md", "Related"), vec!["b.md".to_string()]);
    assert_eq!(targets_of(&graph, "b.md", "Related"), vec!["a.md".to_string()]);
}

#[test]
fn frontmatter_targets_from_string_and_array() {
    let fm = vec![
        ("title".to_string(), FrontmatterValue::Text("T".to_string())),
        ("supersedes".to_string(), FrontmatterValue::List(vec![Some("x.md".to_string()), None, Some("y.md".to_string())])),
        ("implements".to_string(), FrontmatterValue::Text("design.md".to_string())),
        ("weight".to_string(), FrontmatterValue::Other),
    ];
    assert_eq!(extract_frontmatter_targets(&fm, "supersedes"), vec!["x.md".to_string(), "y.md".to_string()]);
    assert_eq!(extract_frontmatter_targets(&fm, "implements"), vec!["design.md".to_string()]);
    assert!(extract_frontmatter_targets(&fm, "weight").is_empty());
    assert!(extract_frontmatter_targets(&fm, "missing").is_empty());
}

#[test]
fn frontmatter_edges_follow_direction() {
    let fm = vec![("supersedes".to_string(), FrontmatterValue::Text("old.md".to_string()))];
    let d = doc("new.md", &[], Some(fm));
    let mut c = config("supersedes", EdgeSource::Frontmatter);
    c.field = Some("supersedes".to_string());

    let mut out = KnowledgeGraph::new();
    out.build_frontmatter_edges(&d, &c);
    assert_eq!(targets_of(&out, "new.md", "supersedes"), vec!["old.md".to_string()]);
    assert!(targets_of(&out, "old.md", "supersedes").is_empty());

    c.direction = Some(EdgeDirection::Inbound);
    let mut inb = KnowledgeGraph::new();
    inb.build_frontmatter_edges(&d, &c);
    assert_eq!(targets_of(&inb, "old.md", "supersedes"), vec!["new.md".to_string()]);
    assert!(targets_of(&inb, "new.md", "supersedes").is_empty());

    // No field configured: nothing is added.
    let mut none = KnowledgeGraph::new();
    none.build_frontmatter_edges(&d, &config("supersedes", EdgeSource::Frontmatter));
    assert_eq!(none.edge_count(), 0);
}

#[test]
fn edge_class_is_inferred_from_source() {
    assert_eq!(EdgeClass::infer_from_source(&EdgeSource::Tag), EdgeClass::Semantic);
    assert_eq!(EdgeClass::infer_from_source(&EdgeSource::Wikilink), EdgeClass::StructuralLink);
    assert_eq!(EdgeClass::infer_from_source(&EdgeSource::Frontmatter), EdgeClass::StructuralLink);
}
