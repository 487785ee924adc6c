use ctxvault::graph::{EdgeClass, EdgeProvenance, KnowledgeGraph};

fn link(g: &mut KnowledgeGraph, a: &str, b: &str) {
    g.add_edge(a, b, "Link", 1.0f32.to_bits(), EdgeProvenance::Wikilink, EdgeClass::StructuralLink);
}

fn sample() -> KnowledgeGraph {
    let mut g = KnowledgeGraph::new();
    // hub: 2 out, 1 in; a: 1 in, 1 out; b: 1 in; c: 1 out; lone: none
    link(&mut g, "hub", "a");
    link(&mut g, "hub", "b");
    link(&mut g, "c", "hub");
    link(&mut g, "a", "d");
    g.add_node("lone", None);
    g
}

#[test]
fn hubs_are_the_highest_degree_nodes_within_budget() {
    let g = sample();
    let paths: Vec<String> = g.node_entries().iter().map(|n| n.path.clone()).collect();
    let names = |v: &[usize]| v.iter().map(|&i| paths[i].clone()).collect::<Vec<_>>();
    assert_eq!(names(&g.hub_nodes(1)), vec!["hub"]);
    assert_eq!(names(&g.hub_nodes(2)), vec!["hub", "a"]);
    assert_eq!(g.hub_nodes(100).len(), paths.len());
    assert!(g.hub_nodes(0).is_empty());
    assert_eq!(names(&g.hub_nodes(100)).last().unwrap(), "lone");
}

#[test]
fn local_edges_keep_only_edges_among_the_picked() {
    let g = sample();
    let picked = g.hub_nodes(3);
    let edges = g.local_edges_among(&picked);
    // hub, a and then the first of the degree-1 nodes by index (b): edges hub->a, hub->b.
    assert_eq!(edges.len(), 2);
    assert_eq!((edges[0].0, edges[0].1), (0, 1));
    assert_eq!(edges[0].2, "Link");
    assert_eq!(edges[0].3, 1.0f32.to_bits());
    assert_eq!((edges[1].0, edges[1].1), (0, 2));
}

#[test]
fn ego_neighbourhood_follows_edges_both_ways() {
    let g = sample();
    let paths: Vec<String> = g.node_entries().iter().map(|n| n.path.clone()).collect();
    let names = |v: Vec<usize>| {
        let mut n: Vec<String> = v.iter().map(|&i| paths[i].clone()).collect();
        n.sort();
        n
    };
    assert_eq!(names(g.ego_nodes("a", 0).unwrap()), vec!["a"]);
    assert_eq!(names(g.ego_nodes("a", 1).unwrap()), vec!["a", "d", "hub"]);
    assert_eq!(names(g.ego_nodes("a", 2).unwrap()), vec!["a", "b", "c", "d", "hub"]);
    assert_eq!(names(g.ego_nodes("a", usize::MAX).unwrap()), vec!["a", "b", "c", "d", "hub"]);
    assert!(g.ego_nodes("missing", 3).is_none());
}
