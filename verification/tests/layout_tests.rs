use std::collections::HashMap;

use ctxvault::layout::{
    assign_color_and_type, color_for_entity_type, community_clusters, directory_clusters, extract_directory_key,
    fnv1a_hash, ClusterMode,
};

#[test]
fn directory_keys_take_up_to_three_directories() {
    assert_eq!(extract_directory_key("README.md"), "root");
    assert_eq!(extract_directory_key("src/lib.rs"), "src");
    assert_eq!(extract_directory_key("crates\\core\\src\\graph\\mod.rs"), "crates/core/src");
    assert_eq!(extract_directory_key("/a//b/c.md"), "a/b");
    assert_eq!(extract_directory_key(""), "root");
}

#[test]
fn fnv1a_matches_the_reference_values() {
    assert_eq!(fnv1a_hash(""), 0x811c9dc5);
    assert_eq!(fnv1a_hash("a"), 0xe40c292c);
    assert_eq!(fnv1a_hash("src/graph"), 0x09af79ca);
}

#[test]
fn entity_colours_by_type_and_community() {
    assert_eq!(color_for_entity_type("Function", 0), 0x10b981);
    assert_eq!(color_for_entity_type("INTERFACE", 0), 0xec4899);
    assert_eq!(color_for_entity_type("markdown", 3), 0x3b82f6);
    assert_eq!(color_for_entity_type("whatever", 7), 0x6366f1);
    assert_eq!(color_for_entity_type("whatever", 12), 0x8b5cf6);
}

#[test]
fn colour_assignment_prefers_known_types_then_heuristics() {
    let mut types = HashMap::new();
    types.insert("Engine > search".to_string(), "Method".to_string());
    assert_eq!(
        assign_color_and_type("src/engine.rs::Engine > search", 0, Some(&types)),
        ("Method".to_string(), 0x10b981)
    );
    assert_eq!(assign_color_and_type("docs/guide.md", 0, None), ("DocNode".to_string(), 0x3b82f6));
    assert_eq!(assign_color_and_type("src/main.rs", 0, None), ("Module".to_string(), 0x06b6d4));
    assert_eq!(assign_color_and_type("Engine", 1, None), ("CodeSymbol".to_string(), 0x10b981));
}

#[test]
fn clusters_group_in_order_of_first_appearance() {
    let paths: Vec<String> =
        ["src/a/x.rs", "docs/y.md", "src/a/z.rs", "top.md"].iter().map(|s| s.to_string()).collect();
    let (keys, slots) = directory_clusters(&paths);
    assert_eq!(keys, vec!["src/a", "docs", "root"]);
    assert_eq!(slots, vec![0, 1, 0, 2]);
    let (comms, slots) = community_clusters(&[4, 4, 1, 4, 2]);
    assert_eq!(comms, vec![4, 1, 2]);
    assert_eq!(slots, vec![0, 0, 1, 0, 2]);
    assert_eq!(ClusterMode::default(), ClusterMode::Directory);
}
