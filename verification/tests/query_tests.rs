use ctxvault::query::{parse_path_pattern, PatternError, QueryDirection};

#[test]
fn test_parse_simple_pattern() {
    let pattern = parse_path_pattern("(:CodeSymbol {name: 'SelectVictimsOnNode'})-[:implements]->(:Interface)<-[:calls*1..2]-(c:CodeSymbol)").unwrap();
    assert_eq!(pattern.start_node.label.as_deref(), Some("CodeSymbol"));
    assert_eq!(
        pattern.start_node.properties.get("name").map(|s| s.as_str()),
        Some("SelectVictimsOnNode")
    );
    assert_eq!(pattern.steps.len(), 2);

    let (ref e1, ref n1) = pattern.steps[0];
    assert_eq!(e1.direction, QueryDirection::Outgoing);
    assert_eq!(e1.edge_types, vec!["implements"]);
    assert_eq!(n1.label.as_deref(), Some("Interface"));

    let (ref e2, ref n2) = pattern.steps[1];
    assert_eq!(e2.direction, QueryDirection::Incoming);
    assert_eq!(e2.edge_types, vec!["calls"]);
    assert_eq!(e2.min_hops, 1);
    assert_eq!(e2.max_hops, 2);
    assert_eq!(n2.variable.as_deref(), Some("c"));
    assert_eq!(n2.label.as_deref(), Some("CodeSymbol"));
}

#[test]
fn test_parse_doc_pattern() {
    let pattern = parse_path_pattern(
        "(:DocNode {title: 'Manifest Admission'})-[:wikilink*1..2]->(related:DocNode)",
    )
    .unwrap();
    assert_eq!(pattern.start_node.label.as_deref(), Some("DocNode"));
    assert_eq!(
        pattern.start_node.properties.get("title").map(|s| s.as_str()),
        Some("Manifest Admission")
    );
    assert_eq!(pattern.steps.len(), 1);
    let (ref e, ref n) = pattern.steps[0];
    assert_eq!(e.edge_types, vec!["wikilink"]);
    assert_eq!(n.variable.as_deref(), Some("related"));
    assert_eq!(n.label.as_deref(), Some("DocNode"));
}

#[test]
fn test_parse_shorthand_arrows() {
    let pattern = parse_path_pattern("(a)-->(b)<--(c)--(d)").unwrap();
    assert_eq!(pattern.steps.len(), 3);
    assert_eq!(pattern.steps[0].0.direction, QueryDirection::Outgoing);
    assert_eq!(pattern.steps[1].0.direction, QueryDirection::Incoming);
    assert_eq!(pattern.steps[2].0.direction, QueryDirection::Undirected);
}

#[test]
fn parse_undirected_multi_type_edge_with_open_range() {
    let p = parse_path_pattern("(a)-[:calls|imports*2..]-(b)").unwrap();
    let (ref e, _) = p.steps[0];
    assert_eq!(e.direction, QueryDirection::Undirected);
    assert_eq!(e.edge_types, vec!["calls", "imports"]);
    assert_eq!(e.min_hops, 2);
    assert_eq!(e.max_hops, 5);
}

#[test]
fn parse_hops_single_number_and_swapped_range() {
    let p = parse_path_pattern("(a)-[*3]->(b)").unwrap();
    assert_eq!(p.steps[0].0.min_hops, 3);
    assert_eq!(p.steps[0].0.max_hops, 3);
    assert!(p.steps[0].0.edge_types.is_empty());
    let p = parse_path_pattern("(a)-[:x*4..2]->(b)").unwrap();
    assert_eq!(p.steps[0].0.min_hops, 4);
    assert_eq!(p.steps[0].0.max_hops, 4);
}

#[test]
fn parse_hops_overflow_falls_back() {
    let p = parse_path_pattern("(a)-[*99999999999999999999999..]->(b)").unwrap();
    assert_eq!(p.steps[0].0.min_hops, 1);
    assert_eq!(p.steps[0].0.max_hops, 5);
}

#[test]
fn parse_properties_later_binding_wins() {
    let p = parse_path_pattern("(n {name: \"a\", path: x.md, name: 'b',})").unwrap();
    let props = &p.start_node.properties;
    assert_eq!(props.len(), 2);
    assert_eq!(props.get("name").map(|s| s.as_str()), Some("b"));
    assert_eq!(props.get("path").map(|s| s.as_str()), Some("x.md"));
    assert!(props.get("title").is_none());
}

#[test]
fn parse_errors() {
    assert!(matches!(
        parse_path_pattern("a)"),
        Err(PatternError::ExpectedToken { ref token, ref at }) if token == "(" && at == "a)"
    ));
    assert!(matches!(parse_path_pattern("(a {k: 'v)"), Err(PatternError::UnterminatedString)));
    assert!(matches!(
        parse_path_pattern("(a {: 'v'})"),
        Err(PatternError::ExpectedPropertyKey { ref at }) if at == ": 'v'})"
    ));
    assert!(matches!(
        parse_path_pattern("(a {k: })"),
        Err(PatternError::ExpectedPropertyValue { ref at }) if at == "})"
    ));
    assert!(matches!(
        parse_path_pattern("(a {k: v v})"),
        Err(PatternError::ExpectedPropertySeparator { ref at }) if at == "v})"
    ));
    assert!(matches!(
        parse_path_pattern("(a) x"),
        Err(PatternError::TrailingInput { ref at }) if at == "x"
    ));
    assert!(matches!(
        parse_path_pattern("(a)-[:x->(b)"),
        Err(PatternError::ExpectedToken { ref token, .. }) if token == "]"
    ));
}
