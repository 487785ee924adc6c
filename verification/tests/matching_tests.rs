use ctxvault::matching::{collect_matches, expand_step, match_limits, step_hops, PathState};
use ctxvault::query::{parse_path_pattern, QueryDirection};

fn state(node: &str, depth: usize, path: &str) -> PathState {
    PathState { node: node.to_string(), depth, path: path.to_string() }
}

#[test]
fn limits_are_clamped() {
    assert_eq!(match_limits(0, 0), (1, 1));
    assert_eq!(match_limits(250, 9), (100, 5));
    assert_eq!(match_limits(20, 3), (20, 3));
}

#[test]
fn step_hops_are_bounded_by_the_cap() {
    let p = parse_path_pattern("(a)-[:calls*0..9]->(b)").unwrap();
    assert_eq!(step_hops(&p.steps[0].0, 3), (1, 3));
    let q = parse_path_pattern("(a)-[:calls*2..4]->(b)").unwrap();
    assert_eq!(step_hops(&q.steps[0].0, 5), (2, 4));
}

#[test]
fn expansion_keeps_hits_that_pass_the_next_node() {
    let p = parse_path_pattern("(a:Fn {name: 'main'})-[:calls]->(b:Fn {name: 'login'})").unwrap();
    let current = vec![state("main", 0, "main"), state("util::main", 1, "x -> util::main")];
    let hits = vec![
        vec![("auth::login".to_string(), 1), ("auth::logout".to_string(), 1)],
        vec![("login".to_string(), 2)],
    ];
    let next = expand_step(&current, &hits, QueryDirection::Outgoing, &p.steps[0].1);
    assert_eq!(next.len(), 2);
    assert_eq!(next[0].node, "auth::login");
    assert_eq!(next[0].depth, 1);
    assert_eq!(next[0].path, "main -> auth::login");
    assert_eq!(next[1].node, "login");
    assert_eq!(next[1].depth, 3);
    assert_eq!(next[1].path, "x -> util::main -> login");
    let back = expand_step(&current[..1], &hits[..1], QueryDirection::Incoming, &p.steps[0].1);
    assert_eq!(back[0].path, "main <- auth::login");
}

#[test]
fn matches_pass_the_where_filter_up_to_the_room_left() {
    let terms = vec![state("a::test_x", 1, "p"), state("a::x", 1, "q"), state("a::y", 2, "r"), state("b::z", 2, "s")];
    let kept = collect_matches(&terms, Some("name not contains 'test'"), 2);
    assert_eq!(kept.len(), 2);
    assert_eq!(kept[0].node, "a::x");
    assert_eq!(kept[1].node, "a::y");
    let all = collect_matches(&terms, None, 10);
    assert_eq!(all.len(), 4);
    assert_eq!(all[3].path, "s");
    assert!(collect_matches(&terms, None, 0).is_empty());
}
