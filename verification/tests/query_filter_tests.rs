use ctxvault::query::parse_path_pattern;
use ctxvault::query_filter::{eval_where_filter, matches_node_constraints};

#[test]
fn name_property_matches_whole_id_or_suffix() {
    let p = parse_path_pattern("(c:CodeSymbol {name: 'login'})").unwrap();
    assert!(matches_node_constraints("login", &p.start_node));
    assert!(matches_node_constraints("auth::AuthService::login", &p.start_node));
    assert!(!matches_node_constraints("login_user", &p.start_node));
}

#[test]
fn path_property_matches_exactly() {
    let p = parse_path_pattern("(d:DocNode {path: 'docs/a.md'})").unwrap();
    assert!(matches_node_constraints("docs/a.md", &p.start_node));
    assert!(!matches_node_constraints("docs/a.md.bak", &p.start_node));
    let free = parse_path_pattern("(d:DocNode)").unwrap();
    assert!(matches_node_constraints("anything", &free.start_node));
}

#[test]
fn where_contains_requires_every_target() {
    assert!(eval_where_filter("src/Auth/Login.rs", "path CONTAINS 'auth' AND path contains \"login\""));
    assert!(!eval_where_filter("src/auth/logout.rs", "path contains 'auth' and path contains 'login'"));
}

#[test]
fn where_not_contains_rejects_any_target() {
    assert!(!eval_where_filter("tests/auth_test.rs", "path NOT CONTAINS 'test'"));
    assert!(eval_where_filter("src/auth.rs", "path not contains 'test'"));
}

#[test]
fn where_without_contains_passes() {
    assert!(eval_where_filter("anything", "name = 'x'"));
    assert!(eval_where_filter("anything", ""));
}
