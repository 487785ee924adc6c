use ctxvault::calls::{extract_call_parts, extract_implements, CallNode, SubNode};
use ctxvault::languages::SupportedLanguage;

fn sub(kind: &str, text: &str, fields: &[(&str, &str)]) -> SubNode {
    SubNode {
        kind: kind.to_string(),
        text: text.to_string(),
        fields: fields.iter().map(|(n, t)| (n.to_string(), t.to_string())).collect(),
    }
}

fn call(kind: &str, fields: Vec<(&str, SubNode)>, first_child: Option<SubNode>) -> CallNode {
    CallNode { kind: kind.to_string(), fields: fields.into_iter().map(|(n, s)| (n.to_string(), s)).collect(), first_child }
}

fn parts(c: &CallNode) -> Option<(Option<String>, String)> {
    extract_call_parts(c)
}

#[test]
fn rust_method_call_gives_receiver_and_name() {
    let c = call(
        "method_call_expression",
        vec![("receiver", sub("identifier", " self.store ", &[])), ("name", sub("field_identifier", "get", &[]))],
        None,
    );
    assert_eq!(parts(&c), Some((Some("self.store".to_string()), "get".to_string())));
    let no_name = call("method_call_expression", vec![("receiver", sub("identifier", "x", &[]))], None);
    assert_eq!(parts(&no_name), None);
}

#[test]
fn plain_calls_read_the_function_node() {
    let scoped = call(
        "call_expression",
        vec![("function", sub("scoped_identifier", "Vec::new", &[("path", "Vec"), ("name", "new")]))],
        None,
    );
    assert_eq!(parts(&scoped), Some((Some("Vec".to_string()), "new".to_string())));

    let ident = call("call", vec![], Some(sub("identifier", " helper ", &[])));
    assert_eq!(parts(&ident), Some((None, "helper".to_string())));

    let attr = call("call", vec![("function", sub("attribute", "os.path.join", &[("value", "os.path"), ("attribute", "join")]))], None);
    assert_eq!(parts(&attr), Some((Some("os.path".to_string()), "join".to_string())));

    let other = call("function_call", vec![("function", sub("dot_index_expression", "string.format", &[]))], None);
    assert_eq!(parts(&other), Some((Some("string".to_string()), "format".to_string())));

    let arrow = call("call_expression", vec![("function", sub("qualified", "obj->run", &[]))], None);
    assert_eq!(parts(&arrow), Some((Some("obj".to_string()), "run".to_string())));

    let empty = call("call_expression", vec![("function", sub("weird", "  ", &[]))], None);
    assert_eq!(parts(&empty), None);
}

#[test]
fn csharp_invocation_through_member_access() {
    let c = call(
        "invocation_expression",
        vec![("expression", sub("member_access_expression", "Console.WriteLine", &[("expression", "Console"), ("name", "WriteLine")]))],
        None,
    );
    assert_eq!(parts(&c), Some((Some("Console".to_string()), "WriteLine".to_string())));
    let not_member = call("invocation_expression", vec![("expression", sub("identifier", "Run", &[]))], None);
    assert_eq!(parts(&not_member), None);
    assert_eq!(parts(&call("binary_expression", vec![], None)), None);
}

#[test]
fn rust_trait_impl_relates_type_and_trait() {
    let imp = call(
        "impl_item",
        vec![("trait", sub("type_identifier", " Display ", &[])), ("type", sub("type_identifier", "Token", &[]))],
        None,
    );
    assert_eq!(extract_implements(SupportedLanguage::Rust, &imp), Some(("Token".to_string(), "Display".to_string())));
    let inherent = call("impl_item", vec![("type", sub("type_identifier", "Token", &[]))], None);
    assert_eq!(extract_implements(SupportedLanguage::Rust, &inherent), None);
    assert_eq!(extract_implements(SupportedLanguage::Go, &imp), None);
}
