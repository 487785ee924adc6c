use ctxvault::skeleton::{
    build_file_skeleton_chunks, build_skeleton_header, embedding_text, estimate_tokens, group_by_container_scope, Chunk,
    ChunkEmbedPolicy,
};

fn chunk(path: &str, index: usize, text: &str) -> Chunk {
    Chunk {
        doc_path: path.to_string(),
        chunk_index: index,
        text: text.to_string(),
        language: None,
        scope_path: None,
        embed_policy: ChunkEmbedPolicy::Anchor,
        skeleton_text: None,
    }
}

fn make_test_chunk(index: usize, scope: &str, skeleton: &str) -> Chunk {
    let mut c = chunk("src/auth.rs", index, "full body");
    c.language = Some("rust".to_string());
    c.scope_path = Some(scope.to_string());
    c.embed_policy = ChunkEmbedPolicy::Anchor;
    c.skeleton_text = Some(skeleton.to_string());
    c
}

#[test]
fn test_file_skeleton_chunks_groups_by_scope() {
    let chunks = vec![
        make_test_chunk(0, "AuthService", "pub struct AuthService;"),
        make_test_chunk(1, "AuthService > login", "pub fn login(&self);"),
        make_test_chunk(2, "AuthService > logout", "pub fn logout(&self);"),
        make_test_chunk(3, "helper", "pub fn helper();"),
        make_test_chunk(4, "Token", "pub struct Token;"),
        make_test_chunk(5, "Token > verify", "pub fn verify(&self);"),
    ];

    let pending = build_file_skeleton_chunks("src/auth.rs", &chunks, 512);
    // All skeletons easily fit into 512 tokens -> exactly 1 file-level PendingChunk
    assert_eq!(pending.len(), 1);
    assert_eq!(pending[0].doc_path, "src/auth.rs");
    assert_eq!(pending[0].chunk_index, 0);
    assert_eq!(pending[0].embed_policy, ChunkEmbedPolicy::Anchor);
    assert_eq!(pending[0].modality, "code");

    // Verify the rendered content contains all signatures
    assert!(pending[0].text.contains("// File: src/auth.rs | rust"));
    assert!(pending[0].text.contains("pub struct AuthService;"));
    assert!(pending[0].text.contains("pub fn login(&self);"));
    assert!(pending[0].text.contains("pub fn logout(&self);"));
    assert!(pending[0].text.contains("pub fn helper();"));
    assert!(pending[0].text.contains("pub struct Token;"));
    assert!(pending[0].text.contains("pub fn verify(&self);"));
}

#[test]
fn test_file_skeleton_chunks_respects_token_limit() {
    // Create 10 chunks, each with ~100 characters (~25 tokens)
    let mut chunks = Vec::new();
    for i in 0..10 {
        let sig = format!("pub fn very_long_function_signature_number_{i}() -> Result<(), Error>;");
        chunks.push(make_test_chunk(i, "Service > fn", &sig));
    }

    // Set max_tokens to a small value (e.g. 50 tokens)
    let pending = build_file_skeleton_chunks("src/lib.rs", &chunks, 50);
    assert!(pending.len() > 1, "Should split into multiple pending chunks");
    for p in &pending {
        assert_eq!(p.doc_path, "src/lib.rs");
        assert_eq!(p.embed_policy, ChunkEmbedPolicy::Anchor);
    }
}

#[test]
fn test_empty_chunks_returns_empty() {
    let pending = build_file_skeleton_chunks("src/empty.rs", &[], 512);
    assert!(pending.is_empty());

    let mut graph_only = chunk("src/tests.rs", 0, "fn test_foo() {}");
    graph_only.embed_policy = ChunkEmbedPolicy::GraphOnly;
    let graph_only_chunks = vec![graph_only];
    let pending_graph = build_file_skeleton_chunks("src/tests.rs", &graph_only_chunks, 512);
    assert!(pending_graph.is_empty());
}

#[test]
fn estimate_tokens_rounds_bytes_up_to_fours() {
    assert_eq!(estimate_tokens(""), 0);
    assert_eq!(estimate_tokens("abcd"), 1);
    assert_eq!(estimate_tokens("abcde"), 2);
    // 'é' takes two bytes in UTF-8.
    assert_eq!(estimate_tokens("éé"), 1);
    assert_eq!(estimate_tokens("ééé"), 2);
}

#[test]
fn header_names_path_and_first_language() {
    let mut a = chunk("x.rs", 0, "a");
    let mut b = chunk("x.rs", 1, "b");
    assert_eq!(build_skeleton_header("x.rs", &[a.clone()]), "// File: x.rs");
    b.language = Some("python".to_string());
    assert_eq!(build_skeleton_header("x.rs", &[a.clone(), b.clone()]), "// File: x.rs | python");
    a.language = Some(String::new());
    assert_eq!(build_skeleton_header("x.rs", &[a, b]), "// File: x.rs");
}

#[test]
fn groups_follow_first_appearance_and_containers() {
    let c0 = make_test_chunk(0, "Token > verify", "v");
    let c1 = make_test_chunk(1, "helper", "h");
    let c2 = make_test_chunk(2, " Token ", "t");
    let c3 = make_test_chunk(3, "Auth >  login ", "l");
    let mut c4 = make_test_chunk(4, "", "n");
    c4.scope_path = None;
    let refs = vec![&c0, &c1, &c2, &c3, &c4];
    let groups = group_by_container_scope(&refs);
    let names: Vec<&str> = groups.iter().map(|(n, _)| n.as_str()).collect();
    assert_eq!(names, vec!["Token", "", "Auth"]);
    let idx: Vec<Vec<usize>> = groups.iter().map(|(_, g)| g.iter().map(|c| c.chunk_index).collect()).collect();
    assert_eq!(idx, vec![vec![0, 2], vec![1, 4], vec![3]]);
}

#[test]
fn continuation_chunks_carry_a_breadcrumb() {
    let chunks = vec![
        make_test_chunk(0, "Svc > a", "aaaaaaaaaaaaaaaaaaaaaaaaaaaaaaaaaaaaaaaa"),
        make_test_chunk(1, "Svc > b", "bbbbbbbbbbbbbbbbbbbbbbbbbbbbbbbbbbbbbbbb"),
    ];
    let pending = build_file_skeleton_chunks("s.rs", &chunks, 15);
    assert_eq!(pending.len(), 2);
    assert_eq!(pending[0].chunk_index, 0);
    assert_eq!(pending[1].chunk_index, 1);
    assert_eq!(pending[0].text, "// File: s.rs | rust\n\naaaaaaaaaaaaaaaaaaaaaaaaaaaaaaaaaaaaaaaa");
    assert_eq!(
        pending[1].text,
        "// File: s.rs | rust\n// (continued Svc)\n\nbbbbbbbbbbbbbbbbbbbbbbbbbbbbbbbbbbbbbbbb"
    );
}

#[test]
fn embedding_text_prefixes_title_and_section() {
    assert_eq!(embedding_text(Some(" Guide "), Some("Setup > Install\n"), "body"), "Guide > Setup > Install: body");
    assert_eq!(embedding_text(Some("Guide"), None, "body"), "Guide: body");
    assert_eq!(embedding_text(Some("  "), Some("Intro"), "body"), "Intro: body");
    assert_eq!(embedding_text(None, Some(""), "body"), "body");
}
