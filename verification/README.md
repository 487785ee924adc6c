# ctxvault

The verified core of a local knowledge base over Markdown notes and source code, written in
Verus. Every function under `src/` carries a `requires`/`ensures` contract that Verus proves;
the few calls into `petgraph`, `ignore`, `serde_json` and `std` that it cannot read go through
small trusted wrappers whose contracts are documented where they are declared.

## Layout

- `src/` — the library:
  - `graph.rs`, `traverse.rs`, `reach.rs`, `graph_laws.rs` — the knowledge graph (on
    `petgraph`) with breadth- and depth-first traversals, shortest paths and the laws relating
    them;
  - `cycles.rs`, `lineage.rs`, `links.rs`, `graph_report.rs`, `tiers.rs`, `taxonomy.rs` —
    reports over the graph;
  - `query.rs`, `query_filter.rs`, `matching.rs` — the Cypher-like path pattern language: its
    parser, node and `where` filters, and the decisions of a pattern match;
  - `classifier.rs`, `languages.rs`, `chunker.rs`, `skeleton.rs`, `symbols.rs`, `imports.rs`,
    `calls.rs`, `code_graph.rs` — file classification (with `ignore` glob patterns), code
    chunking and the code graph;
  - `search.rs`, `indexing.rs`, `batching.rs`, `corpus.rs`, `cross_corpus.rs`, `model.rs`,
    `gpu.rs`, `layout.rs` and the rest — query decomposition, indexing plans, embedding batch
    sizing, adapter choice and the graph viewer's helpers.
- `tests/` — ordinary Rust tests against the library.
- `app/` — the unverified edge: persistence, floating-point pooling and community detection,
  hardware probing and the per-platform batch governors.

Verify with Verus on `src/lib.rs`; the tests run with `cargo test`.
