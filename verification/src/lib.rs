//! Verified core logic of a markdown and source-code knowledge base: language detection,
//! file classification, query-pattern parsing, query decomposition, skeleton and code
//! chunking, the knowledge graph with its traversals, reports and lineage, code-graph
//! resolution, corpus routing, incremental-indexing decisions, embedding batching, GPU
//! adapter choice and the graph viewer's layout helpers and level-of-detail views.
pub mod text;
pub mod query;
pub mod languages;
pub mod search;
pub mod layout;
pub mod reach;
pub mod graph;
pub mod traverse;
pub mod graph_report;
pub mod links;
pub mod taxonomy;
pub mod lineage;
pub mod model;
pub mod records;
pub mod classifier;
pub mod cycles;
pub mod graph_laws;
pub mod skeleton;
pub mod graph_build;
pub mod query_filter;
pub mod matching;
pub mod imports;
pub mod cross_corpus;
pub mod calls;
pub mod symbols;
pub mod chunker;
pub mod order;
pub mod annotation;
pub mod code_graph;
pub mod gpu;
pub mod corpus;
pub mod tiers;
pub mod indexing;
pub mod batching;
