//! A local knowledge base over Markdown: chunking and indexing of a corpus, an
//! ontology that grows with it, and the tools by which agents query both.

pub mod candidate_laws;
pub mod chunk_laws;
pub mod chunk_run;
pub mod chunker;
pub mod clock;
pub mod config;
pub mod embedding_cache;
pub mod engine;
pub mod engine_laws;
pub mod frontmatter;
pub mod frontmatter_laws;
pub mod graph;
pub mod graph_laws;
pub mod hashing;
pub mod ids;
pub mod ingest;
pub mod ingest_laws;
pub mod known;
pub mod learning;
pub mod metrics;
pub mod model;
pub mod offsets;
pub mod order;
pub mod path_laws;
pub mod paths;
pub mod profiles;
pub mod projects;
pub mod reach;
pub mod records;
pub mod registry;
pub mod registry_laws;
pub mod rows;
pub mod runtime;
pub mod scan;
pub mod scan_laws;
pub mod scores;
pub mod search;
pub mod search_laws;
pub mod setup;
pub mod setup_laws;
pub mod supply;
pub mod text;
pub mod text_laws;
pub mod tools;
pub mod tools_laws;
pub mod views;
pub mod watch;
pub mod words;
