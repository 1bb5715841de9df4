//! Persona knowledge-graph toolkit for an Omi device: dump transfer, Opus frame
//! recovery, local memory rows and knowledge-graph analytics.

pub mod calendar;
pub mod centrality;
pub mod centrality_laws;
pub mod communities;
pub mod contraction;
pub mod dump_laws;
pub mod dump_session;
pub mod edge_merge;
pub mod enrich;
pub mod enrich_laws;
pub mod graph_analytics;
pub mod graph_laws;
pub mod grouping;
pub mod knowledge_graph;
pub mod level;
pub mod local_db;
pub mod louvain;
pub mod louvain_laws;
pub mod louvain_levels;
pub mod memory_laws;
pub mod modularity_laws;
pub mod natural;
pub mod opus_laws;
pub mod opus_parser;
pub mod opus_stream;
pub mod partition;
pub mod persona;
pub mod rebuild;
pub mod rebuild_laws;
pub mod sums;
pub mod text;
pub mod text_lists;
pub mod un_graph;
pub mod usb_dump;
pub mod zip_back;
