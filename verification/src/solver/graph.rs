//! Graphs in compressed sparse row form, and where they come from.

pub mod growth;
pub mod in_memory;
pub mod mmap;
pub mod neo4j_mapping;
pub mod neo4j_snapshot;
