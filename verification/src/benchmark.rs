//! Benchmark bookkeeping: profiles, the release gate and edge batches.

pub mod compare;
pub mod dynamic_graph;
pub mod hardware_profile;
pub mod hit_leiden_incremental;
pub mod manifest;
pub mod release_gate;
pub mod runner;
