//! The solver: graph, partition state, operators and validation.

pub mod backend;
pub mod config;
pub mod error;
pub mod runtime;
pub mod text;
pub mod weight;
pub mod algorithm;
pub mod graph;
pub mod types;
pub mod partition;
pub mod report;
pub mod validation;
