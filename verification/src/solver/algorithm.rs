//! The operators of the solver and what they share.

pub mod aggregation;
pub mod components;
pub mod degrees;
pub mod dense;
pub mod deterministic;
pub mod gain;
pub mod hierarchy;
pub mod hit_leiden;
pub mod levels;
pub mod merge;
pub mod movement;
pub mod parallel_frontier;
pub mod refinement;
pub mod replay;
pub mod small;
pub mod sorting;
pub mod throughput;
