//! What is checked of a run's outcome.

pub mod equivalence;
pub mod invariants;
pub mod quality;
