pub mod writer;

use crate::solver::backend::ResolutionMetadata;
use vstd::prelude::*;

verus! {

/// The outcome of a run in the form of a report: the partition, its quality,
/// and what the run resolved to.
#[derive(Clone, Debug, PartialEq)]
pub struct RunOutcome {
    pub run_id: String,
    pub partition: Vec<usize>,
    /// Fixed-point, in millionths.
    pub quality_score: i64,
    pub resolution: ResolutionMetadata,
}

/// What the comparison of a candidate with a reference found.
#[derive(Clone, Debug, PartialEq)]
pub struct ValidationOutcome {
    pub hard_invariants_passed: bool,
    pub deterministic_identity_passed: Option<bool>,
    /// Fixed-point, in millionths.
    pub quality_delta_vs_reference: Option<i64>,
    pub equivalence_passed: bool,
}

/// What the comparison of two builds on a benchmark suite found.
#[derive(Clone, Debug, PartialEq)]
pub struct BenchmarkOutcome {
    pub baseline_commit: String,
    pub candidate_commit: String,
    pub benchmark_suite: String,
    /// Fixed-point, in millionths.
    pub median_throughput_gain: i64,
    pub reproducible: bool,
    pub release_gate_eligible: bool,
    pub release_gate_reason: Option<String>,
}

} // verus!
