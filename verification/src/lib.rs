//! Incremental hierarchical community detection on weighted undirected graphs.
//!
//! Every real-valued quantity (edge weights, the resolution, tolerances,
//! quality scores) is a fixed-point `i64` counting millionths, so that every
//! decision of the solver is exact integer arithmetic.

pub mod accel;
pub mod benchmark;
pub mod cli;
pub mod solver;

pub use solver::backend::{AccelerationTarget, GraphBackend, GraphSource};
pub use solver::config::{RunConfig, RunMode};
pub use solver::error::HitLeidenError;
pub use solver::report::{BenchmarkOutcome, ValidationOutcome};
pub use solver::types::{GraphInput, RunOutcome};

use benchmark::hardware_profile::HardwareProfile;
use benchmark::runner::nominal_gain;
use solver::algorithm::hit_leiden::{is_outcome_of, refusal};
use solver::backend::reason_is;
use solver::graph::neo4j_mapping::ProjectionConfig;
use solver::graph::neo4j_snapshot::Neo4jSourceConfig;
use solver::validation::equivalence::is_report_of;
use solver::weight::DEFAULT_QUALITY_TOLERANCE;
use vstd::prelude::*;

verus! {

/// A first run on a graph.
///
/// Refuses the input with `InvalidInput` where the options or the graph are
/// malformed; else the outcome holds the partition found.
pub fn run(graph: &GraphInput, config: &RunConfig) -> (result: Result<RunOutcome, HitLeidenError>)
    ensures
        match result {
            Ok(outcome) => refusal(graph, config) is None && is_outcome_of(&outcome, graph, config),
            Err(error) => error is InvalidInput && refusal(graph, config) == Some(
                error->InvalidInput_0@,
            ),
        },
{
    solver::algorithm::hit_leiden::run(graph, config)
}

/// The graph of a snapshot of a graph database: named after the snapshot, and
/// as yet without nodes or edges.
pub fn project_from_neo4j(source_config: &Neo4jSourceConfig, projection_config: &ProjectionConfig) -> (projected:
    Result<GraphInput, HitLeidenError>)
    ensures
        projected is Ok,
        projected->Ok_0.dataset_id@ == "neo4j:"@ + projection_config.snapshot_id@,
        projected->Ok_0.node_count == 0,
        projected->Ok_0.edges@.len() == 0,
{
    solver::graph::neo4j_snapshot::project_from_neo4j(source_config, projection_config)
}

/// Compares a candidate outcome with a reference: node by node in
/// deterministic mode, by the quality scores in throughput mode, with the
/// tolerance of 0.001 that options have where none is given.
pub fn validate(reference: &RunOutcome, candidate: &RunOutcome, mode: RunMode) -> (report:
    ValidationOutcome)
    requires
        reference.partition is Some,
        candidate.partition is Some,
    ensures
        is_report_of(&report, reference, candidate, mode, DEFAULT_QUALITY_TOLERANCE),
{
    solver::validation::equivalence::validate(reference, candidate, mode)
}

/// Compares a candidate build with a baseline on a benchmark suite.
pub fn compare_baseline(
    baseline_commit: &str,
    candidate_commit: &str,
    benchmark_suite: &str,
    profile: &HardwareProfile,
) -> (outcome: BenchmarkOutcome)
    ensures
        outcome.baseline_commit@ == baseline_commit@,
        outcome.candidate_commit@ == candidate_commit@,
        outcome.benchmark_suite@ == benchmark_suite@,
        outcome.median_throughput_gain == nominal_gain(baseline_commit@ == candidate_commit@),
        outcome.reproducible,
        outcome.release_gate_eligible == profile.pinned,
        profile.pinned ==> outcome.release_gate_reason is None,
        !profile.pinned ==> reason_is(outcome.release_gate_reason, "UNPINNED_HARDWARE_PROFILE"@),
{
    benchmark::compare::compare_baseline(
        baseline_commit,
        candidate_commit,
        benchmark_suite,
        profile,
    )
}

} // verus!
