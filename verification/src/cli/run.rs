use crate::cli::options::{CliMode, CliOptions};
use crate::solver::algorithm::hit_leiden::{is_outcome_of, refusal};
use crate::solver::backend::{AccelerationTarget, GraphBackend, GraphSource};
use crate::solver::config::{default_config, RunConfig, RunMode};
use crate::solver::error::HitLeidenError;
use crate::solver::types::{GraphInput, RunOutcome};
use crate::solver::weight::DEFAULT_QUALITY_TOLERANCE;
use vstd::prelude::*;

verus! {

/// The options of a run that a command line stands for: its mode, the backend
/// it names, a graph from a file, the pure kernel, and the default budget and tolerance.
pub open spec fn cli_config(options: &CliOptions) -> RunConfig {
    RunConfig {
        mode: match options.mode {
            CliMode::Deterministic => RunMode::Deterministic,
            CliMode::Throughput => RunMode::Throughput,
        },
        graph_source: GraphSource::File,
        graph_backend: if options.backend@ == "mmap"@ {
            GraphBackend::Mmap
        } else {
            GraphBackend::InMemory
        },
        acceleration: AccelerationTarget::PureRust,
        quality_tolerance: DEFAULT_QUALITY_TOLERANCE,
        max_iterations: 10,
        pinned_profile: None,
    }
}

/// The options of a run that a command line stands for.
pub fn config_from_cli(options: &CliOptions) -> (config: RunConfig)
    ensures
        config == cli_config(options),
{
    let mode = match options.mode {
        CliMode::Deterministic => RunMode::Deterministic,
        CliMode::Throughput => RunMode::Throughput,
    };
    let mmap: String = "mmap".to_string();
    let graph_backend = if options.backend == mmap {
        GraphBackend::Mmap
    } else {
        GraphBackend::InMemory
    };
    RunConfig {
        mode,
        graph_source: GraphSource::File,
        graph_backend,
        acceleration: AccelerationTarget::PureRust,
        quality_tolerance: DEFAULT_QUALITY_TOLERANCE,
        max_iterations: 10,
        pinned_profile: None,
    }
}

/// A first run on a graph with the options of a command line.
pub fn run_from_cli(options: &CliOptions, graph: &GraphInput) -> (result: Result<
    RunOutcome,
    HitLeidenError,
>)
    ensures
        match result {
            Ok(outcome) => refusal(graph, &cli_config(options)) is None && is_outcome_of(
                &outcome,
                graph,
                &cli_config(options),
            ),
            Err(error) => error is InvalidInput && refusal(graph, &cli_config(options)) == Some(
                error->InvalidInput_0@,
            ),
        },
{
    let config = config_from_cli(options);
    crate::run(graph, &config)
}

/// A first run on a graph with the default options.
pub fn run_default(graph: &GraphInput) -> (result: Result<RunOutcome, HitLeidenError>)
    ensures
        match result {
            Ok(outcome) => refusal(graph, &default_config()) is None && is_outcome_of(
                &outcome,
                graph,
                &default_config(),
            ),
            Err(error) => error is InvalidInput && refusal(graph, &default_config()) == Some(
                error->InvalidInput_0@,
            ),
        },
{
    crate::run(graph, &RunConfig::default())
}

} // verus!
