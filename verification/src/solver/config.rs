use crate::solver::backend::{AccelerationTarget, GraphBackend, GraphSource};
use crate::solver::weight::DEFAULT_QUALITY_TOLERANCE;
use vstd::prelude::*;

verus! {

/// How ties and scheduling are handled.
#[derive(Clone, Copy, Debug, PartialEq, Eq, Structural)]
pub enum RunMode {
    /// One node at a time, in ascending id order.
    Deterministic,
    /// Frontier rounds, each evaluated against a snapshot and applied at its end.
    Throughput,
}

/// The options of a run.
#[derive(Clone, Debug, PartialEq)]
pub struct RunConfig {
    pub mode: RunMode,
    pub graph_source: GraphSource,
    pub graph_backend: GraphBackend,
    pub acceleration: AccelerationTarget,
    /// Fixed-point, in millionths.
    pub quality_tolerance: i64,
    /// The step budget of each movement pass, in sweeps over the level's nodes.
    pub max_iterations: usize,
    pub pinned_profile: Option<String>,
}

/// The options that are used where none are given: deterministic mode, a
/// graph from a file held in memory, the pure kernel, a tolerance of 0.001, a
/// step budget of ten sweeps, and no pinned profile.
pub open spec fn default_config() -> RunConfig {
    RunConfig {
        mode: RunMode::Deterministic,
        graph_source: GraphSource::File,
        graph_backend: GraphBackend::InMemory,
        acceleration: AccelerationTarget::PureRust,
        quality_tolerance: DEFAULT_QUALITY_TOLERANCE,
        max_iterations: 10,
        pinned_profile: None,
    }
}

impl Default for RunConfig {
    fn default() -> (config: Self)
        ensures
            config == default_config(),
    {
        RunConfig {
            mode: RunMode::Deterministic,
            graph_source: GraphSource::File,
            graph_backend: GraphBackend::InMemory,
            acceleration: AccelerationTarget::PureRust,
            quality_tolerance: DEFAULT_QUALITY_TOLERANCE,
            max_iterations: 10,
            pinned_profile: None,
        }
    }
}

/// Whether `checked` is a refusal that reads `text`.
pub open spec fn refused_with(checked: Result<(), String>, text: Seq<char>) -> bool {
    match checked {
        Ok(_) => false,
        Err(reason) => reason@ == text,
    }
}

impl RunConfig {
    /// Whether the options are acceptable: a positive step budget and a tolerance that is not negative.
    pub open spec fn valid(&self) -> bool {
        self.max_iterations > 0 && self.quality_tolerance >= 0
    }

    /// Checks the options. The step budget is looked at first.
    pub fn validate(&self) -> (checked: Result<(), String>)
        ensures
            checked is Ok <==> self.valid(),
            self.max_iterations == 0 ==> refused_with(checked, "max_iterations must be > 0"@),
            self.max_iterations > 0 && self.quality_tolerance < 0 ==> refused_with(
                checked,
                "quality_tolerance must be >= 0"@,
            ),
    {
        if self.max_iterations == 0 {
            return Err("max_iterations must be > 0".to_string());
        }
        if self.quality_tolerance < 0 {
            return Err("quality_tolerance must be >= 0".to_string());
        }
        Ok(())
    }
}

} // verus!
