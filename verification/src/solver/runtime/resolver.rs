use crate::solver::backend::{
    reason_is, AccelerationTarget, GraphBackend, GraphSource, ResolutionMetadata,
};
use crate::solver::config::RunConfig;
use vstd::prelude::*;

verus! {

/// Takes source, backend and kernel from the options as they are, with no fallback.
pub fn resolve(config: &RunConfig) -> (meta: ResolutionMetadata)
    ensures
        meta.source_resolved == config.graph_source,
        meta.backend_resolved == config.graph_backend,
        meta.accel_resolved == config.acceleration,
        meta.fallback_reason is None,
{
    ResolutionMetadata {
        source_resolved: config.graph_source,
        backend_resolved: config.graph_backend,
        accel_resolved: config.acceleration,
        fallback_reason: None,
    }
}

/// Whether measurements on a graph from `source` may pass the release gate.
///
/// A live query is never eligible; the reason says so.
pub fn release_gate_eligible(source: GraphSource) -> (verdict: (bool, Option<String>))
    ensures
        verdict.0 == (source != GraphSource::LiveNeo4j),
        verdict.0 ==> verdict.1 is None,
        !verdict.0 ==> reason_is(verdict.1, "LIVE_QUERY_SOURCE_INELIGIBLE_FOR_RELEASE_GATE"@),
{
    if source == GraphSource::LiveNeo4j {
        (false, Some("LIVE_QUERY_SOURCE_INELIGIBLE_FOR_RELEASE_GATE".to_string()))
    } else {
        (true, None)
    }
}

/// The resolution record for a given source, backend and kernel, with no fallback reason.
pub fn fallback(source: GraphSource, backend: GraphBackend, accel: AccelerationTarget) -> (meta:
    ResolutionMetadata)
    ensures
        meta.source_resolved == source,
        meta.backend_resolved == backend,
        meta.accel_resolved == accel,
        meta.fallback_reason is None,
{
    ResolutionMetadata {
        source_resolved: source,
        backend_resolved: backend,
        accel_resolved: accel,
        fallback_reason: None,
    }
}

} // verus!
