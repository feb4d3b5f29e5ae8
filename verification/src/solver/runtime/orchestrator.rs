use crate::solver::backend::{reason_is, AccelerationTarget, ResolutionMetadata};
use crate::solver::config::RunConfig;
use crate::solver::runtime::resolver;
use vstd::prelude::*;

verus! {

/// Whether a kernel is asked for that may be missing: any but the pure one.
pub open spec fn is_accelerated(target: AccelerationTarget) -> bool {
    target != AccelerationTarget::PureRust
}

/// Resolves the options; an accelerated kernel that is not available falls back to the pure kernel.
///
/// The fallback is recorded with the reason `ACCEL_UNAVAILABLE`.
pub fn resolve_with_fallback(config: &RunConfig, available: bool) -> (meta: ResolutionMetadata)
    ensures
        meta.source_resolved == config.graph_source,
        meta.backend_resolved == config.graph_backend,
        config.acceleration != AccelerationTarget::PureRust && !available ==> meta.accel_resolved
            == AccelerationTarget::PureRust && reason_is(
            meta.fallback_reason,
            "ACCEL_UNAVAILABLE"@,
        ),
        !(config.acceleration != AccelerationTarget::PureRust && !available) ==> meta.accel_resolved
            == config.acceleration && meta.fallback_reason is None,
{
    let mut r = resolver::resolve(config);
    let pure = match r.accel_resolved {
        AccelerationTarget::PureRust => true,
        _ => false,
    };
    if !pure && !available {
        r.accel_resolved = AccelerationTarget::PureRust;
        r.fallback_reason = Some("ACCEL_UNAVAILABLE".to_string());
    }
    r
}

} // verus!
