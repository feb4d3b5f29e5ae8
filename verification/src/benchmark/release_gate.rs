use crate::benchmark::hardware_profile::HardwareProfile;
use crate::solver::backend::{reason_is, GraphSource};
use vstd::prelude::*;

verus! {

/// Whether a run on `profile` with a graph from `source` may pass the release gate.
///
/// An unpinned profile is refused first, then a live query; each with its reason.
pub fn eligible(profile: &HardwareProfile, source: GraphSource) -> (verdict: (bool, Option<String>))
    ensures
        verdict.0 == (profile.pinned && source != GraphSource::LiveNeo4j),
        verdict.0 ==> verdict.1 is None,
        !profile.pinned ==> reason_is(verdict.1, "UNPINNED_HARDWARE_PROFILE"@),
        profile.pinned && source == GraphSource::LiveNeo4j ==> reason_is(
            verdict.1,
            "LIVE_QUERY_SOURCE_INELIGIBLE_FOR_RELEASE_GATE"@,
        ),
{
    if !profile.pinned {
        return (false, Some("UNPINNED_HARDWARE_PROFILE".to_string()));
    }
    if source == GraphSource::LiveNeo4j {
        return (false, Some("LIVE_QUERY_SOURCE_INELIGIBLE_FOR_RELEASE_GATE".to_string()));
    }
    (true, None)
}

} // verus!
