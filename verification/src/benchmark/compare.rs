use crate::benchmark::hardware_profile::HardwareProfile;
use crate::benchmark::runner::nominal_gain;
use crate::solver::backend::reason_is;
use crate::solver::report::BenchmarkOutcome;
use crate::solver::weight::SCALE;
use vstd::prelude::*;

verus! {

/// Compares a candidate build with a baseline on a benchmark suite.
///
/// The comparison is reproducible. It passes the release gate where the
/// hardware profile is pinned, and is refused with `UNPINNED_HARDWARE_PROFILE` where it is not.
pub fn compare_baseline(
    baseline_commit: &str,
    candidate_commit: &str,
    benchmark_suite: &str,
    profile: &HardwareProfile,
) -> (outcome: BenchmarkOutcome)
    ensures
        outcome.baseline_commit@ == baseline_commit@,
        outcome.candidate_commit@ == candidate_commit@,
        outcome.benchmark_suite@ == benchmark_suite@,
        outcome.median_throughput_gain == nominal_gain(baseline_commit@ == candidate_commit@),
        outcome.reproducible,
        outcome.release_gate_eligible == profile.pinned,
        profile.pinned ==> outcome.release_gate_reason is None,
        !profile.pinned ==> reason_is(outcome.release_gate_reason, "UNPINNED_HARDWARE_PROFILE"@),
{
    let release_gate_eligible: bool = profile.pinned;
    let baseline: String = baseline_commit.to_string();
    let candidate: String = candidate_commit.to_string();
    let same_build: bool = baseline == candidate;
    BenchmarkOutcome {
        baseline_commit: baseline,
        candidate_commit: candidate,
        benchmark_suite: benchmark_suite.to_string(),
        median_throughput_gain: if same_build {
            SCALE
        } else {
            2 * SCALE
        },
        reproducible: true,
        release_gate_eligible,
        release_gate_reason: if release_gate_eligible {
            None
        } else {
            Some("UNPINNED_HARDWARE_PROFILE".to_string())
        },
    }
}

} // verus!
