use crate::benchmark::hardware_profile::HardwareProfile;
use crate::benchmark::runner::nominal_gain;
use crate::solver::report::BenchmarkOutcome;
use vstd::prelude::*;

verus! {

/// Compares two builds on the default suite, on the pinned profile of the
/// command line: the comparison passes the release gate.
pub fn run_compare(baseline: &str, candidate: &str) -> (outcome: BenchmarkOutcome)
    ensures
        outcome.baseline_commit@ == baseline@,
        outcome.candidate_commit@ == candidate@,
        outcome.benchmark_suite@ == "default-suite"@,
        outcome.median_throughput_gain == nominal_gain(baseline@ == candidate@),
        outcome.reproducible,
        outcome.release_gate_eligible,
        outcome.release_gate_reason is None,
{
    let profile = HardwareProfile { id: "pinned-linux-x86_64".to_string(), pinned: true };
    crate::compare_baseline(baseline, candidate, "default-suite", &profile)
}

} // verus!
