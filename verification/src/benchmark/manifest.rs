use vstd::prelude::*;

verus! {

/// What a benchmark compares: a dataset, and the two builds run on it.
#[derive(Clone, Debug, PartialEq)]
pub struct BenchmarkManifest {
    pub dataset_id: String,
    pub baseline_commit: String,
    pub candidate_commit: String,
}

} // verus!
