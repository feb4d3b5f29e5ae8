use crate::solver::config::RunMode;
use crate::solver::report::ValidationOutcome;
use crate::solver::types::RunOutcome;
use crate::solver::validation::invariants::{check, partition_sound};
use crate::solver::weight::{abs, DEFAULT_QUALITY_TOLERANCE};
use vstd::prelude::*;

verus! {

/// Whether the two assignments are the same, node by node.
pub fn same_assignments(a: &Vec<usize>, b: &Vec<usize>) -> (same: bool)
    ensures
        same == (a@ == b@),
{
    if a.len() != b.len() {
        return false;
    }
    let mut v: usize = 0;
    while v < a.len()
        invariant
            a@.len() == b@.len(),
            v <= a@.len(),
            forall|u: int| 0 <= u < v ==> a@[u] == b@[u],
        decreases a@.len() - v,
    {
        if a[v] != b[v] {
            return false;
        }
        v += 1;
    }
    assert(a@ =~= b@);
    true
}

/// The distance between two quality scores.
pub open spec fn quality_distance(a: i64, b: i64) -> int {
    abs(a - b)
}

/// The distance as it is reported: held to the greatest value that a score can take.
pub open spec fn reported_distance(a: i64, b: i64) -> i64 {
    if quality_distance(a, b) > i64::MAX {
        i64::MAX
    } else {
        quality_distance(a, b) as i64
    }
}

/// Whether `report` is what the comparison of a candidate outcome with a
/// reference gives.
///
/// The hard invariants pass where both partitions are sound. In deterministic
/// mode the candidate passes where its assignments are those of the
/// reference, node by node. In throughput mode it passes where its quality
/// score is within `tolerance` of the reference's.
pub open spec fn is_report_of(
    report: &ValidationOutcome,
    reference: &RunOutcome,
    candidate: &RunOutcome,
    mode: RunMode,
    tolerance: i64,
) -> bool {
    let same = reference.partition->0.node_to_community@ == candidate.partition->0.node_to_community@;
    let distance = quality_distance(
        reference.partition->0.quality_score,
        candidate.partition->0.quality_score,
    );
    &&& report.hard_invariants_passed == (partition_sound(reference) && partition_sound(candidate))
    &&& report.quality_delta_vs_reference == Some(
        reported_distance(
            reference.partition->0.quality_score,
            candidate.partition->0.quality_score,
        ),
    )
    &&& mode == RunMode::Deterministic ==> report.deterministic_identity_passed == Some(same)
        && report.equivalence_passed == same
    &&& mode == RunMode::Throughput ==> report.deterministic_identity_passed is None
        && report.equivalence_passed == (distance <= tolerance)
}

/// Compares a candidate outcome with a reference, with the tolerance of the
/// options that the runs were made with.
pub fn validate_within(
    reference: &RunOutcome,
    candidate: &RunOutcome,
    mode: RunMode,
    tolerance: i64,
) -> (report: ValidationOutcome)
    requires
        reference.partition is Some,
        candidate.partition is Some,
    ensures
        is_report_of(&report, reference, candidate, mode, tolerance),
{
    let sound: bool = check(reference) && check(candidate);
    let ref_part = match &reference.partition {
        Some(p) => p,
        None => {
            assert(false);
            return ValidationOutcome {
                hard_invariants_passed: false,
                deterministic_identity_passed: None,
                quality_delta_vs_reference: None,
                equivalence_passed: false,
            };
        },
    };
    let cand_part = match &candidate.partition {
        Some(p) => p,
        None => {
            assert(false);
            return ValidationOutcome {
                hard_invariants_passed: false,
                deterministic_identity_passed: None,
                quality_delta_vs_reference: None,
                equivalence_passed: false,
            };
        },
    };
    let same_partition: bool = same_assignments(
        &ref_part.node_to_community,
        &cand_part.node_to_community,
    );
    let difference: i128 = ref_part.quality_score as i128 - cand_part.quality_score as i128;
    let distance: i128 = if difference < 0 {
        -difference
    } else {
        difference
    };
    let quality_delta: i64 = if distance > i64::MAX as i128 {
        i64::MAX
    } else {
        distance as i64
    };
    match mode {
        RunMode::Deterministic => ValidationOutcome {
            hard_invariants_passed: sound,
            deterministic_identity_passed: Some(same_partition),
            quality_delta_vs_reference: Some(quality_delta),
            equivalence_passed: same_partition,
        },
        RunMode::Throughput => ValidationOutcome {
            hard_invariants_passed: sound,
            deterministic_identity_passed: None,
            quality_delta_vs_reference: Some(quality_delta),
            equivalence_passed: distance <= tolerance as i128,
        },
    }
}

/// Compares a candidate outcome with a reference, with the tolerance of 0.001
/// that options have where none is given.
pub fn validate(reference: &RunOutcome, candidate: &RunOutcome, mode: RunMode) -> (report:
    ValidationOutcome)
    requires
        reference.partition is Some,
        candidate.partition is Some,
    ensures
        is_report_of(&report, reference, candidate, mode, DEFAULT_QUALITY_TOLERANCE),
{
    validate_within(reference, candidate, mode, DEFAULT_QUALITY_TOLERANCE)
}

} // verus!
