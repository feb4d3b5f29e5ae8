use crate::solver::algorithm::degrees::labels_ok;
use crate::solver::types::RunOutcome;
use vstd::prelude::*;

verus! {

/// Whether the outcome holds a partition in which every community is a node id.
pub open spec fn partition_sound(run: &RunOutcome) -> bool {
    match run.partition {
        Some(partition) => labels_ok(
            partition.node_to_community@,
            partition.node_to_community@.len() as int,
        ),
        None => false,
    }
}

/// Checks the hard invariants of an outcome: it holds a partition, and every
/// community in it is a node id.
pub fn check(run: &RunOutcome) -> (sound: bool)
    ensures
        sound == partition_sound(run),
{
    match &run.partition {
        Some(partition) => {
            let node_count: usize = partition.node_to_community.len();
            let mut v: usize = 0;
            while v < node_count
                invariant
                    run.partition is Some,
                    run.partition->0.node_to_community@ == partition.node_to_community@,
                    node_count == partition.node_to_community@.len(),
                    v <= node_count,
                    forall|u: int|
                        0 <= u < v ==> (#[trigger] partition.node_to_community@[u]) < node_count,
                decreases node_count - v,
            {
                if partition.node_to_community[v] >= node_count {
                    proof {
                        let held = run.partition->0.node_to_community@;
                        assert(held == partition.node_to_community@);
                        assert(!(held[v as int] < held.len()));
                        assert(!labels_ok(held, held.len() as int));
                    }
                    return false;
                }
                v += 1;
            }
            true
        },
        None => false,
    }
}

} // verus!
