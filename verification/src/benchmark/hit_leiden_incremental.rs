use vstd::prelude::*;

verus! {

/// The number of edges that an update is recorded to have added: by how many
/// the graph has grown since the update before; and where it has not grown, a
/// full batch, as far as the graph has that many edges.
pub open spec fn recorded_growth(previous_total: nat, current_total: nat, batch_size: nat) -> nat {
    if current_total > previous_total {
        (current_total - previous_total) as nat
    } else if batch_size <= current_total {
        batch_size
    } else {
        current_total
    }
}

/// The number of edges that an update is recorded to have added.
pub fn edges_added(previous_total: usize, current_total: usize, batch_size: usize) -> (added: usize)
    ensures
        added == recorded_growth(previous_total as nat, current_total as nat, batch_size as nat),
{
    if current_total > previous_total {
        current_total - previous_total
    } else if batch_size <= current_total {
        batch_size
    } else {
        current_total
    }
}

} // verus!
