use vstd::prelude::*;

verus! {

/// How a snapshot of a graph database is projected onto a graph.
#[derive(Clone, Debug)]
pub struct ProjectionConfig {
    pub snapshot_id: String,
    pub batched: bool,
}

} // verus!
