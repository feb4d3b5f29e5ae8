use crate::solver::graph::in_memory::InMemoryGraph;
use crate::solver::types::GraphInput;
use vstd::prelude::*;

verus! {

/// A graph for the memory-mapped backend. It holds the adjacency in memory.
#[derive(Clone, Debug)]
pub struct MmapGraph {
    pub inner: InMemoryGraph,
}

impl MmapGraph {
    /// Builds the adjacency of a graph.
    pub fn from(value: &GraphInput) -> (graph: Self)
        requires
            value.valid(),
        ensures
            graph.inner.wf(),
            graph.inner.is_adjacency_of(value),
    {
        MmapGraph { inner: InMemoryGraph::from(value) }
    }
}

} // verus!
