use vstd::prelude::*;

verus! {

/// Where a graph comes from.
#[derive(Clone, Copy, Debug, PartialEq, Eq, Structural)]
pub enum GraphSource {
    File,
    Neo4jSnapshot,
    LiveNeo4j,
}

/// How a graph is held in memory.
#[derive(Clone, Copy, Debug, PartialEq, Eq, Structural)]
pub enum GraphBackend {
    InMemory,
    Mmap,
}

/// The movement kernel that a run asks for.
#[derive(Clone, Copy, Debug, PartialEq, Eq, Structural)]
pub enum AccelerationTarget {
    PureRust,
    Native,
    Cuda,
    Rocm,
}

/// What a run resolved its source, backend and kernel to.
#[derive(Clone, Debug, PartialEq, Eq)]
pub struct ResolutionMetadata {
    pub source_resolved: GraphSource,
    pub backend_resolved: GraphBackend,
    pub accel_resolved: AccelerationTarget,
    pub fallback_reason: Option<String>,
}

/// Whether `reason` is present and reads `text`.
pub open spec fn reason_is(reason: Option<String>, text: Seq<char>) -> bool {
    match reason {
        Some(s) => s@ == text,
        None => false,
    }
}

} // verus!
