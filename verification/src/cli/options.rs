use vstd::prelude::*;

verus! {

/// The mode that a command line asks for.
#[derive(Clone, Copy, Debug, PartialEq, Eq, Structural)]
pub enum CliMode {
    Deterministic,
    Throughput,
}

/// The options of a command line.
#[derive(Clone, Debug)]
pub struct CliOptions {
    pub graph_source: String,
    pub mode: CliMode,
    /// `mmap` asks for the memory-mapped backend; anything else for the one in memory.
    pub backend: String,
}

} // verus!
