use crate::solver::weight::{abs, DEFAULT_QUALITY_TOLERANCE, MAX_TOTAL_WEIGHT, SCALE};
use vstd::prelude::*;

verus! {

/// How a dataset is laid out on disk.
#[derive(Clone, Copy, Debug, PartialEq, Eq, Structural)]
pub enum GraphFormat {
    EdgeList,
    CsrBinary,
}

/// Where a dataset was taken from.
#[derive(Clone, Copy, Debug, PartialEq, Eq, Structural)]
pub enum GraphSourceType {
    File,
    Neo4jSnapshot,
}

/// What is known of a dataset.
#[derive(Clone, Debug, PartialEq)]
pub struct GraphDataset {
    pub dataset_id: String,
    pub source_uri: String,
    pub is_weighted: bool,
    pub node_count: usize,
    pub edge_count: usize,
    pub checksum: String,
    pub format: GraphFormat,
    pub mmap_compatible: bool,
    pub mmap_path: Option<String>,
    pub source_type: GraphSourceType,
    pub source_snapshot_id: Option<String>,
}

/// How ties and scheduling are handled, as an execution record names it.
#[derive(Clone, Copy, Debug, PartialEq, Eq, Structural)]
pub enum RunMode {
    Deterministic,
    Throughput,
}

/// How a graph is held in memory, as an execution record names it.
#[derive(Clone, Copy, Debug, PartialEq, Eq, Structural)]
pub enum GraphBackend {
    InMemory,
    Mmap,
}

/// The options of a run, in the form that is stored with its record.
#[derive(Clone, Debug, PartialEq)]
pub struct RunConfiguration {
    pub config_id: String,
    pub mode: RunMode,
    pub acceleration_enabled: bool,
    pub seed: Option<u64>,
    pub max_iterations: usize,
    /// Fixed-point, in millionths.
    pub quality_tolerance: i64,
    pub pinned_profile_id: Option<String>,
    pub graph_backend: GraphBackend,
    pub graph_source: GraphSourceType,
}

impl Default for RunConfiguration {
    fn default() -> (config: Self)
        ensures
            config.config_id@ == "default"@,
            config.mode == RunMode::Deterministic,
            !config.acceleration_enabled,
            config.seed is None,
            config.max_iterations == 10,
            config.quality_tolerance == DEFAULT_QUALITY_TOLERANCE,
            config.pinned_profile_id is None,
            config.graph_backend == GraphBackend::InMemory,
            config.graph_source == GraphSourceType::File,
    {
        RunConfiguration {
            config_id: "default".to_string(),
            mode: RunMode::Deterministic,
            acceleration_enabled: false,
            seed: None,
            max_iterations: 10,
            quality_tolerance: DEFAULT_QUALITY_TOLERANCE,
            pinned_profile_id: None,
            graph_backend: GraphBackend::InMemory,
            graph_source: GraphSourceType::File,
        }
    }
}

/// How far a run has come.
#[derive(Clone, Copy, Debug, PartialEq, Eq, Structural)]
pub enum RunStatus {
    Running,
    Succeeded,
    Failed,
}

/// The kernel that did the work.
#[derive(Clone, Copy, Debug, PartialEq, Eq, Structural)]
pub enum BackendType {
    PureRust,
    NativeAccel,
    CudaAccel,
    RocmAccel,
}

/// The record of one run: when it ran, on what, and how it ended.
#[derive(Clone, Debug, PartialEq)]
pub struct RunExecution {
    pub run_id: String,
    pub dataset_id: String,
    pub config_id: String,
    /// Seconds since the Unix epoch.
    pub started_at: u64,
    pub completed_at: Option<u64>,
    pub status: RunStatus,
    pub backend: BackendType,
    pub graph_backend_resolved: GraphBackend,
    pub graph_source_resolved: GraphSourceType,
    pub fallback_reason: Option<String>,
}

/// The partition that a run found.
#[derive(Clone, Debug, PartialEq)]
pub struct PartitionResult {
    pub run_id: String,
    pub node_to_community: Vec<usize>,
    pub community_count: usize,
    /// Fixed-point, in millionths.
    pub quality_score: i64,
    pub iteration_count: usize,
}

/// What validation found of a run.
#[derive(Clone, Debug, PartialEq)]
pub struct ValidationReport {
    pub run_id: String,
    pub hard_invariants_passed: bool,
    pub deterministic_identity_passed: Option<bool>,
    /// Fixed-point, in millionths.
    pub quality_delta_vs_reference: Option<i64>,
    pub equivalence_passed: bool,
    pub notes: Option<String>,
}

/// Everything a run hands back.
#[derive(Clone, Debug, PartialEq)]
pub struct RunOutcome {
    pub execution: RunExecution,
    pub partition: Option<PartitionResult>,
    pub validation: Option<ValidationReport>,
}

/// One undirected edge: its two endpoints and its weight in millionths, where it has one.
pub type Edge = (usize, usize, Option<i64>);

/// The weight of an edge: its own, or one whole unit where none is given.
pub open spec fn edge_weight(edge: Edge) -> i64 {
    match edge.2 {
        Some(w) => w,
        None => SCALE,
    }
}

/// The sum of the absolute weights of the first `upto` edges.
pub open spec fn abs_edge_weight_sum(edges: Seq<Edge>, upto: int) -> int
    decreases upto,
{
    if upto <= 0 {
        0
    } else {
        abs_edge_weight_sum(edges, upto - 1) + abs(edge_weight(edges[upto - 1]) as int)
    }
}

/// A graph, or a batch of changes to one: each edge is stored once.
///
/// A positive weight inserts or reinforces an edge; a negative one removes weight.
#[derive(Clone, Debug, PartialEq)]
pub struct GraphInput {
    pub dataset_id: String,
    pub node_count: usize,
    pub edges: Vec<Edge>,
}

impl GraphInput {
    /// Whether both endpoints of every edge are nodes of the graph.
    pub open spec fn endpoints_in_range(&self) -> bool {
        forall|i: int|
            0 <= i < self.edges@.len() ==> (#[trigger] self.edges@[i]).0 < self.node_count
                && self.edges@[i].1 < self.node_count
    }

    /// Whether the graph is within what the solver's arithmetic and indices can hold.
    ///
    /// A dense bitset over the nodes takes an eighth of the address space at
    /// most. Each edge stands twice in an adjacency, so twice the sum of absolute
    /// weights is held to [`MAX_TOTAL_WEIGHT`], and twice the edge count to `usize`.
    pub open spec fn in_capacity(&self) -> bool {
        &&& self.node_count <= usize::MAX / 8
        &&& 2 * self.edges@.len() <= usize::MAX
        &&& 2 * abs_edge_weight_sum(self.edges@, self.edges@.len() as int) <= MAX_TOTAL_WEIGHT
    }

    /// Whether an adjacency can be built from the graph.
    pub open spec fn valid(&self) -> bool {
        self.endpoints_in_range() && self.in_capacity()
    }

    /// A graph without nodes or edges.
    pub fn empty(dataset_id: String) -> (graph: Self)
        ensures
            graph.dataset_id == dataset_id,
            graph.node_count == 0,
            graph.edges@.len() == 0,
            graph.valid(),
    {
        let graph = GraphInput { dataset_id, node_count: 0, edges: Vec::new() };
        assert(abs_edge_weight_sum(graph.edges@, 0) == 0);
        graph
    }
}

} // verus!
