use crate::solver::error::HitLeidenError;
use crate::solver::graph::neo4j_mapping::ProjectionConfig;
use crate::solver::types::GraphInput;
use vstd::prelude::*;
use vstd::string::StringExecFns;

verus! {

/// Where a graph database is reached.
#[derive(Clone, Debug)]
pub struct Neo4jSourceConfig {
    pub uri: String,
}

/// The graph of a snapshot: named after the snapshot, and as yet without nodes or edges.
pub fn project_from_neo4j(_source_config: &Neo4jSourceConfig, projection_config: &ProjectionConfig) -> (projected:
    Result<GraphInput, HitLeidenError>)
    ensures
        projected is Ok,
        projected->Ok_0.dataset_id@ == "neo4j:"@ + projection_config.snapshot_id@,
        projected->Ok_0.node_count == 0,
        projected->Ok_0.edges@.len() == 0,
{
    Ok(
        GraphInput {
            dataset_id: String::from_str("neo4j:").concat(projection_config.snapshot_id.as_str()),
            node_count: 0,
            edges: Vec::new(),
        },
    )
}

} // verus!
