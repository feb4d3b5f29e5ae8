use crate::solver::algorithm::degrees::labels_ok;
use crate::solver::algorithm::refinement::{check_headroom, has_headroom, is_identity};
use crate::solver::graph::in_memory::InMemoryGraph;
use vstd::prelude::*;

verus! {

/// The hierarchical partition: for each level, the community of each node, its
/// refined community, and its sub-community of the run before and of now; and
/// the graph of each level, where the level above has the sub-communities of
/// the level below as its nodes.
#[derive(Clone, Debug, PartialEq)]
pub struct PartitionState {
    /// The community of each node of the lowest level.
    pub node_to_comm: Vec<usize>,
    /// Fixed-point, in millionths.
    pub comm_weights: Vec<i64>,
    /// Fixed-point, in millionths.
    pub node_weights: Vec<i64>,
    pub levels: usize,
    pub supergraphs: Vec<InMemoryGraph>,
    pub community_mapping_per_level: Vec<Vec<usize>>,
    pub refined_community_mapping_per_level: Vec<Vec<usize>>,
    pub previous_subcommunity_mapping_per_level: Vec<Vec<usize>>,
    pub current_subcommunity_mapping_per_level: Vec<Vec<usize>>,
    pub cc_indices_per_level: Vec<Vec<usize>>,
}

/// The mapping that gives every node its own id.
pub open spec fn identity_map(n: nat) -> Seq<usize> {
    Seq::new(n, |v: int| v as usize)
}

/// The mapping that gives every one of `node_count` nodes its own id.
pub fn identity_vec(node_count: usize) -> (map: Vec<usize>)
    ensures
        map@ == identity_map(node_count as nat),
        is_identity(map@),
        labels_ok(map@, node_count as int),
{
    let mut map: Vec<usize> = Vec::new();
    let mut v: usize = 0;
    while v < node_count
        invariant
            v <= node_count,
            map@.len() == v,
            forall|u: int| 0 <= u < v ==> #[trigger] map@[u] == u,
        decreases node_count - v,
    {
        map.push(v);
        v += 1;
    }
    assert(map@ =~= identity_map(node_count as nat));
    map
}

impl PartitionState {
    /// The number of nodes of level `p`.
    pub open spec fn level_nodes(&self, p: int) -> int {
        self.community_mapping_per_level@[p]@.len() as int
    }

    /// Whether level `p` is sound: its mappings range over its nodes, every
    /// community is a node of the level, and its graph, where the state has
    /// graphs, is sound and of that many nodes.
    pub open spec fn level_wf(&self, p: int) -> bool {
        &&& labels_ok(self.community_mapping_per_level@[p]@, self.level_nodes(p))
        &&& self.refined_community_mapping_per_level@[p]@.len() == self.level_nodes(p)
        &&& self.previous_subcommunity_mapping_per_level@[p]@.len() == self.level_nodes(p)
        &&& self.current_subcommunity_mapping_per_level@[p]@.len() == self.level_nodes(p)
        &&& self.supergraphs@.len() != 0 ==> self.supergraphs@[p].wf() && self.supergraphs@[p].node_count
            == self.level_nodes(p)
    }

    /// Whether level `p` fits the level above: that has no more nodes, and
    /// every sub-community of level `p` is one of them.
    pub open spec fn link_wf(&self, p: int) -> bool {
        &&& self.level_nodes(p + 1) <= self.level_nodes(p)
        &&& forall|v: int|
            0 <= v < self.level_nodes(p) ==> (
            #[trigger] self.current_subcommunity_mapping_per_level@[p]@[v]) < self.level_nodes(p + 1)
        &&& forall|v: int|
            0 <= v < self.level_nodes(p) ==> (
            #[trigger] self.previous_subcommunity_mapping_per_level@[p]@[v]) < self.level_nodes(
                p + 1,
            )
    }

    /// Whether the levels are sound: there is at least one, every level is
    /// sound and fits the level above, and the graphs are either all there or
    /// all still to be seeded.
    pub open spec fn levels_wf(&self) -> bool {
        &&& self.levels >= 1
        &&& self.community_mapping_per_level@.len() == self.levels
        &&& self.refined_community_mapping_per_level@.len() == self.levels
        &&& self.previous_subcommunity_mapping_per_level@.len() == self.levels
        &&& self.current_subcommunity_mapping_per_level@.len() == self.levels
        &&& self.supergraphs@.len() == 0 ==> self.levels == 1
        &&& self.supergraphs@.len() != 0 ==> self.supergraphs@.len() == self.levels
        &&& forall|p: int| 0 <= p < self.levels ==> #[trigger] self.level_wf(p)
        &&& forall|p: int| 0 <= p < self.levels - 1 ==> #[trigger] self.link_wf(p)
    }

    /// Whether the state is sound: its levels are, and the communities that it
    /// shows are those of the lowest level.
    pub open spec fn wf(&self) -> bool {
        self.levels_wf() && self.node_to_comm@ == self.community_mapping_per_level@[0]@
    }

    /// Whether refinement can give a fresh sub-community id to every node of every level.
    pub open spec fn roomy(&self) -> bool {
        forall|p: int|
            0 <= p < self.levels ==> has_headroom(
                #[trigger] self.current_subcommunity_mapping_per_level@[p]@,
            )
    }

    /// Tests whether refinement can give a fresh sub-community id to every node of every level.
    pub fn is_roomy(&self) -> (ok: bool)
        requires
            self.levels_wf(),
        ensures
            ok == self.roomy(),
    {
        let mut p: usize = 0;
        while p < self.levels
            invariant
                self.levels_wf(),
                p <= self.levels,
                forall|q: int|
                    0 <= q < p ==> has_headroom(
                        #[trigger] self.current_subcommunity_mapping_per_level@[q]@,
                    ),
            decreases self.levels - p,
        {
            if !check_headroom(&self.current_subcommunity_mapping_per_level[p]) {
                return false;
            }
            p += 1;
        }
        true
    }

    /// The state of one level before the first run: every node is its own
    /// community and its own sub-community, and no graph is seeded.
    pub fn identity(node_count: usize) -> (state: Self)
        ensures
            state.wf(),
            state.levels == 1,
            state.supergraphs@.len() == 0,
            state.node_to_comm@ == identity_map(node_count as nat),
            state.community_mapping_per_level@[0]@ == identity_map(node_count as nat),
            state.refined_community_mapping_per_level@[0]@ == identity_map(node_count as nat),
            state.previous_subcommunity_mapping_per_level@[0]@ == identity_map(node_count as nat),
            state.current_subcommunity_mapping_per_level@[0]@ == identity_map(node_count as nat),
            state.comm_weights@ == Seq::new(node_count as nat, |v: int| 0i64),
            state.node_weights@ == Seq::new(node_count as nat, |v: int| 0i64),
            state.cc_indices_per_level@.len() == 1,
            state.cc_indices_per_level@[0]@ == identity_map(node_count as nat),
            2 * node_count + 1 < usize::MAX ==> state.roomy(),
    {
        let zeros: Vec<i64> = vec![0i64; node_count];
        let state = Self::with_weights(node_count, zeros);
        assert(state.comm_weights@ =~= Seq::new(node_count as nat, |v: int| 0i64));
        assert(state.node_weights@ =~= Seq::new(node_count as nat, |v: int| 0i64));
        state
    }

    /// The state of one level before the first run, with a weight for every node.
    pub fn with_weights(node_count: usize, node_weights: Vec<i64>) -> (state: Self)
        ensures
            state.wf(),
            state.levels == 1,
            state.supergraphs@.len() == 0,
            state.node_to_comm@ == identity_map(node_count as nat),
            state.community_mapping_per_level@[0]@ == identity_map(node_count as nat),
            state.refined_community_mapping_per_level@[0]@ == identity_map(node_count as nat),
            state.previous_subcommunity_mapping_per_level@[0]@ == identity_map(node_count as nat),
            state.current_subcommunity_mapping_per_level@[0]@ == identity_map(node_count as nat),
            state.comm_weights@ == node_weights@,
            state.node_weights@ == node_weights@,
            state.cc_indices_per_level@.len() == 1,
            state.cc_indices_per_level@[0]@ == identity_map(node_count as nat),
            2 * node_count + 1 < usize::MAX ==> state.roomy(),
    {
        let comm_weights = node_weights.clone();
        assert(comm_weights@ =~= node_weights@);
        let mut community: Vec<Vec<usize>> = Vec::new();
        community.push(identity_vec(node_count));
        let mut refined: Vec<Vec<usize>> = Vec::new();
        refined.push(identity_vec(node_count));
        let mut previous: Vec<Vec<usize>> = Vec::new();
        previous.push(identity_vec(node_count));
        let mut current: Vec<Vec<usize>> = Vec::new();
        current.push(identity_vec(node_count));
        let mut cc_indices: Vec<Vec<usize>> = Vec::new();
        cc_indices.push(identity_vec(node_count));
        let state = PartitionState {
            node_to_comm: identity_vec(node_count),
            comm_weights,
            node_weights,
            levels: 1,
            supergraphs: Vec::new(),
            community_mapping_per_level: community,
            refined_community_mapping_per_level: refined,
            previous_subcommunity_mapping_per_level: previous,
            current_subcommunity_mapping_per_level: current,
            cc_indices_per_level: cc_indices,
        };
        proof {
            assert(state.level_wf(0));
            if 2 * node_count + 1 < usize::MAX {
                assert(has_headroom(state.current_subcommunity_mapping_per_level@[0]@));
            }
        }
        state
    }
}

} // verus!
