use crate::solver::algorithm::aggregation::{
    below_max, compressed, greatest_of, inc_aggregation, next_previous,
};
use crate::solver::algorithm::degrees::labels_ok;
use crate::solver::algorithm::movement::{
    edges_in_range, inc_movement_counted, iterations_made, movement_result, MoveState,
};
use crate::solver::algorithm::parallel_frontier::SharedBitVec;
use crate::solver::algorithm::refinement::{
    has_headroom, inc_refinement, refined_nodes, refined_subcommunities,
};
use crate::solver::algorithm::throughput::BufferPool;
use crate::solver::config::RunMode;
use crate::solver::error::HitLeidenError;
use crate::solver::partition::state::PartitionState;
use crate::solver::types::{abs_edge_weight_sum, edge_weight, Edge, GraphInput};
use crate::solver::weight::{MAX_RESOLUTION, MAX_TOTAL_WEIGHT, SCALE};
use vstd::prelude::*;

verus! {

/// Whether the absolute weights of the changed edges sum to no more than a graph may carry.
pub open spec fn delta_in_capacity(edges: Seq<Edge>) -> bool {
    abs_edge_weight_sum(edges, edges.len() as int) <= MAX_TOTAL_WEIGHT
}

/// Tests whether the absolute weights of the edges sum to `limit` at most.
pub fn abs_weights_within(delta: &GraphInput, limit: i64) -> (fits: bool)
    requires
        0 <= limit,
    ensures
        fits == (abs_edge_weight_sum(delta.edges@, delta.edges@.len() as int) <= limit),
{
    let ghost edges = delta.edges@;
    let mut sum: i64 = 0;
    let mut i: usize = 0;
    while i < delta.edges.len()
        invariant
            edges == delta.edges@,
            i <= edges.len(),
            sum == abs_edge_weight_sum(edges, i as int),
            0 <= sum <= limit,
        decreases edges.len() - i,
    {
        let (_u, _v, w) = delta.edges[i];
        let weight: i64 = match w {
            Some(x) => x,
            None => SCALE,
        };
        assert(weight == edge_weight(edges[i as int]));
        let room: i64 = limit - sum;
        if weight > room || weight < -room {
            proof {
                crate::solver::algorithm::aggregation::lemma_abs_edge_weight_sum_part(
                    edges,
                    i + 1,
                    edges.len() as int,
                );
            }
            return false;
        }
        let magnitude: i64 = if weight < 0 {
            -weight
        } else {
            weight
        };
        sum = sum + magnitude;
        i += 1;
    }
    true
}

/// Tests whether the absolute weights of the changed edges sum to no more than a graph may carry.
pub fn check_delta_capacity(delta: &GraphInput) -> (fits: bool)
    ensures
        fits == delta_in_capacity(delta.edges@),
{
    abs_weights_within(delta, MAX_TOTAL_WEIGHT)
}

/// What the operators of one level hand on: the nodes that moved, the nodes
/// that were refined, and the change of the level above, where there is one.
pub struct LevelOutcome {
    pub changed: SharedBitVec,
    pub refined: SharedBitVec,
    pub next_delta: Option<GraphInput>,
    /// The iterations that the movement pass of the level made.
    pub iterations: usize,
}

impl PartitionState {
    /// The state in which the movement pass of level `p` ends.
    pub open spec fn moved(
        &self,
        p: int,
        edges: Seq<Edge>,
        gamma: int,
        mode: RunMode,
        max_iterations: nat,
    ) -> MoveState {
        movement_result(
            &self.supergraphs@[p],
            edges,
            self.community_mapping_per_level@[p]@,
            self.current_subcommunity_mapping_per_level@[p]@,
            gamma,
            mode,
            max_iterations,
        )
    }

    /// The iterations that the movement pass of level `p` makes.
    pub open spec fn moved_iterations(
        &self,
        p: int,
        edges: Seq<Edge>,
        gamma: int,
        mode: RunMode,
        max_iterations: nat,
    ) -> nat {
        iterations_made(
            &self.supergraphs@[p],
            edges,
            self.community_mapping_per_level@[p]@,
            self.current_subcommunity_mapping_per_level@[p]@,
            gamma,
            mode,
            max_iterations,
        )
    }

    /// The sub-communities of level `p` after its refinement.
    pub open spec fn refined_sub(
        &self,
        p: int,
        edges: Seq<Edge>,
        gamma: int,
        mode: RunMode,
        max_iterations: nat,
    ) -> Seq<usize> {
        refined_subcommunities(
            &self.supergraphs@[p],
            self.moved(p, edges, gamma, mode, max_iterations).labels,
            self.current_subcommunity_mapping_per_level@[p]@,
            self.moved(p, edges, gamma, mode, max_iterations).affected,
            gamma,
            mode,
        )
    }

    /// The nodes of level `p` that its refinement hands on.
    pub open spec fn refined_set(
        &self,
        p: int,
        edges: Seq<Edge>,
        gamma: int,
        mode: RunMode,
        max_iterations: nat,
    ) -> Seq<bool> {
        refined_nodes(
            &self.supergraphs@[p],
            self.current_subcommunity_mapping_per_level@[p]@,
            self.moved(p, edges, gamma, mode, max_iterations).affected,
        )
    }

    /// The change that level `p` hands to the level above, given the change that it receives.
    pub open spec fn handed_on(
        &self,
        p: int,
        edges: Seq<Edge>,
        gamma: int,
        mode: RunMode,
        max_iterations: nat,
    ) -> Seq<Edge> {
        compressed(
            &self.supergraphs@[p],
            edges,
            self.previous_subcommunity_mapping_per_level@[p]@,
            self.refined_sub(p, edges, gamma, mode, max_iterations),
            self.refined_set(p, edges, gamma, mode, max_iterations),
        )
    }

    /// The sub-communities of level `p` that the next run takes as those of before.
    pub open spec fn carried_on(
        &self,
        p: int,
        edges: Seq<Edge>,
        gamma: int,
        mode: RunMode,
        max_iterations: nat,
    ) -> Seq<usize> {
        if p + 1 < self.levels {
            next_previous(
                self.previous_subcommunity_mapping_per_level@[p]@,
                self.refined_sub(p, edges, gamma, mode, max_iterations),
                self.refined_set(p, edges, gamma, mode, max_iterations),
            )
        } else {
            self.previous_subcommunity_mapping_per_level@[p]@
        }
    }

    /// Whether level `p`, given the change that it receives, hands on what the
    /// level above can take: every refined sub-community is a node of the level
    /// above, and the change handed on is within capacity where a further level
    /// aggregates it. The top level hands nothing on.
    pub open spec fn hands_on(
        &self,
        p: int,
        edges: Seq<Edge>,
        gamma: int,
        mode: RunMode,
        max_iterations: nat,
    ) -> bool {
        p + 1 >= self.levels || ((forall|v: int|
            0 <= v < self.level_nodes(p) ==> (#[trigger] self.refined_sub(
                p,
                edges,
                gamma,
                mode,
                max_iterations,
            )[v]) < self.level_nodes(p + 1)) && (p + 2 < self.levels ==> delta_in_capacity(
            self.handed_on(p, edges, gamma, mode, max_iterations),
        )))
    }

    /// Whether the two states have the same levels, graphs and weights, and the
    /// same nodes at every level.
    pub open spec fn same_frame(&self, other: &PartitionState) -> bool {
        &&& self.levels == other.levels
        &&& self.supergraphs == other.supergraphs
        &&& self.comm_weights@ == other.comm_weights@
        &&& self.node_weights@ == other.node_weights@
        &&& self.cc_indices_per_level@ == other.cc_indices_per_level@
        &&& self.community_mapping_per_level@.len() == other.community_mapping_per_level@.len()
        &&& forall|q: int|
            0 <= q < self.community_mapping_per_level@.len() ==> #[trigger] self.level_nodes(q)
                == other.level_nodes(q)
    }

    /// Whether the two states have the same mappings at every level from `from` upwards.
    pub open spec fn same_from(&self, other: &PartitionState, from: int) -> bool {
        forall|q: int|
            from <= q < self.levels ==> #[trigger] self.community_mapping_per_level@[q]
                == other.community_mapping_per_level@[q]
                && self.current_subcommunity_mapping_per_level@[q]
                == other.current_subcommunity_mapping_per_level@[q]
                && self.previous_subcommunity_mapping_per_level@[q]
                == other.previous_subcommunity_mapping_per_level@[q]
    }

    /// Whether the two states have the same mappings at every level but `p`.
    pub open spec fn same_but(&self, other: &PartitionState, p: int) -> bool {
        forall|q: int|
            0 <= q < self.levels && q != p ==> #[trigger] self.community_mapping_per_level@[q]
                == other.community_mapping_per_level@[q]
                && self.current_subcommunity_mapping_per_level@[q]
                == other.current_subcommunity_mapping_per_level@[q]
                && self.previous_subcommunity_mapping_per_level@[q]
                == other.previous_subcommunity_mapping_per_level@[q]
    }
}

/// Movement, refinement and, below the top level, aggregation of one level.
///
/// Below the top level, the refined sub-communities must be nodes of the level
/// above, and the change handed on must be within capacity where a further
/// level aggregates it: where one of the two fails, the sub-communities of the
/// level are left as they were and the run is given up.
pub(crate) fn process_level(
    state: &mut PartitionState,
    p: usize,
    delta: &GraphInput,
    gamma: i64,
    mode: RunMode,
    max_iterations: usize,
) -> (done: Result<LevelOutcome, HitLeidenError>)
    requires
        old(state).levels_wf(),
        old(state).supergraphs@.len() != 0,
        p < old(state).levels,
        edges_in_range(delta.edges@, old(state).level_nodes(p as int)),
        p + 1 < old(state).levels ==> delta_in_capacity(delta.edges@),
        has_headroom(old(state).current_subcommunity_mapping_per_level@[p as int]@),
        0 <= gamma <= MAX_RESOLUTION,
    ensures
        final(state).levels_wf(),
        final(state).node_to_comm@ == old(state).node_to_comm@,
        final(state).same_frame(old(state)),
        final(state).same_but(old(state), p as int),
        final(state).refined_community_mapping_per_level@ == old(state).refined_community_mapping_per_level@,
        final(state).community_mapping_per_level@[p as int]@ == old(state).moved(
            p as int,
            delta.edges@,
            gamma as int,
            mode,
            max_iterations as nat,
        ).labels,
        done is Ok <==> old(state).hands_on(
            p as int,
            delta.edges@,
            gamma as int,
            mode,
            max_iterations as nat,
        ),
        match done {
            Ok(outcome) => {
                &&& outcome.changed.wf()
                &&& outcome.refined.wf()
                &&& outcome.changed@.len() == old(state).level_nodes(p as int)
                &&& outcome.refined@.len() == old(state).level_nodes(p as int)
                &&& outcome.changed@ == old(state).moved(
                    p as int,
                    delta.edges@,
                    gamma as int,
                    mode,
                    max_iterations as nat,
                ).changed
                &&& outcome.refined@ == old(state).refined_set(
                    p as int,
                    delta.edges@,
                    gamma as int,
                    mode,
                    max_iterations as nat,
                )
                &&& final(state).current_subcommunity_mapping_per_level@[p as int]@
                    == old(state).refined_sub(p as int, delta.edges@, gamma as int, mode, max_iterations as nat)
                &&& final(state).previous_subcommunity_mapping_per_level@[p as int]@
                    == old(state).carried_on(p as int, delta.edges@, gamma as int, mode, max_iterations as nat)
                &&& outcome.iterations == old(state).moved_iterations(
                    p as int,
                    delta.edges@,
                    gamma as int,
                    mode,
                    max_iterations as nat,
                )
                &&& p + 1 == old(state).levels ==> outcome.next_delta is None
                &&& p + 1 < old(state).levels ==> outcome.next_delta is Some
                    && outcome.next_delta->0.edges@ == old(state).handed_on(
                    p as int,
                    delta.edges@,
                    gamma as int,
                    mode,
                    max_iterations as nat,
                ) && edges_in_range(
                    outcome.next_delta->0.edges@,
                    old(state).level_nodes(p + 1),
                ) && (p + 2 < old(state).levels ==> delta_in_capacity(outcome.next_delta->0.edges@))
            },
            Err(error) => {
                &&& error is Backend
                &&& final(state).current_subcommunity_mapping_per_level@[p as int]@
                    == old(state).current_subcommunity_mapping_per_level@[p as int]@
                &&& final(state).previous_subcommunity_mapping_per_level@[p as int]@
                    == old(state).previous_subcommunity_mapping_per_level@[p as int]@
            },
        },
{
    let ghost before = *state;
    proof {
        assert(state.level_wf(p as int));
        if p + 1 < state.levels {
            assert(state.link_wf(p as int));
            assert(state.level_wf(p + 1));
        }
    }
    let levels: usize = state.levels;
    let n: usize = state.supergraphs[p].node_count;
    let mut pool = BufferPool::new(n, 1);
    let (changed, affected, iterations) = inc_movement_counted(
        &state.supergraphs[p],
        delta,
        &mut state.community_mapping_per_level[p],
        &state.current_subcommunity_mapping_per_level[p],
        gamma,
        mode,
        max_iterations,
        &mut pool,
    );
    let backup: Vec<usize> = state.current_subcommunity_mapping_per_level[p].clone();
    assert(backup@ =~= before.current_subcommunity_mapping_per_level@[p as int]@);
    let refined = inc_refinement(
        &state.supergraphs[p],
        &state.community_mapping_per_level[p],
        &mut state.current_subcommunity_mapping_per_level[p],
        &affected,
        gamma,
        mode,
        pool.len(),
    );
    if p + 1 == levels {
        proof {
            lemma_level_kept(before, *state, p as int);
        }
        return Ok(LevelOutcome { changed, refined, next_delta: None, iterations });
    }
    let above: usize = state.community_mapping_per_level[p + 1].len();
    let fits: bool = all_below(&state.current_subcommunity_mapping_per_level[p], above);
    if !fits {
        proof {
            let refined_now = state.current_subcommunity_mapping_per_level@[p as int]@;
            let v = choose|v: int| 0 <= v < refined_now.len() && !((#[trigger] refined_now[v]) < above);
            assert(before.refined_sub(
                p as int,
                delta.edges@,
                gamma as int,
                mode,
                max_iterations as nat,
            )[v] >= before.level_nodes(p + 1));
            assert(!before.hands_on(
                p as int,
                delta.edges@,
                gamma as int,
                mode,
                max_iterations as nat,
            ));
        }
        state.current_subcommunity_mapping_per_level.set(p, backup);
        proof {
            assert(state.current_subcommunity_mapping_per_level@[p as int]@
                == before.current_subcommunity_mapping_per_level@[p as int]@);
            lemma_level_kept(before, *state, p as int);
        }
        return Err(
            HitLeidenError::Backend("a refined sub-community is no node of the level above".to_string()),
        );
    }
    proof {
        assert(below_max(state.current_subcommunity_mapping_per_level@[p as int]@));
        assert(below_max(state.previous_subcommunity_mapping_per_level@[p as int]@));
    }
    let (next_delta, next_previous_map) = inc_aggregation(
        &state.supergraphs[p],
        delta,
        &state.previous_subcommunity_mapping_per_level[p],
        &state.current_subcommunity_mapping_per_level[p],
        &refined,
    );
    proof {
        assert(next_delta.edges@ == before.handed_on(
            p as int,
            delta.edges@,
            gamma as int,
            mode,
            max_iterations as nat,
        ));
    }
    if p + 2 < levels && !check_delta_capacity(&next_delta) {
        proof {
            assert(!before.hands_on(
                p as int,
                delta.edges@,
                gamma as int,
                mode,
                max_iterations as nat,
            ));
        }
        state.current_subcommunity_mapping_per_level.set(p, backup);
        proof {
            lemma_level_kept(before, *state, p as int);
        }
        return Err(
            HitLeidenError::Backend("the change of the level above exceeds the capacity".to_string()),
        );
    }
    proof {
        let s_pre = before.previous_subcommunity_mapping_per_level@[p as int]@;
        let s_cur = state.current_subcommunity_mapping_per_level@[p as int]@;
        crate::solver::algorithm::refinement::lemma_max_label_in_use(s_pre, n as int);
        crate::solver::algorithm::refinement::lemma_max_label_in_use(s_cur, n as int);
        if n > 0 {
            assert(s_pre[0] < above && s_cur[0] < above);
            assert(greatest_of(s_pre, s_cur) < above);
        } else {
            assert(delta.edges@.len() == 0) by {
                if delta.edges@.len() > 0 {
                    assert(delta.edges@[0].0 < n);
                }
            }
            assert(next_delta.edges@.len() == 0) by {
                if next_delta.edges@.len() > 0 {
                    let e = next_delta.edges@[0];
                    assert(crate::solver::algorithm::aggregation::agg_weight(
                        &state.supergraphs@[p as int],
                        delta.edges@,
                        s_pre,
                        s_cur,
                        refined@,
                        crate::solver::algorithm::aggregation::edge_key(e),
                    ) != 0);
                }
            }
        }
        assert(edges_in_range(next_delta.edges@, above as int));
        assert(next_previous_map@.len() == n);
        assert forall|v: int| 0 <= v < n implies (#[trigger] next_previous_map@[v]) < above by {
            assert(s_cur[v] < above);
            assert(s_pre[v] < above);
        }
    }
    state.previous_subcommunity_mapping_per_level.set(p, next_previous_map);
    proof {
        lemma_level_kept(before, *state, p as int);
    }
    Ok(LevelOutcome { changed, refined, next_delta: Some(next_delta), iterations })
}

/// Whether every id is below `bound`.
fn all_below(ids: &Vec<usize>, bound: usize) -> (yes: bool)
    ensures
        yes == forall|v: int| 0 <= v < ids@.len() ==> (#[trigger] ids@[v]) < bound,
{
    let mut v: usize = 0;
    while v < ids.len()
        invariant
            v <= ids@.len(),
            forall|u: int| 0 <= u < v ==> (#[trigger] ids@[u]) < bound,
        decreases ids@.len() - v,
    {
        if ids[v] >= bound {
            return false;
        }
        v += 1;
    }
    true
}

/// A state that differs from a sound one only in the mappings of one level is
/// sound, where that level is sound and fits its neighbours.
proof fn lemma_level_kept(before: PartitionState, after: PartitionState, p: int)
    requires
        before.levels_wf(),
        0 <= p < before.levels,
        after.levels == before.levels,
        after.supergraphs@ == before.supergraphs@,
        after.community_mapping_per_level@.len() == before.levels,
        after.refined_community_mapping_per_level@ == before.refined_community_mapping_per_level@,
        after.previous_subcommunity_mapping_per_level@.len() == before.levels,
        after.current_subcommunity_mapping_per_level@.len() == before.levels,
        forall|q: int|
            0 <= q < before.levels && q != p ==> #[trigger] after.community_mapping_per_level@[q]
                == before.community_mapping_per_level@[q]
                && after.current_subcommunity_mapping_per_level@[q]
                == before.current_subcommunity_mapping_per_level@[q]
                && after.previous_subcommunity_mapping_per_level@[q]
                == before.previous_subcommunity_mapping_per_level@[q],
        labels_ok(after.community_mapping_per_level@[p]@, before.level_nodes(p)),
        after.current_subcommunity_mapping_per_level@[p]@.len() == before.level_nodes(p),
        after.previous_subcommunity_mapping_per_level@[p]@.len() == before.level_nodes(p),
        p + 1 < before.levels ==> forall|v: int|
            0 <= v < before.level_nodes(p) ==> (
            #[trigger] after.current_subcommunity_mapping_per_level@[p]@[v]) < before.level_nodes(
                p + 1,
            ),
        p + 1 < before.levels ==> forall|v: int|
            0 <= v < before.level_nodes(p) ==> (
            #[trigger] after.previous_subcommunity_mapping_per_level@[p]@[v]) < before.level_nodes(
                p + 1,
            ),
    ensures
        forall|q: int| 0 <= q < before.levels ==> #[trigger] after.level_wf(q),
        forall|q: int| 0 <= q < before.levels - 1 ==> #[trigger] after.link_wf(q),
        forall|q: int| 0 <= q < before.levels ==> #[trigger] after.level_nodes(q) == before.level_nodes(q),
{
    assert forall|q: int| 0 <= q < before.levels implies #[trigger] after.level_nodes(q)
        == before.level_nodes(q) by {
        if q != p {
            assert(after.community_mapping_per_level@[q] == before.community_mapping_per_level@[q]);
        }
    }
    assert forall|q: int| 0 <= q < before.levels implies #[trigger] after.level_wf(q) by {
        assert(before.level_wf(q));
        if q != p {
            assert(after.community_mapping_per_level@[q] == before.community_mapping_per_level@[q]);
        }
    }
    assert forall|q: int| 0 <= q < before.levels - 1 implies #[trigger] after.link_wf(q) by {
        assert(before.link_wf(q));
        assert(after.level_nodes(q) == before.level_nodes(q));
        assert(after.level_nodes(q + 1) == before.level_nodes(q + 1));
        if q != p {
            assert(after.community_mapping_per_level@[q] == before.community_mapping_per_level@[q]);
        }
    }
}


} // verus!
