use crate::solver::algorithm::degrees::labels_ok;
use crate::solver::algorithm::hierarchy::{
    def_update, level_maps, level_sets, levels_fit, lemma_update_lengths, touched, updated_from,
    updated_labels,
};
use crate::solver::algorithm::levels::{
    check_delta_capacity, delta_in_capacity, process_level, LevelOutcome,
};
use crate::solver::algorithm::movement::{
    edges_in_range, iterations_made, lemma_zero_weight_keeps_partition, movement_result,
    MoveState,
};
use crate::solver::algorithm::parallel_frontier::SharedBitVec;
use crate::solver::algorithm::refinement::{has_headroom, refined_subcommunities};
use crate::solver::algorithm::replay::{
    lemma_adjacency_unique, lemma_same_iterations, lemma_same_movement,
};
use crate::accel::probe::is_available;
use crate::solver::backend::{reason_is, GraphSource};
use crate::solver::config::{RunConfig, RunMode};
use crate::solver::error::HitLeidenError;
use crate::solver::graph::in_memory::{edge_sum, InMemoryGraph};
use crate::solver::validation::equivalence::quality_distance;
use crate::solver::validation::invariants::partition_sound;
use crate::solver::validation::quality::{
    community_count, count_communities, modularity, modularity_of,
};
use crate::solver::partition::state::{identity_map, PartitionState};
use crate::solver::runtime::clock::unix_seconds;
use crate::solver::runtime::orchestrator::{self, is_accelerated};
use crate::solver::types::{
    abs_edge_weight_sum, edge_weight, BackendType, Edge, GraphBackend, GraphInput,
    GraphSourceType, PartitionResult, RunExecution, RunOutcome, RunStatus,
};
use crate::solver::weight::{MAX_RESOLUTION, MAX_TOTAL_WEIGHT, SCALE};
use vstd::prelude::*;
use vstd::string::StringExecFns;

verus! {

impl PartitionState {
    /// Whether the state can take the change: before the first run the change
    /// is the whole graph, which must be valid and have the nodes of the lowest
    /// level; later its edges must join nodes of the lowest level, and the
    /// graph of that level must stay within capacity with them.
    pub open spec fn accepts(&self, delta: &GraphInput) -> bool {
        &&& self.supergraphs@.len() == 0 ==> delta.valid() && delta.node_count == self.level_nodes(0)
        &&& self.supergraphs@.len() != 0 ==> edges_in_range(delta.edges@, self.level_nodes(0))
            && self.supergraphs@[0].takes(delta.edges@) && (self.levels > 1 ==> delta_in_capacity(
            delta.edges@,
        ))
    }

    /// The state with the given graphs in place of its own.
    pub open spec fn with_graphs(&self, graphs: Vec<InMemoryGraph>) -> PartitionState {
        PartitionState { supergraphs: graphs, ..*self }
    }

    /// The change that level `p` receives in a run that is not given up below
    /// it: the lowest level receives the change of the run, and every other
    /// level what the level below hands on.
    pub open spec fn level_delta(
        &self,
        delta: Seq<Edge>,
        gamma: int,
        mode: RunMode,
        max_iterations: nat,
        p: int,
    ) -> Seq<Edge>
        decreases p,
    {
        if p <= 0 {
            delta
        } else {
            self.handed_on(
                p - 1,
                self.level_delta(delta, gamma, mode, max_iterations, p - 1),
                gamma,
                mode,
                max_iterations,
            )
        }
    }

    /// Whether level `p` hands on what the level above can take.
    pub open spec fn level_fits(
        &self,
        delta: Seq<Edge>,
        gamma: int,
        mode: RunMode,
        max_iterations: nat,
        p: int,
    ) -> bool {
        self.hands_on(
            p,
            self.level_delta(delta, gamma, mode, max_iterations, p),
            gamma,
            mode,
            max_iterations,
        )
    }

    /// Whether every level below `upto` hands on what the level above can take.
    pub open spec fn fits_below(
        &self,
        delta: Seq<Edge>,
        gamma: int,
        mode: RunMode,
        max_iterations: nat,
        upto: int,
    ) -> bool {
        forall|q: int|
            0 <= q < upto ==> #[trigger] self.level_fits(delta, gamma, mode, max_iterations, q)
    }

    /// The state in which the movement pass of level `p` ends in a run from this state.
    pub open spec fn moved_at(
        &self,
        delta: Seq<Edge>,
        gamma: int,
        mode: RunMode,
        max_iterations: nat,
        p: int,
    ) -> MoveState {
        self.moved(
            p,
            self.level_delta(delta, gamma, mode, max_iterations, p),
            gamma,
            mode,
            max_iterations,
        )
    }

    /// The sub-communities of level `p` after its refinement in a run from this state.
    pub open spec fn sub_at(
        &self,
        delta: Seq<Edge>,
        gamma: int,
        mode: RunMode,
        max_iterations: nat,
        p: int,
    ) -> Seq<usize> {
        self.refined_sub(
            p,
            self.level_delta(delta, gamma, mode, max_iterations, p),
            gamma,
            mode,
            max_iterations,
        )
    }

    /// The refined nodes of level `p` in a run from this state.
    pub open spec fn set_at(
        &self,
        delta: Seq<Edge>,
        gamma: int,
        mode: RunMode,
        max_iterations: nat,
        p: int,
    ) -> Seq<bool> {
        self.refined_set(
            p,
            self.level_delta(delta, gamma, mode, max_iterations, p),
            gamma,
            mode,
            max_iterations,
        )
    }

    /// The sub-communities of level `p` that a run from this state leaves as those of before.
    pub open spec fn previous_at(
        &self,
        delta: Seq<Edge>,
        gamma: int,
        mode: RunMode,
        max_iterations: nat,
        p: int,
    ) -> Seq<usize> {
        self.carried_on(
            p,
            self.level_delta(delta, gamma, mode, max_iterations, p),
            gamma,
            mode,
            max_iterations,
        )
    }

    /// Whether level `q` is as movement, refinement and aggregation leave it in a run from `start`.
    pub open spec fn level_done(
        &self,
        start: &PartitionState,
        delta: Seq<Edge>,
        gamma: int,
        mode: RunMode,
        max_iterations: nat,
        q: int,
    ) -> bool {
        &&& self.community_mapping_per_level@[q]@ == start.moved_at(
            delta,
            gamma,
            mode,
            max_iterations,
            q,
        ).labels
        &&& self.current_subcommunity_mapping_per_level@[q]@ == start.sub_at(
            delta,
            gamma,
            mode,
            max_iterations,
            q,
        )
        &&& self.previous_subcommunity_mapping_per_level@[q]@ == start.previous_at(
            delta,
            gamma,
            mode,
            max_iterations,
            q,
        )
    }

    /// Whether every level below `upto` is as the operators leave it in a run from `start`.
    pub open spec fn done_below(
        &self,
        start: &PartitionState,
        delta: Seq<Edge>,
        gamma: int,
        mode: RunMode,
        max_iterations: nat,
        upto: int,
    ) -> bool {
        forall|q: int|
            0 <= q < upto ==> #[trigger] self.level_done(
                start,
                delta,
                gamma,
                mode,
                max_iterations,
                q,
            )
    }

    /// Whether level `q` has the mappings of `other`.
    pub open spec fn level_same(&self, other: &PartitionState, q: int) -> bool {
        &&& self.community_mapping_per_level@[q]@ == other.community_mapping_per_level@[q]@
        &&& self.current_subcommunity_mapping_per_level@[q]@
            == other.current_subcommunity_mapping_per_level@[q]@
        &&& self.previous_subcommunity_mapping_per_level@[q]@
            == other.previous_subcommunity_mapping_per_level@[q]@
    }

    /// Whether every level from `from` upwards has the mappings of `other`.
    pub open spec fn same_above(&self, other: &PartitionState, from: int) -> bool {
        forall|q: int| from <= q < self.levels ==> #[trigger] self.level_same(other, q)
    }

    /// The communities of every level as the movement passes of a run from this state leave them.
    pub open spec fn moved_labels(
        &self,
        delta: Seq<Edge>,
        gamma: int,
        mode: RunMode,
        max_iterations: nat,
    ) -> Seq<Seq<usize>> {
        Seq::new(
            self.levels as nat,
            |q: int| self.moved_at(delta, gamma, mode, max_iterations, q).labels,
        )
    }

    /// The nodes of every level that the movement passes of a run from this state move.
    pub open spec fn moved_sets(
        &self,
        delta: Seq<Edge>,
        gamma: int,
        mode: RunMode,
        max_iterations: nat,
    ) -> Seq<Seq<bool>> {
        Seq::new(
            self.levels as nat,
            |q: int| self.moved_at(delta, gamma, mode, max_iterations, q).changed,
        )
    }

    /// The sub-communities of every level as a run from this state leaves them.
    pub open spec fn refined_subs(
        &self,
        delta: Seq<Edge>,
        gamma: int,
        mode: RunMode,
        max_iterations: nat,
    ) -> Seq<Seq<usize>> {
        Seq::new(self.levels as nat, |q: int| self.sub_at(delta, gamma, mode, max_iterations, q))
    }

    /// The refined nodes of every level in a run from this state.
    pub open spec fn refined_sets(
        &self,
        delta: Seq<Edge>,
        gamma: int,
        mode: RunMode,
        max_iterations: nat,
    ) -> Seq<Seq<bool>> {
        Seq::new(self.levels as nat, |q: int| self.set_at(delta, gamma, mode, max_iterations, q))
    }

    /// Whether level `q` is as a completed run from `start` leaves it: the
    /// sub-communities as refinement and aggregation left them, and the
    /// communities and refined communities as the deferred update carried
    /// them down from the levels above.
    pub open spec fn level_complete(
        &self,
        start: &PartitionState,
        delta: Seq<Edge>,
        gamma: int,
        mode: RunMode,
        max_iterations: nat,
        q: int,
    ) -> bool {
        &&& self.current_subcommunity_mapping_per_level@[q]@ == start.sub_at(
            delta,
            gamma,
            mode,
            max_iterations,
            q,
        )
        &&& self.previous_subcommunity_mapping_per_level@[q]@ == start.previous_at(
            delta,
            gamma,
            mode,
            max_iterations,
            q,
        )
        &&& self.community_mapping_per_level@[q]@ == updated_labels(
            start.moved_labels(delta, gamma, mode, max_iterations),
            start.refined_subs(delta, gamma, mode, max_iterations),
            start.moved_sets(delta, gamma, mode, max_iterations),
            start.levels as int,
            q,
        )
        &&& self.refined_community_mapping_per_level@[q]@ == updated_labels(
            level_maps(start.refined_community_mapping_per_level@),
            start.refined_subs(delta, gamma, mode, max_iterations),
            start.refined_sets(delta, gamma, mode, max_iterations),
            start.levels as int,
            q,
        )
    }

    /// Whether the state is that in which a completed run from `start` ends.
    pub open spec fn is_result_of(
        &self,
        start: &PartitionState,
        delta: Seq<Edge>,
        gamma: int,
        mode: RunMode,
        max_iterations: nat,
    ) -> bool {
        forall|q: int|
            0 <= q < start.levels ==> #[trigger] self.level_complete(
                start,
                delta,
                gamma,
                mode,
                max_iterations,
                q,
            )
    }

    /// Whether the state is that in which a run from `start` ends that is given
    /// up at level `b`: the levels below are as the operators left them, level
    /// `b` is moved but not refined, and everything else is as it was.
    pub open spec fn is_given_up_at(
        &self,
        start: &PartitionState,
        delta: Seq<Edge>,
        gamma: int,
        mode: RunMode,
        max_iterations: nat,
        b: int,
    ) -> bool {
        &&& 0 <= b < start.levels
        &&& start.fits_below(delta, gamma, mode, max_iterations, b)
        &&& !start.level_fits(delta, gamma, mode, max_iterations, b)
        &&& self.done_below(start, delta, gamma, mode, max_iterations, b)
        &&& self.community_mapping_per_level@[b]@ == start.moved_at(
            delta,
            gamma,
            mode,
            max_iterations,
            b,
        ).labels
        &&& self.current_subcommunity_mapping_per_level@[b]@
            == start.current_subcommunity_mapping_per_level@[b]@
        &&& self.previous_subcommunity_mapping_per_level@[b]@
            == start.previous_subcommunity_mapping_per_level@[b]@
        &&& self.same_above(start, b + 1)
        &&& self.refined_community_mapping_per_level@
            == start.refined_community_mapping_per_level@
    }
}

/// Whether the sets range over the nodes of the first levels of the state, one set per level.
pub open spec fn sets_fit(sets: Seq<SharedBitVec>, state: &PartitionState) -> bool {
    forall|q: int|
        0 <= q < sets.len() ==> (#[trigger] sets[q]).wf() && sets[q]@.len() == state.level_nodes(q)
}

/// Whether the sets are those of the first levels of a run from `start`.
pub open spec fn sets_done(
    changed: Seq<SharedBitVec>,
    refined: Seq<SharedBitVec>,
    start: &PartitionState,
    delta: Seq<Edge>,
    gamma: int,
    mode: RunMode,
    max_iterations: nat,
) -> bool {
    &&& changed.len() == refined.len()
    &&& forall|q: int|
        0 <= q < changed.len() ==> (#[trigger] changed[q])@ == start.moved_at(
            delta,
            gamma,
            mode,
            max_iterations,
            q,
        ).changed
    &&& forall|q: int|
        0 <= q < refined.len() ==> (#[trigger] refined[q])@ == start.set_at(
            delta,
            gamma,
            mode,
            max_iterations,
            q,
        )
}

/// Two states that agree on the graphs and on level `p` agree on what the operators do at level `p`.
proof fn lemma_level_agrees(
    before: PartitionState,
    start: PartitionState,
    p: int,
    edges: Seq<Edge>,
    gamma: int,
    mode: RunMode,
    max_iterations: nat,
)
    requires
        0 <= p < start.levels,
        before.levels == start.levels,
        before.supergraphs@ == start.supergraphs@,
        start.supergraphs@.len() == start.levels,
        before.level_same(&start, p),
        p + 1 < start.levels ==> before.level_nodes(p + 1) == start.level_nodes(p + 1),
    ensures
        before.moved(p, edges, gamma, mode, max_iterations) == start.moved(
            p,
            edges,
            gamma,
            mode,
            max_iterations,
        ),
        before.refined_sub(p, edges, gamma, mode, max_iterations) == start.refined_sub(
            p,
            edges,
            gamma,
            mode,
            max_iterations,
        ),
        before.refined_set(p, edges, gamma, mode, max_iterations) == start.refined_set(
            p,
            edges,
            gamma,
            mode,
            max_iterations,
        ),
        before.handed_on(p, edges, gamma, mode, max_iterations) == start.handed_on(
            p,
            edges,
            gamma,
            mode,
            max_iterations,
        ),
        before.carried_on(p, edges, gamma, mode, max_iterations) == start.carried_on(
            p,
            edges,
            gamma,
            mode,
            max_iterations,
        ),
        before.hands_on(p, edges, gamma, mode, max_iterations) == start.hands_on(
            p,
            edges,
            gamma,
            mode,
            max_iterations,
        ),
{
    assert(before.supergraphs@[p] == start.supergraphs@[p]);
    assert(before.level_nodes(p) == start.level_nodes(p));
    let sub = start.refined_sub(p, edges, gamma, mode, max_iterations);
    assert(before.refined_sub(p, edges, gamma, mode, max_iterations) == sub);
    assert(before.handed_on(p, edges, gamma, mode, max_iterations) == start.handed_on(
        p,
        edges,
        gamma,
        mode,
        max_iterations,
    ));
    if p + 1 < start.levels {
        let range_before = forall|v: int|
            0 <= v < before.level_nodes(p) ==> (#[trigger] before.refined_sub(
                p,
                edges,
                gamma,
                mode,
                max_iterations,
            )[v]) < before.level_nodes(p + 1);
        let range_start = forall|v: int|
            0 <= v < start.level_nodes(p) ==> (#[trigger] start.refined_sub(
                p,
                edges,
                gamma,
                mode,
                max_iterations,
            )[v]) < start.level_nodes(p + 1);
        assert(range_before == range_start);
    }
}

/// The change that the next level receives: that of the run at the lowest
/// level, and above it what the level below handed on.
pub open spec fn current_edges(owned: Option<GraphInput>, delta_g: &GraphInput) -> Seq<Edge> {
    match owned {
        Some(delta) => delta.edges@,
        None => delta_g.edges@,
    }
}

/// What a level that gives up leaves behind.
proof fn lemma_given_up(
    before: PartitionState,
    after: PartitionState,
    start: PartitionState,
    p: int,
    delta: Seq<Edge>,
    gamma: int,
    mode: RunMode,
    max_iterations: nat,
)
    requires
        0 <= p < start.levels,
        before.levels == start.levels,
        before.supergraphs@ == start.supergraphs@,
        start.supergraphs@.len() == start.levels,
        p + 1 < start.levels ==> before.level_nodes(p + 1) == start.level_nodes(p + 1),
        before.same_from(&start, p),
        before.done_below(&start, delta, gamma, mode, max_iterations, p),
        start.fits_below(delta, gamma, mode, max_iterations, p),
        after.levels == before.levels,
        after.same_but(&before, p),
        after.refined_community_mapping_per_level@ == start.refined_community_mapping_per_level@,
        !before.hands_on(
            p,
            start.level_delta(delta, gamma, mode, max_iterations, p),
            gamma,
            mode,
            max_iterations,
        ),
        after.community_mapping_per_level@[p]@ == before.moved(
            p,
            start.level_delta(delta, gamma, mode, max_iterations, p),
            gamma,
            mode,
            max_iterations,
        ).labels,
        after.current_subcommunity_mapping_per_level@[p]@
            == before.current_subcommunity_mapping_per_level@[p]@,
        after.previous_subcommunity_mapping_per_level@[p]@
            == before.previous_subcommunity_mapping_per_level@[p]@,
    ensures
        after.is_given_up_at(&start, delta, gamma, mode, max_iterations, p),
{
    let edges = start.level_delta(delta, gamma, mode, max_iterations, p);
    assert(before.level_same(&start, p)) by {
        assert(before.community_mapping_per_level@[p] == start.community_mapping_per_level@[p]);
    }
    lemma_level_agrees(before, start, p, edges, gamma, mode, max_iterations);
    assert(after.done_below(&start, delta, gamma, mode, max_iterations, p)) by {
        assert forall|q: int| 0 <= q < p implies #[trigger] after.level_done(
            &start,
            delta,
            gamma,
            mode,
            max_iterations,
            q,
        ) by {
            assert(before.level_done(&start, delta, gamma, mode, max_iterations, q));
            assert(after.community_mapping_per_level@[q] == before.community_mapping_per_level@[q]);
        }
    }
    assert(after.same_above(&start, p + 1)) by {
        assert forall|q: int| p + 1 <= q < after.levels implies #[trigger] after.level_same(
            &start,
            q,
        ) by {
            assert(after.community_mapping_per_level@[q] == before.community_mapping_per_level@[q]);
            assert(before.community_mapping_per_level@[q] == start.community_mapping_per_level@[q]);
        }
    }
}

/// What a level that hands on leaves behind.
proof fn lemma_level_advanced(
    before: PartitionState,
    after: PartitionState,
    start: PartitionState,
    p: int,
    delta: Seq<Edge>,
    gamma: int,
    mode: RunMode,
    max_iterations: nat,
)
    requires
        0 <= p < start.levels,
        before.levels == start.levels,
        before.supergraphs@ == start.supergraphs@,
        start.supergraphs@.len() == start.levels,
        p + 1 < start.levels ==> before.level_nodes(p + 1) == start.level_nodes(p + 1),
        before.same_from(&start, p),
        before.done_below(&start, delta, gamma, mode, max_iterations, p),
        start.fits_below(delta, gamma, mode, max_iterations, p),
        after.levels == before.levels,
        after.same_but(&before, p),
        before.hands_on(
            p,
            start.level_delta(delta, gamma, mode, max_iterations, p),
            gamma,
            mode,
            max_iterations,
        ),
        after.community_mapping_per_level@[p]@ == before.moved(
            p,
            start.level_delta(delta, gamma, mode, max_iterations, p),
            gamma,
            mode,
            max_iterations,
        ).labels,
        after.current_subcommunity_mapping_per_level@[p]@ == before.refined_sub(
            p,
            start.level_delta(delta, gamma, mode, max_iterations, p),
            gamma,
            mode,
            max_iterations,
        ),
        after.previous_subcommunity_mapping_per_level@[p]@ == before.carried_on(
            p,
            start.level_delta(delta, gamma, mode, max_iterations, p),
            gamma,
            mode,
            max_iterations,
        ),
    ensures
        after.done_below(&start, delta, gamma, mode, max_iterations, p + 1),
        after.same_from(&start, p + 1),
        start.fits_below(delta, gamma, mode, max_iterations, p + 1),
        before.moved(
            p,
            start.level_delta(delta, gamma, mode, max_iterations, p),
            gamma,
            mode,
            max_iterations,
        ) == start.moved_at(delta, gamma, mode, max_iterations, p),
        before.refined_set(
            p,
            start.level_delta(delta, gamma, mode, max_iterations, p),
            gamma,
            mode,
            max_iterations,
        ) == start.set_at(delta, gamma, mode, max_iterations, p),
        before.handed_on(
            p,
            start.level_delta(delta, gamma, mode, max_iterations, p),
            gamma,
            mode,
            max_iterations,
        ) == start.level_delta(delta, gamma, mode, max_iterations, p + 1),
{
    let edges = start.level_delta(delta, gamma, mode, max_iterations, p);
    assert(before.level_same(&start, p)) by {
        assert(before.community_mapping_per_level@[p] == start.community_mapping_per_level@[p]);
    }
    lemma_level_agrees(before, start, p, edges, gamma, mode, max_iterations);
    assert(start.level_fits(delta, gamma, mode, max_iterations, p));
    assert(after.level_done(&start, delta, gamma, mode, max_iterations, p));
    assert(after.done_below(&start, delta, gamma, mode, max_iterations, p + 1)) by {
        assert forall|q: int| 0 <= q < p + 1 implies #[trigger] after.level_done(
            &start,
            delta,
            gamma,
            mode,
            max_iterations,
            q,
        ) by {
            if q < p {
                assert(before.level_done(&start, delta, gamma, mode, max_iterations, q));
                assert(after.community_mapping_per_level@[q]
                    == before.community_mapping_per_level@[q]);
            }
        }
    }
    assert(after.same_from(&start, p + 1)) by {
        assert forall|q: int| p + 1 <= q < after.levels implies #[trigger] after.community_mapping_per_level@[q]
            == start.community_mapping_per_level@[q]
            && after.current_subcommunity_mapping_per_level@[q]
            == start.current_subcommunity_mapping_per_level@[q]
            && after.previous_subcommunity_mapping_per_level@[q]
            == start.previous_subcommunity_mapping_per_level@[q] by {
            assert(after.community_mapping_per_level@[q] == before.community_mapping_per_level@[q]);
            assert(before.community_mapping_per_level@[q] == start.community_mapping_per_level@[q]);
        }
    }
    assert(start.fits_below(delta, gamma, mode, max_iterations, p + 1)) by {
        assert forall|q: int| 0 <= q < p + 1 implies #[trigger] start.level_fits(
            delta,
            gamma,
            mode,
            max_iterations,
            q,
        ) by {}
    }
    let next: int = p + 1;
    assert(start.level_delta(delta, gamma, mode, max_iterations, next) == start.handed_on(
        next - 1,
        start.level_delta(delta, gamma, mode, max_iterations, next - 1),
        gamma,
        mode,
        max_iterations,
    ));
}

/// Moves, refines and aggregates level by level, from the lowest up.
fn run_levels(
    state: &mut PartitionState,
    delta_g: &GraphInput,
    gamma: i64,
    mode: RunMode,
    max_iterations: usize,
) -> (done: Result<(Vec<SharedBitVec>, Vec<SharedBitVec>, usize), HitLeidenError>)
    requires
        old(state).levels_wf(),
        old(state).supergraphs@.len() != 0,
        old(state).roomy(),
        edges_in_range(delta_g.edges@, old(state).level_nodes(0)),
        old(state).levels > 1 ==> delta_in_capacity(delta_g.edges@),
        0 <= gamma <= MAX_RESOLUTION,
    ensures
        final(state).levels_wf(),
        final(state).same_frame(old(state)),
        final(state).node_to_comm@ == old(state).node_to_comm@,
        final(state).refined_community_mapping_per_level@ == old(state).refined_community_mapping_per_level@,
        match done {
            Ok(sets) => {
                &&& old(state).fits_below(
                    delta_g.edges@,
                    gamma as int,
                    mode,
                    max_iterations as nat,
                    old(state).levels as int,
                )
                &&& final(state).done_below(
                    old(state),
                    delta_g.edges@,
                    gamma as int,
                    mode,
                    max_iterations as nat,
                    old(state).levels as int,
                )
                &&& sets.2 == old(state).moved_iterations(
                    0,
                    delta_g.edges@,
                    gamma as int,
                    mode,
                    max_iterations as nat,
                )
                &&& sets.0@.len() == old(state).levels
                &&& sets_fit(sets.0@, old(state))
                &&& sets_fit(sets.1@, old(state))
                &&& sets_done(
                    sets.0@,
                    sets.1@,
                    old(state),
                    delta_g.edges@,
                    gamma as int,
                    mode,
                    max_iterations as nat,
                )
            },
            Err(error) => error is Backend && exists|b: int| #[trigger]
                final(state).is_given_up_at(
                    old(state),
                    delta_g.edges@,
                    gamma as int,
                    mode,
                    max_iterations as nat,
                    b,
                ),
        },
{
    let ghost start = *state;
    let ghost delta = delta_g.edges@;
    let ghost g = gamma as int;
    let ghost budget = max_iterations as nat;
    let p_max: usize = state.levels;
    let mut changed_per_level: Vec<SharedBitVec> = Vec::new();
    let mut refined_per_level: Vec<SharedBitVec> = Vec::new();
    let mut owned: Option<GraphInput> = None;
    let mut first_iterations: usize = 0;
    let mut p: usize = 0;
    proof {
        assert(start.level_wf(0));
    }
    while p < p_max
        invariant
            p <= p_max,
            p > 0 ==> first_iterations == start.moved_iterations(0, delta, g, mode, budget),
            p_max == start.levels,
            start == *old(state),
            delta == delta_g.edges@,
            g == gamma as int,
            budget == max_iterations as nat,
            0 <= gamma <= MAX_RESOLUTION,
            start.levels_wf(),
            start.supergraphs@.len() != 0,
            start.roomy(),
            state.levels_wf(),
            state.same_frame(&start),
            state.node_to_comm@ == start.node_to_comm@,
            state.refined_community_mapping_per_level@
                == start.refined_community_mapping_per_level@,
            state.same_from(&start, p as int),
            state.done_below(&start, delta, g, mode, budget, p as int),
            start.fits_below(delta, g, mode, budget, p as int),
            changed_per_level@.len() == p,
            sets_fit(changed_per_level@, &start),
            sets_fit(refined_per_level@, &start),
            sets_done(changed_per_level@, refined_per_level@, &start, delta, g, mode, budget),
            p < p_max ==> current_edges(owned, delta_g) == start.level_delta(
                delta,
                g,
                mode,
                budget,
                p as int,
            ),
            p < p_max ==> edges_in_range(current_edges(owned, delta_g), start.level_nodes(p as int)),
            p + 1 < p_max ==> delta_in_capacity(current_edges(owned, delta_g)),
        decreases p_max - p,
    {
        let ghost before = *state;
        let ghost edges = current_edges(owned, delta_g);
        proof {
            assert(has_headroom(start.current_subcommunity_mapping_per_level@[p as int]@));
            assert(before.community_mapping_per_level@[p as int]
                == start.community_mapping_per_level@[p as int]);
            assert(before.level_nodes(p as int) == start.level_nodes(p as int));
            if p + 1 < p_max {
                assert(before.level_nodes(p + 1) == start.level_nodes(p + 1));
            }
        }
        let outcome = match &owned {
            Some(delta) => process_level(state, p, delta, gamma, mode, max_iterations),
            None => process_level(state, p, delta_g, gamma, mode, max_iterations),
        };
        match outcome {
            Err(error) => {
                proof {
                    lemma_given_up(before, *state, start, p as int, delta, g, mode, budget);
                    lemma_frame_chain(*state, before, start);
                }
                return Err(error);
            },
            Ok(level) => {
                let ghost changed_before = changed_per_level@;
                let ghost refined_before = refined_per_level@;
                let LevelOutcome { changed, refined, next_delta, iterations } = level;
                if p == 0 {
                    first_iterations = iterations;
                    proof {
                        assert(edges == delta);
                        assert(before.supergraphs@[0] == start.supergraphs@[0]);
                        assert(before.current_subcommunity_mapping_per_level@[0]
                            == start.current_subcommunity_mapping_per_level@[0]);
                    }
                }
                proof {
                    lemma_level_advanced(before, *state, start, p as int, delta, g, mode, budget);
                    lemma_frame_chain(*state, before, start);
                    assert(start.level_wf(p as int));
                }
                let ghost changed_view = changed@;
                let ghost refined_view = refined@;
                changed_per_level.push(changed);
                refined_per_level.push(refined);
                proof {
                    assert(sets_fit(changed_per_level@, &start)) by {
                        assert forall|q: int| 0 <= q < changed_per_level@.len() implies (
                        #[trigger] changed_per_level@[q]).wf() && changed_per_level@[q]@.len()
                            == start.level_nodes(q) by {
                            if q < p {
                                assert(changed_per_level@[q] == changed_before[q]);
                            }
                        }
                    }
                    assert(sets_fit(refined_per_level@, &start)) by {
                        assert forall|q: int| 0 <= q < refined_per_level@.len() implies (
                        #[trigger] refined_per_level@[q]).wf() && refined_per_level@[q]@.len()
                            == start.level_nodes(q) by {
                            if q < p {
                                assert(refined_per_level@[q] == refined_before[q]);
                            }
                        }
                    }
                    assert(sets_done(
                        changed_per_level@,
                        refined_per_level@,
                        &start,
                        delta,
                        g,
                        mode,
                        budget,
                    )) by {
                        assert forall|q: int| 0 <= q < changed_per_level@.len() implies (
                        #[trigger] changed_per_level@[q])@ == start.moved_at(
                            delta,
                            g,
                            mode,
                            budget,
                            q,
                        ).changed by {
                            if q < p {
                                assert(changed_per_level@[q] == changed_before[q]);
                            }
                        }
                        assert forall|q: int| 0 <= q < refined_per_level@.len() implies (
                        #[trigger] refined_per_level@[q])@ == start.set_at(
                            delta,
                            g,
                            mode,
                            budget,
                            q,
                        ) by {
                            if q < p {
                                assert(refined_per_level@[q] == refined_before[q]);
                            }
                        }
                    }
                }
                if p + 1 < p_max {
                    owned = next_delta;
                }
            },
        }
        p += 1;
    }
    Ok((changed_per_level, refined_per_level, first_iterations))
}

/// A state that has the frame of a second, which has the frame of a third, has the frame of the third.
proof fn lemma_frame_chain(after: PartitionState, before: PartitionState, start: PartitionState)
    requires
        after.same_frame(&before),
        before.same_frame(&start),
    ensures
        after.same_frame(&start),
{
    assert forall|q: int|
        0 <= q < after.community_mapping_per_level@.len() implies #[trigger] after.level_nodes(q)
        == start.level_nodes(q) by {
        assert(before.level_nodes(q) == start.level_nodes(q));
    }
}
/// After the deferred update every community is still a node of its level.
proof fn lemma_updated_labels_ok(
    labels: Seq<Seq<usize>>,
    sub: Seq<Seq<usize>>,
    changed: Seq<Seq<bool>>,
    top: int,
    p: int,
)
    requires
        levels_fit(labels, sub, changed, top),
        0 <= p < top,
        forall|q: int| 0 <= q < top ==> labels_ok(#[trigger] labels[q], labels[q].len() as int),
        forall|q: int| 0 <= q < top - 1 ==> (#[trigger] labels[q + 1]).len() <= labels[q].len(),
    ensures
        labels_ok(updated_labels(labels, sub, changed, top, p), labels[p].len() as int),
    decreases top - p,
{
    assert(labels_ok(labels[p], labels[p].len() as int));
    if p < top - 1 {
        lemma_updated_labels_ok(labels, sub, changed, top, p + 1);
        let above = updated_labels(labels, sub, changed, top, p + 1);
        let here = updated_labels(labels, sub, changed, top, p);
        assert(labels[p + 1].len() <= labels[p].len());
        assert forall|v: int| 0 <= v < labels[p].len() implies (#[trigger] here[v])
            < labels[p].len() by {
            if touched(sub, changed, top, p)[v] {
                assert(sub[p][v] < labels[p + 1].len());
                assert(above[sub[p][v] as int] < labels[p + 1].len());
            } else {
                assert(labels[p][v] < labels[p].len());
            }
        }
    }
}


/// One run of the solver on a persisted partition.
///
/// Before the first run the graph of the lowest level is seeded from the
/// change; on a later run the edges of the change are added to it, so that
/// the level is moved on the graph as it stands with the change. Each level
/// is then moved and refined, and below the top level aggregated into the
/// change of the level above; at the end the coarse communities are carried
/// down to the lowest level, and the state shows them.
///
/// A state of one level always succeeds. With more levels the run is given up
/// at the first level that cannot hand on to the level above: where a refined
/// sub-community is no node of the level above, or where the change handed to
/// a further level exceeds the capacity. That level is then moved but not
/// refined, and the levels above it are left as they were. The graph of the
/// lowest level holds the change after the run, given up or not; the graphs
/// of the levels above are left as they are.
pub fn hit_leiden(
    state: &mut PartitionState,
    delta_g: &GraphInput,
    gamma: i64,
    mode: RunMode,
    max_iterations: usize,
) -> (done: Result<(), HitLeidenError>)
    requires
        old(state).levels_wf(),
        old(state).accepts(delta_g),
        old(state).roomy(),
        0 <= gamma <= MAX_RESOLUTION,
    ensures
        final(state).wf(),
        final(state).levels == old(state).levels,
        forall|q: int|
            0 <= q < old(state).levels ==> #[trigger] final(state).level_nodes(q) == old(state).level_nodes(q),
        old(state).supergraphs@.len() != 0 ==> final(state).supergraphs@.len() == old(state).levels
            && final(state).supergraphs@[0].wf()
            && final(state).supergraphs@[0].extends(&old(state).supergraphs@[0], delta_g.edges@),
        forall|q: int|
            1 <= q < old(state).supergraphs@.len() ==> #[trigger] final(state).supergraphs@[q]
                == old(state).supergraphs@[q],
        old(state).supergraphs@.len() == 0 ==> final(state).supergraphs@.len() == 1
            && final(state).supergraphs@[0].is_adjacency_of(delta_g),
        done is Ok <==> old(state).with_graphs(final(state).supergraphs).fits_below(
            delta_g.edges@,
            gamma as int,
            mode,
            max_iterations as nat,
            old(state).levels as int,
        ),
        done is Ok ==> final(state).is_result_of(
            &old(state).with_graphs(final(state).supergraphs),
            delta_g.edges@,
            gamma as int,
            mode,
            max_iterations as nat,
        ),
        match done {
            Ok(_) => true,
            Err(error) => error is Backend && exists|b: int| #[trigger]
                final(state).is_given_up_at(
                    &old(state).with_graphs(final(state).supergraphs),
                    delta_g.edges@,
                    gamma as int,
                    mode,
                    max_iterations as nat,
                    b,
                ),
        },
        old(state).levels == 1 ==> done is Ok,
        old(state).levels == 1 ==> final(state).community_mapping_per_level@[0]@
            == movement_result(
            &final(state).supergraphs@[0],
            delta_g.edges@,
            old(state).community_mapping_per_level@[0]@,
            old(state).current_subcommunity_mapping_per_level@[0]@,
            gamma as int,
            mode,
            max_iterations as nat,
        ).labels,
        old(state).levels == 1 ==> final(state).current_subcommunity_mapping_per_level@[0]@
            == refined_subcommunities(
            &final(state).supergraphs@[0],
            final(state).community_mapping_per_level@[0]@,
            old(state).current_subcommunity_mapping_per_level@[0]@,
            movement_result(
                &final(state).supergraphs@[0],
                delta_g.edges@,
                old(state).community_mapping_per_level@[0]@,
                old(state).current_subcommunity_mapping_per_level@[0]@,
                gamma as int,
                mode,
                max_iterations as nat,
            ).affected,
            gamma as int,
            mode,
        ),
        old(state).levels == 1 ==> final(state).previous_subcommunity_mapping_per_level@[0]@
            == old(state).previous_subcommunity_mapping_per_level@[0]@
                && final(state).refined_community_mapping_per_level@[0]@
                == old(state).refined_community_mapping_per_level@[0]@,
{
    match hit_leiden_counted(state, delta_g, gamma, mode, max_iterations) {
        Ok(_) => Ok(()),
        Err(error) => Err(error),
    }
}

/// One run of the solver on a persisted partition, with the iterations that
/// the movement pass of the lowest level made.
///
/// Before the first run the graph of the lowest level is seeded from the
/// change; on a later run the edges of the change are added to it, so that
/// the level is moved on the graph as it stands with the change. Each level
/// is then moved and refined, and below the top level aggregated into the
/// change of the level above; at the end the coarse communities are carried
/// down to the lowest level, and the state shows them.
///
/// A state of one level always succeeds. With more levels the run is given up
/// at the first level that cannot hand on to the level above: where a refined
/// sub-community is no node of the level above, or where the change handed to
/// a further level exceeds the capacity. That level is then moved but not
/// refined, and the levels above it are left as they were. The graph of the
/// lowest level holds the change after the run, given up or not; the graphs
/// of the levels above are left as they are.
pub fn hit_leiden_counted(
    state: &mut PartitionState,
    delta_g: &GraphInput,
    gamma: i64,
    mode: RunMode,
    max_iterations: usize,
) -> (done: Result<usize, HitLeidenError>)
    requires
        old(state).levels_wf(),
        old(state).accepts(delta_g),
        old(state).roomy(),
        0 <= gamma <= MAX_RESOLUTION,
    ensures
        done is Ok ==> done->Ok_0 == old(state).with_graphs(final(state).supergraphs).moved_iterations(
            0,
            delta_g.edges@,
            gamma as int,
            mode,
            max_iterations as nat,
        ),
        final(state).wf(),
        final(state).levels == old(state).levels,
        forall|q: int|
            0 <= q < old(state).levels ==> #[trigger] final(state).level_nodes(q) == old(state).level_nodes(q),
        old(state).supergraphs@.len() != 0 ==> final(state).supergraphs@.len() == old(state).levels
            && final(state).supergraphs@[0].wf()
            && final(state).supergraphs@[0].extends(&old(state).supergraphs@[0], delta_g.edges@),
        forall|q: int|
            1 <= q < old(state).supergraphs@.len() ==> #[trigger] final(state).supergraphs@[q]
                == old(state).supergraphs@[q],
        old(state).supergraphs@.len() == 0 ==> final(state).supergraphs@.len() == 1
            && final(state).supergraphs@[0].is_adjacency_of(delta_g),
        done is Ok <==> old(state).with_graphs(final(state).supergraphs).fits_below(
            delta_g.edges@,
            gamma as int,
            mode,
            max_iterations as nat,
            old(state).levels as int,
        ),
        done is Ok ==> final(state).is_result_of(
            &old(state).with_graphs(final(state).supergraphs),
            delta_g.edges@,
            gamma as int,
            mode,
            max_iterations as nat,
        ),
        match done {
            Ok(_) => true,
            Err(error) => error is Backend && exists|b: int| #[trigger]
                final(state).is_given_up_at(
                    &old(state).with_graphs(final(state).supergraphs),
                    delta_g.edges@,
                    gamma as int,
                    mode,
                    max_iterations as nat,
                    b,
                ),
        },
        old(state).levels == 1 ==> done is Ok,
        old(state).levels == 1 ==> final(state).community_mapping_per_level@[0]@
            == movement_result(
            &final(state).supergraphs@[0],
            delta_g.edges@,
            old(state).community_mapping_per_level@[0]@,
            old(state).current_subcommunity_mapping_per_level@[0]@,
            gamma as int,
            mode,
            max_iterations as nat,
        ).labels,
        old(state).levels == 1 ==> final(state).current_subcommunity_mapping_per_level@[0]@
            == refined_subcommunities(
            &final(state).supergraphs@[0],
            final(state).community_mapping_per_level@[0]@,
            old(state).current_subcommunity_mapping_per_level@[0]@,
            movement_result(
                &final(state).supergraphs@[0],
                delta_g.edges@,
                old(state).community_mapping_per_level@[0]@,
                old(state).current_subcommunity_mapping_per_level@[0]@,
                gamma as int,
                mode,
                max_iterations as nat,
            ).affected,
            gamma as int,
            mode,
        ),
        old(state).levels == 1 ==> final(state).previous_subcommunity_mapping_per_level@[0]@
            == old(state).previous_subcommunity_mapping_per_level@[0]@
                && final(state).refined_community_mapping_per_level@[0]@
                == old(state).refined_community_mapping_per_level@[0]@,
{
    if state.supergraphs.len() == 0 {
        let graph = InMemoryGraph::from(delta_g);
        state.supergraphs.push(graph);
        proof {
            assert(old(state).level_wf(0));
            assert(state.level_wf(0));
        }
    } else {
        proof {
            assert(old(state).level_wf(0));
        }
        let grown = state.supergraphs[0].extended(delta_g);
        state.supergraphs.set(0, grown);
        proof {
            assert forall|q: int| 0 <= q < state.levels implies #[trigger] state.level_wf(q) by {
                assert(old(state).level_wf(q));
            }
            assert forall|q: int| 0 <= q < state.levels - 1 implies #[trigger] state.link_wf(q) by {
                assert(old(state).link_wf(q));
            }
        }
    }
    let ghost start = *state;
    let ghost delta = delta_g.edges@;
    let ghost g = gamma as int;
    let ghost budget = max_iterations as nat;
    let p_max: usize = state.levels;
    proof {
        assert(start.level_wf(0));
        assert forall|q: int| 0 <= q < p_max implies #[trigger] start.level_nodes(q) == old(state).level_nodes(q) by {}
    }
    let outcome = run_levels(state, delta_g, gamma, mode, max_iterations);
    proof {
        assert(state.supergraphs == start.supergraphs);
        assert(start == old(state).with_graphs(state.supergraphs));
    }
    match outcome {
        Err(error) => {
            let ghost failed = *state;
            proof {
                assert(failed.level_wf(0));
            }
            state.node_to_comm = state.community_mapping_per_level[0].clone();
            proof {
                assert(state.node_to_comm@ =~= state.community_mapping_per_level@[0]@);
                lemma_alias_set(failed, *state);
                let b = choose|b: int| #[trigger]
                    failed.is_given_up_at(&start, delta, g, mode, budget, b);
                lemma_given_up_kept(failed, *state, start, delta, g, mode, budget, b);
                assert(!start.fits_below(delta, g, mode, budget, p_max as int)) by {
                    assert(!start.level_fits(delta, g, mode, budget, b));
                }
                assert forall|q: int| 0 <= q < p_max implies #[trigger] state.level_nodes(q) == old(state).level_nodes(q) by {
                    assert(failed.level_nodes(q) == start.level_nodes(q));
                }
                if p_max == 1 {
                    assert(start.level_fits(delta, g, mode, budget, b));
                    assert(false);
                }
            }
            return Err(error);
        },
        Ok(sets) => {
            let (changed_sets, refined_sets, iterations) = sets;
            let mut changed_per_level = changed_sets;
            let mut refined_per_level = refined_sets;
            let ghost moved = *state;
            let ghost changed0 = level_sets(changed_per_level@);
            let ghost refined0 = level_sets(refined_per_level@);
            proof {
                lemma_ready_for_update(moved, start, changed_per_level@, refined_per_level@);
            }
            def_update(
                &mut state.community_mapping_per_level,
                &state.current_subcommunity_mapping_per_level,
                &mut changed_per_level,
                p_max,
            );
            def_update(
                &mut state.refined_community_mapping_per_level,
                &state.current_subcommunity_mapping_per_level,
                &mut refined_per_level,
                p_max,
            );
            proof {
                lemma_after_update(
                    moved,
                    *state,
                    p_max as int,
                    changed0,
                    level_sets(changed_per_level@),
                    refined0,
                    level_sets(refined_per_level@),
                );
            }
            let ghost updated = *state;
            state.node_to_comm = state.community_mapping_per_level[0].clone();
            proof {
                assert(updated.level_wf(0));
                assert(state.node_to_comm@ =~= state.community_mapping_per_level@[0]@);
                lemma_alias_set(updated, *state);
                assert forall|q: int| 0 <= q < p_max implies #[trigger] state.level_nodes(q) == old(state).level_nodes(q) by {
                    assert(updated.level_nodes(q) == moved.level_nodes(q));
                    assert(moved.level_nodes(q) == start.level_nodes(q));
                }
                lemma_result(
                    moved,
                    *state,
                    start,
                    delta,
                    g,
                    mode,
                    budget,
                    changed0,
                    level_sets(changed_per_level@),
                    refined0,
                    level_sets(refined_per_level@),
                );
                if p_max == 1 {
                    assert(state.level_complete(&start, delta, g, mode, budget, 0));
                    assert(start.level_delta(delta, g, mode, budget, 0) == delta);
                    assert(start.moved_labels(delta, g, mode, budget)[0] == start.moved_at(
                        delta,
                        g,
                        mode,
                        budget,
                        0,
                    ).labels);
                    assert(level_maps(start.refined_community_mapping_per_level@)[0]
                        == start.refined_community_mapping_per_level@[0]@);
                    assert(state.supergraphs@[0] == start.supergraphs@[0]);
                }
            }
            Ok(iterations)
        },
    }
}

/// The levels are ready for the deferred updates once every level is moved and refined.
proof fn lemma_ready_for_update(
    moved: PartitionState,
    start: PartitionState,
    changed: Seq<SharedBitVec>,
    refined: Seq<SharedBitVec>,
)
    requires
        moved.levels_wf(),
        moved.same_frame(&start),
        changed.len() == moved.levels,
        refined.len() == moved.levels,
        sets_fit(changed, &start),
        sets_fit(refined, &start),
    ensures
        levels_fit(
            level_maps(moved.community_mapping_per_level@),
            level_maps(moved.current_subcommunity_mapping_per_level@),
            level_sets(changed),
            moved.levels as int,
        ),
        levels_fit(
            level_maps(moved.refined_community_mapping_per_level@),
            level_maps(moved.current_subcommunity_mapping_per_level@),
            level_sets(refined),
            moved.levels as int,
        ),
        forall|q: int| 0 <= q < moved.levels ==> (#[trigger] changed[q]).wf(),
        forall|q: int| 0 <= q < moved.levels ==> (#[trigger] refined[q]).wf(),
{
    let top = moved.levels as int;
    let labels = level_maps(moved.community_mapping_per_level@);
    let sub = level_maps(moved.current_subcommunity_mapping_per_level@);
    let glabels = level_maps(moved.refined_community_mapping_per_level@);
    assert forall|q: int| 0 <= q < top implies (#[trigger] labels[q]).len() == sub[q].len()
        && level_sets(changed)[q].len() == sub[q].len() by {
        assert(moved.level_wf(q));
        assert(moved.level_nodes(q) == start.level_nodes(q));
        assert(changed[q]@.len() == start.level_nodes(q));
    }
    assert forall|q: int, v: int| 0 <= q < top - 1 && 0 <= v < sub[q].len() implies (
    #[trigger] sub[q][v]) < labels[q + 1].len() by {
        assert(moved.link_wf(q));
        assert(moved.level_wf(q));
    }
    assert forall|q: int| 0 <= q < top implies (#[trigger] glabels[q]).len() == sub[q].len()
        && level_sets(refined)[q].len() == sub[q].len() by {
        assert(moved.level_wf(q));
        assert(moved.level_nodes(q) == start.level_nodes(q));
        assert(refined[q]@.len() == start.level_nodes(q));
    }
    assert forall|q: int, v: int| 0 <= q < top - 1 && 0 <= v < sub[q].len() implies (
    #[trigger] sub[q][v]) < glabels[q + 1].len() by {
        assert(moved.link_wf(q));
        assert(moved.level_wf(q));
        assert(moved.level_wf(q + 1));
    }
}

/// Showing other communities leaves a run that was given up as it was.
proof fn lemma_given_up_kept(
    failed: PartitionState,
    after: PartitionState,
    start: PartitionState,
    delta: Seq<Edge>,
    gamma: int,
    mode: RunMode,
    max_iterations: nat,
    b: int,
)
    requires
        failed.is_given_up_at(&start, delta, gamma, mode, max_iterations, b),
        after.levels == failed.levels,
        after.community_mapping_per_level@ == failed.community_mapping_per_level@,
        after.refined_community_mapping_per_level@ == failed.refined_community_mapping_per_level@,
        after.current_subcommunity_mapping_per_level@
            == failed.current_subcommunity_mapping_per_level@,
        after.previous_subcommunity_mapping_per_level@
            == failed.previous_subcommunity_mapping_per_level@,
    ensures
        after.is_given_up_at(&start, delta, gamma, mode, max_iterations, b),
{
    assert(after.done_below(&start, delta, gamma, mode, max_iterations, b)) by {
        assert forall|q: int| 0 <= q < b implies #[trigger] after.level_done(
            &start,
            delta,
            gamma,
            mode,
            max_iterations,
            q,
        ) by {
            assert(failed.level_done(&start, delta, gamma, mode, max_iterations, q));
        }
    }
    assert(after.same_above(&start, b + 1)) by {
        assert forall|q: int| b + 1 <= q < after.levels implies #[trigger] after.level_same(
            &start,
            q,
        ) by {
            assert(failed.level_same(&start, q));
        }
    }
}

/// After the deferred updates and the last change of what the state shows, the
/// state is that in which a completed run ends.
proof fn lemma_result(
    moved: PartitionState,
    after: PartitionState,
    start: PartitionState,
    delta: Seq<Edge>,
    gamma: int,
    mode: RunMode,
    max_iterations: nat,
    changed: Seq<Seq<bool>>,
    now: Seq<Seq<bool>>,
    refined: Seq<Seq<bool>>,
    rnow: Seq<Seq<bool>>,
)
    requires
        moved.levels == start.levels,
        after.levels == start.levels,
        moved.community_mapping_per_level@.len() == start.levels,
        moved.current_subcommunity_mapping_per_level@.len() == start.levels,
        moved.refined_community_mapping_per_level@ == start.refined_community_mapping_per_level@,
        moved.refined_community_mapping_per_level@.len() == start.levels,
        moved.done_below(&start, delta, gamma, mode, max_iterations, start.levels as int),
        changed.len() == start.levels,
        refined.len() == start.levels,
        forall|q: int|
            0 <= q < start.levels ==> #[trigger] changed[q] == start.moved_at(
                delta,
                gamma,
                mode,
                max_iterations,
                q,
            ).changed,
        forall|q: int|
            0 <= q < start.levels ==> #[trigger] refined[q] == start.set_at(
                delta,
                gamma,
                mode,
                max_iterations,
                q,
            ),
        after.current_subcommunity_mapping_per_level@
            == moved.current_subcommunity_mapping_per_level@,
        after.previous_subcommunity_mapping_per_level@
            == moved.previous_subcommunity_mapping_per_level@,
        updated_from(
            level_maps(after.community_mapping_per_level@),
            now,
            level_maps(moved.community_mapping_per_level@),
            level_maps(moved.current_subcommunity_mapping_per_level@),
            changed,
            start.levels as int,
            0,
        ),
        updated_from(
            level_maps(after.refined_community_mapping_per_level@),
            rnow,
            level_maps(moved.refined_community_mapping_per_level@),
            level_maps(moved.current_subcommunity_mapping_per_level@),
            refined,
            start.levels as int,
            0,
        ),
    ensures
        after.is_result_of(&start, delta, gamma, mode, max_iterations),
{
    let top = start.levels as int;
    let labels = level_maps(moved.community_mapping_per_level@);
    let sub = level_maps(moved.current_subcommunity_mapping_per_level@);
    let glabels = level_maps(moved.refined_community_mapping_per_level@);
    assert(labels =~= start.moved_labels(delta, gamma, mode, max_iterations)) by {
        assert forall|q: int| 0 <= q < top implies labels[q] == start.moved_labels(
            delta,
            gamma,
            mode,
            max_iterations,
        )[q] by {
            assert(moved.level_done(&start, delta, gamma, mode, max_iterations, q));
        }
    }
    assert(sub =~= start.refined_subs(delta, gamma, mode, max_iterations)) by {
        assert forall|q: int| 0 <= q < top implies sub[q] == start.refined_subs(
            delta,
            gamma,
            mode,
            max_iterations,
        )[q] by {
            assert(moved.level_done(&start, delta, gamma, mode, max_iterations, q));
        }
    }
    assert(changed =~= start.moved_sets(delta, gamma, mode, max_iterations));
    assert(refined =~= start.refined_sets(delta, gamma, mode, max_iterations));
    assert(glabels == level_maps(start.refined_community_mapping_per_level@));
    let after_labels = level_maps(after.community_mapping_per_level@);
    let after_glabels = level_maps(after.refined_community_mapping_per_level@);
    assert forall|q: int| 0 <= q < top implies #[trigger] after.level_complete(
        &start,
        delta,
        gamma,
        mode,
        max_iterations,
        q,
    ) by {
        assert(moved.level_done(&start, delta, gamma, mode, max_iterations, q));
        assert(after_labels[q] == updated_labels(labels, sub, changed, top, q));
        assert(after_glabels[q] == updated_labels(glabels, sub, refined, top, q));
    }
}

/// Showing other communities leaves the levels as sound as they were.
proof fn lemma_alias_set(before: PartitionState, after: PartitionState)
    requires
        before.levels_wf(),
        after.levels == before.levels,
        after.supergraphs@ == before.supergraphs@,
        after.community_mapping_per_level@ == before.community_mapping_per_level@,
        after.refined_community_mapping_per_level@ == before.refined_community_mapping_per_level@,
        after.current_subcommunity_mapping_per_level@
            == before.current_subcommunity_mapping_per_level@,
        after.previous_subcommunity_mapping_per_level@
            == before.previous_subcommunity_mapping_per_level@,
    ensures
        after.levels_wf(),
{
    assert forall|q: int| 0 <= q < after.levels implies #[trigger] after.level_wf(q) by {
        assert(before.level_wf(q));
    }
    assert forall|q: int| 0 <= q < after.levels - 1 implies #[trigger] after.link_wf(q) by {
        assert(before.link_wf(q));
    }
}

/// The state is sound after the deferred updates, and its nodes are those of before.
proof fn lemma_after_update(
    moved: PartitionState,
    after: PartitionState,
    top: int,
    changed: Seq<Seq<bool>>,
    now: Seq<Seq<bool>>,
    refined: Seq<Seq<bool>>,
    rnow: Seq<Seq<bool>>,
)
    requires
        moved.levels_wf(),
        top == moved.levels,
        after.levels == moved.levels,
        after.supergraphs@ == moved.supergraphs@,
        after.current_subcommunity_mapping_per_level@
            == moved.current_subcommunity_mapping_per_level@,
        after.previous_subcommunity_mapping_per_level@
            == moved.previous_subcommunity_mapping_per_level@,
        levels_fit(
            level_maps(moved.community_mapping_per_level@),
            level_maps(moved.current_subcommunity_mapping_per_level@),
            changed,
            top,
        ),
        updated_from(
            level_maps(after.community_mapping_per_level@),
            now,
            level_maps(moved.community_mapping_per_level@),
            level_maps(moved.current_subcommunity_mapping_per_level@),
            changed,
            top,
            0,
        ),
        levels_fit(
            level_maps(moved.refined_community_mapping_per_level@),
            level_maps(moved.current_subcommunity_mapping_per_level@),
            refined,
            top,
        ),
        updated_from(
            level_maps(after.refined_community_mapping_per_level@),
            rnow,
            level_maps(moved.refined_community_mapping_per_level@),
            level_maps(moved.current_subcommunity_mapping_per_level@),
            refined,
            top,
            0,
        ),
    ensures
        after.levels_wf(),
        forall|q: int| 0 <= q < top ==> #[trigger] after.level_nodes(q) == moved.level_nodes(q),
        top == 1 ==> after.community_mapping_per_level@[0]@
            == moved.community_mapping_per_level@[0]@
            && after.refined_community_mapping_per_level@[0]@
            == moved.refined_community_mapping_per_level@[0]@,
{
    let labels = level_maps(moved.community_mapping_per_level@);
    let sub = level_maps(moved.current_subcommunity_mapping_per_level@);
    let glabels = level_maps(moved.refined_community_mapping_per_level@);
    let after_labels = level_maps(after.community_mapping_per_level@);
    let after_glabels = level_maps(after.refined_community_mapping_per_level@);
    assert forall|q: int| 0 <= q < top implies labels_ok(
        #[trigger] labels[q],
        labels[q].len() as int,
    ) by {
        assert(moved.level_wf(q));
    }
    assert forall|q: int| 0 <= q < top - 1 implies (#[trigger] labels[q + 1]).len()
        <= labels[q].len() by {
        assert(moved.link_wf(q));
    }
    assert forall|q: int| 0 <= q < top implies #[trigger] after.level_nodes(q)
        == moved.level_nodes(q) && after.level_wf(q) by {
        assert(moved.level_wf(q));
        assert(after_labels[q] == updated_labels(labels, sub, changed, top, q));
        assert(after_glabels[q] == updated_labels(glabels, sub, refined, top, q));
        crate::solver::algorithm::hierarchy::lemma_update_lengths(labels, sub, changed, top, q);
        crate::solver::algorithm::hierarchy::lemma_update_lengths(glabels, sub, refined, top, q);
        lemma_updated_labels_ok(labels, sub, changed, top, q);
        assert(labels[q].len() == sub[q].len());
    }
    assert forall|q: int| 0 <= q < top - 1 implies #[trigger] after.link_wf(q) by {
        assert(moved.link_wf(q));
        assert(after.level_nodes(q) == moved.level_nodes(q));
        assert(after.level_nodes(q + 1) == moved.level_nodes(q + 1));
    }
    if top == 1 {
        assert(after_labels[0] == updated_labels(labels, sub, changed, top, 0));
        assert(after_glabels[0] == updated_labels(glabels, sub, refined, top, 0));
    }
}

/// What a completed run leaves is a function of the state it starts from, the
/// change, the resolution, the mode and the step budget: two completed runs
/// from one state leave the same mappings at every level.
pub proof fn lemma_completed_runs_agree(
    a: PartitionState,
    b: PartitionState,
    start: PartitionState,
    delta: Seq<Edge>,
    gamma: int,
    mode: RunMode,
    max_iterations: nat,
)
    requires
        a.is_result_of(&start, delta, gamma, mode, max_iterations),
        b.is_result_of(&start, delta, gamma, mode, max_iterations),
    ensures
        forall|q: int|
            0 <= q < start.levels ==> #[trigger] a.community_mapping_per_level@[q]@
                == b.community_mapping_per_level@[q]@
                && a.refined_community_mapping_per_level@[q]@
                == b.refined_community_mapping_per_level@[q]@
                && a.current_subcommunity_mapping_per_level@[q]@
                == b.current_subcommunity_mapping_per_level@[q]@
                && a.previous_subcommunity_mapping_per_level@[q]@
                == b.previous_subcommunity_mapping_per_level@[q]@,
{
    assert forall|q: int| 0 <= q < start.levels implies #[trigger] a.community_mapping_per_level@[q]@
        == b.community_mapping_per_level@[q]@ && a.refined_community_mapping_per_level@[q]@
        == b.refined_community_mapping_per_level@[q]@
        && a.current_subcommunity_mapping_per_level@[q]@
        == b.current_subcommunity_mapping_per_level@[q]@
        && a.previous_subcommunity_mapping_per_level@[q]@
        == b.previous_subcommunity_mapping_per_level@[q]@ by {
        assert(a.level_complete(&start, delta, gamma, mode, max_iterations, q));
        assert(b.level_complete(&start, delta, gamma, mode, max_iterations, q));
    }
}

/// A run is given up at one level only: the first that cannot hand on.
pub proof fn lemma_given_up_once(
    a: PartitionState,
    b: PartitionState,
    start: PartitionState,
    delta: Seq<Edge>,
    gamma: int,
    mode: RunMode,
    max_iterations: nat,
    at_a: int,
    at_b: int,
)
    requires
        a.is_given_up_at(&start, delta, gamma, mode, max_iterations, at_a),
        b.is_given_up_at(&start, delta, gamma, mode, max_iterations, at_b),
    ensures
        at_a == at_b,
{
    if at_a < at_b {
        assert(start.level_fits(delta, gamma, mode, max_iterations, at_a));
    }
    if at_b < at_a {
        assert(start.level_fits(delta, gamma, mode, max_iterations, at_b));
    }
}

/// The outcome of a first run passes the check of the hard invariants: it
/// holds one community for every node of the graph, and every community is a node id.
pub proof fn lemma_outcome_is_sound(outcome: &RunOutcome, graph: &GraphInput, config: &RunConfig)
    requires
        is_outcome_of(outcome, graph, config),
    ensures
        partition_sound(outcome),
        outcome.partition->0.node_to_community@.len() == graph.node_count,
{
}

/// Two first runs on a graph with the same options find the same communities,
/// node by node, in the same number of iterations, and so report the same
/// number of communities and the same quality: the candidate passes the
/// comparison in either mode, whatever the tolerance, as long as it is not
/// negative.
pub proof fn lemma_runs_agree(
    reference: &RunOutcome,
    candidate: &RunOutcome,
    graph: &GraphInput,
    config: &RunConfig,
)
    requires
        is_outcome_of(reference, graph, config),
        is_outcome_of(candidate, graph, config),
    ensures
        reference.partition->0.node_to_community@ == candidate.partition->0.node_to_community@,
        reference.partition->0.community_count == candidate.partition->0.community_count,
        reference.partition->0.quality_score == candidate.partition->0.quality_score,
        reference.partition->0.iteration_count == candidate.partition->0.iteration_count,
        quality_distance(
            reference.partition->0.quality_score,
            candidate.partition->0.quality_score,
        ) == 0,
{
    let first = reference.partition->0.node_to_community@;
    let second = candidate.partition->0.node_to_community@;
    let n = graph.node_count as nat;
    let a = choose|adjacency: InMemoryGraph|
        adjacency.wf() && #[trigger] adjacency.is_adjacency_of(graph) && first == movement_result(
            &adjacency,
            graph.edges@,
            identity_map(n),
            identity_map(n),
            SCALE as int,
            config.mode,
            config.max_iterations as nat,
        ).labels;
    let b = choose|adjacency: InMemoryGraph|
        adjacency.wf() && #[trigger] adjacency.is_adjacency_of(graph) && second == movement_result(
            &adjacency,
            graph.edges@,
            identity_map(n),
            identity_map(n),
            SCALE as int,
            config.mode,
            config.max_iterations as nat,
        ).labels;
    lemma_adjacency_unique(&a, &b, graph);
    lemma_same_movement(
        &a,
        &b,
        graph.edges@,
        identity_map(n),
        identity_map(n),
        SCALE as int,
        config.mode,
        config.max_iterations as nat,
    );
    let made = reference.partition->0.iteration_count as int;
    let again = candidate.partition->0.iteration_count as int;
    let c = choose|adjacency: InMemoryGraph|
        adjacency.wf() && #[trigger] adjacency.is_adjacency_of(graph) && made == iterations_made(
            &adjacency,
            graph.edges@,
            identity_map(n),
            identity_map(n),
            SCALE as int,
            config.mode,
            config.max_iterations as nat,
        );
    let d = choose|adjacency: InMemoryGraph|
        adjacency.wf() && #[trigger] adjacency.is_adjacency_of(graph) && again == iterations_made(
            &adjacency,
            graph.edges@,
            identity_map(n),
            identity_map(n),
            SCALE as int,
            config.mode,
            config.max_iterations as nat,
        );
    lemma_adjacency_unique(&c, &d, graph);
    lemma_same_iterations(
        &c,
        &d,
        graph.edges@,
        identity_map(n),
        identity_map(n),
        SCALE as int,
        config.mode,
        config.max_iterations as nat,
    );
}

/// On a graph whose total weight is zero a first run leaves every node its own community.
pub proof fn lemma_zero_weight_run(communities: Seq<usize>, graph: &GraphInput, config: &RunConfig)
    requires
        solves(communities, graph, config),
        edge_sum(graph.edges@, false, graph.edges@.len() as int) == 0,
    ensures
        communities == identity_map(graph.node_count as nat),
{
    let adjacency = choose|adjacency: InMemoryGraph|
        adjacency.wf() && #[trigger] adjacency.is_adjacency_of(graph) && communities
            == movement_result(
            &adjacency,
            graph.edges@,
            identity_map(graph.node_count as nat),
            identity_map(graph.node_count as nat),
            SCALE as int,
            config.mode,
            config.max_iterations as nat,
        ).labels;
    lemma_zero_weight_keeps_partition(
        &adjacency,
        graph.edges@,
        identity_map(graph.node_count as nat),
        identity_map(graph.node_count as nat),
        SCALE as int,
        config.mode,
        config.max_iterations as nat,
    );
}

/// On a graph whose total weight is zero the two modes agree: whatever the
/// options of two first runs, both leave every node its own community and
/// report a quality of zero, so that each passes the comparison with the
/// other in either mode.
pub proof fn lemma_modes_agree_without_weight(
    reference: &RunOutcome,
    candidate: &RunOutcome,
    graph: &GraphInput,
    reference_config: &RunConfig,
    candidate_config: &RunConfig,
)
    requires
        is_outcome_of(reference, graph, reference_config),
        is_outcome_of(candidate, graph, candidate_config),
        edge_sum(graph.edges@, false, graph.edges@.len() as int) == 0,
    ensures
        reference.partition->0.node_to_community@ == candidate.partition->0.node_to_community@,
        reference.partition->0.quality_score == 0,
        candidate.partition->0.quality_score == 0,
        quality_distance(
            reference.partition->0.quality_score,
            candidate.partition->0.quality_score,
        ) == 0,
{
    lemma_zero_weight_run(reference.partition->0.node_to_community@, graph, reference_config);
    lemma_zero_weight_run(candidate.partition->0.node_to_community@, graph, candidate_config);
}

/// Whether `rename` gives every node of a graph of `n` nodes a node of its own.
pub open spec fn is_renaming(rename: Seq<usize>, n: nat) -> bool {
    &&& rename.len() == n
    &&& forall|v: int| 0 <= v < n ==> (#[trigger] rename[v]) < n
    &&& forall|u: int, v: int| 0 <= u < v < n ==> rename[u] != rename[v]
}

/// The edges with both endpoints of each renamed.
pub open spec fn renamed(edges: Seq<Edge>, rename: Seq<usize>) -> Seq<Edge> {
    Seq::new(
        edges.len(),
        |i: int| (rename[edges[i].0 as int], rename[edges[i].1 as int], edges[i].2),
    )
}

/// Renaming the endpoints leaves the sum of the weights as it is.
proof fn lemma_renamed_sum(edges: Seq<Edge>, rename: Seq<usize>, upto: int)
    requires
        upto <= edges.len(),
    ensures
        edge_sum(renamed(edges, rename), false, upto) == edge_sum(edges, false, upto),
    decreases upto,
{
    if upto > 0 {
        lemma_renamed_sum(edges, rename, upto - 1);
    }
}

/// On a graph whose total weight is zero a first run finds the same partition
/// however the nodes are named: two nodes share a community exactly where
/// their namesakes in the renamed graph do.
pub proof fn lemma_zero_weight_run_renamed(
    communities: Seq<usize>,
    renamed_communities: Seq<usize>,
    graph: &GraphInput,
    renamed_graph: &GraphInput,
    rename: Seq<usize>,
    config: &RunConfig,
)
    requires
        is_renaming(rename, graph.node_count as nat),
        renamed_graph.node_count == graph.node_count,
        renamed_graph.edges@ == renamed(graph.edges@, rename),
        solves(communities, graph, config),
        solves(renamed_communities, renamed_graph, config),
        edge_sum(graph.edges@, false, graph.edges@.len() as int) == 0,
    ensures
        forall|u: int, v: int|
            0 <= u < graph.node_count && 0 <= v < graph.node_count ==> (communities[u]
                == communities[v]) == (renamed_communities[rename[u] as int]
                == renamed_communities[rename[v] as int]),
{
    lemma_renamed_sum(graph.edges@, rename, graph.edges@.len() as int);
    lemma_zero_weight_run(communities, graph, config);
    lemma_zero_weight_run(renamed_communities, renamed_graph, config);
}

/// Why a run refuses its input, if it does: the step budget is looked at
/// first, then the tolerance, then the endpoints of the edges, then the capacity.
pub open spec fn refusal(graph: &GraphInput, config: &RunConfig) -> Option<Seq<char>> {
    if config.max_iterations == 0 {
        Some("max_iterations must be > 0"@)
    } else if config.quality_tolerance < 0 {
        Some("quality_tolerance must be >= 0"@)
    } else if !graph.endpoints_in_range() {
        Some("edge endpoint exceeds node_count"@)
    } else if !graph.in_capacity() {
        Some("graph exceeds the supported capacity"@)
    } else {
        None
    }
}

/// Whether the record is that of a run on the graph with the options: source
/// and backend are recorded as asked for, a live query as a snapshot. The run
/// is made by the pure kernel; where another kernel was asked for, which no
/// build holds, the record gives `ACCEL_UNAVAILABLE` as the reason of the fallback.
pub open spec fn records_run(execution: &RunExecution, graph: &GraphInput, config: &RunConfig) -> bool {
    &&& execution.run_id@ == "run:"@ + graph.dataset_id@
    &&& execution.dataset_id@ == graph.dataset_id@
    &&& execution.config_id@ == "default"@
    &&& execution.status == RunStatus::Succeeded
    &&& execution.backend == BackendType::PureRust
    &&& execution.graph_backend_resolved == (match config.graph_backend {
        crate::solver::backend::GraphBackend::InMemory => GraphBackend::InMemory,
        crate::solver::backend::GraphBackend::Mmap => GraphBackend::Mmap,
    })
    &&& execution.graph_source_resolved == (match config.graph_source {
        GraphSource::File => GraphSourceType::File,
        GraphSource::Neo4jSnapshot => GraphSourceType::Neo4jSnapshot,
        GraphSource::LiveNeo4j => GraphSourceType::Neo4jSnapshot,
    })
    &&& is_accelerated(config.acceleration) ==> reason_is(
        execution.fallback_reason,
        "ACCEL_UNAVAILABLE"@,
    )
    &&& !is_accelerated(config.acceleration) ==> execution.fallback_reason is None
}

/// Whether the communities are those that a first run finds on the graph:
/// movement from the partition in which every node is its own community, at
/// resolution one, on the adjacency of the graph.
pub open spec fn solves(communities: Seq<usize>, graph: &GraphInput, config: &RunConfig) -> bool {
    exists|adjacency: InMemoryGraph|
        adjacency.wf() && #[trigger] adjacency.is_adjacency_of(graph) && communities
            == movement_result(
            &adjacency,
            graph.edges@,
            identity_map(graph.node_count as nat),
            identity_map(graph.node_count as nat),
            SCALE as int,
            config.mode,
            config.max_iterations as nat,
        ).labels
}

/// Whether `iterations` is the number of iterations that a first run makes on
/// the graph: the rounds of its movement pass in throughput mode, and in
/// deterministic mode the sweeps that its evaluations come to.
pub open spec fn counted(iterations: int, graph: &GraphInput, config: &RunConfig) -> bool {
    exists|adjacency: InMemoryGraph|
        adjacency.wf() && #[trigger] adjacency.is_adjacency_of(graph) && iterations
            == iterations_made(
            &adjacency,
            graph.edges@,
            identity_map(graph.node_count as nat),
            identity_map(graph.node_count as nat),
            SCALE as int,
            config.mode,
            config.max_iterations as nat,
        )
}

/// Whether the partition record is that of a run on the graph with the
/// options: one community for every node, every community a node of the
/// graph; the number of communities that nodes carry; the modularity of the
/// partition at resolution one; and the iterations that the run made.
pub open spec fn records_partition(
    partition: &PartitionResult,
    graph: &GraphInput,
    config: &RunConfig,
) -> bool {
    &&& partition.run_id@ == "run:"@ + graph.dataset_id@
    &&& labels_ok(partition.node_to_community@, graph.node_count as int)
    &&& solves(partition.node_to_community@, graph, config)
    &&& partition.community_count == community_count(partition.node_to_community@)
    &&& partition.quality_score == modularity(
        graph.edges@,
        partition.node_to_community@,
        SCALE as int,
    )
    &&& counted(partition.iteration_count as int, graph, config)
}

/// Whether the outcome is that of a run on the graph with the options, whenever it ran.
pub open spec fn is_outcome_of(outcome: &RunOutcome, graph: &GraphInput, config: &RunConfig) -> bool {
    &&& records_run(&outcome.execution, graph, config)
    &&& outcome.execution.completed_at is Some
    &&& outcome.execution.completed_at->0 >= outcome.execution.started_at
    &&& outcome.partition is Some
    &&& records_partition(&outcome.partition->0, graph, config)
    &&& outcome.validation is None
}

/// Whether both endpoints of every edge are nodes of the graph.
fn check_endpoints(graph: &GraphInput) -> (inside: bool)
    ensures
        inside == graph.endpoints_in_range(),
{
    let mut i: usize = 0;
    while i < graph.edges.len()
        invariant
            i <= graph.edges@.len(),
            forall|j: int|
                0 <= j < i ==> (#[trigger] graph.edges@[j]).0 < graph.node_count
                    && graph.edges@[j].1 < graph.node_count,
        decreases graph.edges@.len() - i,
    {
        let (s, d, _w) = graph.edges[i];
        if s >= graph.node_count || d >= graph.node_count {
            assert(!(graph.edges@[i as int].0 < graph.node_count && graph.edges@[i as int].1
                < graph.node_count));
            return false;
        }
        i += 1;
    }
    true
}

/// Whether the graph is within what the solver's arithmetic and indices can hold.
fn check_capacity(graph: &GraphInput) -> (fits: bool)
    ensures
        fits == graph.in_capacity(),
{
    if graph.node_count > usize::MAX / 8 || graph.edges.len() > usize::MAX / 2 {
        return false;
    }
    let ghost edges = graph.edges@;
    let limit: i64 = MAX_TOTAL_WEIGHT / 2;
    let mut sum: i64 = 0;
    let mut i: usize = 0;
    while i < graph.edges.len()
        invariant
            edges == graph.edges@,
            limit == MAX_TOTAL_WEIGHT / 2,
            i <= edges.len(),
            sum == abs_edge_weight_sum(edges, i as int),
            0 <= sum <= limit,
        decreases edges.len() - i,
    {
        let (_u, _v, w) = graph.edges[i];
        let weight: i64 = match w {
            Some(x) => x,
            None => SCALE,
        };
        assert(weight == edge_weight(edges[i as int]));
        let room: i64 = limit - sum;
        if weight > room || weight < -room {
            proof {
                crate::solver::algorithm::aggregation::lemma_abs_edge_weight_sum_part(
                    edges,
                    i + 1,
                    edges.len() as int,
                );
            }
            return false;
        }
        let magnitude: i64 = if weight < 0 {
            -weight
        } else {
            weight
        };
        sum = sum + magnitude;
        i += 1;
    }
    true
}

/// Tests whether both endpoints of every edge are below `bound`.
fn check_edges_below(delta: &GraphInput, bound: usize) -> (inside: bool)
    ensures
        inside == edges_in_range(delta.edges@, bound as int),
{
    let mut i: usize = 0;
    while i < delta.edges.len()
        invariant
            i <= delta.edges@.len(),
            forall|j: int|
                0 <= j < i ==> (#[trigger] delta.edges@[j]).0 < bound && delta.edges@[j].1 < bound,
        decreases delta.edges@.len() - i,
    {
        let (s, d, _w) = delta.edges[i];
        if s >= bound || d >= bound {
            assert(!(delta.edges@[i as int].0 < bound && delta.edges@[i as int].1 < bound));
            return false;
        }
        i += 1;
    }
    true
}

impl PartitionState {
    /// Tests whether the state can take the change.
    pub fn can_accept(&self, delta: &GraphInput) -> (ok: bool)
        requires
            self.levels_wf(),
        ensures
            ok == self.accepts(delta),
    {
        assert(self.level_wf(0));
        let nodes: usize = self.community_mapping_per_level[0].len();
        if self.supergraphs.len() == 0 {
            delta.node_count == nodes && check_endpoints(delta) && check_capacity(delta)
        } else {
            check_edges_below(delta, nodes) && self.supergraphs[0].can_take(delta) && (self.levels
                <= 1 || check_delta_capacity(delta))
        }
    }
}

/// Checks the options and the graph, in the order in which a run refuses them.
pub fn check_input(graph: &GraphInput, config: &RunConfig) -> (checked: Result<(), HitLeidenError>)
    ensures
        match checked {
            Ok(_) => refusal(graph, config) is None,
            Err(error) => error is InvalidInput && refusal(graph, config) == Some(error->InvalidInput_0@),
        },
{
    match config.validate() {
        Err(reason) => {
            return Err(HitLeidenError::InvalidInput(reason));
        },
        Ok(_) => {},
    }
    if !check_endpoints(graph) {
        return Err(HitLeidenError::InvalidInput("edge endpoint exceeds node_count".to_string()));
    }
    if !check_capacity(graph) {
        return Err(
            HitLeidenError::InvalidInput("graph exceeds the supported capacity".to_string()),
        );
    }
    Ok(())
}

/// A first run on a graph, with the times at which it started and ended given.
///
/// The input is checked; then the graph is solved from the partition in which
/// every node is its own community, at resolution one and with the step budget
/// of the options; then the records are put together.
pub fn run_between(graph: &GraphInput, config: &RunConfig, started_at: u64, completed_at: u64) -> (result:
    Result<RunOutcome, HitLeidenError>)
    ensures
        match result {
            Ok(outcome) => refusal(graph, config) is None && is_outcome_of(&outcome, graph, config)
                && outcome.execution.started_at == started_at && outcome.execution.completed_at
                == Some(
                if completed_at < started_at {
                    started_at
                } else {
                    completed_at
                },
            ),
            Err(error) => error is InvalidInput && refusal(graph, config) == Some(
                error->InvalidInput_0@,
            ),
        },
{
    match check_input(graph, config) {
        Err(error) => {
            return Err(error);
        },
        Ok(_) => {},
    }
    let mut partition_state = PartitionState::identity(graph.node_count);
    let available = is_available(config.acceleration);
    let resolution = orchestrator::resolve_with_fallback(config, available);
    let ghost fresh = partition_state;
    proof {
        assert(fresh.level_wf(0));
    }
    let made = hit_leiden_counted(
        &mut partition_state,
        graph,
        SCALE,
        config.mode,
        config.max_iterations,
    );
    let iteration_count: usize = match made {
        Ok(iterations) => iterations,
        Err(_) => 0,
    };
    let run_id = String::from_str("run:").concat(graph.dataset_id.as_str());
    let execution = RunExecution {
        run_id: run_id.clone(),
        dataset_id: graph.dataset_id.clone(),
        config_id: "default".to_string(),
        started_at,
        completed_at: Some(
            if completed_at < started_at {
                started_at
            } else {
                completed_at
            },
        ),
        status: RunStatus::Succeeded,
        backend: BackendType::PureRust,
        graph_backend_resolved: match resolution.backend_resolved {
            crate::solver::backend::GraphBackend::InMemory => GraphBackend::InMemory,
            crate::solver::backend::GraphBackend::Mmap => GraphBackend::Mmap,
        },
        graph_source_resolved: match resolution.source_resolved {
            GraphSource::File => GraphSourceType::File,
            GraphSource::Neo4jSnapshot => GraphSourceType::Neo4jSnapshot,
            GraphSource::LiveNeo4j => GraphSourceType::Neo4jSnapshot,
        },
        fallback_reason: resolution.fallback_reason,
    };
    proof {
        assert(partition_state.level_wf(0));
        assert(partition_state.level_nodes(0) == fresh.level_nodes(0));
        assert(partition_state.supergraphs@[0].wf());
        assert(solves(partition_state.node_to_comm@, graph, config)) by {
            let adjacency = partition_state.supergraphs@[0];
            assert(adjacency.is_adjacency_of(graph));
        }
    }
    let community_count: usize = count_communities(&partition_state.node_to_comm);
    let quality_score: i64 = modularity_of(graph, &partition_state.node_to_comm, SCALE);
    let partition = PartitionResult {
        run_id,
        node_to_community: partition_state.node_to_comm,
        community_count,
        quality_score,
        iteration_count,
    };
    Ok(RunOutcome { execution, partition: Some(partition), validation: None })
}

/// A first run on a graph.
///
/// Refuses the input with `InvalidInput` where the options or the graph are
/// malformed; else the outcome holds the partition found, with the times of
/// the system clock at its start and end. Where the clock was set back in
/// between, the run is recorded to end when it started.
pub fn run(graph: &GraphInput, config: &RunConfig) -> (result: Result<RunOutcome, HitLeidenError>)
    ensures
        match result {
            Ok(outcome) => refusal(graph, config) is None && is_outcome_of(&outcome, graph, config),
            Err(error) => error is InvalidInput && refusal(graph, config) == Some(
                error->InvalidInput_0@,
            ),
        },
{
    let started_at: u64 = unix_seconds();
    match run_between(graph, config, started_at, started_at) {
        Err(error) => Err(error),
        Ok(outcome) => {
            let read: u64 = unix_seconds();
            let completed_at: u64 = if read < started_at {
                started_at
            } else {
                read
            };
            let mut outcome = outcome;
            outcome.execution.completed_at = Some(completed_at);
            Ok(outcome)
        },
    }
}

} // verus!
