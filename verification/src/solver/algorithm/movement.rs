use crate::solver::algorithm::degrees::{
    compute_degrees, exact_label_degrees, graph_node_degrees, labels_ok, lemma_scores_of_ok,
    relabel, scores_of,
};
use crate::solver::algorithm::gain::{best_target, ints, is_best, is_candidate, label_at, Scores};
use crate::solver::algorithm::parallel_frontier::{
    activates, affects, evaluate_node, has_true, mark_neighbors, or_bits, scores, SharedBitVec,
};
use crate::solver::algorithm::throughput::{
    inc_movement_parallel, round_affected, round_changed, round_labels, round_next_active,
    BufferPool,
};
use crate::solver::config::RunMode;
use crate::solver::graph::in_memory::{lemma_weight_sum_bound, InMemoryGraph};
use crate::solver::types::{edge_weight, Edge, GraphInput};
use crate::solver::weight::{MAX_RESOLUTION, MAX_TOTAL_WEIGHT};
use vstd::prelude::*;

verus! {

/// The state of a movement pass: the community of each node, the frontier,
/// the nodes that have moved, and the nodes marked for refinement.
pub struct MoveState {
    pub labels: Seq<usize>,
    pub active: Seq<bool>,
    pub changed: Seq<bool>,
    pub affected: Seq<bool>,
}

/// Whether `edge` ends at `u`.
pub open spec fn edge_touches(edge: Edge, u: int) -> bool {
    edge.0 == u || edge.1 == u
}

/// Whether a changed edge puts its endpoints into the frontier: weight added
/// between two communities, or weight removed inside one.
pub open spec fn edge_seeds(labels: Seq<usize>, edge: Edge) -> bool {
    (edge_weight(edge) > 0 && labels[edge.0 as int] != labels[edge.1 as int]) || (edge_weight(edge)
        < 0 && labels[edge.0 as int] == labels[edge.1 as int])
}

/// Whether one of the first `upto` changed edges puts `u` into the frontier.
pub open spec fn seeded(edges: Seq<Edge>, labels: Seq<usize>, upto: int, u: int) -> bool {
    exists|i: int|
        0 <= i < upto && edge_touches(#[trigger] edges[i], u) && edge_seeds(labels, edges[i])
}

/// Whether one of the first `upto` changed edges lies inside a sub-community and ends at `u`.
pub open spec fn disturbed(edges: Seq<Edge>, sub: Seq<usize>, upto: int, u: int) -> bool {
    exists|i: int|
        0 <= i < upto && edge_touches(#[trigger] edges[i], u) && sub[edges[i].0 as int]
            == sub[edges[i].1 as int]
}

/// The state in which a movement pass starts. Without changed edges every node is in the frontier.
pub open spec fn initial_state(edges: Seq<Edge>, labels: Seq<usize>, sub: Seq<usize>) -> MoveState {
    MoveState {
        labels,
        active: Seq::new(
            labels.len(),
            |u: int| edges.len() == 0 || seeded(edges, labels, edges.len() as int, u),
        ),
        changed: Seq::new(labels.len(), |u: int| false),
        affected: Seq::new(labels.len(), |u: int| disturbed(edges, sub, edges.len() as int, u)),
    }
}

/// Whether `i` is the smallest id that `bits` holds.
pub open spec fn is_first_true(bits: Seq<bool>, i: int) -> bool {
    0 <= i < bits.len() && bits[i] && forall|j: int| 0 <= j < i ==> !bits[j]
}

/// The smallest id that `bits` holds.
pub open spec fn first_true(bits: Seq<bool>) -> int {
    choose|i: int| is_first_true(bits, i)
}

/// One deterministic step: the smallest node of the frontier leaves it and is
/// evaluated. If it has a best target it moves there at once, wakes its
/// neighbours outside the target, and marks itself and its neighbours of the
/// same sub-community for refinement.
pub open spec fn det_step(
    graph: &InMemoryGraph,
    sub: Seq<usize>,
    gamma: int,
    st: MoveState,
) -> MoveState {
    let v = first_true(st.active);
    match best_target(graph, scores_of(graph, st.labels, gamma), v) {
        None => MoveState { active: st.active.update(v, false), ..st },
        Some(c) => {
            let labels = st.labels.update(v, c);
            MoveState {
                labels,
                active: Seq::new(
                    st.active.len(),
                    |u: int| (st.active[u] && u != v) || activates(graph, labels, v, c as int, u),
                ),
                changed: st.changed.update(v, true),
                affected: Seq::new(
                    st.affected.len(),
                    |u: int| st.affected[u] || affects(graph, sub, v, u),
                ),
            }
        },
    }
}

/// Deterministic movement: steps until the frontier is empty or `fuel` nodes were evaluated.
pub open spec fn det_run(
    graph: &InMemoryGraph,
    sub: Seq<usize>,
    gamma: int,
    st: MoveState,
    fuel: nat,
) -> MoveState
    decreases fuel,
{
    if fuel == 0 || !has_true(st.active) {
        st
    } else {
        det_run(graph, sub, gamma, det_step(graph, sub, gamma, st), (fuel - 1) as nat)
    }
}

/// One throughput round: every node of the frontier is evaluated against the
/// state as it is; then all moves are made, and the nodes they wake are the next frontier.
pub open spec fn round_step(
    graph: &InMemoryGraph,
    sub: Seq<usize>,
    gamma: int,
    st: MoveState,
) -> MoveState {
    let s = scores_of(graph, st.labels, gamma);
    MoveState {
        labels: round_labels(graph, s, st.active),
        active: round_next_active(graph, s, st.active),
        changed: or_bits(st.changed, round_changed(graph, s, st.active)),
        affected: or_bits(st.affected, round_affected(graph, s, sub, st.active)),
    }
}

/// Throughput movement: rounds until the frontier is empty or `rounds` were made.
pub open spec fn round_run(
    graph: &InMemoryGraph,
    sub: Seq<usize>,
    gamma: int,
    st: MoveState,
    rounds: nat,
) -> MoveState
    decreases rounds,
{
    if rounds == 0 || !has_true(st.active) {
        st
    } else {
        round_run(graph, sub, gamma, round_step(graph, sub, gamma, st), (rounds - 1) as nat)
    }
}

/// The number of nodes that deterministic movement evaluates.
pub open spec fn det_steps(
    graph: &InMemoryGraph,
    sub: Seq<usize>,
    gamma: int,
    st: MoveState,
    fuel: nat,
) -> nat
    decreases fuel,
{
    if fuel == 0 || !has_true(st.active) {
        0
    } else {
        1 + det_steps(graph, sub, gamma, det_step(graph, sub, gamma, st), (fuel - 1) as nat)
    }
}

/// The number of rounds that throughput movement makes.
pub open spec fn rounds_made(
    graph: &InMemoryGraph,
    sub: Seq<usize>,
    gamma: int,
    st: MoveState,
    rounds: nat,
) -> nat
    decreases rounds,
{
    if rounds == 0 || !has_true(st.active) {
        0
    } else {
        1 + rounds_made(graph, sub, gamma, round_step(graph, sub, gamma, st), (rounds - 1) as nat)
    }
}

/// The sweeps over `n` nodes that `evaluations` come to, a sweep begun counting as one.
pub open spec fn sweeps_of(evaluations: nat, n: nat) -> nat {
    if n == 0 {
        0
    } else {
        ((evaluations + n - 1) / (n as int)) as nat
    }
}

/// The iterations that a movement pass makes: the rounds in throughput mode,
/// and in deterministic mode the sweeps that its evaluations come to.
pub open spec fn iterations_made(
    graph: &InMemoryGraph,
    edges: Seq<Edge>,
    labels: Seq<usize>,
    sub: Seq<usize>,
    gamma: int,
    mode: RunMode,
    max_iterations: nat,
) -> nat {
    match mode {
        RunMode::Deterministic => sweeps_of(
            det_steps(
                graph,
                sub,
                gamma,
                initial_state(edges, labels, sub),
                max_iterations * graph.node_count as nat,
            ),
            graph.node_count as nat,
        ),
        RunMode::Throughput => rounds_made(
            graph,
            sub,
            gamma,
            initial_state(edges, labels, sub),
            max_iterations,
        ),
    }
}

/// The state in which a movement pass ends.
///
/// The step budget is `max_iterations` sweeps: that many rounds in throughput
/// mode, and that many times the node count in evaluations in deterministic mode.
pub open spec fn movement_result(
    graph: &InMemoryGraph,
    edges: Seq<Edge>,
    labels: Seq<usize>,
    sub: Seq<usize>,
    gamma: int,
    mode: RunMode,
    max_iterations: nat,
) -> MoveState {
    match mode {
        RunMode::Deterministic => det_run(
            graph,
            sub,
            gamma,
            initial_state(edges, labels, sub),
            max_iterations * graph.node_count as nat,
        ),
        RunMode::Throughput => round_run(
            graph,
            sub,
            gamma,
            initial_state(edges, labels, sub),
            max_iterations,
        ),
    }
}

/// The state with the given parts.
pub open spec fn state(
    labels: Seq<usize>,
    active: Seq<bool>,
    changed: Seq<bool>,
    affected: Seq<bool>,
) -> MoveState {
    MoveState { labels, active, changed, affected }
}

/// With a total weight of zero no node has a best target.
pub proof fn lemma_zero_weight_no_target(graph: &InMemoryGraph, labels: Seq<usize>, gamma: int, v: int)
    requires
        graph.twice_total() == 0,
    ensures
        best_target(graph, scores_of(graph, labels, gamma), v) is None,
{
}

/// With a total weight of zero deterministic movement leaves every node in its community.
pub proof fn lemma_zero_weight_in_order(
    graph: &InMemoryGraph,
    sub: Seq<usize>,
    gamma: int,
    st: MoveState,
    fuel: nat,
)
    requires
        graph.twice_total() == 0,
    ensures
        det_run(graph, sub, gamma, st, fuel).labels == st.labels,
        det_run(graph, sub, gamma, st, fuel).changed == st.changed,
    decreases fuel,
{
    if fuel > 0 && has_true(st.active) {
        lemma_zero_weight_no_target(graph, st.labels, gamma, first_true(st.active));
        lemma_zero_weight_in_order(graph, sub, gamma, det_step(graph, sub, gamma, st), (fuel - 1) as nat);
    }
}

/// With a total weight of zero throughput movement leaves every node in its community.
pub proof fn lemma_zero_weight_in_rounds(
    graph: &InMemoryGraph,
    sub: Seq<usize>,
    gamma: int,
    st: MoveState,
    rounds: nat,
)
    requires
        graph.twice_total() == 0,
        st.changed.len() == st.labels.len(),
    ensures
        round_run(graph, sub, gamma, st, rounds).labels == st.labels,
        round_run(graph, sub, gamma, st, rounds).changed == st.changed,
    decreases rounds,
{
    if rounds > 0 && has_true(st.active) {
        let s = scores_of(graph, st.labels, gamma);
        let next = round_step(graph, sub, gamma, st);
        assert forall|v: int| 0 <= v < st.labels.len() implies next.labels[v] == st.labels[v]
            && next.changed[v] == st.changed[v] by {
            lemma_zero_weight_no_target(graph, st.labels, gamma, v);
        }
        assert(next.labels =~= st.labels);
        assert(next.changed =~= st.changed);
        lemma_zero_weight_in_rounds(graph, sub, gamma, next, (rounds - 1) as nat);
    }
}

/// On a graph whose total weight is zero, movement moves no node, whatever the
/// mode and the step budget: every node stays in the community it has.
pub proof fn lemma_zero_weight_keeps_partition(
    graph: &InMemoryGraph,
    edges: Seq<Edge>,
    labels: Seq<usize>,
    sub: Seq<usize>,
    gamma: int,
    mode: RunMode,
    max_iterations: nat,
)
    requires
        graph.twice_total() == 0,
    ensures
        movement_result(graph, edges, labels, sub, gamma, mode, max_iterations).labels == labels,
        movement_result(graph, edges, labels, sub, gamma, mode, max_iterations).changed
            == Seq::new(labels.len(), |u: int| false),
{
    let init = initial_state(edges, labels, sub);
    match mode {
        RunMode::Deterministic => {
            lemma_zero_weight_in_order(
                graph,
                sub,
                gamma,
                init,
                max_iterations * graph.node_count as nat,
            );
        },
        RunMode::Throughput => {
            lemma_zero_weight_in_rounds(graph, sub, gamma, init, max_iterations);
        },
    }
}

/// Whether both endpoints of every edge are below `n`.
pub open spec fn edges_in_range(edges: Seq<Edge>, n: int) -> bool {
    forall|i: int| 0 <= i < edges.len() ==> (#[trigger] edges[i]).0 < n && edges[i].1 < n
}

/// The frontier and the refinement marks that the changed edges give.
fn seed_sets(
    node_count: usize,
    delta_graph: &GraphInput,
    node_to_community: &Vec<usize>,
    node_to_subcommunity: &Vec<usize>,
) -> (sets: (SharedBitVec, SharedBitVec))
    requires
        edges_in_range(delta_graph.edges@, node_count as int),
        node_to_community@.len() == node_count,
        node_to_subcommunity@.len() == node_count,
    ensures
        sets.0.wf(),
        sets.1.wf(),
        sets.0@ == initial_state(
            delta_graph.edges@,
            node_to_community@,
            node_to_subcommunity@,
        ).active,
        sets.1@ == initial_state(
            delta_graph.edges@,
            node_to_community@,
            node_to_subcommunity@,
        ).affected,
{
    let n: usize = node_count;
    let ghost edges = delta_graph.edges@;
    let ghost labels = node_to_community@;
    let ghost sub = node_to_subcommunity@;
    let mut active = SharedBitVec::new(n);
    let mut affected = SharedBitVec::new(n);
    let mut i: usize = 0;
    while i < delta_graph.edges.len()
        invariant
            edges == delta_graph.edges@,
            labels == node_to_community@,
            sub == node_to_subcommunity@,
            edges_in_range(edges, n as int),
            labels.len() == n,
            sub.len() == n,
            i <= edges.len(),
            active.wf(),
            active@.len() == n,
            affected.wf(),
            affected@.len() == n,
            forall|u: int| 0 <= u < n ==> #[trigger] active@[u] == seeded(edges, labels, i as int, u),
            forall|u: int|
                0 <= u < n ==> #[trigger] affected@[u] == disturbed(edges, sub, i as int, u),
        decreases edges.len() - i,
    {
        let (u, v, w) = delta_graph.edges[i];
        let alpha: i64 = match w {
            Some(x) => x,
            None => crate::solver::weight::SCALE,
        };
        let ghost active_before = active@;
        let ghost affected_before = affected@;
        let ghost i1: int = i + 1;
        assert(edges[i as int].0 == u && edges[i as int].1 == v);
        assert(alpha == edge_weight(edges[i as int]));
        let same: bool = node_to_community[u] == node_to_community[v];
        if (alpha > 0 && !same) || (alpha < 0 && same) {
            active.set(u);
            active.set(v);
        }
        if node_to_subcommunity[u] == node_to_subcommunity[v] {
            affected.set(u);
            affected.set(v);
        }
        proof {
            assert forall|x: int| 0 <= x < n implies #[trigger] active@[x] == seeded(
                edges,
                labels,
                i1,
                x,
            ) by {
                assert(active_before[x] == seeded(edges, labels, i as int, x));
                if seeded(edges, labels, i1, x) {
                    let j = choose|j: int|
                        0 <= j < i1 && edge_touches(#[trigger] edges[j], x) && edge_seeds(
                            labels,
                            edges[j],
                        );
                    if j < i {
                        assert(seeded(edges, labels, i as int, x));
                    }
                }
                if seeded(edges, labels, i as int, x) {
                    let j = choose|j: int|
                        0 <= j < i && edge_touches(#[trigger] edges[j], x) && edge_seeds(
                            labels,
                            edges[j],
                        );
                    assert(0 <= j < i1);
                }
                if edge_touches(edges[i as int], x) && edge_seeds(labels, edges[i as int]) {
                    assert(seeded(edges, labels, i1, x));
                }
            }
            assert forall|x: int| 0 <= x < n implies #[trigger] affected@[x] == disturbed(
                edges,
                sub,
                i1,
                x,
            ) by {
                assert(affected_before[x] == disturbed(edges, sub, i as int, x));
                if disturbed(edges, sub, i1, x) {
                    let j = choose|j: int|
                        0 <= j < i1 && edge_touches(#[trigger] edges[j], x) && sub[edges[j].0 as int]
                            == sub[edges[j].1 as int];
                    if j < i {
                        assert(disturbed(edges, sub, i as int, x));
                    }
                }
                if disturbed(edges, sub, i as int, x) {
                    let j = choose|j: int|
                        0 <= j < i && edge_touches(#[trigger] edges[j], x) && sub[edges[j].0 as int]
                            == sub[edges[j].1 as int];
                    assert(0 <= j < i1);
                }
                if edge_touches(edges[i as int], x) && sub[edges[i as int].0 as int]
                    == sub[edges[i as int].1 as int] {
                    assert(disturbed(edges, sub, i1, x));
                }
            }
        }
        i += 1;
    }
    if delta_graph.edges.len() == 0 {
        let mut v: usize = 0;
        while v < n
            invariant
                v <= n,
                active.wf(),
                active@.len() == n,
                forall|u: int| 0 <= u < v ==> active@[u],
            decreases n - v,
        {
            active.set(v);
            v += 1;
        }
    }
    proof {
        let init = initial_state(edges, labels, sub);
        assert(active@ =~= init.active);
        assert(affected@ =~= init.affected);
    }
    (active, affected)
}

/// The movement operator of one level.
///
/// Seeds the frontier from the changed edges (or with every node where there
/// are none), then moves nodes to the neighbouring community of greatest
/// positive gain until the frontier is empty or the step budget is used up.
/// Returns the nodes that moved and the nodes marked for refinement.
pub fn inc_movement(
    graph: &InMemoryGraph,
    delta_graph: &GraphInput,
    node_to_community: &mut Vec<usize>,
    node_to_subcommunity: &Vec<usize>,
    resolution_parameter: i64,
    mode: RunMode,
    max_iterations: usize,
    buffer_pool: &mut BufferPool,
) -> (sets: (SharedBitVec, SharedBitVec))
    requires
        graph.wf(),
        edges_in_range(delta_graph.edges@, graph.node_count as int),
        labels_ok(old(node_to_community)@, graph.node_count as int),
        node_to_subcommunity@.len() == graph.node_count,
        0 <= resolution_parameter <= MAX_RESOLUTION,
        old(buffer_pool).workers() > 0,
        old(buffer_pool).zeroed(graph.node_count as nat),
    ensures
        final(node_to_community)@ == movement_result(
            graph,
            delta_graph.edges@,
            old(node_to_community)@,
            node_to_subcommunity@,
            resolution_parameter as int,
            mode,
            max_iterations as nat,
        ).labels,
        labels_ok(final(node_to_community)@, graph.node_count as int),
        sets.0.wf(),
        sets.1.wf(),
        sets.0@.len() == graph.node_count,
        sets.1@.len() == graph.node_count,
        sets.0@ == movement_result(
            graph,
            delta_graph.edges@,
            old(node_to_community)@,
            node_to_subcommunity@,
            resolution_parameter as int,
            mode,
            max_iterations as nat,
        ).changed,
        sets.1@ == movement_result(
            graph,
            delta_graph.edges@,
            old(node_to_community)@,
            node_to_subcommunity@,
            resolution_parameter as int,
            mode,
            max_iterations as nat,
        ).affected,
        final(buffer_pool).workers() == old(buffer_pool).workers(),
        final(buffer_pool).zeroed(graph.node_count as nat),
{
    let (changed, affected, _made) = inc_movement_counted(
        graph,
        delta_graph,
        node_to_community,
        node_to_subcommunity,
        resolution_parameter,
        mode,
        max_iterations,
        buffer_pool,
    );
    (changed, affected)
}

/// The movement operator of one level.
///
/// Seeds the frontier from the changed edges (or with every node where there
/// are none), then moves nodes to the neighbouring community of greatest
/// positive gain until the frontier is empty or the step budget is used up.
/// Returns the nodes that moved, the nodes marked for refinement, and the
/// iterations made.
pub fn inc_movement_counted(
    graph: &InMemoryGraph,
    delta_graph: &GraphInput,
    node_to_community: &mut Vec<usize>,
    node_to_subcommunity: &Vec<usize>,
    resolution_parameter: i64,
    mode: RunMode,
    max_iterations: usize,
    buffer_pool: &mut BufferPool,
) -> (sets: (SharedBitVec, SharedBitVec, usize))
    requires
        graph.wf(),
        edges_in_range(delta_graph.edges@, graph.node_count as int),
        labels_ok(old(node_to_community)@, graph.node_count as int),
        node_to_subcommunity@.len() == graph.node_count,
        0 <= resolution_parameter <= MAX_RESOLUTION,
        old(buffer_pool).workers() > 0,
        old(buffer_pool).zeroed(graph.node_count as nat),
    ensures
        final(node_to_community)@ == movement_result(
            graph,
            delta_graph.edges@,
            old(node_to_community)@,
            node_to_subcommunity@,
            resolution_parameter as int,
            mode,
            max_iterations as nat,
        ).labels,
        labels_ok(final(node_to_community)@, graph.node_count as int),
        sets.0.wf(),
        sets.1.wf(),
        sets.0@.len() == graph.node_count,
        sets.1@.len() == graph.node_count,
        sets.0@ == movement_result(
            graph,
            delta_graph.edges@,
            old(node_to_community)@,
            node_to_subcommunity@,
            resolution_parameter as int,
            mode,
            max_iterations as nat,
        ).changed,
        sets.1@ == movement_result(
            graph,
            delta_graph.edges@,
            old(node_to_community)@,
            node_to_subcommunity@,
            resolution_parameter as int,
            mode,
            max_iterations as nat,
        ).affected,
        sets.2 == iterations_made(
            graph,
            delta_graph.edges@,
            old(node_to_community)@,
            node_to_subcommunity@,
            resolution_parameter as int,
            mode,
            max_iterations as nat,
        ),
        final(buffer_pool).workers() == old(buffer_pool).workers(),
        final(buffer_pool).zeroed(graph.node_count as nat),
{
    let n: usize = graph.node_count;
    let ghost sub = node_to_subcommunity@;
    let ghost gamma = resolution_parameter as int;
    let ghost init = initial_state(delta_graph.edges@, node_to_community@, sub);
    let (active, affected) = seed_sets(n, delta_graph, node_to_community, node_to_subcommunity);
    let changed = SharedBitVec::new(n);
    let (node_degrees, community_degrees) = compute_degrees(graph, node_to_community);
    proof {
        lemma_weight_sum_bound(graph.weights@, 0, graph.entries());
    }
    let twice_total_weight: i64 = 2 * graph.total_weight();
    match mode {
        RunMode::Throughput => move_in_rounds(
            graph,
            active,
            changed,
            affected,
            node_to_community,
            node_to_subcommunity,
            community_degrees,
            &node_degrees,
            twice_total_weight,
            resolution_parameter,
            max_iterations,
            buffer_pool,
        ),
        RunMode::Deterministic => move_in_order(
            graph,
            active,
            changed,
            affected,
            node_to_community,
            node_to_subcommunity,
            community_degrees,
            &node_degrees,
            twice_total_weight,
            resolution_parameter,
            max_iterations,
        ),
    }
}

/// Throughput movement from a given state: one round after the other.
fn move_in_rounds(
    graph: &InMemoryGraph,
    active: SharedBitVec,
    changed: SharedBitVec,
    affected: SharedBitVec,
    node_to_community: &mut Vec<usize>,
    node_to_subcommunity: &Vec<usize>,
    community_degrees: Vec<i64>,
    node_degrees: &Vec<i64>,
    twice_total_weight: i64,
    resolution_parameter: i64,
    max_iterations: usize,
    buffer_pool: &mut BufferPool,
) -> (sets: (SharedBitVec, SharedBitVec, usize))
    requires
        graph.wf(),
        labels_ok(old(node_to_community)@, graph.node_count as int),
        node_to_subcommunity@.len() == graph.node_count,
        active.wf(),
        active@.len() == graph.node_count,
        changed.wf(),
        changed@.len() == graph.node_count,
        affected.wf(),
        affected@.len() == graph.node_count,
        ints(community_degrees@) == exact_label_degrees(graph, old(node_to_community)@),
        ints(node_degrees@) == graph_node_degrees(graph),
        twice_total_weight == graph.twice_total(),
        0 <= resolution_parameter <= MAX_RESOLUTION,
        old(buffer_pool).workers() > 0,
        old(buffer_pool).zeroed(graph.node_count as nat),
    ensures
        state(final(node_to_community)@, round_run(
                graph,
                node_to_subcommunity@,
                resolution_parameter as int,
                MoveState {
                    labels: old(node_to_community)@,
                    active: active@,
                    changed: changed@,
                    affected: affected@,
                },
                max_iterations as nat,
            ).active, sets.0@, sets.1@) == round_run(
            graph,
            node_to_subcommunity@,
            resolution_parameter as int,
            state(old(node_to_community)@, active@, changed@, affected@),
            max_iterations as nat,
        ),
        sets.2 == rounds_made(
            graph,
            node_to_subcommunity@,
            resolution_parameter as int,
            state(old(node_to_community)@, active@, changed@, affected@),
            max_iterations as nat,
        ),
        labels_ok(final(node_to_community)@, graph.node_count as int),
        sets.0.wf(),
        sets.1.wf(),
        sets.0@.len() == graph.node_count,
        sets.1@.len() == graph.node_count,
        final(buffer_pool).workers() == old(buffer_pool).workers(),
        final(buffer_pool).zeroed(graph.node_count as nat),
{
    let n: usize = graph.node_count;
    let ghost sub = node_to_subcommunity@;
    let ghost gamma = resolution_parameter as int;
    let ghost init = state(node_to_community@, active@, changed@, affected@);
    let mut changed = changed;
    let mut affected = affected;
    let mut community_degrees = community_degrees;
    let mut current = active.into_bitvec();
    let mut rounds_left: usize = max_iterations;
    while rounds_left > 0 && current.any()
        invariant
            graph.wf(),
            n == graph.node_count,
            sub == node_to_subcommunity@,
            sub.len() == n,
            gamma == resolution_parameter as int,
            0 <= resolution_parameter <= MAX_RESOLUTION,
            labels_ok(node_to_community@, n as int),
            current@.len() == n,
            changed.wf(),
            changed@.len() == n,
            affected.wf(),
            affected@.len() == n,
            ints(community_degrees@) == exact_label_degrees(graph, node_to_community@),
            ints(node_degrees@) == graph_node_degrees(graph),
            twice_total_weight == graph.twice_total(),
            buffer_pool.workers() == old(buffer_pool).workers(),
            buffer_pool.workers() > 0,
            buffer_pool.zeroed(n as nat),
            round_run(
                graph,
                sub,
                gamma,
                state(node_to_community@, current@, changed@, affected@),
                rounds_left as nat,
            ) == round_run(graph, sub, gamma, init, max_iterations as nat),
            rounds_left <= max_iterations,
            rounds_made(graph, sub, gamma, init, max_iterations as nat) == (max_iterations
                - rounds_left) + rounds_made(
                graph,
                sub,
                gamma,
                state(node_to_community@, current@, changed@, affected@),
                rounds_left as nat,
            ),
        decreases rounds_left,
    {
        let ghost st = state(node_to_community@, current@, changed@, affected@);
        let (new_changed, new_affected, next_active) = inc_movement_parallel(
            graph,
            &current,
            node_to_community,
            node_to_subcommunity,
            &mut community_degrees,
            node_degrees,
            twice_total_weight,
            resolution_parameter,
            buffer_pool,
        );
        changed.union_dense(&new_changed);
        affected.union_dense(&new_affected);
        current = next_active;
        rounds_left -= 1;
        proof {
            let after = state(node_to_community@, current@, changed@, affected@);
            assert(after == round_step(graph, sub, gamma, st));
            assert(round_run(graph, sub, gamma, st, (rounds_left + 1) as nat) == round_run(
                graph,
                sub,
                gamma,
                after,
                rounds_left as nat,
            ));
            assert(rounds_made(graph, sub, gamma, st, (rounds_left + 1) as nat) == 1 + rounds_made(
                graph,
                sub,
                gamma,
                after,
                rounds_left as nat,
            ));
        }
    }
    proof {
        let st = state(node_to_community@, current@, changed@, affected@);
        assert(round_run(graph, sub, gamma, st, rounds_left as nat) == st);
        assert(rounds_made(graph, sub, gamma, st, rounds_left as nat) == 0);
    }
    (changed, affected, max_iterations - rounds_left)
}

/// Deterministic movement from a given state: one node at a time, the smallest id first.
fn move_in_order(
    graph: &InMemoryGraph,
    active: SharedBitVec,
    changed: SharedBitVec,
    affected: SharedBitVec,
    node_to_community: &mut Vec<usize>,
    node_to_subcommunity: &Vec<usize>,
    community_degrees: Vec<i64>,
    node_degrees: &Vec<i64>,
    twice_total_weight: i64,
    resolution_parameter: i64,
    max_iterations: usize,
) -> (sets: (SharedBitVec, SharedBitVec, usize))
    requires
        graph.wf(),
        labels_ok(old(node_to_community)@, graph.node_count as int),
        node_to_subcommunity@.len() == graph.node_count,
        active.wf(),
        active@.len() == graph.node_count,
        changed.wf(),
        changed@.len() == graph.node_count,
        affected.wf(),
        affected@.len() == graph.node_count,
        ints(community_degrees@) == exact_label_degrees(graph, old(node_to_community)@),
        ints(node_degrees@) == graph_node_degrees(graph),
        twice_total_weight == graph.twice_total(),
        0 <= resolution_parameter <= MAX_RESOLUTION,
    ensures
        state(final(node_to_community)@, det_run(
                graph,
                node_to_subcommunity@,
                resolution_parameter as int,
                MoveState {
                    labels: old(node_to_community)@,
                    active: active@,
                    changed: changed@,
                    affected: affected@,
                },
                max_iterations as nat * graph.node_count as nat,
            ).active, sets.0@, sets.1@) == det_run(
            graph,
            node_to_subcommunity@,
            resolution_parameter as int,
            state(old(node_to_community)@, active@, changed@, affected@),
            max_iterations as nat * graph.node_count as nat,
        ),
        sets.2 == sweeps_of(
            det_steps(
                graph,
                node_to_subcommunity@,
                resolution_parameter as int,
                state(old(node_to_community)@, active@, changed@, affected@),
                max_iterations as nat * graph.node_count as nat,
            ),
            graph.node_count as nat,
        ),
        labels_ok(final(node_to_community)@, graph.node_count as int),
        sets.0.wf(),
        sets.1.wf(),
        sets.0@.len() == graph.node_count,
        sets.1@.len() == graph.node_count,
{
    let n: usize = graph.node_count;
    let ghost sub = node_to_subcommunity@;
    let ghost gamma = resolution_parameter as int;
    let ghost init = state(node_to_community@, active@, changed@, affected@);
    let mut active = active;
    let mut changed = changed;
    let mut affected = affected;
    let mut community_degrees = community_degrees;
    let mut neighbor_weight_buf: Vec<i64> = vec![0i64; n];
    let mut dirty_communities: Vec<usize> = Vec::new();
    proof {
        assert(max_iterations * n <= u128::MAX) by (nonlinear_arith)
            requires
                max_iterations <= 0xffff_ffff_ffff_ffff,
                n <= 0xffff_ffff_ffff_ffff,
        ;
    }
    let mut fuel: u128 = (max_iterations as u128) * (n as u128);
    let ghost fuel0 = fuel as nat;
    let budget: u128 = fuel;
    let mut cursor: usize = 0;
    while fuel > 0
        invariant
            graph.wf(),
            n == graph.node_count,
            sub == node_to_subcommunity@,
            sub.len() == n,
            gamma == resolution_parameter as int,
            0 <= resolution_parameter <= MAX_RESOLUTION,
            labels_ok(node_to_community@, n as int),
            active.wf(),
            active@.len() == n,
            changed.wf(),
            changed@.len() == n,
            affected.wf(),
            affected@.len() == n,
            ints(community_degrees@) == exact_label_degrees(graph, node_to_community@),
            ints(node_degrees@) == graph_node_degrees(graph),
            twice_total_weight == graph.twice_total(),
            neighbor_weight_buf@.len() == n,
            forall|c: int| 0 <= c < n ==> neighbor_weight_buf@[c] == 0,
            dirty_communities@.len() == 0,
            forall|j: int| 0 <= j < cursor && j < n ==> !active@[j],
            det_run(
                graph,
                sub,
                gamma,
                state(node_to_community@, active@, changed@, affected@),
                fuel as nat,
            ) == det_run(graph, sub, gamma, init, fuel0),
            fuel <= fuel0,
            det_steps(graph, sub, gamma, init, fuel0) == (fuel0 - fuel) + det_steps(
                graph,
                sub,
                gamma,
                state(node_to_community@, active@, changed@, affected@),
                fuel as nat,
            ),
        ensures
            det_run(graph, sub, gamma, init, fuel0) == (state(node_to_community@, active@, changed@, affected@)),
            fuel <= fuel0,
            det_steps(graph, sub, gamma, init, fuel0) == fuel0 - fuel,
            labels_ok(node_to_community@, n as int),
            changed.wf(),
            changed@.len() == n,
            affected.wf(),
            affected@.len() == n,
        decreases fuel,
    {
        let ghost st = state(node_to_community@, active@, changed@, affected@);
        let popped = active.first_one_from(cursor);
        if popped.is_none() {
            proof {
                assert(!has_true(active@));
            }
            break ;
        }
        let node: usize = popped.unwrap();
        proof {
            assert(is_first_true(st.active, node as int));
            let first = first_true(st.active);
            assert(is_first_true(st.active, first));
            assert(first == node);
            assert(has_true(st.active));
            lemma_scores_of_ok(graph, node_to_community@, gamma);
            assert(scores_of(graph, node_to_community@, gamma) == scores(
                node_to_community@,
                community_degrees@,
                node_degrees@,
                twice_total_weight,
                resolution_parameter,
            ));
        }
        active.clear(node);
        let target = evaluate_node(
            graph,
            node,
            node_to_community,
            &community_degrees,
            node_degrees,
            twice_total_weight,
            resolution_parameter,
            &mut neighbor_weight_buf,
            &mut dirty_communities,
        );
        match target {
            Some(best) => {
                relabel(
                    graph,
                    node_to_community,
                    &mut community_degrees,
                    node_degrees,
                    node,
                    best,
                );
                changed.set(node);
                let lowest = mark_neighbors(
                    graph,
                    node,
                    best,
                    node_to_community,
                    node_to_subcommunity,
                    &mut active,
                    &mut affected,
                );
                proof {
                    assert(!activates(graph, node_to_community@, node as int, best as int, node as int));
                }
                cursor = if lowest < node + 1 {
                    lowest
                } else {
                    node + 1
                };
            },
            None => {
                cursor = node + 1;
            },
        }
        fuel = fuel - 1;
        proof {
            let after = state(node_to_community@, active@, changed@, affected@);
            let stepped = det_step(graph, sub, gamma, st);
            assert(after.labels == stepped.labels);
            assert(after.active =~= stepped.active);
            assert(after.changed =~= stepped.changed);
            assert(after.affected =~= stepped.affected);
            assert(det_run(graph, sub, gamma, st, (fuel + 1) as nat) == det_run(
                graph,
                sub,
                gamma,
                stepped,
                fuel as nat,
            ));
            assert(det_steps(graph, sub, gamma, st, (fuel + 1) as nat) == 1 + det_steps(
                graph,
                sub,
                gamma,
                stepped,
                fuel as nat,
            ));
        }
    }
    let evaluations: u128 = budget - fuel;
    let sweeps: usize = if n == 0 {
        0
    } else {
        proof {
            assert((evaluations + n - 1) / (n as int) <= max_iterations) by (nonlinear_arith)
                requires
                    0 <= evaluations <= max_iterations * n,
                    n > 0,
            ;
            assert(evaluations + (n - 1) <= u128::MAX) by (nonlinear_arith)
                requires
                    0 <= evaluations <= max_iterations * n,
                    max_iterations <= 0xffff_ffff_ffff_ffff,
                    0 < n <= 0xffff_ffff_ffff_ffff,
            ;
        }
        ((evaluations + (n as u128 - 1)) / (n as u128)) as usize
    };
    (changed, affected, sweeps)
}

} // verus!
