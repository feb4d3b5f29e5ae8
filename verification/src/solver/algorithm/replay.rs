use crate::solver::algorithm::degrees::{exact_label_degrees, graph_node_degrees, scores_of};
use crate::solver::algorithm::gain::{
    best_target, gain, is_best, is_candidate, lemma_best_unique, Scores,
};
use crate::solver::algorithm::movement::{
    det_run, det_step, det_steps, first_true, initial_state, iterations_made, movement_result,
    round_run, round_step, rounds_made, MoveState,
};
use crate::solver::algorithm::parallel_frontier::{
    activates, affects, has_true, node_activates, node_affects, or_bits,
};
use crate::solver::algorithm::throughput::{
    round_affected, round_changed, round_labels, round_marks, round_next_active, round_target,
    round_wakes,
};
use crate::solver::config::RunMode;
use crate::solver::graph::in_memory::InMemoryGraph;
use crate::solver::types::{Edge, GraphInput};
use vstd::prelude::*;

verus! {

/// Whether two graphs hold the same adjacency: the same nodes, rows and total weight.
pub open spec fn same_adjacency(a: &InMemoryGraph, b: &InMemoryGraph) -> bool {
    &&& a.node_count == b.node_count
    &&& a.offsets@ == b.offsets@
    &&& a.neighbors@ == b.neighbors@
    &&& a.weights@ == b.weights@
    &&& a.cached_total_weight == b.cached_total_weight
}

/// Every adjacency position below the end of row `upto - 1` lies in one of the rows before `upto`.
proof fn lemma_position_in_row(graph: &InMemoryGraph, k: int, upto: int)
    requires
        graph.wf(),
        0 <= upto <= graph.node_count,
        0 <= k < graph.offsets@[upto],
    ensures
        exists|v: int| 0 <= v < upto && graph.row_lo(v) <= k < #[trigger] graph.row_hi(v),
    decreases upto,
{
    if upto > 0 {
        if k >= graph.offsets@[upto - 1] {
            assert(graph.row_lo(upto - 1) <= k < graph.row_hi(upto - 1));
        } else {
            lemma_position_in_row(graph, k, upto - 1);
        }
    }
}

/// Two adjacencies of the same edges start every row at the same position.
proof fn lemma_same_offsets(a: &InMemoryGraph, b: &InMemoryGraph, input: &GraphInput, upto: int)
    requires
        a.wf(),
        b.wf(),
        a.is_adjacency_of(input),
        b.is_adjacency_of(input),
        0 <= upto <= input.node_count,
    ensures
        a.offsets@[upto] == b.offsets@[upto],
    decreases upto,
{
    if upto > 0 {
        lemma_same_offsets(a, b, input, upto - 1);
        let v = upto - 1;
        assert(a.row(v) == b.row(v));
        assert(a.row(v).len() == a.row_hi(v) - a.row_lo(v));
        assert(b.row(v).len() == b.row_hi(v) - b.row_lo(v));
    }
}

/// The edges of a graph have one adjacency.
pub proof fn lemma_adjacency_unique(a: &InMemoryGraph, b: &InMemoryGraph, input: &GraphInput)
    requires
        a.wf(),
        b.wf(),
        a.is_adjacency_of(input),
        b.is_adjacency_of(input),
    ensures
        same_adjacency(a, b),
{
    let n = input.node_count as int;
    assert forall|v: int| 0 <= v <= n implies a.offsets@[v] == b.offsets@[v] by {
        lemma_same_offsets(a, b, input, v);
    }
    assert(a.offsets@ =~= b.offsets@);
    assert(a.neighbors@.len() == b.neighbors@.len());
    assert forall|k: int| 0 <= k < a.neighbors@.len() implies a.neighbors@[k] == b.neighbors@[k]
        && a.weights@[k] == b.weights@[k] by {
        lemma_position_in_row(a, k, n);
        let v = choose|v: int| 0 <= v < n && a.row_lo(v) <= k < #[trigger] a.row_hi(v);
        assert(a.row(v) == b.row(v));
        let j = k - a.row_lo(v);
        assert(a.row(v)[j] == (a.neighbors@[k], a.weights@[k]));
        assert(b.row(v)[j] == (b.neighbors@[k], b.weights@[k]));
    }
    assert(a.neighbors@ =~= b.neighbors@);
    assert(a.weights@ =~= b.weights@);
}

/// The scores of a level are those of its adjacency.
pub proof fn lemma_same_scores(a: &InMemoryGraph, b: &InMemoryGraph, labels: Seq<usize>, gamma: int)
    requires
        same_adjacency(a, b),
    ensures
        scores_of(a, labels, gamma) == scores_of(b, labels, gamma),
{
    assert(graph_node_degrees(a) =~= graph_node_degrees(b));
    assert(exact_label_degrees(a, labels) =~= exact_label_degrees(b, labels));
}

/// Whether a label is the best target depends on the adjacency alone.
proof fn lemma_same_best(a: &InMemoryGraph, b: &InMemoryGraph, s: Scores, v: int, c: int)
    requires
        same_adjacency(a, b),
        is_best(a, s, v, c),
    ensures
        is_best(b, s, v, c),
{
    assert(is_candidate(b, s.labels, v, c));
    assert(gain(b, s, v, c) == gain(a, s, v, c));
    assert forall|other: int| #[trigger] is_candidate(b, s.labels, v, other) implies gain(
        b,
        s,
        v,
        other,
    ) < gain(b, s, v, c) || (gain(b, s, v, other) == gain(b, s, v, c) && c <= other) by {
        assert(is_candidate(a, s.labels, v, other));
        assert(gain(b, s, v, other) == gain(a, s, v, other));
    }
}

/// The best target of a node depends on the adjacency alone.
pub proof fn lemma_same_target(a: &InMemoryGraph, b: &InMemoryGraph, s: Scores, v: int)
    requires
        same_adjacency(a, b),
    ensures
        best_target(a, s, v) == best_target(b, s, v),
{
    if s.twice_total != 0 {
        if exists|c: usize| is_best(a, s, v, c as int) {
            let ca = choose|c: usize| is_best(a, s, v, c as int);
            lemma_same_best(a, b, s, v, ca as int);
            let cb = choose|c: usize| is_best(b, s, v, c as int);
            lemma_best_unique(b, s, v, ca as int, cb as int);
        } else if exists|c: usize| is_best(b, s, v, c as int) {
            let cb = choose|c: usize| is_best(b, s, v, c as int);
            lemma_same_best(b, a, s, v, cb as int);
        }
    }
}

/// A deterministic step depends on the adjacency alone.
proof fn lemma_same_det_step(
    a: &InMemoryGraph,
    b: &InMemoryGraph,
    sub: Seq<usize>,
    gamma: int,
    st: MoveState,
)
    requires
        same_adjacency(a, b),
    ensures
        det_step(a, sub, gamma, st) == det_step(b, sub, gamma, st),
{
    let v = first_true(st.active);
    lemma_same_scores(a, b, st.labels, gamma);
    let s = scores_of(a, st.labels, gamma);
    lemma_same_target(a, b, s, v);
    match best_target(a, s, v) {
        None => {},
        Some(c) => {
            let labels = st.labels.update(v, c);
            let next_a = det_step(a, sub, gamma, st);
            let next_b = det_step(b, sub, gamma, st);
            assert forall|u: int| 0 <= u < st.active.len() implies next_a.active[u]
                == next_b.active[u] by {
                assert(activates(a, labels, v, c as int, u) == activates(b, labels, v, c as int, u));
            }
            assert(next_a.active =~= next_b.active);
            assert forall|u: int| 0 <= u < st.affected.len() implies next_a.affected[u]
                == next_b.affected[u] by {
                assert(affects(a, sub, v, u) == affects(b, sub, v, u));
            }
            assert(next_a.affected =~= next_b.affected);
        },
    }
}

/// Deterministic movement depends on the adjacency alone.
proof fn lemma_same_det_run(
    a: &InMemoryGraph,
    b: &InMemoryGraph,
    sub: Seq<usize>,
    gamma: int,
    st: MoveState,
    fuel: nat,
)
    requires
        same_adjacency(a, b),
    ensures
        det_run(a, sub, gamma, st, fuel) == det_run(b, sub, gamma, st, fuel),
    decreases fuel,
{
    if fuel != 0 && has_true(st.active) {
        lemma_same_det_step(a, b, sub, gamma, st);
        lemma_same_det_run(a, b, sub, gamma, det_step(a, sub, gamma, st), (fuel - 1) as nat);
    }
}

/// A throughput round depends on the adjacency alone.
proof fn lemma_same_round_step(
    a: &InMemoryGraph,
    b: &InMemoryGraph,
    sub: Seq<usize>,
    gamma: int,
    st: MoveState,
)
    requires
        same_adjacency(a, b),
    ensures
        round_step(a, sub, gamma, st) == round_step(b, sub, gamma, st),
{
    lemma_same_scores(a, b, st.labels, gamma);
    let s = scores_of(a, st.labels, gamma);
    let active = st.active;
    assert forall|v: int| best_target(a, s, v) == best_target(b, s, v) by {
        lemma_same_target(a, b, s, v);
    }
    assert forall|v: int| round_target(a, s, active, v) == round_target(b, s, active, v) by {
        lemma_same_target(a, b, s, v);
    }
    assert(round_labels(a, s, active) =~= round_labels(b, s, active));
    assert(round_changed(a, s, active) =~= round_changed(b, s, active));
    assert forall|v: int, u: int| node_activates(a, s, v, u) == node_activates(b, s, v, u) by {
        lemma_same_target(a, b, s, v);
    }
    assert forall|v: int, u: int| node_affects(a, s, sub, v, u) == node_affects(b, s, sub, v, u) by {
        lemma_same_target(a, b, s, v);
    }
    assert forall|u: int| round_wakes(a, s, active, u) == round_wakes(b, s, active, u) by {
        if round_wakes(a, s, active, u) {
            let v = choose|v: int|
                0 <= v < active.len() && active[v] && #[trigger] node_activates(a, s, v, u);
            assert(node_activates(b, s, v, u));
        }
        if round_wakes(b, s, active, u) {
            let v = choose|v: int|
                0 <= v < active.len() && active[v] && #[trigger] node_activates(b, s, v, u);
            assert(node_activates(a, s, v, u));
        }
    }
    assert forall|u: int| round_marks(a, s, sub, active, u) == round_marks(b, s, sub, active, u) by {
        if round_marks(a, s, sub, active, u) {
            let v = choose|v: int|
                0 <= v < active.len() && active[v] && #[trigger] node_affects(a, s, sub, v, u);
            assert(node_affects(b, s, sub, v, u));
        }
        if round_marks(b, s, sub, active, u) {
            let v = choose|v: int|
                0 <= v < active.len() && active[v] && #[trigger] node_affects(b, s, sub, v, u);
            assert(node_affects(a, s, sub, v, u));
        }
    }
    assert(round_next_active(a, s, active) =~= round_next_active(b, s, active));
    assert(round_affected(a, s, sub, active) =~= round_affected(b, s, sub, active));
}

/// Throughput movement depends on the adjacency alone.
proof fn lemma_same_round_run(
    a: &InMemoryGraph,
    b: &InMemoryGraph,
    sub: Seq<usize>,
    gamma: int,
    st: MoveState,
    rounds: nat,
)
    requires
        same_adjacency(a, b),
    ensures
        round_run(a, sub, gamma, st, rounds) == round_run(b, sub, gamma, st, rounds),
    decreases rounds,
{
    if rounds != 0 && has_true(st.active) {
        lemma_same_round_step(a, b, sub, gamma, st);
        lemma_same_round_run(a, b, sub, gamma, round_step(a, sub, gamma, st), (rounds - 1) as nat);
    }
}

/// The evaluations of deterministic movement depend on the adjacency alone.
proof fn lemma_same_det_steps(
    a: &InMemoryGraph,
    b: &InMemoryGraph,
    sub: Seq<usize>,
    gamma: int,
    st: MoveState,
    fuel: nat,
)
    requires
        same_adjacency(a, b),
    ensures
        det_steps(a, sub, gamma, st, fuel) == det_steps(b, sub, gamma, st, fuel),
    decreases fuel,
{
    if fuel != 0 && has_true(st.active) {
        lemma_same_det_step(a, b, sub, gamma, st);
        lemma_same_det_steps(a, b, sub, gamma, det_step(a, sub, gamma, st), (fuel - 1) as nat);
    }
}

/// The rounds of throughput movement depend on the adjacency alone.
proof fn lemma_same_rounds_made(
    a: &InMemoryGraph,
    b: &InMemoryGraph,
    sub: Seq<usize>,
    gamma: int,
    st: MoveState,
    rounds: nat,
)
    requires
        same_adjacency(a, b),
    ensures
        rounds_made(a, sub, gamma, st, rounds) == rounds_made(b, sub, gamma, st, rounds),
    decreases rounds,
{
    if rounds != 0 && has_true(st.active) {
        lemma_same_round_step(a, b, sub, gamma, st);
        lemma_same_rounds_made(a, b, sub, gamma, round_step(a, sub, gamma, st), (rounds - 1) as nat);
    }
}

/// The iterations of movement depend on the graph by its adjacency alone.
pub proof fn lemma_same_iterations(
    a: &InMemoryGraph,
    b: &InMemoryGraph,
    edges: Seq<Edge>,
    labels: Seq<usize>,
    sub: Seq<usize>,
    gamma: int,
    mode: RunMode,
    max_iterations: nat,
)
    requires
        same_adjacency(a, b),
    ensures
        iterations_made(a, edges, labels, sub, gamma, mode, max_iterations) == iterations_made(
            b,
            edges,
            labels,
            sub,
            gamma,
            mode,
            max_iterations,
        ),
{
    let start = initial_state(edges, labels, sub);
    match mode {
        RunMode::Deterministic => {
            lemma_same_det_steps(a, b, sub, gamma, start, max_iterations * a.node_count as nat);
        },
        RunMode::Throughput => {
            lemma_same_rounds_made(a, b, sub, gamma, start, max_iterations);
        },
    }
}

/// Movement depends on the graph by its adjacency alone: on two graphs that
/// hold the same adjacency it ends in the same state.
pub proof fn lemma_same_movement(
    a: &InMemoryGraph,
    b: &InMemoryGraph,
    edges: Seq<Edge>,
    labels: Seq<usize>,
    sub: Seq<usize>,
    gamma: int,
    mode: RunMode,
    max_iterations: nat,
)
    requires
        same_adjacency(a, b),
    ensures
        movement_result(a, edges, labels, sub, gamma, mode, max_iterations) == movement_result(
            b,
            edges,
            labels,
            sub,
            gamma,
            mode,
            max_iterations,
        ),
{
    let start = initial_state(edges, labels, sub);
    match mode {
        RunMode::Deterministic => {
            lemma_same_det_run(a, b, sub, gamma, start, max_iterations * a.node_count as nat);
        },
        RunMode::Throughput => {
            lemma_same_round_run(a, b, sub, gamma, start, max_iterations);
        },
    }
}

} // verus!
