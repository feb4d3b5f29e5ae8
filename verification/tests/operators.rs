use hit_leiden::solver::algorithm::aggregation::inc_aggregation;
use hit_leiden::solver::algorithm::components::{collect_component, find_components};
use hit_leiden::solver::algorithm::degrees::compute_node_degrees;
use hit_leiden::solver::algorithm::hierarchy::def_update;
use hit_leiden::solver::algorithm::merge::{
    count_of, evaluate_merge, order_by_degree, sub_tables, weight_of,
};
use hit_leiden::solver::algorithm::movement::inc_movement;
use hit_leiden::solver::algorithm::parallel_frontier::SharedBitVec;
use hit_leiden::solver::algorithm::refinement::{check_identity, inc_refinement, split_affected};
use hit_leiden::solver::algorithm::throughput::BufferPool;
use hit_leiden::solver::config::RunMode;
use hit_leiden::solver::graph::in_memory::InMemoryGraph;
use hit_leiden::solver::weight::SCALE;
use hit_leiden::GraphInput;

const W: i64 = 1_000_000;

type Edges = Vec<(usize, usize, Option<i64>)>;

fn input(node_count: usize, edges: Edges) -> GraphInput {
    GraphInput {
        dataset_id: "ops".to_string(),
        node_count,
        edges,
    }
}

fn csr(node_count: usize, edges: Edges) -> InMemoryGraph {
    InMemoryGraph::from(&input(node_count, edges))
}

fn bits(len: usize, ones: &[usize]) -> SharedBitVec {
    let mut set = SharedBitVec::new(len);
    for &index in ones {
        set.set(index);
    }
    set
}

fn triangles(bridge: i64) -> Edges {
    vec![
        (0, 1, Some(W)),
        (1, 2, Some(W)),
        (2, 0, Some(W)),
        (3, 4, Some(W)),
        (4, 5, Some(W)),
        (5, 3, Some(W)),
        (2, 3, Some(bridge)),
    ]
}

fn moved(
    graph: &InMemoryGraph,
    delta: Edges,
    labels: &[usize],
    sub: &[usize],
    mode: RunMode,
    budget: usize,
) -> (Vec<usize>, Vec<usize>, Vec<usize>) {
    let mut labels = labels.to_vec();
    let sub = sub.to_vec();
    let mut pool = BufferPool::new(graph.node_count, 2);
    let (changed, affected) = inc_movement(
        graph,
        &input(graph.node_count, delta),
        &mut labels,
        &sub,
        SCALE,
        mode,
        budget,
        &mut pool,
    );
    (labels, changed.iter_ones(), affected.iter_ones())
}

#[test]
fn movement_from_singletons_finds_the_triangles() {
    let graph = csr(6, triangles(50_000));
    let start: Vec<usize> = (0..6).collect();
    let (labels, changed, affected) =
        moved(&graph, vec![], &start, &start, RunMode::Deterministic, 10);
    assert_eq!(labels, vec![1, 1, 1, 5, 5, 5]);
    assert_eq!(changed, vec![0, 2, 3, 4]);
    assert_eq!(affected, Vec::<usize>::new());
    let (labels, _, _) = moved(&graph, vec![], &start, &start, RunMode::Throughput, 10);
    assert_eq!(labels, vec![1, 1, 1, 5, 5, 5]);
}

#[test]
fn movement_leaves_a_settled_partition() {
    let graph = csr(6, triangles(50_000));
    let labels = [1, 1, 1, 5, 5, 5];
    for mode in [RunMode::Deterministic, RunMode::Throughput] {
        let (after, changed, affected) =
            moved(&graph, vec![(2, 3, Some(W))], &labels, &labels, mode, 10);
        assert_eq!(after, labels.to_vec());
        assert!(changed.is_empty());
        assert!(affected.is_empty());
    }
}

#[test]
fn a_change_inside_a_subcommunity_marks_its_ends() {
    let graph = csr(6, triangles(50_000));
    let labels = [1, 1, 1, 5, 5, 5];
    for mode in [RunMode::Deterministic, RunMode::Throughput] {
        for delta in [vec![(0, 1, Some(-W))], vec![(0, 1, Some(W))], vec![(0, 1, None)]] {
            let (after, changed, affected) = moved(&graph, delta, &labels, &labels, mode, 10);
            assert_eq!(after, labels.to_vec());
            assert!(changed.is_empty());
            assert_eq!(affected, vec![0, 1]);
        }
        let (_, _, affected) = moved(&graph, vec![(0, 0, Some(W))], &labels, &labels, mode, 10);
        assert_eq!(affected, vec![0]);
        let (_, _, affected) = moved(&graph, vec![(2, 3, Some(-W))], &labels, &labels, mode, 10);
        assert!(affected.is_empty());
    }
}

#[test]
fn a_heavier_bridge_pulls_a_node_over() {
    let graph = csr(6, triangles(5 * W));
    let labels = [1, 1, 1, 5, 5, 5];
    let sub = [0, 0, 0, 1, 1, 1];
    let delta = vec![(2, 3, Some(4 * W))];
    let (after, changed, affected) =
        moved(&graph, delta.clone(), &labels, &sub, RunMode::Deterministic, 10);
    assert_eq!(after, vec![1, 1, 5, 5, 5, 5]);
    assert_eq!(changed, vec![2]);
    assert_eq!(affected, vec![0, 1, 2]);
    let (after, changed, affected) = moved(&graph, delta, &labels, &sub, RunMode::Throughput, 10);
    assert_eq!(after, vec![1, 1, 5, 1, 5, 5]);
    assert_eq!(changed, vec![2, 3]);
    assert_eq!(affected, vec![0, 1, 2, 3, 4, 5]);
}

#[test]
fn movement_without_budget_moves_nothing() {
    let graph = csr(6, triangles(5 * W));
    let labels = [1, 1, 1, 5, 5, 5];
    let sub = [0, 0, 0, 1, 1, 1];
    for mode in [RunMode::Deterministic, RunMode::Throughput] {
        let (after, changed, affected) =
            moved(&graph, vec![(2, 3, Some(4 * W))], &labels, &sub, mode, 0);
        assert_eq!(after, labels.to_vec());
        assert!(changed.is_empty());
        assert!(affected.is_empty());
    }
}

#[test]
fn movement_stops_when_the_budget_is_spent() {
    let path: Edges = (0..7).map(|i| (i, i + 1, None)).collect();
    let graph = csr(8, path);
    let start: Vec<usize> = (0..8).collect();
    let det = |budget| moved(&graph, vec![], &start, &start, RunMode::Deterministic, budget).0;
    assert_eq!(det(1), vec![1, 1, 3, 3, 5, 5, 6, 7]);
    assert_eq!(det(2), vec![1, 1, 3, 3, 5, 5, 7, 7]);
    assert_eq!(det(10), vec![1, 1, 3, 3, 5, 5, 7, 7]);
    let rounds = |budget| moved(&graph, vec![], &start, &start, RunMode::Throughput, budget).0;
    assert_eq!(rounds(1), vec![1, 0, 1, 2, 3, 4, 7, 6]);
    assert_eq!(rounds(2), vec![1, 0, 0, 3, 2, 3, 6, 6]);
    assert_eq!(rounds(10), vec![1, 0, 0, 2, 2, 2, 6, 6]);
}

#[test]
fn movement_with_a_total_weight_of_zero_moves_nothing() {
    let graph = csr(3, vec![(0, 1, Some(W)), (1, 2, Some(-W))]);
    let start = [0, 1, 2];
    for mode in [RunMode::Deterministic, RunMode::Throughput] {
        let (after, changed, affected) = moved(&graph, vec![], &start, &start, mode, 10);
        assert_eq!(after, start.to_vec());
        assert!(changed.is_empty());
        assert!(affected.is_empty());
    }
}

#[test]
fn movement_is_the_same_for_every_pool() {
    let graph = csr(6, triangles(5 * W));
    let start: Vec<usize> = (0..6).collect();
    let run = |workers: usize| {
        let mut labels = start.clone();
        let mut pool = BufferPool::new(6, workers);
        let (changed, affected) = inc_movement(
            &graph,
            &input(6, vec![]),
            &mut labels,
            &start,
            SCALE,
            RunMode::Throughput,
            10,
            &mut pool,
        );
        (labels, changed.iter_ones(), affected.iter_ones())
    };
    let one = run(1);
    for workers in [2, 3, 5, 8] {
        assert_eq!(run(workers), one);
    }
}

#[test]
fn components_of_a_subcommunity() {
    let graph = csr(6, vec![(4, 0, None), (0, 2, None), (1, 5, None), (3, 3, None)]);
    let sorted = |sub: Vec<usize>, s: usize| {
        let mut visited = SharedBitVec::new(6);
        let mut lists = find_components(&graph, &sub, s, &mut visited);
        for list in lists.iter_mut() {
            list.sort();
        }
        (lists, visited.iter_ones())
    };
    assert_eq!(
        sorted(vec![0; 6], 0),
        (vec![vec![0, 2, 4], vec![1, 5], vec![3]], vec![0, 1, 2, 3, 4, 5])
    );
    assert_eq!(
        sorted(vec![0, 0, 0, 0, 1, 0], 0),
        (vec![vec![0, 2], vec![1, 5], vec![3]], vec![0, 1, 2, 3, 5])
    );
    assert_eq!(sorted(vec![0, 0, 0, 0, 1, 0], 1), (vec![vec![4]], vec![4]));
    assert_eq!(sorted(vec![0, 0, 0, 0, 1, 0], 9), (vec![], vec![]));
}

#[test]
fn one_component_from_its_start() {
    let graph = csr(6, vec![(4, 0, None), (0, 2, None), (1, 5, None), (3, 3, None)]);
    let mut visited = SharedBitVec::new(6);
    let mut members = collect_component(&graph, &vec![0; 6], 0, 2, &mut visited);
    members.sort();
    assert_eq!(members, vec![0, 2, 4]);
    assert_eq!(visited.iter_ones(), vec![0, 2, 4]);
}

#[test]
fn split_keeps_the_largest_component() {
    let graph = csr(5, vec![(0, 1, Some(W)), (2, 3, Some(W)), (3, 4, Some(W))]);
    let mut sub = vec![7, 7, 7, 7, 7];
    let refined = split_affected(&graph, &mut sub, &bits(5, &[0]));
    assert_eq!(sub, vec![8, 8, 7, 7, 7]);
    assert_eq!(refined.iter_ones(), vec![0, 1]);
}

#[test]
fn split_keeps_the_first_of_equal_components() {
    let graph = csr(4, vec![(0, 1, None), (2, 3, None)]);
    let mut sub = vec![0, 0, 0, 0];
    let refined = split_affected(&graph, &mut sub, &bits(4, &[3]));
    assert_eq!(sub, vec![0, 0, 1, 1]);
    assert_eq!(refined.iter_ones(), vec![2, 3]);
}

#[test]
fn split_takes_affected_subcommunities_in_ascending_order() {
    let graph = csr(5, vec![(0, 1, Some(W)), (2, 3, Some(W)), (3, 4, Some(W))]);
    let mut sub = vec![7, 7, 2, 2, 7];
    let refined = split_affected(&graph, &mut sub, &bits(5, &[0, 3]));
    assert_eq!(sub, vec![7, 7, 2, 2, 8]);
    assert_eq!(refined.iter_ones(), vec![4]);
    let graph = csr(6, vec![]);
    let mut sub = vec![5, 5, 2, 2, 5, 2];
    let refined = split_affected(&graph, &mut sub, &bits(6, &[0, 2]));
    assert_eq!(sub, vec![5, 8, 2, 6, 9, 7]);
    assert_eq!(refined.iter_ones(), vec![1, 3, 4, 5]);
}

#[test]
fn split_leaves_what_is_not_affected() {
    let graph = csr(5, vec![(0, 1, Some(W)), (2, 3, Some(W)), (3, 4, Some(W))]);
    let mut sub = vec![7, 7, 7, 7, 7];
    let refined = split_affected(&graph, &mut sub, &bits(5, &[]));
    assert_eq!(sub, vec![7, 7, 7, 7, 7]);
    assert!(!refined.any());
}

#[test]
fn identity_is_recognised() {
    assert!(check_identity(&vec![]));
    assert!(check_identity(&vec![0, 1, 2]));
    assert!(!check_identity(&vec![0, 2, 1]));
    assert!(!check_identity(&vec![1]));
}

#[test]
fn refinement_of_a_warm_state_splits_only() {
    let graph = csr(5, vec![(0, 1, Some(W)), (2, 3, Some(W)), (3, 4, Some(W))]);
    for mode in [RunMode::Deterministic, RunMode::Throughput] {
        let mut sub = vec![7, 7, 7, 7, 7];
        let refined = inc_refinement(
            &graph,
            &vec![0, 0, 2, 2, 2],
            &mut sub,
            &bits(5, &[0]),
            SCALE,
            mode,
            3,
        );
        assert_eq!(sub, vec![8, 8, 7, 7, 7]);
        assert_eq!(refined.iter_ones(), vec![0, 1]);
    }
}

fn star() -> InMemoryGraph {
    csr(5, vec![(0, 1, Some(W)), (0, 2, Some(W)), (0, 3, Some(W)), (0, 4, Some(W))])
}

#[test]
fn a_cold_start_merges_every_singleton() {
    let graph = star();
    let mut sub: Vec<usize> = (0..5).collect();
    let refined = inc_refinement(
        &graph,
        &vec![1; 5],
        &mut sub,
        &bits(5, &[]),
        SCALE,
        RunMode::Deterministic,
        1,
    );
    assert_eq!(sub, vec![0, 0, 0, 0, 0]);
    assert_eq!(refined.iter_ones(), vec![0, 1, 2, 3, 4]);
    for workers in [1, 2, 3, 7] {
        let mut sub: Vec<usize> = (0..5).collect();
        let refined = inc_refinement(
            &graph,
            &vec![1; 5],
            &mut sub,
            &bits(5, &[]),
            SCALE,
            RunMode::Throughput,
            workers,
        );
        assert_eq!(sub, vec![1, 0, 0, 0, 0]);
        assert_eq!(refined.iter_ones(), vec![0, 1, 2, 3, 4]);
    }
}

#[test]
fn merges_stay_inside_a_community() {
    let graph = star();
    let mut sub: Vec<usize> = (0..5).collect();
    inc_refinement(
        &graph,
        &vec![0, 1, 0, 3, 0],
        &mut sub,
        &bits(5, &[]),
        SCALE,
        RunMode::Deterministic,
        1,
    );
    assert_eq!(sub, vec![0, 1, 0, 3, 0]);
}

#[test]
fn merge_target_of_a_singleton() {
    let graph = star();
    let degrees = compute_node_degrees(&graph);
    let target = |comm: Vec<usize>, sub: Vec<usize>, node: usize| {
        let (weights, sizes) = sub_tables(&graph, &sub, &degrees);
        evaluate_merge(&graph, node, &comm, &sub, &weights, &sizes, &degrees, 8 * W, SCALE)
    };
    let ident: Vec<usize> = (0..5).collect();
    assert_eq!(target(vec![1; 5], ident.clone(), 0), Some(1));
    assert_eq!(target(vec![1; 5], ident.clone(), 3), Some(0));
    assert_eq!(target(vec![0, 1, 0, 3, 0], ident.clone(), 0), Some(2));
    assert_eq!(target(vec![0, 1, 0, 3, 0], ident.clone(), 1), None);
    assert_eq!(target(vec![0, 1, 0, 3, 0], ident, 4), Some(0));
    assert_eq!(target(vec![1; 5], vec![0, 0, 2, 3, 4], 0), None);
    assert_eq!(target(vec![1; 5], vec![0, 0, 2, 3, 4], 1), None);
    assert_eq!(target(vec![1; 5], vec![0, 0, 2, 3, 4], 2), Some(0));
}

#[test]
fn tables_hold_degree_and_size_of_each_subcommunity() {
    let graph = star();
    let degrees = compute_node_degrees(&graph);
    let (weights, sizes) = sub_tables(&graph, &vec![0, 0, 9, 3, 9], &degrees);
    assert_eq!(weight_of(&weights, 0), 5 * W);
    assert_eq!(weight_of(&weights, 9), 2 * W);
    assert_eq!(weight_of(&weights, 3), W);
    assert_eq!(weight_of(&weights, 4), 0);
    assert_eq!(count_of(&sizes, 0), 2);
    assert_eq!(count_of(&sizes, 9), 2);
    assert_eq!(count_of(&sizes, 3), 1);
    assert_eq!(count_of(&sizes, 1), 0);
    assert_eq!(weights.len(), 3);
    assert_eq!(sizes.len(), 3);
}

#[test]
fn refined_nodes_come_by_degree_then_id() {
    let graph = csr(6, triangles(50_000));
    let degrees = compute_node_degrees(&graph);
    assert_eq!(
        order_by_degree(&graph, &bits(6, &[0, 1, 2, 3, 4, 5]), &degrees),
        vec![0, 1, 4, 5, 2, 3]
    );
    assert_eq!(order_by_degree(&graph, &bits(6, &[2, 3, 5]), &degrees), vec![5, 2, 3]);
    assert_eq!(order_by_degree(&graph, &bits(6, &[]), &degrees), Vec::<usize>::new());
    let star = star();
    let degrees = compute_node_degrees(&star);
    assert_eq!(
        order_by_degree(&star, &bits(5, &[0, 1, 2, 3, 4]), &degrees),
        vec![1, 2, 3, 4, 0]
    );
}

#[test]
fn aggregation_adds_the_change_to_the_level_above() {
    let graph = csr(
        4,
        vec![(0, 1, Some(W)), (1, 2, Some(2 * W)), (2, 3, Some(W)), (3, 0, Some(W / 2))],
    );
    let delta = input(4, vec![(0, 2, Some(W)), (1, 3, None), (0, 1, Some(-W))]);
    let (next, previous) = inc_aggregation(
        &graph,
        &delta,
        &vec![0, 0, 1, 1],
        &vec![0, 2, 1, 1],
        &bits(4, &[1]),
    );
    assert_eq!(next.dataset_id, "ops");
    assert_eq!(next.node_count, 3);
    assert_eq!(
        next.edges,
        vec![(0, 0, Some(-2 * W)), (0, 2, Some(W)), (1, 2, Some(2 * W))]
    );
    assert_eq!(previous, vec![0, 2, 1, 1]);
}

#[test]
fn aggregation_drops_what_cancels() {
    let graph = csr(
        4,
        vec![(0, 1, Some(W)), (1, 2, Some(2 * W)), (2, 3, Some(W)), (3, 0, Some(W / 2))],
    );
    let delta = input(4, vec![(0, 2, Some(W)), (2, 0, Some(-W))]);
    let (next, previous) =
        inc_aggregation(&graph, &delta, &vec![0, 0, 1, 1], &vec![0, 0, 1, 1], &bits(4, &[]));
    assert_eq!(next.node_count, 2);
    assert_eq!(next.edges, vec![]);
    assert_eq!(previous, vec![0, 0, 1, 1]);
}

#[test]
fn aggregation_of_nothing() {
    let graph = csr(0, vec![]);
    let (next, previous) =
        inc_aggregation(&graph, &input(0, vec![]), &vec![], &vec![], &bits(0, &[]));
    assert_eq!(next.node_count, 1);
    assert_eq!(next.edges, vec![]);
    assert_eq!(previous, Vec::<usize>::new());
}

#[test]
fn labels_come_down_from_the_level_above() {
    let mut labels = vec![vec![5, 6, 7, 8], vec![0, 1], vec![1]];
    let sub = vec![vec![0, 0, 1, 1], vec![0, 0], vec![0]];
    let mut changed = vec![bits(4, &[1]), bits(2, &[1]), bits(1, &[])];
    def_update(&mut labels, &sub, &mut changed, 3);
    assert_eq!(labels, vec![vec![5, 0, 1, 1], vec![0, 1], vec![1]]);
    let sets: Vec<Vec<usize>> = changed.iter().map(|s| s.iter_ones()).collect();
    assert_eq!(sets, vec![vec![1, 2, 3], vec![1], vec![]]);
}

#[test]
fn one_level_is_left_as_it_is() {
    let mut labels = vec![vec![2, 0, 1]];
    let sub = vec![vec![0, 0, 0]];
    let mut changed = vec![bits(3, &[0, 2])];
    def_update(&mut labels, &sub, &mut changed, 1);
    assert_eq!(labels, vec![vec![2, 0, 1]]);
    assert_eq!(changed[0].iter_ones(), vec![0, 2]);
    def_update(&mut labels, &sub, &mut changed, 0);
    assert_eq!(labels, vec![vec![2, 0, 1]]);
}
