use hit_leiden::solver::algorithm::degrees::{compute_degrees, compute_node_degrees, relabel};
use hit_leiden::solver::algorithm::gain::gain_value;
use hit_leiden::solver::algorithm::parallel_frontier::{
    evaluate_node, execute_shard, mark_neighbors, SharedBitVec,
};
use hit_leiden::solver::algorithm::throughput::{inc_movement_parallel, BufferPool};
use hit_leiden::solver::graph::in_memory::InMemoryGraph;
use hit_leiden::solver::weight::SCALE;
use hit_leiden::GraphInput;

const W: i64 = 1_000_000;

fn two_triangles() -> InMemoryGraph {
    InMemoryGraph::from(&GraphInput {
        dataset_id: "t".to_string(),
        node_count: 6,
        edges: vec![
            (0, 1, Some(W)),
            (1, 2, Some(W)),
            (2, 0, Some(W)),
            (3, 4, Some(W)),
            (4, 5, Some(W)),
            (5, 3, Some(W)),
            (2, 3, Some(50_000)),
        ],
    })
}

#[test]
fn gain_follows_the_formula() {
    // SCALE * 2m * (w_cand - w_cur) + gamma * d * (D_cur - d - D_cand)
    assert_eq!(gain_value(12_100_000, SCALE, W, 0, 2_050_000, 2_050_000, 2_000_000), 8_000_000_000_000_000_000);
    assert_eq!(
        gain_value(12_100_000, SCALE, 50_000, 0, 2_050_000, 2_050_000, 2_050_000),
        -3_597_500_000_000_000_000
    );
    assert_eq!(gain_value(10, 0, 7, 3, 100, 100, 100), 1_000_000 * 10 * 4);
    assert_eq!(gain_value(10, 3, 5, 5, 2, 9, 4), 3 * 2 * (9 - 2 - 4));
    assert_eq!(gain_value(-10, 2, 5, 1, 3, 1, 1), -40_000_000 + 2 * 3 * (1 - 3 - 1));
}

#[test]
fn gain_at_the_ends_of_the_range() {
    let t: i64 = 1_000_000_000_000_000;
    let g: i64 = 50_000_000;
    assert_eq!(
        gain_value(t, g, t, -t, t, t, -t),
        1_000_000i128 * (t as i128) * (2 * t as i128) + (g as i128) * (t as i128) * (t as i128)
    );
    assert_eq!(
        gain_value(t, g, -t, t, t, -t, t),
        -(1_000_000i128 * (t as i128) * (2 * t as i128)) - (g as i128) * (t as i128) * (3 * t as i128)
    );
}

#[test]
fn degrees_of_nodes_and_communities() {
    let graph = two_triangles();
    let nodes = compute_node_degrees(&graph);
    assert_eq!(nodes, vec![2 * W, 2 * W, 2_050_000, 2_050_000, 2 * W, 2 * W]);
    let (node_degrees, community_degrees) = compute_degrees(&graph, &vec![1, 1, 1, 5, 5, 0]);
    assert_eq!(node_degrees, nodes);
    assert_eq!(community_degrees, vec![2 * W, 6_050_000, 0, 0, 0, 4_050_000]);
}

#[test]
fn relabel_moves_the_degree_along() {
    let graph = two_triangles();
    let mut labels = vec![0, 1, 2, 3, 4, 5];
    let (node_degrees, mut community_degrees) = compute_degrees(&graph, &labels);
    relabel(&graph, &mut labels, &mut community_degrees, &node_degrees, 2, 0);
    assert_eq!(labels, vec![0, 1, 0, 3, 4, 5]);
    assert_eq!(
        community_degrees,
        vec![4_050_000, 2 * W, 0, 2_050_000, 2 * W, 2 * W]
    );
}

#[test]
fn best_target_is_the_smallest_of_the_best() {
    let graph = two_triangles();
    let labels: Vec<usize> = (0..6).collect();
    let (node_degrees, community_degrees) = compute_degrees(&graph, &labels);
    let mut scratch = vec![0i64; 6];
    let mut dirty = Vec::new();
    let expected = [Some(1), Some(0), Some(0), Some(4), Some(5), Some(4)];
    for node in 0..6 {
        let target = evaluate_node(
            &graph,
            node,
            &labels,
            &community_degrees,
            &node_degrees,
            12_100_000,
            SCALE,
            &mut scratch,
            &mut dirty,
        );
        assert_eq!(target, expected[node]);
        assert_eq!(scratch, vec![0i64; 6]);
        assert!(dirty.is_empty());
    }
}

#[test]
fn no_target_without_a_positive_gain() {
    let graph = two_triangles();
    let labels = vec![1, 1, 1, 5, 5, 5];
    let (node_degrees, community_degrees) = compute_degrees(&graph, &labels);
    let mut scratch = vec![0i64; 6];
    let mut dirty = Vec::new();
    for node in 0..6 {
        let target = evaluate_node(
            &graph,
            node,
            &labels,
            &community_degrees,
            &node_degrees,
            12_100_000,
            SCALE,
            &mut scratch,
            &mut dirty,
        );
        assert_eq!(target, None);
    }
}

#[test]
fn no_target_with_a_total_weight_of_zero() {
    let graph = InMemoryGraph::from(&GraphInput {
        dataset_id: "z".to_string(),
        node_count: 3,
        edges: vec![(0, 1, Some(W)), (1, 2, Some(-W))],
    });
    let labels = vec![0, 1, 2];
    let (node_degrees, community_degrees) = compute_degrees(&graph, &labels);
    let mut scratch = vec![0i64; 3];
    let mut dirty = Vec::new();
    for node in 0..3 {
        let target = evaluate_node(
            &graph,
            node,
            &labels,
            &community_degrees,
            &node_degrees,
            0,
            SCALE,
            &mut scratch,
            &mut dirty,
        );
        assert_eq!(target, None);
    }
}

#[test]
fn marks_follow_a_move() {
    let graph = two_triangles();
    let labels = vec![0, 1, 0, 3, 4, 5];
    let sub = vec![9, 1, 9, 3, 4, 5];
    let mut next_active = SharedBitVec::new(6);
    let mut affected = SharedBitVec::new(6);
    let lowest = mark_neighbors(&graph, 2, 0, &labels, &sub, &mut next_active, &mut affected);
    assert_eq!(next_active.iter_ones(), vec![1, 3]);
    assert_eq!(affected.iter_ones(), vec![0, 2]);
    assert_eq!(lowest, 1);
}

#[test]
fn shard_records_moves_and_degree_changes() {
    let graph = two_triangles();
    let labels: Vec<usize> = (0..6).collect();
    let sub: Vec<usize> = (0..6).collect();
    let (node_degrees, community_degrees) = compute_degrees(&graph, &labels);
    let mut changed = SharedBitVec::new(6);
    let mut affected = SharedBitVec::new(6);
    let mut next_active = SharedBitVec::new(6);
    let mut scratch = vec![0i64; 6];
    let mut dirty = Vec::new();
    let result = execute_shard(
        &graph,
        &[2, 3][..],
        &labels,
        &sub,
        &community_degrees,
        &node_degrees,
        12_100_000,
        SCALE,
        &mut changed,
        &mut affected,
        &mut next_active,
        &mut scratch,
        &mut dirty,
    );
    assert_eq!(result.node_to_community_updates, vec![(2, 0), (3, 4)]);
    assert_eq!(
        result.community_degree_updates,
        vec![(2, -2_050_000), (0, 2_050_000), (3, -2_050_000), (4, 2_050_000)]
    );
    assert_eq!(changed.iter_ones(), vec![2, 3]);
    assert_eq!(next_active.iter_ones(), vec![1, 2, 3, 5]);
    assert_eq!(affected.iter_ones(), Vec::<usize>::new());
    assert_eq!(labels, (0..6).collect::<Vec<usize>>());
}

fn round_with_workers(workers: usize) -> (Vec<usize>, Vec<i64>, Vec<usize>, Vec<usize>, Vec<usize>) {
    let graph = two_triangles();
    let mut labels: Vec<usize> = (0..6).collect();
    let sub: Vec<usize> = (0..6).collect();
    let (node_degrees, mut community_degrees) = compute_degrees(&graph, &labels);
    let mut frontier = SharedBitVec::new(6);
    for v in 0..6 {
        frontier.set(v);
    }
    let active = frontier.into_bitvec();
    let mut pool = BufferPool::new(6, workers);
    let (changed, affected, next_active) = inc_movement_parallel(
        &graph,
        &active,
        &mut labels,
        &sub,
        &mut community_degrees,
        &node_degrees,
        12_100_000,
        SCALE,
        &mut pool,
    );
    (
        labels,
        community_degrees,
        changed.iter_ones(),
        affected.iter_ones(),
        next_active.iter_ones(),
    )
}

#[test]
fn a_round_moves_every_node_on_the_snapshot() {
    let (labels, degrees, changed, affected, next_active) = round_with_workers(1);
    assert_eq!(labels, vec![1, 0, 0, 4, 5, 4]);
    assert_eq!(degrees, vec![4_050_000, 2 * W, 0, 0, 4_050_000, 2 * W]);
    assert_eq!(changed, vec![0, 1, 2, 3, 4, 5]);
    assert_eq!(affected, Vec::<usize>::new());
    assert_eq!(next_active, vec![1, 2, 3, 5]);
}

#[test]
fn a_round_is_the_same_for_every_number_of_workers() {
    let one = round_with_workers(1);
    for workers in [2, 3, 4, 6, 7, 64] {
        assert_eq!(round_with_workers(workers), one);
    }
}

#[test]
fn pool_serves_its_workers() {
    let mut pool = BufferPool::new(5, 3);
    assert_eq!(pool.len(), 3);
    pool.reset();
    assert_eq!(pool.len(), 3);
    assert_eq!(BufferPool::new(0, 0).len(), 0);
}
