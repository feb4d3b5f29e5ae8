use hit_leiden::solver::algorithm::hit_leiden::hit_leiden;
use hit_leiden::solver::config::RunMode;
use hit_leiden::solver::partition::state::PartitionState;
use hit_leiden::solver::types::GraphInput;
use hit_leiden::solver::weight::SCALE;

fn solve(node_count: usize, edges: Vec<(usize, usize, Option<i64>)>, mode: RunMode) -> PartitionState {
    let graph = GraphInput { dataset_id: "case".to_string(), node_count, edges };
    let mut state = PartitionState::identity(node_count);
    hit_leiden(&mut state, &graph, SCALE, mode, 10).expect("one level always succeeds");
    state
}

#[test]
fn mixed_weights_in_order() {
    let state = solve(9, vec![(6, 0, None), (8, 1, Some(200000)), (8, 3, None), (6, 7, None), (1, 8, Some(1850000)), (1, 3, Some(1900000)), (0, 6, None), (3, 0, Some(450000)), (4, 6, None), (1, 4, Some(600000)), (1, 3, Some(1800000))], RunMode::Deterministic);
    assert_eq!(state.node_to_comm, vec![6, 3, 2, 3, 6, 5, 6, 6, 3]);
    assert_eq!(state.community_mapping_per_level[0], vec![6, 3, 2, 3, 6, 5, 6, 6, 3]);
    assert_eq!(state.current_subcommunity_mapping_per_level[0], vec![6, 1, 2, 1, 6, 5, 6, 6, 1]);
}

#[test]
fn mixed_weights_in_rounds() {
    let state = solve(9, vec![(6, 0, None), (8, 1, Some(200000)), (8, 3, None), (6, 7, None), (1, 8, Some(1850000)), (1, 3, Some(1900000)), (0, 6, None), (3, 0, Some(450000)), (4, 6, None), (1, 4, Some(600000)), (1, 3, Some(1800000))], RunMode::Throughput);
    assert_eq!(state.node_to_comm, vec![0, 3, 2, 3, 0, 5, 0, 0, 3]);
    assert_eq!(state.community_mapping_per_level[0], vec![0, 3, 2, 3, 0, 5, 0, 0, 3]);
    assert_eq!(state.current_subcommunity_mapping_per_level[0], vec![6, 3, 2, 1, 6, 5, 0, 6, 1]);
}

#[test]
fn heavy_and_light_in_order() {
    let state = solve(12, vec![(9, 0, Some(1600000)), (10, 8, Some(1050000)), (7, 9, Some(1200000)), (4, 3, Some(800000)), (1, 9, Some(1600000)), (5, 11, Some(1950000)), (1, 2, Some(550000)), (5, 2, Some(1350000)), (0, 10, None), (8, 9, Some(1050000)), (5, 11, Some(1600000)), (9, 7, None), (1, 4, Some(250000))], RunMode::Deterministic);
    assert_eq!(state.node_to_comm, vec![9, 9, 11, 4, 4, 11, 6, 9, 10, 9, 10, 11]);
    assert_eq!(state.community_mapping_per_level[0], vec![9, 9, 11, 4, 4, 11, 6, 9, 10, 9, 10, 11]);
    assert_eq!(state.current_subcommunity_mapping_per_level[0], vec![9, 9, 5, 4, 4, 5, 6, 9, 8, 9, 8, 5]);
}

#[test]
fn heavy_and_light_in_rounds() {
    let state = solve(12, vec![(9, 0, Some(1600000)), (10, 8, Some(1050000)), (7, 9, Some(1200000)), (4, 3, Some(800000)), (1, 9, Some(1600000)), (5, 11, Some(1950000)), (1, 2, Some(550000)), (5, 2, Some(1350000)), (0, 10, None), (8, 9, Some(1050000)), (5, 11, Some(1600000)), (9, 7, None), (1, 4, Some(250000))], RunMode::Throughput);
    assert_eq!(state.node_to_comm, vec![7, 9, 11, 4, 4, 11, 6, 7, 8, 9, 10, 5]);
    assert_eq!(state.community_mapping_per_level[0], vec![7, 9, 11, 4, 4, 11, 6, 7, 8, 9, 10, 5]);
    assert_eq!(state.current_subcommunity_mapping_per_level[0], vec![0, 9, 5, 4, 3, 2, 6, 7, 8, 1, 10, 11]);
}

#[test]
fn unit_and_weighted_in_order() {
    let state = solve(7, vec![(5, 4, Some(1450000)), (2, 5, Some(1150000)), (0, 3, Some(2000000)), (0, 3, None), (6, 2, None), (1, 3, Some(1600000)), (0, 1, Some(1800000)), (2, 1, Some(1800000)), (2, 5, Some(1150000)), (5, 3, Some(500000)), (0, 1, None)], RunMode::Deterministic);
    assert_eq!(state.node_to_comm, vec![3, 3, 5, 3, 5, 5, 5]);
    assert_eq!(state.community_mapping_per_level[0], vec![3, 3, 5, 3, 5, 5, 5]);
    assert_eq!(state.current_subcommunity_mapping_per_level[0], vec![0, 0, 2, 0, 5, 5, 2]);
}

#[test]
fn unit_and_weighted_in_rounds() {
    let state = solve(7, vec![(5, 4, Some(1450000)), (2, 5, Some(1150000)), (0, 3, Some(2000000)), (0, 3, None), (6, 2, None), (1, 3, Some(1600000)), (0, 1, Some(1800000)), (2, 1, Some(1800000)), (2, 5, Some(1150000)), (5, 3, Some(500000)), (0, 1, None)], RunMode::Throughput);
    assert_eq!(state.node_to_comm, vec![3, 3, 5, 3, 2, 2, 5]);
    assert_eq!(state.community_mapping_per_level[0], vec![3, 3, 5, 3, 2, 2, 5]);
    assert_eq!(state.current_subcommunity_mapping_per_level[0], vec![3, 0, 6, 0, 5, 4, 2]);
}

#[test]
fn sparse_with_loops_in_order() {
    let state = solve(12, vec![(0, 7, Some(600000)), (4, 4, None), (6, 8, Some(1850000)), (5, 2, Some(1650000)), (9, 10, Some(200000)), (7, 10, Some(1300000)), (6, 6, Some(1550000)), (10, 6, None), (1, 3, Some(400000)), (5, 9, None), (0, 9, None), (1, 5, Some(250000)), (3, 9, Some(850000)), (5, 9, Some(400000)), (1, 7, Some(1500000))], RunMode::Deterministic);
    assert_eq!(state.node_to_comm, vec![9, 7, 5, 9, 4, 5, 6, 7, 6, 9, 7, 11]);
    assert_eq!(state.community_mapping_per_level[0], vec![9, 7, 5, 9, 4, 5, 6, 7, 6, 9, 7, 11]);
    assert_eq!(state.current_subcommunity_mapping_per_level[0], vec![9, 7, 5, 9, 4, 5, 6, 7, 6, 9, 7, 11]);
}

#[test]
fn sparse_with_loops_in_rounds() {
    let state = solve(12, vec![(0, 7, Some(600000)), (4, 4, None), (6, 8, Some(1850000)), (5, 2, Some(1650000)), (9, 10, Some(200000)), (7, 10, Some(1300000)), (6, 6, Some(1550000)), (10, 6, None), (1, 3, Some(400000)), (5, 9, None), (0, 9, None), (1, 5, Some(250000)), (3, 9, Some(850000)), (5, 9, Some(400000)), (1, 7, Some(1500000))], RunMode::Throughput);
    assert_eq!(state.node_to_comm, vec![5, 1, 5, 5, 4, 5, 6, 7, 6, 9, 1, 11]);
    assert_eq!(state.community_mapping_per_level[0], vec![5, 1, 5, 5, 4, 5, 6, 7, 6, 9, 1, 11]);
    assert_eq!(state.current_subcommunity_mapping_per_level[0], vec![0, 1, 5, 3, 4, 2, 6, 7, 6, 9, 10, 11]);
}

#[test]
fn signed_mixture_in_order() {
    let state = solve(10, vec![(4, 1, None), (5, 4, Some(-750000)), (2, 8, None), (8, 5, None), (8, 0, Some(1000000)), (1, 4, Some(550000)), (5, 3, Some(1650000)), (5, 3, Some(650000)), (3, 6, Some(750000)), (3, 8, Some(-750000)), (0, 1, Some(1550000)), (4, 3, Some(1150000)), (7, 5, Some(1200000)), (1, 3, None), (7, 3, Some(-500000)), (9, 0, Some(1550000)), (5, 1, Some(400000))], RunMode::Deterministic);
    assert_eq!(state.node_to_comm, vec![9, 4, 8, 5, 4, 5, 5, 5, 8, 9]);
    assert_eq!(state.community_mapping_per_level[0], vec![9, 4, 8, 5, 4, 5, 5, 5, 8, 9]);
    assert_eq!(state.current_subcommunity_mapping_per_level[0], vec![0, 1, 8, 3, 1, 5, 3, 5, 8, 0]);
}

#[test]
fn signed_mixture_in_rounds() {
    let state = solve(10, vec![(4, 1, None), (5, 4, Some(-750000)), (2, 8, None), (8, 5, None), (8, 0, Some(1000000)), (1, 4, Some(550000)), (5, 3, Some(1650000)), (5, 3, Some(650000)), (3, 6, Some(750000)), (3, 8, Some(-750000)), (0, 1, Some(1550000)), (4, 3, Some(1150000)), (7, 5, Some(1200000)), (1, 3, None), (7, 3, Some(-500000)), (9, 0, Some(1550000)), (5, 1, Some(400000))], RunMode::Throughput);
    assert_eq!(state.node_to_comm, vec![0, 1, 8, 3, 4, 5, 5, 3, 8, 0]);
    assert_eq!(state.community_mapping_per_level[0], vec![0, 1, 8, 3, 4, 5, 5, 3, 8, 0]);
    assert_eq!(state.current_subcommunity_mapping_per_level[0], vec![9, 1, 8, 3, 4, 5, 6, 7, 2, 0]);
}

#[test]
fn repeated_edges_in_order() {
    let state = solve(10, vec![(7, 2, Some(1100000)), (1, 6, Some(300000)), (2, 3, Some(100000)), (2, 9, Some(500000)), (9, 0, Some(1150000)), (2, 8, Some(100000)), (0, 1, Some(450000)), (6, 3, Some(700000)), (0, 4, None), (8, 3, Some(1050000)), (4, 8, Some(450000)), (0, 5, Some(1900000)), (8, 6, Some(1650000))], RunMode::Deterministic);
    assert_eq!(state.node_to_comm, vec![5, 5, 7, 8, 5, 5, 8, 7, 8, 5]);
    assert_eq!(state.community_mapping_per_level[0], vec![5, 5, 7, 8, 5, 5, 8, 7, 8, 5]);
    assert_eq!(state.current_subcommunity_mapping_per_level[0], vec![0, 0, 2, 8, 0, 0, 8, 2, 8, 0]);
}

#[test]
fn repeated_edges_in_rounds() {
    let state = solve(10, vec![(7, 2, Some(1100000)), (1, 6, Some(300000)), (2, 3, Some(100000)), (2, 9, Some(500000)), (9, 0, Some(1150000)), (2, 8, Some(100000)), (0, 1, Some(450000)), (6, 3, Some(700000)), (0, 4, None), (8, 3, Some(1050000)), (4, 8, Some(450000)), (0, 5, Some(1900000)), (8, 6, Some(1650000))], RunMode::Throughput);
    assert_eq!(state.node_to_comm, vec![5, 5, 2, 6, 5, 0, 6, 2, 6, 5]);
    assert_eq!(state.community_mapping_per_level[0], vec![5, 5, 2, 6, 5, 0, 6, 2, 6, 5]);
    assert_eq!(state.current_subcommunity_mapping_per_level[0], vec![9, 0, 7, 8, 0, 5, 8, 2, 6, 0]);
}
