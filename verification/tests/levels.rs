use hit_leiden::solver::algorithm::hit_leiden::hit_leiden;
use hit_leiden::solver::algorithm::levels::check_delta_capacity;
use hit_leiden::solver::config::RunMode;
use hit_leiden::solver::graph::in_memory::InMemoryGraph;
use hit_leiden::solver::partition::state::{identity_vec, PartitionState};
use hit_leiden::solver::weight::{MAX_TOTAL_WEIGHT, SCALE};
use hit_leiden::{GraphInput, HitLeidenError};

const W: i64 = 1_000_000;

type Edges = Vec<(usize, usize, Option<i64>)>;

fn input(node_count: usize, edges: Edges) -> GraphInput {
    GraphInput {
        dataset_id: "levels".to_string(),
        node_count,
        edges,
    }
}

fn triangles() -> Edges {
    vec![
        (0, 1, Some(W)),
        (1, 2, Some(W)),
        (2, 0, Some(W)),
        (3, 4, Some(W)),
        (4, 5, Some(W)),
        (5, 3, Some(W)),
        (2, 3, Some(50_000)),
    ]
}

fn state_of(
    graphs: Vec<GraphInput>,
    community: Vec<Vec<usize>>,
    refined: Vec<Vec<usize>>,
    subcommunity: Vec<Vec<usize>>,
) -> PartitionState {
    let nodes = community[0].len();
    PartitionState {
        node_to_comm: community[0].clone(),
        comm_weights: vec![0; nodes],
        node_weights: vec![0; nodes],
        levels: community.len(),
        supergraphs: graphs.iter().map(InMemoryGraph::from).collect(),
        cc_indices_per_level: vec![Vec::new(); community.len()],
        community_mapping_per_level: community,
        refined_community_mapping_per_level: refined,
        previous_subcommunity_mapping_per_level: subcommunity.clone(),
        current_subcommunity_mapping_per_level: subcommunity,
    }
}

fn two_levels() -> PartitionState {
    state_of(
        vec![input(6, triangles()), input(2, vec![(0, 1, Some(50_000))])],
        vec![vec![0, 0, 0, 3, 3, 3], vec![0, 1]],
        vec![vec![0, 0, 0, 3, 3, 3], vec![0, 1]],
        vec![vec![0, 0, 0, 1, 1, 1], vec![0, 1]],
    )
}

#[test]
fn first_run_on_one_level() {
    let graph = input(6, triangles());
    let mut state = PartitionState::identity(6);
    hit_leiden(&mut state, &graph, SCALE, RunMode::Deterministic, 10).expect("one level");
    assert_eq!(state.node_to_comm, vec![1, 1, 1, 5, 5, 5]);
    assert_eq!(state.community_mapping_per_level, vec![vec![1, 1, 1, 5, 5, 5]]);
    assert_eq!(state.current_subcommunity_mapping_per_level, vec![vec![1, 1, 1, 5, 5, 5]]);
    assert_eq!(state.levels, 1);
    assert_eq!(state.supergraphs, vec![InMemoryGraph::from(&graph)]);

    let mut state = PartitionState::identity(6);
    hit_leiden(&mut state, &graph, SCALE, RunMode::Throughput, 10).expect("one level");
    assert_eq!(state.node_to_comm, vec![1, 1, 1, 5, 5, 5]);
    assert_eq!(state.current_subcommunity_mapping_per_level, vec![vec![1, 0, 0, 4, 5, 4]]);
}

#[test]
fn first_run_on_no_nodes() {
    let mut state = PartitionState::identity(0);
    hit_leiden(&mut state, &input(0, vec![]), SCALE, RunMode::Deterministic, 10).expect("empty");
    assert_eq!(state.node_to_comm, Vec::<usize>::new());
}

#[test]
fn a_second_run_adds_the_change_to_the_graph() {
    let graph = input(6, triangles());
    let mut state = PartitionState::identity(6);
    hit_leiden(&mut state, &graph, SCALE, RunMode::Deterministic, 10).expect("first");
    let change = input(6, vec![(2, 3, Some(9 * W))]);
    assert!(state.can_accept(&change));
    assert!(state.is_roomy());
    hit_leiden(&mut state, &change, SCALE, RunMode::Deterministic, 10).expect("second");
    let mut all = triangles();
    all.push((2, 3, Some(9 * W)));
    assert_eq!(state.supergraphs, vec![InMemoryGraph::from(&input(6, all.clone()))]);
    assert_eq!(state.supergraphs[0].total_weight(), 15_050_000);
    assert_eq!(state.node_to_comm, vec![1, 1, 5, 5, 5, 5]);
    assert_eq!(state.current_subcommunity_mapping_per_level, vec![vec![1, 1, 1, 5, 5, 5]]);

    hit_leiden(&mut state, &input(6, vec![(2, 3, Some(-9 * W))]), SCALE, RunMode::Deterministic, 10)
        .expect("third");
    all.push((2, 3, Some(-9 * W)));
    assert_eq!(state.supergraphs, vec![InMemoryGraph::from(&input(6, all))]);
    assert_eq!(state.supergraphs[0].total_weight(), 6_050_000);
    assert_eq!(state.node_to_comm, vec![1, 1, 1, 5, 5, 5]);
}

#[test]
fn a_later_edge_joins_two_nodes_as_a_fresh_run_does() {
    let mut state = PartitionState::identity(2);
    hit_leiden(&mut state, &input(2, vec![]), SCALE, RunMode::Deterministic, 10).expect("first");
    assert_eq!(state.node_to_comm, vec![0, 1]);
    hit_leiden(&mut state, &input(2, vec![(0, 1, Some(W))]), SCALE, RunMode::Deterministic, 10)
        .expect("second");
    assert_eq!(state.node_to_comm, vec![1, 1]);
    assert_eq!(state.supergraphs[0].total_weight(), W);

    let mut fresh = PartitionState::identity(2);
    hit_leiden(&mut fresh, &input(2, vec![(0, 1, Some(W))]), SCALE, RunMode::Deterministic, 10)
        .expect("fresh");
    assert_eq!(fresh.node_to_comm, state.node_to_comm);
    assert_eq!(fresh.supergraphs, state.supergraphs);
}

#[test]
fn a_graph_grows_run_by_run() {
    let mut state = PartitionState::identity(4);
    hit_leiden(&mut state, &input(4, vec![(0, 1, None)]), SCALE, RunMode::Deterministic, 10)
        .expect("first");
    assert_eq!(state.node_to_comm, vec![1, 1, 2, 3]);
    hit_leiden(&mut state, &input(4, vec![(2, 3, None)]), SCALE, RunMode::Deterministic, 10)
        .expect("second");
    assert_eq!(state.node_to_comm, vec![1, 1, 3, 3]);
    hit_leiden(&mut state, &input(4, vec![(1, 2, Some(3 * W))]), SCALE, RunMode::Deterministic, 10)
        .expect("third");
    assert_eq!(state.node_to_comm, vec![3, 3, 3, 3]);
    assert_eq!(state.supergraphs[0].total_weight(), 5 * W);

    let mut state = PartitionState::identity(4);
    hit_leiden(&mut state, &input(4, vec![(0, 1, None)]), SCALE, RunMode::Throughput, 10)
        .expect("first");
    hit_leiden(&mut state, &input(4, vec![(2, 3, None)]), SCALE, RunMode::Throughput, 10)
        .expect("second");
    assert_eq!(state.node_to_comm, vec![1, 0, 3, 2]);
    hit_leiden(&mut state, &input(4, vec![(1, 2, Some(3 * W))]), SCALE, RunMode::Throughput, 10)
        .expect("third");
    assert_eq!(state.node_to_comm, vec![3, 3, 0, 0]);
    assert_eq!(state.current_subcommunity_mapping_per_level, vec![vec![1, 0, 3, 2]]);
}

#[test]
fn a_change_must_fit_the_state() {
    let mut state = PartitionState::identity(3);
    assert!(state.can_accept(&input(3, vec![(0, 2, None)])));
    assert!(!state.can_accept(&input(4, vec![(0, 2, None)])));
    assert!(!state.can_accept(&input(3, vec![(0, 3, None)])));
    assert!(!state.can_accept(&input(3, vec![(0, 1, Some(MAX_TOTAL_WEIGHT / 2 + 1))])));
    let half = MAX_TOTAL_WEIGHT / 2;
    hit_leiden(&mut state, &input(3, vec![(0, 1, Some(half - W))]), SCALE, RunMode::Deterministic, 10)
        .expect("first");
    assert!(state.can_accept(&input(9, vec![(1, 2, Some(W))])));
    assert!(state.can_accept(&input(3, vec![(1, 2, Some(-W))])));
    assert!(!state.can_accept(&input(3, vec![(1, 2, Some(W + 1))])));
    assert!(!state.can_accept(&input(3, vec![(1, 3, Some(W))])));
    assert!(state.supergraphs[0].can_take(&input(3, vec![])));
}

#[test]
fn a_run_without_a_change_settles() {
    let graph = input(6, triangles());
    let mut state = PartitionState::identity(6);
    hit_leiden(&mut state, &graph, SCALE, RunMode::Deterministic, 10).expect("first");
    hit_leiden(&mut state, &input(6, vec![]), SCALE, RunMode::Deterministic, 10).expect("second");
    let settled = state.clone();
    hit_leiden(&mut state, &input(6, vec![]), SCALE, RunMode::Deterministic, 10).expect("third");
    assert_eq!(state, settled);
}

#[test]
fn two_levels_in_order() {
    for delta in [vec![(2, 3, Some(4 * W))], vec![(0, 1, Some(-W))], vec![]] {
        let mut state = two_levels();
        let graphs = state.supergraphs.clone();
        let mut all = triangles();
        all.extend(delta.iter().cloned());
        hit_leiden(&mut state, &input(6, delta), SCALE, RunMode::Deterministic, 10).expect("done");
        assert_eq!(state.community_mapping_per_level, vec![vec![1, 1, 1, 3, 3, 3], vec![1, 1]]);
        assert_eq!(state.node_to_comm, vec![1, 1, 1, 3, 3, 3]);
        assert_eq!(
            state.refined_community_mapping_per_level,
            vec![vec![0, 0, 0, 1, 1, 1], vec![0, 1]]
        );
        assert_eq!(
            state.current_subcommunity_mapping_per_level,
            vec![vec![0, 0, 0, 1, 1, 1], vec![1, 1]]
        );
        assert_eq!(
            state.previous_subcommunity_mapping_per_level,
            vec![vec![0, 0, 0, 1, 1, 1], vec![0, 1]]
        );
        assert_eq!(state.supergraphs[0], InMemoryGraph::from(&input(6, all)));
        assert_eq!(state.supergraphs[1], graphs[1]);
        assert_eq!(state.levels, 2);
    }
    let mut state = two_levels();
    let delta = vec![(2, 3, Some(4 * W)), (0, 4, Some(W))];
    hit_leiden(&mut state, &input(6, delta), SCALE, RunMode::Deterministic, 10).expect("done");
    assert_eq!(state.community_mapping_per_level, vec![vec![1, 1, 1, 3, 1, 1], vec![1, 1]]);
    assert_eq!(
        state.current_subcommunity_mapping_per_level,
        vec![vec![0, 0, 0, 1, 1, 1], vec![1, 1]]
    );
}

#[test]
fn two_levels_in_rounds() {
    let mut state = two_levels();
    hit_leiden(&mut state, &input(6, vec![(2, 3, Some(4 * W))]), SCALE, RunMode::Throughput, 10)
        .expect("done");
    assert_eq!(state.community_mapping_per_level, vec![vec![1, 1, 1, 0, 0, 0], vec![1, 0]]);
    assert_eq!(state.node_to_comm, vec![1, 1, 1, 0, 0, 0]);
    assert_eq!(
        state.current_subcommunity_mapping_per_level,
        vec![vec![0, 0, 0, 1, 1, 1], vec![0, 1]]
    );

    let mut state = two_levels();
    hit_leiden(&mut state, &input(6, vec![(0, 1, Some(-W))]), SCALE, RunMode::Throughput, 10)
        .expect("done");
    assert_eq!(state.community_mapping_per_level, vec![vec![1, 1, 1, 3, 3, 3], vec![1, 1]]);
    assert_eq!(
        state.current_subcommunity_mapping_per_level,
        vec![vec![0, 0, 0, 1, 1, 1], vec![1, 0]]
    );
    assert_eq!(
        state.refined_community_mapping_per_level,
        vec![vec![0, 0, 0, 1, 1, 1], vec![0, 1]]
    );
}

#[test]
fn a_split_that_the_level_above_cannot_hold_is_given_up() {
    let mut state = state_of(
        vec![input(4, vec![(0, 1, Some(W)), (2, 3, Some(W))]), input(1, vec![])],
        vec![vec![0, 0, 0, 0], vec![0]],
        vec![vec![0, 0, 0, 0], vec![0]],
        vec![vec![0, 0, 0, 0], vec![0]],
    );
    let before = state.clone();
    let done = hit_leiden(
        &mut state,
        &input(4, vec![(0, 1, Some(W))]),
        SCALE,
        RunMode::Deterministic,
        10,
    );
    assert!(matches!(done, Err(HitLeidenError::Backend(_))));
    assert_eq!(
        state.supergraphs[0],
        InMemoryGraph::from(&input(
            4,
            vec![(0, 1, Some(W)), (2, 3, Some(W)), (0, 1, Some(W))]
        ))
    );
    assert_eq!(state.supergraphs[1], before.supergraphs[1]);
    state.supergraphs = before.supergraphs.clone();
    assert_eq!(state, before);
}

#[test]
fn a_split_that_the_level_above_can_hold_goes_up() {
    let mut state = state_of(
        vec![input(4, vec![(0, 1, Some(W)), (2, 3, Some(W))]), input(2, vec![])],
        vec![vec![0, 0, 0, 0], vec![0, 1]],
        vec![vec![0, 0, 0, 0], vec![1, 1]],
        vec![vec![0, 0, 0, 0], vec![0, 1]],
    );
    hit_leiden(&mut state, &input(4, vec![(0, 1, Some(W))]), SCALE, RunMode::Deterministic, 10)
        .expect("done");
    assert_eq!(state.community_mapping_per_level, vec![vec![0, 0, 0, 0], vec![0, 1]]);
    assert_eq!(state.refined_community_mapping_per_level, vec![vec![1, 1, 1, 1], vec![1, 1]]);
    assert_eq!(
        state.current_subcommunity_mapping_per_level,
        vec![vec![0, 0, 1, 1], vec![0, 1]]
    );
    assert_eq!(
        state.previous_subcommunity_mapping_per_level,
        vec![vec![0, 0, 1, 1], vec![0, 1]]
    );
}

#[test]
fn a_change_is_measured_by_its_weights() {
    assert!(check_delta_capacity(&input(2, vec![])));
    assert!(check_delta_capacity(&input(2, vec![(0, 1, None)])));
    assert!(check_delta_capacity(&input(
        2,
        vec![(0, 1, Some(MAX_TOTAL_WEIGHT / 2)), (0, 1, Some(-MAX_TOTAL_WEIGHT / 2))]
    )));
    assert!(!check_delta_capacity(&input(
        2,
        vec![(0, 1, Some(MAX_TOTAL_WEIGHT)), (0, 1, Some(-1))]
    )));
    assert!(!check_delta_capacity(&input(2, vec![(0, 1, Some(i64::MIN))])));
}

#[test]
fn fresh_states() {
    let state = PartitionState::identity(3);
    assert_eq!(state.node_to_comm, vec![0, 1, 2]);
    assert_eq!(state.comm_weights, vec![0, 0, 0]);
    assert_eq!(state.node_weights, vec![0, 0, 0]);
    assert_eq!(state.levels, 1);
    assert!(state.supergraphs.is_empty());
    assert_eq!(state.community_mapping_per_level, vec![vec![0, 1, 2]]);
    assert_eq!(state.refined_community_mapping_per_level, vec![vec![0, 1, 2]]);
    assert_eq!(state.previous_subcommunity_mapping_per_level, vec![vec![0, 1, 2]]);
    assert_eq!(state.current_subcommunity_mapping_per_level, vec![vec![0, 1, 2]]);

    let weighted = PartitionState::with_weights(2, vec![5, 7]);
    assert_eq!(weighted.node_to_comm, vec![0, 1]);
    assert_eq!(weighted.comm_weights, vec![5, 7]);
    assert_eq!(weighted.node_weights, vec![5, 7]);
    assert_eq!(state.cc_indices_per_level, vec![vec![0, 1, 2]]);
    assert_eq!(weighted.cc_indices_per_level, vec![vec![0, 1]]);
    assert!(state.is_roomy());
    assert_eq!(identity_vec(4), vec![0, 1, 2, 3]);
    assert_eq!(identity_vec(0), Vec::<usize>::new());
}
