use hit_leiden::solver::algorithm::hit_leiden::hit_leiden;
use hit_leiden::solver::partition::state::PartitionState;
use hit_leiden::solver::validation::equivalence::validate_within;
use hit_leiden::solver::validation::quality::{count_communities, modularity_of};
use hit_leiden::{run, validate, GraphInput, RunConfig, RunMode};

const W: i64 = 1_000_000;

type Edges = Vec<(usize, usize, Option<i64>)>;

fn input(node_count: usize, edges: Edges) -> GraphInput {
    GraphInput {
        dataset_id: "quality".to_string(),
        node_count,
        edges,
    }
}

fn triangles() -> Edges {
    vec![
        (0, 1, Some(W)),
        (1, 2, Some(W)),
        (2, 0, Some(W)),
        (3, 4, Some(W)),
        (4, 5, Some(W)),
        (5, 3, Some(W)),
        (2, 3, Some(50_000)),
    ]
}

#[test]
fn communities_are_counted_once_each() {
    assert_eq!(count_communities(&vec![]), 0);
    assert_eq!(count_communities(&vec![0]), 1);
    assert_eq!(count_communities(&vec![1, 1]), 1);
    assert_eq!(count_communities(&vec![1, 0]), 2);
    assert_eq!(count_communities(&vec![1, 1, 1, 5, 5, 5]), 2);
    assert_eq!(count_communities(&vec![0, 1, 2, 3]), 4);
    assert_eq!(count_communities(&vec![3, 3, 0, 3, 0]), 2);
}

#[test]
fn modularity_of_the_two_triangles() {
    let graph = input(6, triangles());
    assert_eq!(modularity_of(&graph, &vec![1, 1, 1, 5, 5, 5], W), 491_735);
    assert_eq!(modularity_of(&graph, &vec![0, 1, 2, 3, 4, 5], W), -166_689);
    assert_eq!(modularity_of(&graph, &vec![0; 6], W), 0);
}

#[test]
fn modularity_follows_the_resolution() {
    let graph = input(6, triangles());
    assert_eq!(modularity_of(&graph, &vec![1, 1, 1, 5, 5, 5], 2 * W), -8_264);
    assert_eq!(modularity_of(&graph, &vec![1, 1, 1, 5, 5, 5], 0), 991_735);
    let third = input(3, vec![(0, 1, Some(W)), (1, 2, Some(W)), (0, 2, Some(W))]);
    assert_eq!(modularity_of(&third, &vec![0, 0, 2], W), -222_222);
    assert_eq!(modularity_of(&third, &vec![0, 0, 2], 2 * W), -777_777);
    assert_eq!(modularity_of(&third, &vec![0, 0, 2], 0), 333_333);
}

#[test]
fn modularity_of_small_graphs() {
    let pairs = input(4, vec![(0, 1, None), (2, 3, None)]);
    assert_eq!(modularity_of(&pairs, &vec![1, 1, 3, 3], W), 500_000);
    assert_eq!(modularity_of(&pairs, &vec![1, 0, 3, 2], W), -250_000);
    let edge = input(2, vec![(0, 1, Some(W))]);
    assert_eq!(modularity_of(&edge, &vec![1, 1], W), 0);
    assert_eq!(modularity_of(&edge, &vec![1, 0], W), -500_000);
    let looped = input(2, vec![(0, 0, Some(W)), (0, 1, Some(W))]);
    assert_eq!(modularity_of(&looped, &vec![0, 0], W), 0);
    assert_eq!(modularity_of(&looped, &vec![0, 1], W), -125_000);
    let removed = input(3, vec![(0, 1, Some(3 * W)), (1, 2, Some(-W))]);
    assert_eq!(modularity_of(&removed, &vec![0, 0, 2], W), -125_000);
    let tiny = input(2, vec![(0, 1, Some(1)), (0, 1, Some(-3)), (0, 0, Some(3))]);
    assert_eq!(modularity_of(&tiny, &vec![0, 1], W), -2_000_000);
}

#[test]
fn modularity_without_weight_is_zero() {
    assert_eq!(modularity_of(&input(0, vec![]), &vec![], W), 0);
    assert_eq!(modularity_of(&input(3, vec![]), &vec![0, 1, 2], W), 0);
    let cancel = input(3, vec![(0, 1, Some(W)), (1, 2, Some(-W))]);
    assert_eq!(modularity_of(&cancel, &vec![0, 1, 2], W), 0);
    assert_eq!(modularity_of(&cancel, &vec![0, 0, 0], W), 0);
}

#[test]
fn modularity_is_held_to_what_a_score_can_take() {
    let half: i64 = 500_000_000_000_000;
    let graph = input(2, vec![(0, 0, Some(half - 1)), (1, 1, Some(-(half - 2)))]);
    assert_eq!(modularity_of(&graph, &vec![0, 1], W), -i64::MAX);
    assert_eq!(modularity_of(&graph, &vec![0, 1], 50 * W), -i64::MAX);
    let near = input(2, vec![(0, 1, Some(half - 1)), (0, 1, Some(-(half - 2)))]);
    assert_eq!(modularity_of(&near, &vec![0, 0], W), 0);
    assert_eq!(modularity_of(&near, &vec![0, 1], W), -500_000);
}

#[test]
fn a_run_reports_count_and_quality_of_its_partition() {
    let graph = input(6, triangles());
    let partition = run(&graph, &RunConfig::default()).expect("valid").partition.expect("some");
    assert_eq!(partition.node_to_community, vec![1, 1, 1, 5, 5, 5]);
    assert_eq!(partition.community_count, 2);
    assert_eq!(partition.quality_score, 491_735);

    let edge = input(2, vec![(0, 1, Some(W))]);
    let partition = run(&edge, &RunConfig::default()).expect("valid").partition.expect("some");
    assert_eq!(partition.node_to_community, vec![1, 1]);
    assert_eq!(partition.community_count, 1);
    assert_eq!(partition.quality_score, 0);

    let star = input(5, vec![(0, 1, None), (0, 2, None), (0, 3, None), (0, 4, None)]);
    let mut rounds = RunConfig::default();
    rounds.mode = RunMode::Throughput;
    let partition = run(&star, &rounds).expect("valid").partition.expect("some");
    assert_eq!(partition.node_to_community, vec![1, 0, 1, 1, 1]);
    assert_eq!(partition.community_count, 2);
    assert_eq!(partition.quality_score, -31_250);

    let none = run(&input(4, vec![]), &RunConfig::default()).expect("valid").partition.expect("some");
    assert_eq!(none.community_count, 4);
    assert_eq!(none.quality_score, 0);
}

#[test]
fn the_two_modes_may_differ_in_quality() {
    let graph = input(4, vec![(0, 1, None), (2, 3, None)]);
    let in_order = run(&graph, &RunConfig::default()).expect("in order");
    let mut config = RunConfig::default();
    config.mode = RunMode::Throughput;
    let rounds = run(&graph, &config).expect("in rounds");
    assert_eq!(in_order.partition.as_ref().expect("some").quality_score, 500_000);
    assert_eq!(rounds.partition.as_ref().expect("some").quality_score, -250_000);
    let report = validate(&in_order, &rounds, RunMode::Throughput);
    assert!(report.hard_invariants_passed);
    assert_eq!(report.quality_delta_vs_reference, Some(750_000));
    assert_eq!(report.deterministic_identity_passed, None);
    assert!(!report.equivalence_passed);
    assert!(validate_within(&in_order, &rounds, RunMode::Throughput, 750_000).equivalence_passed);
    assert!(!validate_within(&in_order, &rounds, RunMode::Throughput, 749_999).equivalence_passed);
    assert!(validate(&rounds, &rounds, RunMode::Throughput).equivalence_passed);
    assert!(validate_within(&rounds, &rounds, RunMode::Throughput, 0).equivalence_passed);
}

fn iterations(graph: &GraphInput, mode: RunMode, budget: usize) -> usize {
    let mut config = RunConfig::default();
    config.mode = mode;
    config.max_iterations = budget;
    run(graph, &config).expect("valid").partition.expect("some").iteration_count
}

#[test]
fn a_run_reports_the_sweeps_or_rounds_it_made() {
    let graph = input(6, triangles());
    assert_eq!(iterations(&graph, RunMode::Deterministic, 10), 2);
    assert_eq!(iterations(&graph, RunMode::Deterministic, 1), 1);
    assert_eq!(iterations(&graph, RunMode::Throughput, 10), 4);
    assert_eq!(iterations(&graph, RunMode::Throughput, 3), 3);
    assert_eq!(iterations(&graph, RunMode::Throughput, 1), 1);

    let path = input(8, (0..7).map(|i| (i, i + 1, None)).collect());
    assert_eq!(iterations(&path, RunMode::Deterministic, 1), 1);
    assert_eq!(iterations(&path, RunMode::Deterministic, 10), 2);
    assert_eq!(iterations(&path, RunMode::Throughput, 10), 4);

    let edge = input(3, vec![(0, 1, None)]);
    assert_eq!(iterations(&edge, RunMode::Deterministic, 10), 1);
    assert_eq!(iterations(&edge, RunMode::Throughput, 10), 1);
    let star = input(5, vec![(0, 1, None), (0, 2, None), (0, 3, None), (0, 4, None)]);
    assert_eq!(iterations(&star, RunMode::Deterministic, 10), 1);
    assert_eq!(iterations(&star, RunMode::Throughput, 10), 2);
}

#[test]
fn a_run_on_nothing_makes_no_iteration() {
    let none = input(0, vec![]);
    assert_eq!(iterations(&none, RunMode::Deterministic, 10), 0);
    assert_eq!(iterations(&none, RunMode::Throughput, 10), 0);
    let idle = input(4, vec![]);
    assert_eq!(iterations(&idle, RunMode::Deterministic, 10), 1);
    assert_eq!(iterations(&idle, RunMode::Throughput, 10), 1);
}

#[test]
fn two_triangles_merge_for_every_weak_bridge() {
    for bridge in [1, 50_000, 500_000, 999_999] {
        let mut edges = triangles();
        edges[6] = (2, 3, Some(bridge));
        let graph = input(6, edges);
        for mode in [RunMode::Deterministic, RunMode::Throughput] {
            let mut config = RunConfig::default();
            config.mode = mode;
            let partition = run(&graph, &config).expect("valid").partition.expect("some");
            assert!(partition.community_count < 6);
            assert_eq!(
                partition.community_count,
                count_communities(&partition.node_to_community)
            );
        }
    }
}

#[test]
fn a_later_run_is_scored_on_the_graph_with_its_change() {
    let first = input(4, vec![(2, 0, None), (3, 2, None)]);
    let change = input(4, vec![(3, 1, None)]);
    let all = input(4, vec![(2, 0, None), (3, 2, None), (3, 1, None)]);

    let mut state = PartitionState::identity(4);
    hit_leiden(&mut state, &first, W, RunMode::Deterministic, 10).expect("first");
    assert_eq!(state.node_to_comm, vec![2, 1, 2, 2]);
    hit_leiden(&mut state, &change, W, RunMode::Deterministic, 10).expect("second");
    assert_eq!(state.node_to_comm, vec![2, 2, 2, 2]);
    assert_eq!(modularity_of(&all, &state.node_to_comm, W), 0);

    let fresh = run(&all, &RunConfig::default()).expect("valid").partition.expect("some");
    assert_eq!(fresh.node_to_community, vec![2, 3, 2, 3]);
    assert_eq!(fresh.quality_score, 166_666);
}
