use hit_leiden::solver::algorithm::hit_leiden::{check_input, run_between};
use hit_leiden::solver::runtime::clock::{seconds_or_zero, unix_seconds};
use hit_leiden::solver::types::{BackendType, GraphBackend, GraphSourceType, RunStatus};
use hit_leiden::solver::validation::invariants;
use hit_leiden::solver::weight::{MAX_TOTAL_WEIGHT, SCALE};
use hit_leiden::{
    run, validate, AccelerationTarget, GraphInput, GraphSource, HitLeidenError, RunConfig, RunMode,
};

use std::time::{Duration, UNIX_EPOCH};

const W: i64 = 1_000_000;

type Edges = Vec<(usize, usize, Option<i64>)>;

fn input(node_count: usize, edges: Edges) -> GraphInput {
    GraphInput {
        dataset_id: "runs".to_string(),
        node_count,
        edges,
    }
}

fn in_rounds() -> RunConfig {
    RunConfig {
        mode: RunMode::Throughput,
        ..RunConfig::default()
    }
}

fn labels(graph: &GraphInput, config: &RunConfig) -> Vec<usize> {
    run(graph, config)
        .expect("a valid input")
        .partition
        .expect("a partition")
        .node_to_community
}

fn refusal_text(graph: &GraphInput, config: &RunConfig) -> String {
    match run(graph, config) {
        Err(HitLeidenError::InvalidInput(text)) => text,
        other => panic!("not refused as invalid input: {:?}", other),
    }
}

#[test]
fn every_label_is_a_node_and_every_node_has_one() {
    for n in 0..50usize {
        let edges: Edges = (0..n)
            .flat_map(|v| [(v, (v * 7 + 3) % n, None), (v, (v * v + 1) % n, Some(W / 2))])
            .collect();
        let graph = input(n, edges);
        for config in [RunConfig::default(), in_rounds()] {
            let outcome = run(&graph, &config).expect("a valid input");
            assert!(invariants::check(&outcome));
            let partition = outcome.partition.expect("a partition");
            assert_eq!(partition.node_to_community.len(), n);
            assert!(partition.node_to_community.iter().all(|&c| c < n));
        }
    }
}

#[test]
fn path_of_three_in_order() {
    let graph = input(3, vec![(0, 1, None), (1, 2, None)]);
    assert_eq!(labels(&graph, &RunConfig::default()), vec![1, 1, 1]);
    assert_eq!(labels(&graph, &in_rounds()), vec![1, 0, 0]);
}

#[test]
fn two_pairs() {
    let graph = input(4, vec![(0, 1, None), (2, 3, None)]);
    assert_eq!(labels(&graph, &RunConfig::default()), vec![1, 1, 3, 3]);
    assert_eq!(labels(&graph, &in_rounds()), vec![1, 0, 3, 2]);
}

#[test]
fn one_edge() {
    let graph = input(2, vec![(0, 1, Some(W))]);
    assert_eq!(labels(&graph, &RunConfig::default()), vec![1, 1]);
    assert_eq!(labels(&graph, &in_rounds()), vec![1, 0]);
}

#[test]
fn an_isolated_node_stays_alone() {
    let graph = input(3, vec![(0, 1, None)]);
    assert_eq!(labels(&graph, &RunConfig::default()), vec![1, 1, 2]);
    assert_eq!(labels(&graph, &in_rounds()), vec![1, 0, 2]);
}

#[test]
fn two_triangles_and_a_weak_bridge() {
    let graph = input(
        6,
        vec![
            (0, 1, Some(W)),
            (1, 2, Some(W)),
            (2, 0, Some(W)),
            (3, 4, Some(W)),
            (4, 5, Some(W)),
            (5, 3, Some(W)),
            (2, 3, Some(50_000)),
        ],
    );
    for config in [RunConfig::default(), in_rounds()] {
        let found = labels(&graph, &config);
        assert_eq!(found, vec![1, 1, 1, 5, 5, 5]);
        let mut distinct = found.clone();
        distinct.sort();
        distinct.dedup();
        assert!(distinct.len() <= 5);
    }
}

#[test]
fn star_and_loop() {
    let star = input(5, vec![(0, 1, None), (0, 2, None), (0, 3, None), (0, 4, None)]);
    assert_eq!(labels(&star, &RunConfig::default()), vec![1, 1, 1, 1, 1]);
    assert_eq!(labels(&star, &in_rounds()), vec![1, 0, 1, 1, 1]);
    let looped = input(2, vec![(0, 0, Some(W)), (0, 1, Some(W))]);
    assert_eq!(labels(&looped, &RunConfig::default()), vec![0, 0]);
    assert_eq!(labels(&looped, &in_rounds()), vec![0, 0]);
}

#[test]
fn weights_that_cancel_leave_every_node_alone() {
    let graph = input(3, vec![(0, 1, Some(W)), (1, 2, Some(-W))]);
    assert_eq!(labels(&graph, &RunConfig::default()), vec![0, 1, 2]);
    assert_eq!(labels(&graph, &in_rounds()), vec![0, 1, 2]);
}

#[test]
fn no_nodes_no_labels() {
    let graph = GraphInput::empty("none".to_string());
    assert_eq!(labels(&graph, &RunConfig::default()), Vec::<usize>::new());
    assert_eq!(labels(&graph, &in_rounds()), Vec::<usize>::new());
}

#[test]
fn the_budget_cuts_a_run_short() {
    let graph = input(
        8,
        vec![
            (5, 0, Some(500_000)),
            (3, 0, None),
            (1, 5, Some(500_000)),
            (3, 6, Some(2_000_000)),
            (1, 3, None),
            (3, 6, Some(500_000)),
            (2, 6, None),
            (1, 2, Some(2_000_000)),
            (7, 2, None),
        ],
    );
    let mut config = RunConfig::default();
    config.max_iterations = 1;
    assert_eq!(labels(&graph, &config), vec![5, 2, 2, 6, 4, 5, 6, 7]);
    config.max_iterations = 10;
    assert_eq!(labels(&graph, &config), vec![5, 2, 2, 6, 4, 5, 6, 2]);

    let graph = input(
        6,
        vec![
            (1, 4, Some(2_000_000)),
            (5, 1, None),
            (5, 1, Some(500_000)),
            (2, 0, Some(500_000)),
            (3, 1, None),
            (2, 0, Some(500_000)),
            (2, 4, Some(2_000_000)),
            (0, 4, Some(2_000_000)),
        ],
    );
    let mut config = in_rounds();
    config.max_iterations = 1;
    assert_eq!(labels(&graph, &config), vec![4, 5, 4, 1, 0, 1]);
    config.max_iterations = 10;
    assert_eq!(labels(&graph, &config), vec![0, 1, 0, 5, 0, 1]);
}

#[test]
fn a_budget_of_zero_is_refused() {
    let mut config = RunConfig::default();
    config.max_iterations = 0;
    assert_eq!(refusal_text(&input(2, vec![]), &config), "max_iterations must be > 0");
    assert_eq!(config.validate(), Err("max_iterations must be > 0".to_string()));
}

#[test]
fn a_negative_tolerance_is_refused() {
    let mut config = RunConfig::default();
    config.quality_tolerance = -1;
    assert_eq!(refusal_text(&input(2, vec![]), &config), "quality_tolerance must be >= 0");
    assert_eq!(config.validate(), Err("quality_tolerance must be >= 0".to_string()));
    config.quality_tolerance = 0;
    assert_eq!(config.validate(), Ok(()));
    assert!(run(&input(2, vec![]), &config).is_ok());
}

#[test]
fn the_budget_is_looked_at_before_the_tolerance() {
    let mut config = RunConfig::default();
    config.max_iterations = 0;
    config.quality_tolerance = -5;
    assert_eq!(
        refusal_text(&input(2, vec![(0, 9, None)]), &config),
        "max_iterations must be > 0"
    );
}

#[test]
fn an_endpoint_that_is_no_node_is_refused() {
    let config = RunConfig::default();
    assert_eq!(
        refusal_text(&input(3, vec![(0, 1, None), (1, 3, None)]), &config),
        "edge endpoint exceeds node_count"
    );
    assert_eq!(
        refusal_text(&input(3, vec![(3, 0, None)]), &config),
        "edge endpoint exceeds node_count"
    );
    assert_eq!(
        refusal_text(&input(0, vec![(0, 0, None)]), &config),
        "edge endpoint exceeds node_count"
    );
    let mut bad = config.clone();
    bad.quality_tolerance = -1;
    assert_eq!(
        refusal_text(&input(3, vec![(3, 0, None)]), &bad),
        "quality_tolerance must be >= 0"
    );
}

#[test]
fn a_graph_too_heavy_is_refused() {
    let config = RunConfig::default();
    let half = MAX_TOTAL_WEIGHT / 2;
    assert!(run(&input(2, vec![(0, 1, Some(half))]), &config).is_ok());
    assert!(run(&input(2, vec![(0, 1, Some(-half))]), &config).is_ok());
    assert_eq!(
        refusal_text(&input(2, vec![(0, 1, Some(half + 1))]), &config),
        "graph exceeds the supported capacity"
    );
    assert_eq!(
        refusal_text(&input(2, vec![(0, 1, Some(half)), (0, 1, Some(-1))]), &config),
        "graph exceeds the supported capacity"
    );
    assert_eq!(
        refusal_text(&input(2, vec![(0, 1, Some(i64::MIN))]), &config),
        "graph exceeds the supported capacity"
    );
    assert_eq!(
        refusal_text(&input(usize::MAX / 8 + 1, vec![]), &config),
        "graph exceeds the supported capacity"
    );
}

#[test]
fn the_heaviest_graph_is_solved() {
    let half = MAX_TOTAL_WEIGHT / 2;
    let graph = input(3, vec![(0, 1, Some(half - W)), (1, 2, Some(W))]);
    assert_eq!(labels(&graph, &RunConfig::default()), vec![1, 1, 1]);
    assert_eq!(labels(&graph, &in_rounds()), vec![1, 0, 0]);
    let graph = input(3, vec![(0, 1, Some(half - W)), (1, 2, Some(-W))]);
    assert_eq!(labels(&graph, &RunConfig::default()), vec![1, 1, 2]);
}

#[test]
fn check_input_says_what_a_run_would() {
    let config = RunConfig::default();
    assert!(check_input(&input(2, vec![(0, 1, None)]), &config).is_ok());
    match check_input(&input(2, vec![(0, 2, None)]), &config) {
        Err(HitLeidenError::InvalidInput(text)) => {
            assert_eq!(text, "edge endpoint exceeds node_count")
        }
        other => panic!("not refused: {:?}", other),
    }
}

#[test]
fn the_records_of_a_run() {
    let graph = input(3, vec![(0, 1, None)]);
    let outcome = run_between(&graph, &RunConfig::default(), 17, 23).expect("a valid input");
    assert_eq!(outcome.execution.run_id, "run:runs");
    assert_eq!(outcome.execution.dataset_id, "runs");
    assert_eq!(outcome.execution.config_id, "default");
    assert_eq!(outcome.execution.started_at, 17);
    assert_eq!(outcome.execution.completed_at, Some(23));
    assert_eq!(outcome.execution.status, RunStatus::Succeeded);
    assert_eq!(outcome.execution.backend, BackendType::PureRust);
    assert_eq!(outcome.execution.graph_backend_resolved, GraphBackend::InMemory);
    assert_eq!(outcome.execution.graph_source_resolved, GraphSourceType::File);
    assert_eq!(outcome.execution.fallback_reason, None);
    assert!(outcome.validation.is_none());
    let partition = outcome.partition.expect("a partition");
    assert_eq!(partition.run_id, "run:runs");
    assert_eq!(partition.node_to_community, vec![1, 1, 2]);
    assert_eq!(partition.community_count, 2);
    assert_eq!(partition.quality_score, 0);
    assert_eq!(partition.iteration_count, 1);
}

#[test]
fn the_records_follow_the_options() {
    let graph = input(1, vec![]);
    let mut config = RunConfig::default();
    config.graph_backend = hit_leiden::GraphBackend::Mmap;
    config.graph_source = GraphSource::LiveNeo4j;
    let outcome = run_between(&graph, &config, 0, 0).expect("a valid input");
    assert_eq!(outcome.execution.graph_backend_resolved, GraphBackend::Mmap);
    assert_eq!(outcome.execution.graph_source_resolved, GraphSourceType::Neo4jSnapshot);
    config.graph_source = GraphSource::Neo4jSnapshot;
    let outcome = run_between(&graph, &config, 0, 0).expect("a valid input");
    assert_eq!(outcome.execution.graph_source_resolved, GraphSourceType::Neo4jSnapshot);
}

#[test]
fn a_run_ends_no_earlier_than_it_starts() {
    let before = unix_seconds();
    let outcome = run(&input(2, vec![(0, 1, None)]), &RunConfig::default()).expect("valid");
    let after = unix_seconds();
    let started = outcome.execution.started_at;
    let completed = outcome.execution.completed_at.expect("completed");
    assert!(before <= started && started <= completed && completed <= after);
    let back = run_between(&input(1, vec![]), &RunConfig::default(), 23, 17).expect("valid");
    assert_eq!(back.execution.started_at, 23);
    assert_eq!(back.execution.completed_at, Some(23));
    assert!(before > 1_500_000_000);
}

#[test]
fn two_runs_agree_node_by_node() {
    let graph = input(
        7,
        vec![(0, 1, None), (1, 2, Some(3 * W)), (2, 3, None), (4, 5, Some(W / 4)), (5, 6, None)],
    );
    for config in [RunConfig::default(), in_rounds()] {
        let a = run(&graph, &config).expect("a");
        let b = run(&graph, &config).expect("b");
        assert_eq!(a.partition, b.partition);
        let report = validate(&a, &b, RunMode::Deterministic);
        assert_eq!(report.deterministic_identity_passed, Some(true));
        assert!(report.equivalence_passed);
    }
}

#[test]
fn relabelled_with_weights_that_cancel() {
    let graph = input(3, vec![(0, 1, Some(W)), (1, 2, Some(-W))]);
    let permuted = input(3, vec![(2, 0, Some(W)), (0, 1, Some(-W))]);
    for config in [RunConfig::default(), in_rounds()] {
        let a = labels(&graph, &config);
        let b = labels(&permuted, &config);
        let image = [2usize, 0, 1];
        for u in 0..3 {
            for v in 0..3 {
                assert_eq!(a[u] == a[v], b[image[u]] == b[image[v]]);
            }
        }
    }
}

#[test]
fn a_run_records_the_fallback_from_a_gpu() {
    let graph = input(3, vec![(0, 1, None)]);
    for asked in [
        AccelerationTarget::Cuda,
        AccelerationTarget::Rocm,
        AccelerationTarget::Native,
    ] {
        let mut config = RunConfig::default();
        config.acceleration = asked;
        let outcome = run(&graph, &config).expect("a valid input");
        assert_eq!(outcome.execution.backend, BackendType::PureRust);
        assert_eq!(outcome.execution.status, RunStatus::Succeeded);
        assert_eq!(outcome.execution.fallback_reason, Some("ACCEL_UNAVAILABLE".to_string()));
        assert_eq!(outcome.partition.expect("a partition").node_to_community, vec![1, 1, 2]);
    }
    let outcome = run(&graph, &RunConfig::default()).expect("a valid input");
    assert_eq!(outcome.execution.fallback_reason, None);
}

#[test]
fn partition_len_matches_nodes() {
    for node_count in 0usize..50 {
        let graph = GraphInput {
            dataset_id: "lengths".to_string(),
            node_count,
            edges: vec![],
        };
        let config = RunConfig::default();
        let out = run(&graph, &config).expect("run");
        assert_eq!(out.partition.unwrap().node_to_community.len(), node_count);
    }
}

#[test]
fn a_clock_before_the_epoch_reads_zero() {
    assert_eq!(seconds_or_zero(Ok(17)), 17);
    assert_eq!(seconds_or_zero(Ok(0)), 0);
    let later = UNIX_EPOCH + Duration::from_secs(5);
    let before = UNIX_EPOCH.duration_since(later).map(|d| d.as_secs());
    assert!(before.is_err());
    assert_eq!(seconds_or_zero(before), 0);
    let after = later.duration_since(UNIX_EPOCH).map(|d| d.as_secs());
    assert_eq!(seconds_or_zero(after), 5);
}
