use std::collections::HashSet;

use hit_leiden::benchmark::dynamic_graph::DynamicGraphBuilder;
use hit_leiden::benchmark::hardware_profile::HardwareProfile;
use hit_leiden::benchmark::release_gate::eligible;
use hit_leiden::cli::run::run_default;
use hit_leiden::solver::backend::{AccelerationTarget, GraphBackend, GraphSource};
use hit_leiden::solver::config::RunMode;
use hit_leiden::solver::graph::neo4j_mapping::ProjectionConfig;
use hit_leiden::solver::graph::neo4j_snapshot::Neo4jSourceConfig;
use hit_leiden::solver::runtime::orchestrator;
use hit_leiden::{compare_baseline, project_from_neo4j, run, validate, GraphInput, RunConfig};

fn weight(units: f64) -> Option<i64> {
    Some((units * 1_000_000.0).round() as i64)
}

#[test]
fn benchmark_reproducible() {
    let profile = HardwareProfile {
        id: "pinned".to_string(),
        pinned: true,
    };
    let out = compare_baseline("a", "b", "suite", &profile);
    assert!(out.reproducible);
}

#[test]
fn connected_graph_not_all_singletons() {
    let graph = GraphInput {
        dataset_id: "connected-1".to_string(),
        node_count: 6,
        edges: vec![
            (0, 1, weight(1.0)),
            (1, 2, weight(1.0)),
            (2, 0, weight(1.0)),
            (3, 4, weight(1.0)),
            (4, 5, weight(1.0)),
            (5, 3, weight(1.0)),
            (2, 3, weight(0.05)),
        ],
    };

    let out = run(&graph, &RunConfig::default()).expect("run should succeed");
    let unique: HashSet<_> = out
        .partition
        .unwrap()
        .node_to_community
        .iter()
        .copied()
        .collect();
    assert!(
        unique.len() < graph.node_count,
        "algorithm should merge at least one pair of nodes"
    );
}

#[test]
fn cuda_fallback_when_unavailable() {
    let mut cfg = RunConfig::default();
    cfg.acceleration = AccelerationTarget::Cuda;
    let r = orchestrator::resolve_with_fallback(&cfg, false);
    assert_eq!(r.accel_resolved, AccelerationTarget::PureRust);
    assert!(r.fallback_reason.is_some());
}

#[test]
fn default_run_with_minimal_required_graph_source() {
    let graph = GraphInput {
        dataset_id: "min".into(),
        node_count: 1,
        edges: vec![],
    };
    let out = run_default(&graph).expect("default run should succeed");
    assert_eq!(out.partition.unwrap().node_to_community.len(), 1);
}

#[test]
fn deterministic_replay_identity() {
    let graph = GraphInput {
        dataset_id: "d2".to_string(),
        node_count: 4,
        edges: vec![(0, 1, None), (2, 3, None)],
    };
    let config = RunConfig::default();
    let a = run(&graph, &config).expect("a");
    let b = run(&graph, &config).expect("b");
    assert_eq!(a.partition, b.partition);
}

#[test]
fn mmap_backend_parity() {
    let graph = GraphInput {
        dataset_id: "m1".to_string(),
        node_count: 3,
        edges: vec![(0, 1, None)],
    };
    let mem = run(&graph, &RunConfig::default()).expect("mem");
    let mut mmap_cfg = RunConfig::default();
    mmap_cfg.graph_backend = GraphBackend::Mmap;
    let mmap = run(&graph, &mmap_cfg).expect("mmap");
    assert_eq!(mem.partition, mmap.partition);
}

#[test]
fn neo4j_projection_parity_shape() {
    let source = Neo4jSourceConfig {
        uri: "bolt://localhost".to_string(),
    };
    let proj = ProjectionConfig {
        snapshot_id: "s1".to_string(),
        batched: true,
    };
    let graph = project_from_neo4j(&source, &proj).expect("projection");
    assert!(graph.dataset_id.starts_with("neo4j:"));
}

#[test]
fn live_query_is_ineligible_for_release_gate() {
    let profile = HardwareProfile {
        id: "pinned".into(),
        pinned: true,
    };
    let (ok, reason) = eligible(&profile, GraphSource::LiveNeo4j);
    assert!(!ok);
    assert_eq!(
        reason.as_deref(),
        Some("LIVE_QUERY_SOURCE_INELIGIBLE_FOR_RELEASE_GATE")
    );
}

#[test]
fn rocm_fallback_when_unavailable() {
    let mut cfg = RunConfig::default();
    cfg.acceleration = AccelerationTarget::Rocm;
    let r = orchestrator::resolve_with_fallback(&cfg, false);
    assert_eq!(r.accel_resolved, AccelerationTarget::PureRust);
    assert!(r.fallback_reason.is_some());
}

#[test]
fn rocm_successful_run_parity() {
    let graph = GraphInput {
        dataset_id: "r1".into(),
        node_count: 2,
        edges: vec![(0, 1, None)],
    };
    let cpu = run(&graph, &RunConfig::default()).expect("cpu");
    let mut cfg = RunConfig::default();
    cfg.acceleration = AccelerationTarget::Rocm;
    let gpu = run(&graph, &cfg).expect("gpu");
    assert_eq!(cpu.partition, gpu.partition);
}

#[test]
fn throughput_equivalence_bounds() {
    let graph = GraphInput {
        dataset_id: "d3".to_string(),
        node_count: 2,
        edges: vec![(0, 1, weight(1.0))],
    };
    let mut config = RunConfig::default();
    config.mode = RunMode::Throughput;
    let a = run(&graph, &config).expect("a");
    let b = run(&graph, &config).expect("b");
    let v = validate(&a, &b, RunMode::Throughput);
    assert!(v.hard_invariants_passed);
    assert!(v.equivalence_passed);
}

#[test]
fn paper_split_uses_initial_ratio_and_fixed_rounds() {
    let graph = GraphInput {
        dataset_id: "test".to_string(),
        node_count: 100,
        edges: (0..100).map(|i| (i, (i + 1) % 100, None::<i64>)).collect(),
    };

    let builder = DynamicGraphBuilder::new(&graph);
    let split = builder.paper_split(800_000, 5, 4, 42);

    assert_eq!(split.initial_graph.edges.len(), 80);
    assert_eq!(split.update_batches.len(), 4);
    assert_eq!(split.update_batches[0].edges.len(), 85);
    assert_eq!(split.update_batches[3].edges.len(), 100);
    assert_eq!(split.batch_size, 5);
    assert_eq!(split.rounds, 4);
}
