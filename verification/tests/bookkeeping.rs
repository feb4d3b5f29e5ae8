use hit_leiden::accel::{cuda, native, probe, rocm, target};
use hit_leiden::benchmark::dynamic_graph::{split_shuffled, DynamicGraphBuilder};
use hit_leiden::solver::text::numbered;
use hit_leiden::benchmark::hardware_profile::HardwareProfile;
use hit_leiden::benchmark::hit_leiden_incremental::edges_added;
use hit_leiden::benchmark::manifest::BenchmarkManifest;
use hit_leiden::benchmark::release_gate;
use hit_leiden::benchmark::runner::run_benchmark;
use hit_leiden::cli::benchmark::run_compare;
use hit_leiden::cli::options::{CliMode, CliOptions};
use hit_leiden::cli::run::{config_from_cli, run_default, run_from_cli};
use hit_leiden::solver::algorithm::deterministic::{
    stable_order, tie_break_community, tie_break_gain,
};
use hit_leiden::solver::graph::neo4j_mapping::ProjectionConfig;
use hit_leiden::solver::graph::neo4j_snapshot::Neo4jSourceConfig;
use hit_leiden::solver::report::writer::{with_fixed, write_run_artifact};
use hit_leiden::solver::runtime::{orchestrator, resolver};
use hit_leiden::solver::types::{
    BackendType, PartitionResult, RunExecution, RunOutcome, RunStatus,
};
use hit_leiden::solver::validation::equivalence::same_assignments;
use hit_leiden::solver::validation::invariants;
use hit_leiden::solver::weight::{DEFAULT_QUALITY_TOLERANCE, SCALE};
use hit_leiden::{
    compare_baseline, project_from_neo4j, validate, AccelerationTarget, GraphBackend, GraphInput,
    GraphSource, HitLeidenError, RunConfig, RunMode, ValidationOutcome,
};

fn outcome_with(labels: Vec<usize>, quality_score: i64) -> RunOutcome {
    RunOutcome {
        execution: RunExecution {
            run_id: "r".to_string(),
            dataset_id: "d".to_string(),
            config_id: "default".to_string(),
            started_at: 0,
            completed_at: Some(0),
            status: RunStatus::Succeeded,
            backend: BackendType::PureRust,
            graph_backend_resolved: hit_leiden::solver::types::GraphBackend::InMemory,
            graph_source_resolved: hit_leiden::solver::types::GraphSourceType::File,
            fallback_reason: None,
        },
        partition: Some(PartitionResult {
            run_id: "r".to_string(),
            community_count: labels.len(),
            node_to_community: labels,
            quality_score,
            iteration_count: 1,
        }),
        validation: None,
    }
}

#[test]
fn default_options() {
    let config = RunConfig::default();
    assert_eq!(config.mode, RunMode::Deterministic);
    assert_eq!(config.graph_source, GraphSource::File);
    assert_eq!(config.graph_backend, GraphBackend::InMemory);
    assert_eq!(config.acceleration, AccelerationTarget::PureRust);
    assert_eq!(config.quality_tolerance, 1_000);
    assert_eq!(config.quality_tolerance, DEFAULT_QUALITY_TOLERANCE);
    assert_eq!(config.max_iterations, 10);
    assert_eq!(config.pinned_profile, None);
    assert_eq!(config.validate(), Ok(()));
}

#[test]
fn errors_read_kind_then_detail() {
    assert_eq!(
        HitLeidenError::InvalidInput("no nodes".to_string()).message(),
        "invalid input: no nodes"
    );
    assert_eq!(
        HitLeidenError::Backend("gone".to_string()).message(),
        "backend error: gone"
    );
    assert_eq!(
        HitLeidenError::Acceleration("no device".to_string()).message(),
        "acceleration error: no device"
    );
    assert_eq!(HitLeidenError::Backend(String::new()).message(), "backend error: ");
}

#[test]
fn options_resolve_as_given() {
    let mut config = RunConfig::default();
    config.graph_source = GraphSource::Neo4jSnapshot;
    config.graph_backend = GraphBackend::Mmap;
    config.acceleration = AccelerationTarget::Rocm;
    let meta = resolver::resolve(&config);
    assert_eq!(meta.source_resolved, GraphSource::Neo4jSnapshot);
    assert_eq!(meta.backend_resolved, GraphBackend::Mmap);
    assert_eq!(meta.accel_resolved, AccelerationTarget::Rocm);
    assert_eq!(meta.fallback_reason, None);
    let meta = resolver::fallback(
        GraphSource::LiveNeo4j,
        GraphBackend::InMemory,
        AccelerationTarget::Native,
    );
    assert_eq!(meta.source_resolved, GraphSource::LiveNeo4j);
    assert_eq!(meta.backend_resolved, GraphBackend::InMemory);
    assert_eq!(meta.accel_resolved, AccelerationTarget::Native);
    assert_eq!(meta.fallback_reason, None);
}

#[test]
fn a_missing_gpu_falls_back_with_its_reason() {
    for asked in [
        AccelerationTarget::Cuda,
        AccelerationTarget::Rocm,
        AccelerationTarget::Native,
    ] {
        let mut config = RunConfig::default();
        config.acceleration = asked;
        let meta = orchestrator::resolve_with_fallback(&config, false);
        assert_eq!(meta.accel_resolved, AccelerationTarget::PureRust);
        assert_eq!(meta.fallback_reason, Some("ACCEL_UNAVAILABLE".to_string()));
        let meta = orchestrator::resolve_with_fallback(&config, true);
        assert_eq!(meta.accel_resolved, asked);
        assert_eq!(meta.fallback_reason, None);
    }
    for available in [false, true] {
        let meta = orchestrator::resolve_with_fallback(&RunConfig::default(), available);
        assert_eq!(meta.accel_resolved, AccelerationTarget::PureRust);
        assert_eq!(meta.fallback_reason, None);
    }
}

#[test]
fn the_release_gate_and_its_reasons() {
    let pinned = HardwareProfile {
        id: "lab".to_string(),
        pinned: true,
    };
    let loose = HardwareProfile {
        id: "laptop".to_string(),
        pinned: false,
    };
    assert_eq!(release_gate::eligible(&pinned, GraphSource::File), (true, None));
    assert_eq!(release_gate::eligible(&pinned, GraphSource::Neo4jSnapshot), (true, None));
    assert_eq!(
        release_gate::eligible(&pinned, GraphSource::LiveNeo4j),
        (false, Some("LIVE_QUERY_SOURCE_INELIGIBLE_FOR_RELEASE_GATE".to_string()))
    );
    assert_eq!(
        release_gate::eligible(&loose, GraphSource::File),
        (false, Some("UNPINNED_HARDWARE_PROFILE".to_string()))
    );
    assert_eq!(
        release_gate::eligible(&loose, GraphSource::LiveNeo4j),
        (false, Some("UNPINNED_HARDWARE_PROFILE".to_string()))
    );
    assert_eq!(resolver::release_gate_eligible(GraphSource::File), (true, None));
    assert_eq!(resolver::release_gate_eligible(GraphSource::Neo4jSnapshot), (true, None));
    assert_eq!(
        resolver::release_gate_eligible(GraphSource::LiveNeo4j),
        (false, Some("LIVE_QUERY_SOURCE_INELIGIBLE_FOR_RELEASE_GATE".to_string()))
    );
}

#[test]
fn comparison_of_two_builds() {
    let pinned = HardwareProfile {
        id: "lab".to_string(),
        pinned: true,
    };
    let out = compare_baseline("abc", "def", "nightly", &pinned);
    assert_eq!(out.baseline_commit, "abc");
    assert_eq!(out.candidate_commit, "def");
    assert_eq!(out.benchmark_suite, "nightly");
    assert_eq!(out.median_throughput_gain, 2 * SCALE);
    assert!(out.reproducible);
    assert!(out.release_gate_eligible);
    assert_eq!(out.release_gate_reason, None);

    let same = compare_baseline("abc", "abc", "nightly", &pinned);
    assert_eq!(same.median_throughput_gain, SCALE);

    let loose = HardwareProfile {
        id: "laptop".to_string(),
        pinned: false,
    };
    let out = compare_baseline("abc", "def", "nightly", &loose);
    assert!(!out.release_gate_eligible);
    assert_eq!(out.release_gate_reason, Some("UNPINNED_HARDWARE_PROFILE".to_string()));
    assert!(out.reproducible);
}

#[test]
fn comparison_from_the_command_line() {
    let out = run_compare("one", "two");
    assert_eq!(out.baseline_commit, "one");
    assert_eq!(out.candidate_commit, "two");
    assert_eq!(out.benchmark_suite, "default-suite");
    assert_eq!(out.median_throughput_gain, 2 * SCALE);
    assert!(out.release_gate_eligible);
    assert_eq!(out.release_gate_reason, None);
    assert_eq!(run_compare("one", "one").median_throughput_gain, SCALE);
}

#[test]
fn gain_of_a_manifest() {
    let mut manifest = BenchmarkManifest {
        dataset_id: "d".to_string(),
        baseline_commit: "a".to_string(),
        candidate_commit: "b".to_string(),
    };
    assert_eq!(run_benchmark(&manifest), 2 * SCALE);
    manifest.candidate_commit = "a".to_string();
    assert_eq!(run_benchmark(&manifest), SCALE);
}

#[test]
fn options_from_the_command_line() {
    let options = CliOptions {
        graph_source: "file".to_string(),
        mode: CliMode::Throughput,
        backend: "mmap".to_string(),
    };
    let config = config_from_cli(&options);
    assert_eq!(
        config,
        RunConfig {
            mode: RunMode::Throughput,
            graph_backend: GraphBackend::Mmap,
            ..RunConfig::default()
        }
    );
    let options = CliOptions {
        graph_source: "neo4j".to_string(),
        mode: CliMode::Deterministic,
        backend: "MMAP".to_string(),
    };
    assert_eq!(config_from_cli(&options), RunConfig::default());
}

#[test]
fn runs_from_the_command_line() {
    let graph = GraphInput {
        dataset_id: "c".to_string(),
        node_count: 4,
        edges: vec![(0, 1, None), (2, 3, None)],
    };
    let options = CliOptions {
        graph_source: "file".to_string(),
        mode: CliMode::Throughput,
        backend: "memory".to_string(),
    };
    let out = run_from_cli(&options, &graph).expect("valid");
    assert_eq!(out.partition.expect("partition").node_to_community, vec![1, 0, 3, 2]);
    let out = run_default(&graph).expect("valid");
    assert_eq!(out.partition.expect("partition").node_to_community, vec![1, 1, 3, 3]);
    let bad = GraphInput {
        dataset_id: "c".to_string(),
        node_count: 1,
        edges: vec![(0, 1, None)],
    };
    assert!(matches!(run_default(&bad), Err(HitLeidenError::InvalidInput(_))));
    assert!(matches!(run_from_cli(&options, &bad), Err(HitLeidenError::InvalidInput(_))));
}

#[test]
fn no_accelerator_is_found() {
    assert!(!cuda::available());
    assert!(!rocm::available());
    assert!(!native::available());
    assert_eq!(
        target::all_targets(),
        [
            AccelerationTarget::PureRust,
            AccelerationTarget::Native,
            AccelerationTarget::Cuda,
            AccelerationTarget::Rocm
        ]
    );
    for t in target::all_targets() {
        assert_eq!(probe::is_available(t), t == AccelerationTarget::PureRust);
    }
}

#[test]
fn a_snapshot_gives_a_named_graph_without_nodes() {
    let source = Neo4jSourceConfig {
        uri: "bolt://db".to_string(),
    };
    let projection = ProjectionConfig {
        snapshot_id: "s42".to_string(),
        batched: true,
    };
    let graph = project_from_neo4j(&source, &projection).expect("projected");
    assert_eq!(graph.dataset_id, "neo4j:s42");
    assert_eq!(graph.node_count, 0);
    assert!(graph.edges.is_empty());
}

#[test]
fn node_by_node_comparison() {
    let a = outcome_with(vec![1, 1, 2], SCALE);
    let b = outcome_with(vec![1, 1, 2], SCALE);
    let c = outcome_with(vec![2, 2, 1], SCALE);
    let report = validate(&a, &b, RunMode::Deterministic);
    assert!(report.hard_invariants_passed);
    assert_eq!(report.deterministic_identity_passed, Some(true));
    assert_eq!(report.quality_delta_vs_reference, Some(0));
    assert!(report.equivalence_passed);
    let report = validate(&a, &c, RunMode::Deterministic);
    assert!(report.hard_invariants_passed);
    assert_eq!(report.deterministic_identity_passed, Some(false));
    assert!(!report.equivalence_passed);
    let shorter = outcome_with(vec![1, 1], SCALE);
    assert!(!validate(&a, &shorter, RunMode::Deterministic).equivalence_passed);
}

#[test]
fn comparison_by_quality_passes_up_to_the_tolerance() {
    let a = outcome_with(vec![0, 1], 500_000);
    let at = outcome_with(vec![1, 0], 501_000);
    let over = outcome_with(vec![0, 1], 501_001);
    let under = outcome_with(vec![0, 1], 498_999);
    let report = validate(&a, &at, RunMode::Throughput);
    assert_eq!(report.deterministic_identity_passed, None);
    assert_eq!(report.quality_delta_vs_reference, Some(1_000));
    assert!(report.equivalence_passed);
    let report = validate(&a, &over, RunMode::Throughput);
    assert_eq!(report.quality_delta_vs_reference, Some(1_001));
    assert!(!report.equivalence_passed);
    let report = validate(&a, &under, RunMode::Throughput);
    assert_eq!(report.quality_delta_vs_reference, Some(1_001));
    assert!(!report.equivalence_passed);
    let report = validate(&at, &a, RunMode::Throughput);
    assert_eq!(report.quality_delta_vs_reference, Some(1_000));
    assert!(report.equivalence_passed);
}

#[test]
fn the_distance_of_far_scores_is_held_to_the_greatest_value() {
    let low = outcome_with(vec![0], i64::MIN);
    let high = outcome_with(vec![0], i64::MAX);
    let report = validate(&low, &high, RunMode::Throughput);
    assert_eq!(report.quality_delta_vs_reference, Some(i64::MAX));
    assert!(!report.equivalence_passed);
    let report = validate(&high, &low, RunMode::Deterministic);
    assert_eq!(report.quality_delta_vs_reference, Some(i64::MAX));
    assert!(report.equivalence_passed);
}

#[test]
fn a_comparison_holds_both_partitions_to_the_hard_invariants() {
    let sound = outcome_with(vec![1, 1, 0], SCALE);
    let broken = outcome_with(vec![1, 1, 3], SCALE);
    for mode in [RunMode::Deterministic, RunMode::Throughput] {
        assert!(validate(&sound, &sound, mode).hard_invariants_passed);
        assert!(!validate(&sound, &broken, mode).hard_invariants_passed);
        assert!(!validate(&broken, &sound, mode).hard_invariants_passed);
        assert!(!validate(&broken, &broken, mode).hard_invariants_passed);
    }
    let report = validate(&broken, &broken, RunMode::Deterministic);
    assert_eq!(report.deterministic_identity_passed, Some(true));
    assert!(report.equivalence_passed);
}

#[test]
fn hard_invariants() {
    assert!(invariants::check(&outcome_with(vec![], SCALE)));
    assert!(invariants::check(&outcome_with(vec![2, 2, 0], SCALE)));
    assert!(!invariants::check(&outcome_with(vec![0, 1, 3], SCALE)));
    assert!(!invariants::check(&outcome_with(vec![1], SCALE)));
    let mut none = outcome_with(vec![0], SCALE);
    none.partition = None;
    assert!(!invariants::check(&none));
}

#[test]
fn assignments_are_compared_in_full() {
    assert!(same_assignments(&vec![], &vec![]));
    assert!(same_assignments(&vec![3, 1], &vec![3, 1]));
    assert!(!same_assignments(&vec![3, 1], &vec![3, 2]));
    assert!(!same_assignments(&vec![3, 1], &vec![3, 1, 0]));
    assert!(!same_assignments(&vec![3], &vec![]));
}

#[test]
fn ties_go_to_the_smaller_id() {
    assert_eq!(stable_order(4), vec![0, 1, 2, 3]);
    assert_eq!(stable_order(0), Vec::<usize>::new());
    assert_eq!(tie_break_community(3, 5), 3);
    assert_eq!(tie_break_community(5, 3), 3);
    assert_eq!(tie_break_community(4, 4), 4);
    assert_eq!(tie_break_gain(7, 2, 9, 5), (9, 5));
    assert_eq!(tie_break_gain(9, 2, 7, 5), (9, 2));
    assert_eq!(tie_break_gain(7, 5, 7, 2), (7, 2));
    assert_eq!(tie_break_gain(7, 2, 7, 5), (7, 2));
    assert_eq!(tie_break_gain(-1, 8, -1, 8), (-1, 8));
}

#[test]
fn names_carry_their_number() {
    assert_eq!(numbered("batch_", 0), "batch_0");
    assert_eq!(numbered("batch_", 7), "batch_7");
    assert_eq!(numbered("batch_", 10), "batch_10");
    assert_eq!(numbered("", 9_083), "9083");
    assert_eq!(numbered("n", usize::MAX), format!("n{}", usize::MAX));
}

fn ring(n: usize) -> GraphInput {
    GraphInput {
        dataset_id: "ring".to_string(),
        node_count: n,
        edges: (0..n).map(|i| (i, (i + 1) % n, Some(7))).collect(),
    }
}

#[test]
fn batches_grow_by_their_size() {
    let builder = DynamicGraphBuilder::new(&ring(7));
    let batches = builder.batches(3);
    assert_eq!(batches.len(), 3);
    let lengths: Vec<usize> = batches.iter().map(|b| b.edges.len()).collect();
    assert_eq!(lengths, vec![3, 6, 7]);
    assert_eq!(batches[0].dataset_id, "batch_0");
    assert_eq!(batches[2].dataset_id, "batch_2");
    assert_eq!(batches[0].edges, vec![(0, 1, None), (1, 2, None), (2, 3, None)]);
    assert_eq!(batches[2].edges[6], (6, 0, None));
    assert!(batches.iter().all(|b| b.node_count == 7));
    assert_eq!(builder.batches(7).len(), 1);
    assert_eq!(builder.batches(100).len(), 1);
    assert_eq!(builder.batches(1).len(), 7);
    assert!(DynamicGraphBuilder::new(&ring(0)).batches(4).is_empty());
}

#[test]
fn many_batches_are_numbered_in_decimal() {
    let builder = DynamicGraphBuilder::new(&ring(12));
    let batches = builder.batches(1);
    assert_eq!(batches.len(), 12);
    assert_eq!(batches[9].dataset_id, "batch_9");
    assert_eq!(batches[10].dataset_id, "batch_10");
    assert_eq!(batches[11].dataset_id, "batch_11");
}

#[test]
fn a_shuffle_keeps_the_edges_and_changes_their_order() {
    let graph = ring(40);
    let mut builder = DynamicGraphBuilder::new(&graph);
    let plain: Vec<(usize, usize)> = graph.edges.iter().map(|e| (e.0, e.1)).collect();
    builder.shuffle(7);
    let all = builder.batches(40);
    let shuffled: Vec<(usize, usize)> = all[0].edges.iter().map(|e| (e.0, e.1)).collect();
    assert_ne!(shuffled, plain);
    let mut sorted = shuffled.clone();
    sorted.sort();
    assert_eq!(sorted, plain);

    let mut again = DynamicGraphBuilder::new(&graph);
    again.shuffle(7);
    assert_eq!(again.batches(40)[0].edges, all[0].edges);
}

#[test]
fn a_split_in_the_order_given() {
    let pairs: Vec<(usize, usize)> = (0..10).map(|i| (i, i + 1)).collect();
    let split = split_shuffled(&pairs, 11, 250_000, 3, 5);
    assert_eq!(split.initial_graph.dataset_id, "paper_initial");
    assert_eq!(split.initial_graph.node_count, 11);
    assert_eq!(split.initial_graph.edges, vec![(0, 1, None), (1, 2, None)]);
    assert_eq!(split.batch_size, 3);
    assert_eq!(split.rounds, 2);
    assert_eq!(split.update_batches.len(), 2);
    assert_eq!(split.update_batches[0].dataset_id, "paper_batch_0");
    assert_eq!(split.update_batches[1].dataset_id, "paper_batch_1");
    assert_eq!(split.update_batches[0].edges.len(), 5);
    assert_eq!(split.update_batches[1].edges.len(), 8);
    assert_eq!(split.update_batches[1].edges[7], (7, 8, None));
    assert_eq!(split.update_batches[1].node_count, 11);
}

#[test]
fn a_split_at_the_ends_of_the_share() {
    let pairs: Vec<(usize, usize)> = (0..10).map(|i| (i, i + 1)).collect();
    let none = split_shuffled(&pairs, 11, 0, 4, 9);
    assert!(none.initial_graph.edges.is_empty());
    assert_eq!(none.rounds, 2);
    let below = split_shuffled(&pairs, 11, -3, 4, 1);
    assert!(below.initial_graph.edges.is_empty());
    assert_eq!(below.rounds, 1);
    let all = split_shuffled(&pairs, 11, 1_000_000, 4, 9);
    assert_eq!(all.initial_graph.edges.len(), 10);
    assert_eq!(all.rounds, 0);
    assert!(all.update_batches.is_empty());
    let above = split_shuffled(&pairs, 11, 7_000_000, 4, 9);
    assert_eq!(above.initial_graph.edges.len(), 10);
    let no_batches = split_shuffled(&pairs, 11, 500_000, 0, 9);
    assert_eq!(no_batches.initial_graph.edges.len(), 5);
    assert_eq!(no_batches.rounds, 0);
    assert_eq!(no_batches.batch_size, 0);
    let rounded = split_shuffled(&pairs, 11, 999_999, 1, 9);
    assert_eq!(rounded.initial_graph.edges.len(), 9);
    assert_eq!(rounded.rounds, 1);
}

#[test]
fn a_paper_split_holds_the_edges_of_the_graph() {
    let graph = ring(30);
    let builder = DynamicGraphBuilder::new(&graph);
    let split = builder.paper_split(500_000, 5, 3, 11);
    assert_eq!(split.initial_graph.edges.len(), 15);
    assert_eq!(split.rounds, 3);
    let last = &split.update_batches[2];
    assert_eq!(last.edges.len(), 30);
    assert_eq!(last.edges[..15], split.initial_graph.edges[..]);
    let mut sorted: Vec<(usize, usize)> = last.edges.iter().map(|e| (e.0, e.1)).collect();
    sorted.sort();
    let plain: Vec<(usize, usize)> = graph.edges.iter().map(|e| (e.0, e.1)).collect();
    assert_eq!(sorted, plain);
    assert!(last.edges.iter().all(|e| e.2.is_none()));
    let again = builder.paper_split(500_000, 5, 3, 11);
    assert_eq!(again.initial_graph.edges, split.initial_graph.edges);
}

#[test]
fn the_artifact_of_a_run() {
    let passed = ValidationOutcome {
        hard_invariants_passed: true,
        deterministic_identity_passed: Some(true),
        quality_delta_vs_reference: Some(0),
        equivalence_passed: true,
    };
    let run = outcome_with(vec![0, 0], SCALE);
    assert_eq!(
        write_run_artifact(&run, &passed),
        "Run ID: r\nQuality: 1\nEquivalence Passed: true"
    );
    let mut failed = passed.clone();
    failed.equivalence_passed = false;
    let mut none = outcome_with(vec![0, 0], 250_000);
    assert_eq!(
        write_run_artifact(&none, &failed),
        "Run ID: r\nQuality: 0.25\nEquivalence Passed: false"
    );
    none.partition = None;
    assert_eq!(
        write_run_artifact(&none, &failed),
        "Run ID: r\nQuality: 0\nEquivalence Passed: false"
    );
    assert_eq!(with_fixed("q=", 0), "q=0");
    assert_eq!(with_fixed("", 1), "0.000001");
    assert_eq!(with_fixed("", -1), "-0.000001");
    assert_eq!(with_fixed("", 1_000), "0.001");
    assert_eq!(with_fixed("", 12_345_600), "12.3456");
    assert_eq!(with_fixed("", -3_000_000), "-3");
    assert_eq!(with_fixed("", 100_000), "0.1");
    assert_eq!(with_fixed("", 1_010_010), "1.01001");
    assert_eq!(with_fixed("", i64::MAX), "9223372036854.775807");
    assert_eq!(with_fixed("", i64::MIN), "-9223372036854.775808");
}

#[test]
fn an_update_is_recorded_with_its_growth() {
    assert_eq!(edges_added(80, 85, 5), 5);
    assert_eq!(edges_added(80, 83, 5), 3);
    assert_eq!(edges_added(85, 85, 5), 5);
    assert_eq!(edges_added(90, 85, 5), 5);
    assert_eq!(edges_added(3, 3, 5), 3);
    assert_eq!(edges_added(0, 0, 5), 0);
    assert_eq!(edges_added(0, 7, 0), 7);
    assert_eq!(edges_added(7, 7, 0), 0);
}

#[test]
fn a_paper_split_cuts_the_order_of_a_shuffle_with_its_seed() {
    let graph = ring(30);
    let mut shuffled = DynamicGraphBuilder::new(&graph);
    shuffled.shuffle(11);
    let order: Vec<(usize, usize)> = shuffled.batches(30)[0].edges.iter().map(|e| (e.0, e.1)).collect();
    let plain: Vec<(usize, usize)> = graph.edges.iter().map(|e| (e.0, e.1)).collect();
    assert_ne!(order, plain);

    let builder = DynamicGraphBuilder::new(&graph);
    let split = builder.paper_split(500_000, 5, 3, 11);
    let by_hand = split_shuffled(&order, 30, 500_000, 5, 3);
    assert_eq!(split.initial_graph, by_hand.initial_graph);
    assert_eq!(split.update_batches, by_hand.update_batches);
    assert_eq!(builder.batches(30)[0].edges, graph.edges.iter().map(|e| (e.0, e.1, None)).collect::<Vec<_>>());

    let other = builder.paper_split(500_000, 5, 3, 12);
    assert_ne!(other.initial_graph.edges, split.initial_graph.edges);
}
