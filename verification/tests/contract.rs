use hit_leiden::benchmark::hardware_profile::HardwareProfile;
use hit_leiden::solver::runtime::resolver;
use hit_leiden::solver::weight::SCALE;
use hit_leiden::{compare_baseline, run, validate, GraphInput, RunConfig};

#[test]
fn backend_resolution_contract() {
    let cfg = RunConfig::default();
    let r = resolver::resolve(&cfg);
    assert!(r.fallback_reason.is_none());
}

#[test]
fn compare_baseline_contract() {
    let profile = HardwareProfile {
        id: "pinned".to_string(),
        pinned: true,
    };
    let out = compare_baseline("base", "cand", "suite", &profile);
    assert!(out.median_throughput_gain >= SCALE);
}

#[test]
fn run_and_validate_contract() {
    let graph = GraphInput {
        dataset_id: "d1".to_string(),
        node_count: 3,
        edges: vec![(0, 1, None), (1, 2, None)],
    };
    let config = RunConfig::default();
    let outcome = run(&graph, &config).expect("run should succeed");
    let validation = validate(&outcome, &outcome, config.mode);
    assert!(validation.equivalence_passed);
}
