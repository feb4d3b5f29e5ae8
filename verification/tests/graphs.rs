use hit_leiden::solver::graph::in_memory::InMemoryGraph;
use hit_leiden::solver::graph::mmap::MmapGraph;
use hit_leiden::GraphInput;

fn graph(node_count: usize, edges: Vec<(usize, usize, Option<i64>)>) -> GraphInput {
    GraphInput {
        dataset_id: "g".to_string(),
        node_count,
        edges,
    }
}

#[test]
fn adjacency_holds_each_edge_in_both_rows() {
    let input = graph(4, vec![(0, 1, Some(2_000_000)), (1, 2, None), (3, 1, Some(-500_000))]);
    let csr = InMemoryGraph::from(&input);
    assert_eq!(csr.node_count, 4);
    assert_eq!(csr.offsets, vec![0, 1, 4, 5, 6]);
    assert_eq!(csr.degrees, vec![1, 3, 1, 1]);
    assert_eq!(csr.neighbors, vec![1, 0, 2, 3, 1, 1]);
    assert_eq!(
        csr.weights,
        vec![2_000_000, 2_000_000, 1_000_000, -500_000, 1_000_000, -500_000]
    );
    assert_eq!(csr.total_weight(), 2_500_000);
}

#[test]
fn neighbors_come_in_the_order_of_the_edges() {
    let input = graph(3, vec![(2, 0, Some(3)), (0, 1, Some(5)), (0, 2, Some(7))]);
    let csr = InMemoryGraph::from(&input);
    assert_eq!(csr.neighbors(0), vec![(2, 3), (1, 5), (2, 7)]);
    assert_eq!(csr.neighbors(1), vec![(0, 5)]);
    assert_eq!(csr.neighbors(2), vec![(0, 3), (0, 7)]);
    assert_eq!(csr.degree(0), 3);
    assert_eq!(csr.degree(1), 1);
    assert_eq!(csr.degree(2), 2);
    assert_eq!(csr.total_weight(), 15);
}

#[test]
fn a_loop_stands_twice_in_its_row() {
    let input = graph(2, vec![(0, 0, Some(4)), (0, 1, None)]);
    let csr = InMemoryGraph::from(&input);
    assert_eq!(csr.neighbors(0), vec![(0, 4), (0, 4), (1, 1_000_000)]);
    assert_eq!(csr.degree(0), 3);
    assert_eq!(csr.total_weight(), 1_000_004);
}

#[test]
fn a_missing_weight_is_one_unit() {
    let input = graph(2, vec![(0, 1, None)]);
    let csr = InMemoryGraph::from(&input);
    assert_eq!(csr.weights, vec![1_000_000, 1_000_000]);
    assert_eq!(csr.total_weight(), 1_000_000);
}

#[test]
fn graph_without_edges() {
    let csr = InMemoryGraph::from(&graph(3, vec![]));
    assert_eq!(csr.offsets, vec![0, 0, 0, 0]);
    assert_eq!(csr.degrees, vec![0, 0, 0]);
    assert_eq!(csr.total_weight(), 0);
    assert_eq!(csr.neighbors(1), vec![]);
}

#[test]
fn graph_without_nodes() {
    let csr = InMemoryGraph::from(&GraphInput::empty("none".to_string()));
    assert_eq!(csr.node_count, 0);
    assert_eq!(csr.offsets, vec![0]);
    assert_eq!(csr.total_weight(), 0);
}

#[test]
fn empty_graph_input() {
    let input = GraphInput::empty("e".to_string());
    assert_eq!(input.dataset_id, "e");
    assert_eq!(input.node_count, 0);
    assert!(input.edges.is_empty());
}

#[test]
fn mapped_graph_holds_the_same_adjacency() {
    let input = graph(3, vec![(0, 1, None), (1, 2, Some(250_000))]);
    let mapped = MmapGraph::from(&input);
    assert_eq!(mapped.inner, InMemoryGraph::from(&input));
}
