use hodge_consensus::text::with_decimal;
use hodge_consensus::{EdgeFlow, HodgeError, WeightedGraph};

#[test]
fn error_messages() {
    assert_eq!(
        HodgeError::EdgeOutOfBounds { index: 3, num_edges: 2 }.message(),
        "edge index 3 out of bounds (graph has 2 edges)"
    );
    assert_eq!(
        HodgeError::NodeOutOfBounds { index: 10, n: 7 }.message(),
        "node index 10 out of bounds (graph has 7 nodes)"
    );
    assert_eq!(
        HodgeError::TooFewNodes { minimum: 2, actual: 0 }.message(),
        "graph must have at least 2 nodes, got 0"
    );
    assert_eq!(
        HodgeError::FlowLengthMismatch { flow_len: 5, edge_count: 120 }.message(),
        "flow vector length 5 does not match edge count 120"
    );
    assert_eq!(
        HodgeError::LabelCountMismatch { label_count: 1, node_count: 3 }.message(),
        "label count 1 does not match node count 3"
    );
    assert_eq!(
        HodgeError::Underdetermined.message(),
        "underdetermined system: not enough comparisons to rank nodes"
    );
    assert_eq!(HodgeError::SingularMatrix.message(), "singular matrix in least-squares solve");
}

#[test]
fn error_message_with_largest_index() {
    let e = HodgeError::EdgeOutOfBounds { index: usize::MAX, num_edges: 0 };
    assert_eq!(e.message(), format!("edge index {} out of bounds (graph has 0 edges)", usize::MAX));
}

#[test]
fn decimal_rendering() {
    assert_eq!(with_decimal("n=", 0), "n=0");
    assert_eq!(with_decimal("", 9), "9");
    assert_eq!(with_decimal("", 10), "10");
    assert_eq!(with_decimal("x", 1234567890), "x1234567890");
}

fn path_graph() -> WeightedGraph<f64> {
    WeightedGraph { n: 3, edges: vec![(0, 1, 1.0), (1, 2, 1.0), (0, 1, 2.0)] }
}

#[test]
fn edge_flow_requires_one_value_per_edge() {
    let f = EdgeFlow::new(path_graph(), vec![0.5, 1.0, -1.0]).unwrap();
    assert_eq!(f.values, vec![0.5, 1.0, -1.0]);
    assert_eq!(f.graph.n, 3);
    let e = EdgeFlow::new(path_graph(), vec![0.5]).err().unwrap();
    assert_eq!(e, HodgeError::FlowLengthMismatch { flow_len: 1, edge_count: 3 });
}

#[test]
fn comparisons_land_on_first_matching_edge() {
    let g = path_graph();
    let slots = EdgeFlow::comparison_slots(&g, &[(1, 0, 0.3), (0, 1, 0.1), (1, 2, -2.0)]).unwrap();
    assert_eq!(slots, vec![(0, false), (0, true), (1, true)]);
}

#[test]
fn comparison_without_edge_fails() {
    let g = path_graph();
    let e = EdgeFlow::comparison_slots(&g, &[(0, 1, 1.0), (2, 0, 1.0)]).err().unwrap();
    assert_eq!(e, HodgeError::EdgeOutOfBounds { index: usize::MAX, num_edges: 3 });
}
