use hodge_consensus::harmonic::{component_indices, connected_components};
use hodge_consensus::{HarmonicAnalysis, OpinionGraph};

fn analysis(g: &OpinionGraph<f64>) -> HarmonicAnalysis<f64> {
    HarmonicAnalysis::from_decomposition(g, vec![0.0; g.m()], 0.0)
}

#[test]
fn test_connected_components_single() {
    let g = OpinionGraph::complete(3, 1.0);
    let ha = analysis(&g);
    assert_eq!(ha.n_components, 1);
}

#[test]
fn test_connected_components_disconnected() {
    let mut g = OpinionGraph::new();
    g.add_edge("a", "b", 1.0);
    g.add_edge("c", "d", 1.0);
    // a-b and c-d are disconnected
    let ha = analysis(&g);
    assert_eq!(ha.n_components, 2);
}

#[test]
fn test_isolated_agents() {
    let mut g = OpinionGraph::new();
    g.add_agent("loner");
    g.add_edge("a", "b", 1.0);
    let ha = analysis(&g);
    assert!(ha.isolated_agents().contains(&"loner".to_string()));
}

#[test]
fn test_can_reach_consensus() {
    let g = OpinionGraph::complete(3, 1.0);
    let ha = analysis(&g);
    // Complete graph: single component, so consensus is topologically possible
    assert_eq!(ha.n_components, 1);
}

#[test]
fn test_h1_dimension_ring() {
    let g = OpinionGraph::ring(5, 1.0);
    let ha = analysis(&g);
    // Ring: 5 edges and 5 nodes, so the formula gives 0
    assert_eq!(ha.h1_dimension, 0);
    let mut g2 = OpinionGraph::ring(5, 1.0);
    g2.add_edge("agent_0", "agent_2", 0.5);
    let ha2 = analysis(&g2);
    // 6 edges - 5 nodes + 1 component = 2
    assert_eq!(ha2.h1_dimension, 2);
}

#[test]
fn test_disconnected_graph_decomposition() {
    let mut g = OpinionGraph::new();
    g.add_edge("a", "b", 1.0);
    g.add_edge("b", "a", 1.0);
    g.add_edge("c", "d", 1.0);
    g.add_edge("d", "c", 1.0);
    let ha = analysis(&g);
    assert_eq!(ha.n_components, 2);
}

#[test]
fn components_largest_first_then_by_first_agent() {
    let mut g = OpinionGraph::new();
    g.add_agent("x");
    g.add_edge("d", "e", 1.0);
    g.add_edge("a", "b", 1.0);
    g.add_edge("c", "b", 1.0);
    g.add_agent("y");
    let comps = connected_components(&g);
    let expect: Vec<Vec<String>> = vec![
        vec!["a".into(), "b".into(), "c".into()],
        vec!["d".into(), "e".into()],
        vec!["x".into()],
        vec!["y".into()],
    ];
    assert_eq!(comps, expect);
    let ha = analysis(&g);
    assert_eq!(ha.isolated_agents(), vec!["x".to_string(), "y".to_string()]);
    assert_eq!(ha.n_components, 4);
    assert_eq!(ha.h1_dimension, 0);
}

#[test]
fn component_indices_join_through_either_direction() {
    let c = component_indices(6, &vec![(5, 0), (2, 3), (3, 0), (4, 4)]);
    assert_eq!(c, vec![vec![0, 2, 3, 5], vec![1], vec![4]]);
}

#[test]
fn empty_graph_has_no_components() {
    let g: OpinionGraph<f64> = OpinionGraph::new();
    let ha = analysis(&g);
    assert_eq!(ha.n_components, 0);
    assert!(ha.components.is_empty());
    assert!(ha.isolated_agents().is_empty());
}

#[test]
fn analysis_keeps_the_flow_it_was_given() {
    let g = OpinionGraph::ring(3, 1.0);
    let ha = HarmonicAnalysis::from_decomposition(&g, vec![0.5, -0.25, 1.0], 0.75);
    assert_eq!(ha.harmonic_flow, vec![0.5, -0.25, 1.0]);
    assert_eq!(ha.energy_fraction, 0.75);
}

#[test]
fn h1_counts_extra_edges_per_component() {
    // two disjoint triangles with both directions: 12 edges, 6 nodes, 2 components
    let mut g = OpinionGraph::new();
    for (a, b) in [("a", "b"), ("b", "c"), ("c", "a"), ("d", "e"), ("e", "f"), ("f", "d")] {
        g.add_symmetric_edge(a, b, 1.0);
    }
    let ha = analysis(&g);
    assert_eq!(ha.n_components, 2);
    assert_eq!(ha.h1_dimension, 12 - 6 + 2);
}
