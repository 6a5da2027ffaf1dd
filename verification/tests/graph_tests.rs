use hodge_consensus::OpinionGraph;

#[test]
fn test_graph_new_empty() {
    let g: OpinionGraph<f64> = OpinionGraph::new();
    assert_eq!(g.n(), 0);
    assert_eq!(g.m(), 0);
}

#[test]
fn test_graph_add_agent() {
    let mut g: OpinionGraph<f64> = OpinionGraph::new();
    g.add_agent("alice");
    g.add_agent("bob");
    g.add_agent("alice"); // duplicate
    assert_eq!(g.n(), 2);
}

#[test]
fn test_graph_add_edge() {
    let mut g = OpinionGraph::new();
    g.add_edge("a", "b", 1.0);
    assert_eq!(g.n(), 2);
    assert_eq!(g.m(), 1);
}

#[test]
fn test_graph_symmetric_edge() {
    let mut g = OpinionGraph::new();
    g.add_symmetric_edge("a", "b", 0.5);
    assert_eq!(g.m(), 2);
}

#[test]
fn test_graph_complete() {
    let g = OpinionGraph::complete(4, 1.0);
    assert_eq!(g.n(), 4);
    assert_eq!(g.m(), 12); // n*(n-1)
}

#[test]
fn test_graph_ring() {
    let g = OpinionGraph::ring(5, 1.0);
    assert_eq!(g.n(), 5);
    assert_eq!(g.m(), 5);
}

#[test]
fn add_edge_appends_edge_and_keeps_agents_unique() {
    let mut g = OpinionGraph::new();
    g.add_edge("a", "b", 2.0);
    g.add_edge("b", "c", -1.0);
    g.add_edge("a", "c", 0.5);
    assert_eq!(g.agents, vec!["a".to_string(), "b".to_string(), "c".to_string()]);
    assert_eq!(g.edges[1], ("b".to_string(), "c".to_string(), -1.0));
    assert_eq!(g.flow(), vec![2.0, -1.0, 0.5]);
}

#[test]
fn symmetric_edge_adds_both_directions() {
    let mut g = OpinionGraph::new();
    g.add_symmetric_edge("x", "y", 0.25);
    assert_eq!(g.edges[0], ("x".to_string(), "y".to_string(), 0.25));
    assert_eq!(g.edges[1], ("y".to_string(), "x".to_string(), 0.25));
    assert_eq!(g.n(), 2);
}

#[test]
fn complete_graph_edge_order() {
    let g = OpinionGraph::complete(3, 7u32);
    let pairs: Vec<(String, String)> = g.edges.iter().map(|(s, d, _)| (s.clone(), d.clone())).collect();
    let expect = [(0, 1), (0, 2), (1, 0), (1, 2), (2, 0), (2, 1)];
    assert_eq!(pairs.len(), expect.len());
    for (k, (i, j)) in expect.iter().enumerate() {
        assert_eq!(pairs[k], (format!("agent_{i}"), format!("agent_{j}")));
    }
    assert!(g.edges.iter().all(|e| e.2 == 7));
}

#[test]
fn complete_graph_on_zero_and_one_nodes() {
    let g0: OpinionGraph<f64> = OpinionGraph::complete(0, 1.0);
    assert_eq!((g0.n(), g0.m()), (0, 0));
    let g1: OpinionGraph<f64> = OpinionGraph::complete(1, 1.0);
    assert_eq!((g1.n(), g1.m()), (1, 0));
    assert_eq!(g1.agents, vec!["agent_0".to_string()]);
}

#[test]
fn ring_graph_wraps_around() {
    let g = OpinionGraph::ring(12, 1.5);
    assert_eq!(g.agents[11], "agent_11");
    assert_eq!(g.edges[11], ("agent_11".to_string(), "agent_0".to_string(), 1.5));
    assert_eq!(g.edges[3].1, "agent_4");
}

#[test]
fn ring_of_one_is_a_self_loop() {
    let g = OpinionGraph::ring(1, 1.0);
    assert_eq!(g.edges, vec![("agent_0".to_string(), "agent_0".to_string(), 1.0)]);
}

#[test]
fn index_of_finds_last_position() {
    let g: OpinionGraph<f64> = OpinionGraph::with_agents(vec!["a".to_string(), "b".to_string(), "a".to_string()]);
    assert_eq!(g.index_of("a"), Some(2));
    assert_eq!(g.index_of("b"), Some(1));
    assert_eq!(g.index_of("z"), None);
}

#[test]
fn edge_indices_resolve_endpoints() {
    let mut g = OpinionGraph::new();
    g.add_agent("loner");
    g.add_edge("a", "b", 1.0);
    g.add_edge("b", "loner", 1.0);
    assert_eq!(g.edge_indices(), Some(vec![(1, 2), (2, 0)]));
}

#[test]
fn edge_indices_reject_unknown_agent() {
    let mut g: OpinionGraph<f64> = OpinionGraph::with_agents(vec!["a".to_string()]);
    g.edges.push(("a".to_string(), "ghost".to_string(), 1.0));
    assert_eq!(g.edge_indices(), None);
}

#[test]
fn default_graph_is_empty() {
    let g: OpinionGraph<f64> = OpinionGraph::default();
    assert_eq!((g.n(), g.m()), (0, 0));
}

#[test]
fn edges_from_and_into_an_agent() {
    let mut g = OpinionGraph::new();
    g.add_edge("a", "b", 1.0);
    g.add_edge("a", "c", 2.0);
    g.add_edge("c", "a", 0.5);
    assert_eq!(g.edges_from(0), vec![0, 1]);
    assert_eq!(g.edges_into(0), vec![2]);
    assert_eq!(g.edges_into(1), vec![0]);
    assert!(g.edges_from(1).is_empty());
}
