use hodge_consensus::decomposition::{adjacency_lists, cycle_indicator, dfs_cycles, edge_lookup, find_simple_cycles};
use hodge_consensus::OpinionGraph;

fn triangle() -> OpinionGraph<f64> {
    let mut g = OpinionGraph::new();
    g.add_edge("a", "b", 1.0);
    g.add_edge("b", "c", 1.0);
    g.add_edge("c", "a", 1.0);
    g
}

#[test]
fn adjacency_lists_follow_edge_order() {
    let adj = adjacency_lists(3, &vec![(0, 2), (1, 0), (0, 1), (0, 2)]);
    assert_eq!(adj, vec![vec![2, 1, 2], vec![0], vec![]]);
}

#[test]
fn directed_triangle_is_one_closed_cycle() {
    let cycles = find_simple_cycles(&triangle());
    // the three rotations of the triangle use the same endpoints: one is kept
    assert_eq!(cycles, vec![vec![(0, 1), (1, 2), (2, 0)]]);
}

#[test]
fn symmetric_pair_cycles_are_deduplicated() {
    let mut g = OpinionGraph::new();
    g.add_symmetric_edge("a", "b", 1.0);
    assert_eq!(find_simple_cycles(&g), vec![vec![(0, 1), (1, 0)]]);
}

#[test]
fn single_edge_has_no_cycle() {
    let mut g = OpinionGraph::new();
    g.add_edge("a", "b", 1.0);
    assert!(find_simple_cycles(&g).is_empty());
}

#[test]
fn dfs_cycles_reports_and_restores() {
    let adj = vec![vec![1, 2], vec![0, 2], vec![0]];
    let mut path = Vec::new();
    let mut in_path = vec![false; 3];
    let mut visited = vec![false; 3];
    let mut cycles = Vec::new();
    dfs_cycles(0, 0, &adj, &mut path, &mut in_path, &mut visited, &mut cycles, 8);
    assert!(path.is_empty());
    assert_eq!(in_path, vec![false; 3]);
    assert_eq!(
        cycles,
        vec![vec![(0, 1), (1, 0)], vec![(0, 1), (1, 2), (2, 0)], vec![(0, 2), (2, 0)]]
    );
}

#[test]
fn dfs_cycles_records_the_closing_edge() {
    let adj = vec![vec![1], vec![2], vec![0]];
    let mut path = vec![];
    let mut in_path = vec![false; 3];
    let mut visited = vec![false; 3];
    let mut cycles = vec![];
    dfs_cycles(0, 0, &adj, &mut path, &mut in_path, &mut visited, &mut cycles, 8);
    assert_eq!(cycles, vec![vec![(0, 1), (1, 2), (2, 0)]]);
    assert!(path.is_empty());
    assert_eq!(in_path, vec![false; 3]);
    assert_eq!(visited, vec![false; 3]);
}

#[test]
fn self_loop_is_a_cycle_of_one_edge() {
    let mut g = OpinionGraph::new();
    g.add_edge("a", "a", 1.0);
    g.add_edge("a", "b", 1.0);
    assert_eq!(find_simple_cycles(&g), vec![vec![(0, 0)]]);
}

#[test]
fn closed_two_cycle_indicator_cancels_on_opposite_edges() {
    let ends = vec![(0, 1), (1, 0)];
    assert_eq!(cycle_indicator(&vec![(0, 1), (1, 0)], &ends), vec![0, 0]);
    assert_eq!(cycle_indicator(&vec![(0, 1), (1, 2), (2, 0)], &vec![(0, 1), (1, 2), (2, 0)]), vec![1, 1, 1]);
}

#[test]
fn dfs_cycles_respects_depth_bound() {
    // a ring of 12 nodes: its only cycle from 0 walks 11 edges before the closing one
    let adj: Vec<Vec<usize>> = (0..12).map(|i| vec![(i + 1) % 12]).collect();
    let mut path = Vec::new();
    let mut in_path = vec![false; 12];
    let mut visited = vec![false; 12];
    let mut cycles = Vec::new();
    dfs_cycles(0, 0, &adj, &mut path, &mut in_path, &mut visited, &mut cycles, 8);
    assert!(cycles.is_empty());
    dfs_cycles(0, 0, &adj, &mut path, &mut in_path, &mut visited, &mut cycles, 11);
    assert_eq!(cycles.len(), 1);
    assert_eq!(cycles[0].len(), 12);
    assert_eq!(cycles[0][11], (11, 0));
}

#[test]
fn edge_lookup_takes_last_match() {
    let ends = vec![(0, 1), (1, 0), (0, 1)];
    assert_eq!(edge_lookup(&ends, 0, 1), Some(2));
    assert_eq!(edge_lookup(&ends, 1, 0), Some(1));
    assert_eq!(edge_lookup(&ends, 1, 1), None);
}

#[test]
fn cycle_indicator_counts_along_and_against() {
    let ends = vec![(0, 1), (1, 0), (1, 2)];
    assert_eq!(cycle_indicator(&vec![(0, 1)], &ends), vec![1, -1, 0]);
    assert_eq!(cycle_indicator(&vec![(0, 1), (1, 2), (2, 1)], &ends), vec![1, -1, 0]);
}
