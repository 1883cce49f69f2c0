use graphviz_core::components::find_components;
use graphviz_core::graph::Graph;
use graphviz_core::layout::{grid_cell, grid_columns};

fn build(n: usize, edges: &[(usize, usize)]) -> Graph {
    let mut g = Graph::new();
    for i in 0..n {
        g.add_node(format!("n{}", i));
    }
    for &(a, b) in edges {
        g.add_edge(a, b, 1);
    }
    g
}

fn sorted_components(g: &Graph) -> Vec<Vec<usize>> {
    let mut comps: Vec<Vec<usize>> = find_components(g)
        .into_iter()
        .map(|mut c| {
            c.sort();
            c
        })
        .collect();
    comps.sort();
    comps
}

#[test]
fn components_split_the_nodes() {
    let g = build(7, &[(0, 1), (1, 2), (3, 4), (6, 4)]);
    assert_eq!(sorted_components(&g), vec![vec![0, 1, 2], vec![3, 4, 6], vec![5]]);
}

#[test]
fn components_of_a_graph_without_nodes() {
    let g = build(0, &[]);
    assert!(find_components(&g).is_empty());
}

#[test]
fn components_follow_edges_in_either_direction() {
    let g = build(4, &[(1, 0), (3, 2), (2, 1)]);
    assert_eq!(sorted_components(&g), vec![vec![0, 1, 2, 3]]);
}

#[test]
fn every_node_in_exactly_one_component() {
    let g = build(10, &[(0, 9), (2, 3), (3, 4), (5, 5), (8, 7)]);
    let comps = find_components(&g);
    let mut seen = vec![0usize; 10];
    for c in &comps {
        assert!(!c.is_empty());
        for &v in c {
            seen[v] += 1;
        }
    }
    assert!(seen.iter().all(|&k| k == 1));
}

#[test]
fn grid_columns_is_the_ceiling_square_root() {
    let expected = [0, 1, 2, 2, 2, 3, 3, 3, 3, 3, 4];
    for (k, &c) in expected.iter().enumerate() {
        assert_eq!(grid_columns(k), c, "for {} components", k);
    }
    assert_eq!(grid_columns(1_000_000), 1000);
    assert_eq!(grid_columns(1_000_001), 1001);
}

#[test]
fn grid_cells_fill_rows() {
    assert_eq!(grid_cell(0, 3), (0, 0));
    assert_eq!(grid_cell(2, 3), (0, 2));
    assert_eq!(grid_cell(3, 3), (1, 0));
    assert_eq!(grid_cell(7, 3), (2, 1));
}
