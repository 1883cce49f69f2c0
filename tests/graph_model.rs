use graphviz_core::graph::{line_edges, Graph, WeightedEdge};

fn s(x: &str) -> String {
    x.to_string()
}

#[test]
fn add_edge_refuses_a_second_edge_between_a_pair() {
    let mut g = Graph::new();
    let a = g.add_node(s("a"));
    let b = g.add_node(s("b"));
    assert!(g.add_edge(a, b, 3));
    assert!(!g.add_edge(b, a, 9));
    assert_eq!(g.edge_count(), 1);
    assert_eq!(g.edge_weight(a, b), Some(3));
    assert_eq!(g.edge_weight(b, a), Some(3));
    assert!(g.contains_edge(b, a));
}

#[test]
fn neighbors_lists_each_adjacent_node() {
    let mut g = Graph::new();
    for l in ["a", "b", "c", "d"] {
        g.add_node(s(l));
    }
    g.add_edge(0, 1, 1);
    g.add_edge(2, 0, 1);
    g.add_edge(2, 3, 1);
    assert_eq!(g.neighbors(0), vec![1, 2]);
    assert_eq!(g.neighbors(3), vec![2]);
    assert_eq!(g.edge_weight(0, 3), None);
}

#[test]
fn from_parts_dedups_labels_and_edges() {
    let nodes = vec![s("a"), s("b"), s("a"), s("solo")];
    let edges = vec![
        (s("a"), s("b"), 1),
        (s("b"), s("a"), 7),
        (s("b"), s("c"), 5),
        (s("c"), s("a"), 2),
    ];
    let g = Graph::from_parts(&nodes, &edges);
    assert_eq!(g.node_count(), 4);
    let labels: Vec<String> = (0..g.node_count()).map(|i| g.label(i).clone()).collect();
    assert_eq!(labels, vec![s("a"), s("b"), s("solo"), s("c")]);
    assert_eq!(
        g.edges().clone(),
        vec![
            WeightedEdge { a: 0, b: 1, weight: 1 },
            WeightedEdge { a: 1, b: 3, weight: 5 },
            WeightedEdge { a: 3, b: 0, weight: 2 },
        ]
    );
}

#[test]
fn node_for_label_reuses_existing_nodes() {
    let mut g = Graph::new();
    assert_eq!(g.node_for_label(&s("x")), 0);
    assert_eq!(g.node_for_label(&s("y")), 1);
    assert_eq!(g.node_for_label(&s("x")), 0);
    assert_eq!(g.node_count(), 2);
}

#[test]
fn line_edges_joins_every_pair_of_a_line() {
    let tokens = vec![s("a"), s("b"), s("c")];
    assert_eq!(
        line_edges(&tokens, 4),
        vec![(s("a"), s("b"), 4), (s("a"), s("c"), 4), (s("b"), s("c"), 4)]
    );
    assert!(line_edges(&vec![s("a")], 4).is_empty());
    assert!(line_edges(&vec![], 4).is_empty());
}
