use graphviz_core::components::find_components;
use graphviz_core::filter::{spring_pairs, visible_edges, WeightFilter};
use graphviz_core::graph::Graph;

fn s(x: &str) -> String {
    x.to_string()
}

fn triangle() -> Graph {
    let edges = vec![(s("a"), s("b"), 1), (s("b"), s("c"), 5), (s("a"), s("c"), 1)];
    Graph::from_parts(&vec![], &edges)
}

fn sorted(mut v: Vec<(usize, usize)>) -> Vec<(usize, usize)> {
    v.sort();
    v
}

#[test]
fn threshold_between_weights_keeps_only_the_heavy_spring() {
    let g = triangle();
    let comps = find_components(&g);
    assert_eq!(comps.len(), 1);
    let mut f = WeightFilter::new(true);
    f.set_min_weight(3);
    // nodes: a = 0, b = 1, c = 2
    assert_eq!(sorted(spring_pairs(&g, &comps[0], f)), vec![(1, 2), (2, 1)]);
    assert_eq!(visible_edges(&g, f), vec![1]);
}

#[test]
fn no_minimum_lets_every_edge_through() {
    let g = triangle();
    let comps = find_components(&g);
    let f = WeightFilter::new(true);
    assert_eq!(
        sorted(spring_pairs(&g, &comps[0], f)),
        vec![(0, 1), (0, 2), (1, 0), (1, 2), (2, 0), (2, 1)]
    );
    assert_eq!(visible_edges(&g, f), vec![0, 1, 2]);
}

#[test]
fn raising_the_minimum_drops_the_edge_from_springs_and_drawing() {
    let g = triangle();
    let comps = find_components(&g);
    let mut f = WeightFilter::new(true);
    f.set_min_weight(1);
    assert!(spring_pairs(&g, &comps[0], f).contains(&(0, 1)));
    assert!(visible_edges(&g, f).contains(&0));
    f.set_min_weight(2);
    assert!(!spring_pairs(&g, &comps[0], f).contains(&(0, 1)));
    assert!(!spring_pairs(&g, &comps[0], f).contains(&(1, 0)));
    assert!(!visible_edges(&g, f).contains(&0));
}

#[test]
fn edge_at_the_minimum_passes() {
    let f = {
        let mut f = WeightFilter::new(true);
        f.set_min_weight(5);
        f
    };
    assert!(f.passes(5));
    assert!(f.passes(6));
    assert!(!f.passes(4));
}

#[test]
fn unweighted_graphs_ignore_the_minimum() {
    let mut f = WeightFilter::new(false);
    f.set_min_weight(100);
    assert!(f.passes(0));
    let g = triangle();
    let comps = find_components(&g);
    assert_eq!(spring_pairs(&g, &comps[0], f).len(), 6);
}

#[test]
fn springs_stay_inside_their_component() {
    let edges = vec![(s("a"), s("b"), 1), (s("c"), s("d"), 1)];
    let g = Graph::from_parts(&vec![], &edges);
    let f = WeightFilter::new(false);
    let only_ab = vec![0usize, 1];
    assert_eq!(sorted(spring_pairs(&g, &only_ab, f)), vec![(0, 1), (1, 0)]);
}
