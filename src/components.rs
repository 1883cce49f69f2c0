//! Connected components of the graph, and the grid on which they are laid
//! out.
use vstd::prelude::*;
use crate::graph::{Graph, WeightedEdge};

verus! {

/// Node `v` stands in component `c` of `comps`.
pub open spec fn in_component(comps: Seq<Vec<usize>>, c: int, v: usize) -> bool {
    0 <= c < comps.len() && comps[c]@.contains(v)
}

/// Node `v` stands in some component of `comps`.
pub open spec fn covered(comps: Seq<Vec<usize>>, v: usize) -> bool {
    exists|c: int| #[trigger] in_component(comps, c, v)
}

/// `comps` splits the nodes `0..n` into non-empty parts: every node stands
/// in exactly one part, exactly once, and nothing else stands in any.
pub open spec fn is_partition(comps: Seq<Vec<usize>>, n: nat) -> bool {
    &&& forall|c: int| 0 <= c < comps.len() ==> (#[trigger] comps[c])@.len() > 0
    &&& forall|c: int, i: int| 0 <= c < comps.len() && 0 <= i < comps[c]@.len() ==> (#[trigger] comps[c]@[i]) < n
    &&& forall|v: usize| v < n ==> #[trigger] covered(comps, v)
    &&& forall|c1: int, i1: int, c2: int, i2: int|
        0 <= c1 < comps.len() && 0 <= i1 < comps[c1]@.len() && 0 <= c2 < comps.len() && 0 <= i2 < comps[c2]@.len()
            && #[trigger] comps[c1]@[i1] == #[trigger] comps[c2]@[i2] ==> c1 == c2 && i1 == i2
}

/// No edge leaves a part: both ends of every edge stand in the same one.
pub open spec fn edges_stay_inside(comps: Seq<Vec<usize>>, edges: Seq<WeightedEdge>) -> bool {
    forall|k: int| 0 <= k < edges.len() ==> exists|c: int|
        #[trigger] in_component(comps, c, (#[trigger] edges[k]).a) && in_component(comps, c, edges[k].b)
}

/// Relies on petgraph::algo::kosaraju_scc, run on an undirected
/// petgraph::Graph with nodes `0..n` and the given edges: it returns the
/// strongly connected components, which for an undirected graph are the
/// connected components. They split the nodes, and no edge joins two of
/// them.
#[verifier::external_body]
fn petgraph_components(n: usize, edges: &Vec<WeightedEdge>) -> (r: Vec<Vec<usize>>)
    requires
        forall|k: int| 0 <= k < edges@.len() ==> (#[trigger] edges@[k]).a < n && edges@[k].b < n,
    ensures
        is_partition(r@, n as nat),
        edges_stay_inside(r@, edges@),
{
    let mut g = petgraph::Graph::<(), (), petgraph::Undirected, usize>::with_capacity(n, edges.len());
    for _ in 0..n {
        g.add_node(());
    }
    for e in edges.iter() {
        g.add_edge(petgraph::graph::NodeIndex::new(e.a), petgraph::graph::NodeIndex::new(e.b), ());
    }
    let sccs = petgraph::algo::kosaraju_scc(&g);
    sccs.into_iter().map(|c| c.into_iter().map(|v| v.index()).collect()).collect()
}

/// The connected components of `g`: every node stands in exactly one, and
/// the two ends of each edge stand in the same one.
pub fn find_components(g: &Graph) -> (r: Vec<Vec<usize>>)
    requires
        g.wf(),
    ensures
        is_partition(r@, g@.labels.len()),
        edges_stay_inside(r@, g@.edges),
{
    petgraph_components(g.node_count(), g.edges())
}

} // verus!
