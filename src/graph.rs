//! The undirected graph: string-labelled nodes and weighted edges, with at
//! most one edge between any two nodes.
//!
//! A weight is held as an order key: an unsigned integer whose order is the
//! order of the weights it stands for, so that the filter on weights is a
//! comparison of keys. Unweighted graphs give every edge the same key.
use vstd::prelude::*;

verus! {

/// An edge between nodes `a` and `b` (in either direction) with the order
/// key of its weight.
#[derive(Clone, Copy, Debug, PartialEq, Eq, Structural)]
pub struct WeightedEdge {
    pub a: usize,
    pub b: usize,
    pub weight: u64,
}

/// The edge joins `x` and `y`, taken as an unordered pair.
pub open spec fn joins(e: WeightedEdge, x: int, y: int) -> bool {
    (e.a == x && e.b == y) || (e.a == y && e.b == x)
}

/// Some edge of `edges` joins `x` and `y`.
pub open spec fn has_edge(edges: Seq<WeightedEdge>, x: int, y: int) -> bool {
    exists|i: int| 0 <= i < edges.len() && #[trigger] joins(edges[i], x, y)
}

/// Every edge ends at nodes below `n`, and no two edges join the same pair.
pub open spec fn edges_wf(edges: Seq<WeightedEdge>, n: nat) -> bool {
    &&& forall|i: int| 0 <= i < edges.len() ==> (#[trigger] edges[i]).a < n && edges[i].b < n
    &&& forall|i: int, j: int|
        0 <= i < j < edges.len() ==> !joins(#[trigger] edges[i], edges[j].a as int, #[trigger] edges[j].b as int)
}

pub ghost struct GraphView {
    pub labels: Seq<Seq<char>>,
    pub edges: Seq<WeightedEdge>,
}

impl GraphView {
    pub open spec fn wf(self) -> bool {
        edges_wf(self.edges, self.labels.len())
    }
}

/// An undirected graph whose nodes are numbered from zero in the order they
/// were added.
pub struct Graph {
    labels: Vec<String>,
    edges: Vec<WeightedEdge>,
}

impl View for Graph {
    type V = GraphView;

    closed spec fn view(&self) -> GraphView {
        GraphView { labels: self.labels@.map_values(|s: String| s@), edges: self.edges@ }
    }
}

impl Graph {
    pub open spec fn wf(&self) -> bool {
        self@.wf()
    }

    /// An empty graph.
    pub fn new() -> (g: Graph)
        ensures
            g.wf(),
            g@.labels.len() == 0,
            g@.edges.len() == 0,
    {
        let g = Graph { labels: Vec::new(), edges: Vec::new() };
        assert(g@.labels =~= Seq::<Seq<char>>::empty());
        g
    }

    pub fn node_count(&self) -> (r: usize)
        ensures
            r == self@.labels.len(),
    {
        self.labels.len()
    }

    pub fn edge_count(&self) -> (r: usize)
        ensures
            r == self@.edges.len(),
    {
        self.edges.len()
    }

    /// The label of node `id`.
    pub fn label(&self, id: usize) -> (r: &String)
        requires
            id < self@.labels.len(),
        ensures
            r@ == self@.labels[id as int],
    {
        &self.labels[id]
    }

    /// The edges, in the order they were added.
    pub fn edges(&self) -> (r: &Vec<WeightedEdge>)
        ensures
            r@ == self@.edges,
    {
        &self.edges
    }

    /// Adds a node with the given label and returns its number. Labels are
    /// not checked for uniqueness here: see `node_for_label`.
    pub fn add_node(&mut self, label: String) -> (id: usize)
        requires
            old(self).wf(),
        ensures
            final(self).wf(),
            id == old(self)@.labels.len(),
            final(self)@.labels == old(self)@.labels.push(label@),
            final(self)@.edges == old(self)@.edges,
    {
        let id = self.labels.len();
        self.labels.push(label);
        proof {
            assert(self@.labels =~= old(self)@.labels.push(label@));
        }
        id
    }

    /// Whether an edge joins `x` and `y`, in either direction.
    pub fn contains_edge(&self, x: usize, y: usize) -> (r: bool)
        ensures
            r == has_edge(self@.edges, x as int, y as int),
    {
        self.find_edge(x, y).is_some()
    }

    /// The position of the edge that joins `x` and `y`, if there is one.
    pub fn find_edge(&self, x: usize, y: usize) -> (r: Option<usize>)
        ensures
            r.is_none() <==> !has_edge(self@.edges, x as int, y as int),
            r matches Some(i) ==> i < self@.edges.len() && joins(self@.edges[i as int], x as int, y as int),
    {
        let mut i: usize = 0;
        while i < self.edges.len()
            invariant
                i <= self.edges.len(),
                forall|k: int| 0 <= k < i ==> !joins(#[trigger] self.edges@[k], x as int, y as int),
            decreases self.edges.len() - i,
        {
            let e = self.edges[i];
            if (e.a == x && e.b == y) || (e.a == y && e.b == x) {
                assert(joins(self@.edges[i as int], x as int, y as int));
                return Some(i);
            }
            i = i + 1;
        }
        None
    }

    /// Adds an edge between `x` and `y` unless one already joins them.
    /// Returns whether the edge was added.
    pub fn add_edge(&mut self, x: usize, y: usize, weight: u64) -> (added: bool)
        requires
            old(self).wf(),
            x < old(self)@.labels.len(),
            y < old(self)@.labels.len(),
        ensures
            final(self).wf(),
            added == !has_edge(old(self)@.edges, x as int, y as int),
            final(self)@.labels == old(self)@.labels,
            final(self)@.edges == if added {
                old(self)@.edges.push(WeightedEdge { a: x, b: y, weight })
            } else {
                old(self)@.edges
            },
    {
        if self.contains_edge(x, y) {
            return false;
        }
        let ghost old_edges = self.edges@;
        self.edges.push(WeightedEdge { a: x, b: y, weight });
        proof {
            let edges = self.edges@;
            assert forall|i: int, j: int|
                0 <= i < j < edges.len() implies !joins(#[trigger] edges[i], edges[j].a as int, #[trigger] edges[j].b as int) by {
                if j == edges.len() - 1 {
                    if joins(edges[i], x as int, y as int) {
                        assert(joins(old_edges[i], x as int, y as int));
                    }
                } else {
                    assert(edges[i] == old_edges[i] && edges[j] == old_edges[j]);
                }
            }
            assert(self@.labels == old(self)@.labels);
        }
        true
    }

    /// The order key of the weight of the edge that joins `x` and `y`.
    pub fn edge_weight(&self, x: usize, y: usize) -> (r: Option<u64>)
        ensures
            r.is_none() <==> !has_edge(self@.edges, x as int, y as int),
            r matches Some(w) ==> exists|i: int|
                0 <= i < self@.edges.len() && joins(#[trigger] self@.edges[i], x as int, y as int)
                    && self@.edges[i].weight == w,
    {
        match self.find_edge(x, y) {
            Some(i) => Some(self.edges[i].weight),
            None => None,
        }
    }

    /// The nodes joined to `x` by an edge, each once.
    pub fn neighbors(&self, x: usize) -> (r: Vec<usize>)
        requires
            self.wf(),
        ensures
            r@.no_duplicates(),
            forall|y: usize| #[trigger] r@.contains(y) <==> has_edge(self@.edges, x as int, y as int),
    {
        let mut r: Vec<usize> = Vec::new();
        let mut i: usize = 0;
        while i < self.edges.len()
            invariant
                i <= self.edges.len(),
                self@.wf(),
                r@.no_duplicates(),
                forall|y: usize| #[trigger] r@.contains(y) <==> exists|k: int|
                    0 <= k < i && #[trigger] joins(self.edges@[k], x as int, y as int),
            decreases self.edges.len() - i,
        {
            let e = self.edges[i];
            let ghost before = r@;
            if e.a == x || e.b == x {
                let y = if e.a == x { e.b } else { e.a };
                proof {
                    assert(joins(e, x as int, y as int));
                    if before.contains(y) {
                        let k = choose|k: int| 0 <= k < i && #[trigger] joins(self.edges@[k], x as int, y as int);
                        assert(!joins(self.edges@[k], e.a as int, e.b as int));
                        assert(false);
                    }
                }
                r.push(y);
            }
            proof {
                assert forall|y: usize| #[trigger] r@.contains(y) <==> exists|k: int|
                    0 <= k < i + 1 && #[trigger] joins(self.edges@[k], x as int, y as int) by {
                    if joins(self.edges@[i as int], x as int, y as int) {
                        assert(r@.contains(y)) by {
                            assert(r@[r@.len() - 1] == y);
                        }
                    }
                    if r@.contains(y) && !before.contains(y) {
                        assert(joins(self.edges@[i as int], x as int, y as int));
                    }
                    if before.contains(y) {
                        let p = choose|p: int| 0 <= p < before.len() && before[p] == y;
                        assert(r@[p] == y);
                    }
                }
            }
            i = i + 1;
        }
        r
    }

    /// The number of the node labelled `label`, adding such a node if there
    /// is none. Labels added only through this function stay distinct.
    pub fn node_for_label(&mut self, label: &String) -> (id: usize)
        requires
            old(self).wf(),
        ensures
            final(self).wf(),
            final(self)@.edges == old(self)@.edges,
            final(self)@.labels == if old(self)@.labels.contains(label@) {
                old(self)@.labels
            } else {
                old(self)@.labels.push(label@)
            },
            id < final(self)@.labels.len(),
            final(self)@.labels[id as int] == label@,
            old(self)@.labels.contains(label@) ==> old(self)@.labels[id as int] == label@,
    {
        let mut i: usize = 0;
        while i < self.labels.len()
            invariant
                i <= self.labels.len(),
                self@ == old(self)@,
                old(self).wf(),
                forall|k: int| 0 <= k < i ==> self@.labels[k] != label@,
            decreases self.labels.len() - i,
        {
            if self.labels[i] == *label {
                assert(self@.labels[i as int] == label@);
                return i;
            }
            i = i + 1;
        }
        self.add_node(label.clone())
    }

    /// The graph of the given nodes and edges. Each distinct label becomes
    /// one node, numbered in order of first appearance, first in `nodes`
    /// and then in `edges`. Each edge `(p, q, w)` joins the nodes labelled
    /// `p` and `q`; an edge between a pair that an earlier edge already
    /// joins is dropped, so the weight of a pair is that of its first edge.
    pub fn from_parts(nodes: &Vec<String>, edges: &Vec<(String, String, u64)>) -> (g: Graph)
        ensures
            g.wf(),
            g@.labels == first_appearances(label_views(nodes@) + edge_ends(edges@)),
            g@.labels.no_duplicates(),
            forall|l: Seq<char>| #[trigger] g@.labels.contains(l) <==> (in_labels(nodes@, l)
                || mentioned(edges@, edges@.len() as int, l)),
            forall|x: int, y: int|
                0 <= x < g@.labels.len() && 0 <= y < g@.labels.len() ==> (has_edge(g@.edges, x, y)
                    <==> joined_before(edges@, edges@.len() as int, g@.labels[x], g@.labels[y])),
            forall|k: int|
                0 <= k < g@.edges.len() ==> first_weight(
                    edges@,
                    edges@.len() as int,
                    g@.labels[(#[trigger] g@.edges[k]).a as int],
                    g@.labels[g@.edges[k].b as int],
                    g@.edges[k].weight,
                ),
    {
        let mut g = Graph::new();
        let mut i: usize = 0;
        while i < nodes.len()
            invariant
                i <= nodes.len(),
                g.wf(),
                g@.labels.no_duplicates(),
                g@.edges.len() == 0,
                g@.labels == first_appearances(label_views(nodes@.subrange(0, i as int))),
                forall|l: Seq<char>| #[trigger] g@.labels.contains(l) <==> in_labels(nodes@.subrange(0, i as int), l),
            decreases nodes.len() - i,
        {
            let ghost before = g@.labels;
            g.node_for_label(&nodes[i]);
            proof {
                assert(label_views(nodes@.subrange(0, i as int + 1)) =~= label_views(nodes@.subrange(0, i as int)).push(nodes@[i as int]@));
                lemma_first_appearances_push(label_views(nodes@.subrange(0, i as int)), nodes@[i as int]@);
                if !before.contains(nodes@[i as int]@) {
                    lemma_push_no_dup(before, nodes@[i as int]@);
                }
                assert forall|l: Seq<char>| #[trigger] g@.labels.contains(l) <==> in_labels(nodes@.subrange(0, i as int + 1), l) by {
                    let sub = nodes@.subrange(0, i as int + 1);
                    if g@.labels.contains(l) && l != nodes@[i as int]@ {
                        assert(before.contains(l));
                        let k = choose|k: int| 0 <= k < i && nodes@.subrange(0, i as int)[k]@ == l;
                        assert(sub[k]@ == l);
                    }
                    if l == nodes@[i as int]@ {
                        assert(sub[i as int]@ == l);
                        if !before.contains(l) {
                            assert(g@.labels[before.len() as int] == l);
                        }
                    }
                    if in_labels(sub, l) && l != nodes@[i as int]@ {
                        let k = choose|k: int| 0 <= k < sub.len() && sub[k]@ == l;
                        assert(nodes@.subrange(0, i as int)[k]@ == l);
                        assert(before.contains(l));
                        let p = choose|p: int| 0 <= p < before.len() && before[p] == l;
                        assert(g@.labels[p] == l);
                    }
                }
            }
            i = i + 1;
        }
        assert(nodes@.subrange(0, nodes.len() as int) =~= nodes@);
        assert(label_views(nodes@) + edge_ends(edges@.subrange(0, 0)) =~= label_views(nodes@));
        let mut t: usize = 0;
        while t < edges.len()
            invariant
                t <= edges.len(),
                g.wf(),
                g@.labels.no_duplicates(),
                g@.labels == first_appearances(label_views(nodes@) + edge_ends(edges@.subrange(0, t as int))),
                forall|l: Seq<char>| #[trigger] g@.labels.contains(l) <==> (in_labels(nodes@, l)
                    || mentioned(edges@, t as int, l)),
                forall|x: int, y: int|
                    0 <= x < g@.labels.len() && 0 <= y < g@.labels.len() ==> (has_edge(g@.edges, x, y)
                        <==> joined_before(edges@, t as int, g@.labels[x], g@.labels[y])),
                forall|k: int|
                    0 <= k < g@.edges.len() ==> first_weight(
                        edges@,
                        t as int,
                        g@.labels[(#[trigger] g@.edges[k]).a as int],
                        g@.labels[g@.edges[k].b as int],
                        g@.edges[k].weight,
                    ),
            decreases edges.len() - t,
        {
            let ghost g0 = g@;
            let a = g.node_for_label(&edges[t].0);
            let ghost g1 = g@;
            proof {
                lemma_contains_after_add(g0.labels, g1.labels, edges@[t as int].0@);
                if !g0.labels.contains(edges@[t as int].0@) {
                    lemma_push_no_dup(g0.labels, edges@[t as int].0@);
                }
                lemma_grow_labels(edges@, t as int, g0, g1);
            }
            let b = g.node_for_label(&edges[t].1);
            let ghost g2 = g@;
            proof {
                lemma_contains_after_add(g1.labels, g2.labels, edges@[t as int].1@);
                if !g1.labels.contains(edges@[t as int].1@) {
                    lemma_push_no_dup(g1.labels, edges@[t as int].1@);
                }
                lemma_grow_labels(edges@, t as int, g1, g2);
            }
            let added = g.add_edge(a, b, edges[t].2);
            proof {
                let pre = label_views(nodes@) + edge_ends(edges@.subrange(0, t as int));
                let e = edges@[t as int];
                assert(edges@.subrange(0, t as int + 1).drop_last() =~= edges@.subrange(0, t as int));
                assert(label_views(nodes@) + edge_ends(edges@.subrange(0, t as int + 1)) =~= pre.push(e.0@).push(e.1@));
                lemma_first_appearances_push(pre, e.0@);
                lemma_first_appearances_push(pre.push(e.0@), e.1@);
                lemma_add_edge_step(nodes@, edges@, t as int, g2, g@, a, b, added);
            }
            t = t + 1;
        }
        assert(edges@.subrange(0, edges.len() as int) =~= edges@);
        g
    }
}

/// The views of the strings of `s`.
pub open spec fn label_views(s: Seq<String>) -> Seq<Seq<char>> {
    s.map_values(|x: String| x@)
}

/// The ends of the edges, in order: both ends of the first edge, then both
/// ends of the second, and so on.
pub open spec fn edge_ends(edges: Seq<(String, String, u64)>) -> Seq<Seq<char>>
    decreases edges.len(),
{
    if edges.len() == 0 {
        seq![]
    } else {
        edge_ends(edges.drop_last()) + seq![edges.last().0@, edges.last().1@]
    }
}

/// The distinct labels of `s`, each where it first appears.
pub open spec fn first_appearances(s: Seq<Seq<char>>) -> Seq<Seq<char>>
    decreases s.len(),
{
    if s.len() == 0 {
        seq![]
    } else {
        let d = first_appearances(s.drop_last());
        if d.contains(s.last()) {
            d
        } else {
            d.push(s.last())
        }
    }
}

proof fn lemma_first_appearances_push(s: Seq<Seq<char>>, l: Seq<char>)
    ensures
        first_appearances(s.push(l)) == if first_appearances(s).contains(l) {
            first_appearances(s)
        } else {
            first_appearances(s).push(l)
        },
{
    assert(s.push(l).drop_last() =~= s);
}

/// Some string of `s` has the view `l`.
pub open spec fn in_labels(s: Seq<String>, l: Seq<char>) -> bool {
    exists|k: int| 0 <= k < s.len() && (#[trigger] s[k])@ == l
}

/// `l` is an end of edge `e`.
pub open spec fn end_is(e: (String, String, u64), l: Seq<char>) -> bool {
    e.0@ == l || e.1@ == l
}

/// One of the first `t` edges has `l` as an end.
pub open spec fn mentioned(edges: Seq<(String, String, u64)>, t: int, l: Seq<char>) -> bool {
    exists|k: int| 0 <= k < t && #[trigger] end_is(edges[k], l)
}

/// Edge `e` joins the labels `p` and `q`, taken as an unordered pair.
pub open spec fn edge_joins(e: (String, String, u64), p: Seq<char>, q: Seq<char>) -> bool {
    (e.0@ == p && e.1@ == q) || (e.0@ == q && e.1@ == p)
}

/// One of the first `t` edges joins `p` and `q`.
pub open spec fn joined_before(edges: Seq<(String, String, u64)>, t: int, p: Seq<char>, q: Seq<char>) -> bool {
    exists|k: int| 0 <= k < t && #[trigger] edge_joins(edges[k], p, q)
}

/// `w` is the weight of the first of the first `t` edges that joins `p`
/// and `q`.
pub open spec fn first_weight(edges: Seq<(String, String, u64)>, t: int, p: Seq<char>, q: Seq<char>, w: u64) -> bool {
    exists|k: int|
        0 <= k < t && #[trigger] edge_joins(edges[k], p, q) && edges[k].2 == w && !joined_before(edges, k, p, q)
}

proof fn lemma_contains_after_add(s0: Seq<Seq<char>>, s1: Seq<Seq<char>>, l: Seq<char>)
    requires
        s1 == if s0.contains(l) {
            s0
        } else {
            s0.push(l)
        },
    ensures
        forall|m: Seq<char>| #[trigger] s1.contains(m) <==> (s0.contains(m) || m == l),
{
    assert forall|m: Seq<char>| #[trigger] s1.contains(m) <==> (s0.contains(m) || m == l) by {
        if !s0.contains(l) {
            if s0.contains(m) {
                let k = choose|k: int| 0 <= k < s0.len() && s0[k] == m;
                assert(s1[k] == m);
            }
            if m == l {
                assert(s1[s0.len() as int] == m);
            }
            if s1.contains(m) && m != l {
                let k = choose|k: int| 0 <= k < s1.len() && s1[k] == m;
                assert(s0[k] == m);
            }
        }
    }
}

proof fn lemma_push_no_dup(s: Seq<Seq<char>>, l: Seq<char>)
    requires
        s.no_duplicates(),
        !s.contains(l),
    ensures
        s.push(l).no_duplicates(),
{
    let t = s.push(l);
    assert forall|i: int, j: int| 0 <= i < t.len() && 0 <= j < t.len() && i != j implies t[i] != t[j] by {
        if i == s.len() {
            assert(s[j] == t[j]);
        } else if j == s.len() {
            assert(s[i] == t[i]);
        }
    }
}

/// Adding the node for an end of edge `t` keeps the facts about the first
/// `t` edges.
proof fn lemma_grow_labels(edges: Seq<(String, String, u64)>, t: int, g0: GraphView, g1: GraphView)
    requires
        g1.edges == g0.edges,
        g1.labels == g0.labels || (g1.labels == g0.labels.push(g1.labels.last()) && !g0.labels.contains(g1.labels.last())),
        forall|l: Seq<char>| mentioned(edges, t, l) ==> #[trigger] g0.labels.contains(l),
        forall|x: int, y: int|
            0 <= x < g0.labels.len() && 0 <= y < g0.labels.len() ==> (has_edge(g0.edges, x, y)
                <==> joined_before(edges, t, g0.labels[x], g0.labels[y])),
        g0.wf(),
    ensures
        forall|x: int, y: int|
            0 <= x < g1.labels.len() && 0 <= y < g1.labels.len() ==> (has_edge(g1.edges, x, y)
                <==> joined_before(edges, t, g1.labels[x], g1.labels[y])),
{
    assert forall|x: int, y: int|
        0 <= x < g1.labels.len() && 0 <= y < g1.labels.len() implies (has_edge(g1.edges, x, y)
            <==> joined_before(edges, t, g1.labels[x], g1.labels[y])) by {
        if x < g0.labels.len() && y < g0.labels.len() {
            assert(g1.labels[x] == g0.labels[x] && g1.labels[y] == g0.labels[y]);
        } else {
            let n = g0.labels.len();
            let fresh = g1.labels.last();
            assert(g1.labels.len() == n + 1);
            if has_edge(g1.edges, x, y) {
                let k = choose|k: int| 0 <= k < g1.edges.len() && #[trigger] joins(g1.edges[k], x, y);
                assert(g0.edges[k].a < n && g0.edges[k].b < n);
            }
            if joined_before(edges, t, g1.labels[x], g1.labels[y]) {
                let k = choose|k: int| 0 <= k < t && #[trigger] edge_joins(edges[k], g1.labels[x], g1.labels[y]);
                assert(end_is(edges[k], fresh));
                assert(mentioned(edges, t, fresh));
            }
        }
    }
}

proof fn lemma_add_edge_step(
    nodes: Seq<String>,
    edges: Seq<(String, String, u64)>,
    t: int,
    g2: GraphView,
    g3: GraphView,
    a: usize,
    b: usize,
    added: bool,
)
    requires
        0 <= t < edges.len(),
        a < g2.labels.len(),
        b < g2.labels.len(),
        g2.labels[a as int] == edges[t].0@,
        g2.labels[b as int] == edges[t].1@,
        g3.labels == g2.labels,
        added == !has_edge(g2.edges, a as int, b as int),
        g3.edges == if added {
            g2.edges.push(WeightedEdge { a, b, weight: edges[t].2 })
        } else {
            g2.edges
        },
        g2.wf(),
        g3.wf(),
        forall|l: Seq<char>| #[trigger] g2.labels.contains(l) <==> (in_labels(nodes, l)
            || mentioned(edges, t, l) || l == edges[t].0@ || l == edges[t].1@),
        forall|x: int, y: int|
            0 <= x < g2.labels.len() && 0 <= y < g2.labels.len() ==> (has_edge(g2.edges, x, y)
                <==> joined_before(edges, t, g2.labels[x], g2.labels[y])),
        forall|k: int|
            0 <= k < g2.edges.len() ==> first_weight(
                edges,
                t,
                g2.labels[(#[trigger] g2.edges[k]).a as int],
                g2.labels[g2.edges[k].b as int],
                g2.edges[k].weight,
            ),
        g2.labels.no_duplicates(),
    ensures
        forall|l: Seq<char>| #[trigger] g3.labels.contains(l) <==> (in_labels(nodes, l)
            || mentioned(edges, t + 1, l)),
        forall|x: int, y: int|
            0 <= x < g3.labels.len() && 0 <= y < g3.labels.len() ==> (has_edge(g3.edges, x, y)
                <==> joined_before(edges, t + 1, g3.labels[x], g3.labels[y])),
        forall|k: int|
            0 <= k < g3.edges.len() ==> first_weight(
                edges,
                t + 1,
                g3.labels[(#[trigger] g3.edges[k]).a as int],
                g3.labels[g3.edges[k].b as int],
                g3.edges[k].weight,
            ),
{
    let p = edges[t].0@;
    let q = edges[t].1@;
    assert(edge_joins(edges[t], p, q));
    assert forall|l: Seq<char>| #[trigger] g3.labels.contains(l) <==> (in_labels(nodes, l)
        || mentioned(edges, t + 1, l)) by {
        if mentioned(edges, t + 1, l) {
            let k = choose|k: int| 0 <= k < t + 1 && #[trigger] end_is(edges[k], l);
            if k < t {
                assert(mentioned(edges, t, l));
            }
        }
        if mentioned(edges, t, l) {
            let k = choose|k: int| 0 <= k < t && #[trigger] end_is(edges[k], l);
            assert(mentioned(edges, t + 1, l));
        }
        if l == p || l == q {
            assert(end_is(edges[t], l));
            assert(mentioned(edges, t + 1, l));
        }
    }
    assert forall|x: int, y: int|
        0 <= x < g3.labels.len() && 0 <= y < g3.labels.len() implies (has_edge(g3.edges, x, y)
            <==> joined_before(edges, t + 1, g3.labels[x], g3.labels[y])) by {
        let lx = g3.labels[x];
        let ly = g3.labels[y];
        if joined_before(edges, t, lx, ly) {
            let k = choose|k: int| 0 <= k < t && #[trigger] edge_joins(edges[k], lx, ly);
            assert(joined_before(edges, t + 1, lx, ly));
            assert(has_edge(g2.edges, x, y));
            let m = choose|m: int| 0 <= m < g2.edges.len() && #[trigger] joins(g2.edges[m], x, y);
            assert(g3.edges[m] == g2.edges[m]);
            assert(joins(g3.edges[m], x, y));
        }
        if edge_joins(edges[t], lx, ly) {
            assert(joined_before(edges, t + 1, lx, ly));
            // the labels are distinct, so x and y are a and b in some order
            assert(joins(WeightedEdge { a, b, weight: 0 }, x, y)) by {
                if lx == p && ly == q {
                    assert(g2.labels[x] == g2.labels[a as int]);
                    assert(x == a);
                    assert(g2.labels[y] == g2.labels[b as int]);
                    assert(y == b);
                } else {
                    assert(g2.labels[x] == g2.labels[b as int]);
                    assert(x == b);
                    assert(g2.labels[y] == g2.labels[a as int]);
                    assert(y == a);
                }
            }
            if added {
                let n = g2.edges.len() as int;
                assert(joins(g3.edges[n], x, y));
            } else {
                let k = choose|k: int| 0 <= k < g2.edges.len() && #[trigger] joins(g2.edges[k], a as int, b as int);
                assert(joins(g3.edges[k], x, y));
            }
        }
        if joined_before(edges, t + 1, lx, ly) {
            let k = choose|k: int| 0 <= k < t + 1 && #[trigger] edge_joins(edges[k], lx, ly);
            if k < t {
                assert(joined_before(edges, t, lx, ly));
            }
        }
        if has_edge(g3.edges, x, y) {
            let k = choose|k: int| 0 <= k < g3.edges.len() && #[trigger] joins(g3.edges[k], x, y);
            if k < g2.edges.len() {
                assert(joins(g2.edges[k], x, y));
                assert(has_edge(g2.edges, x, y));
                assert(joined_before(edges, t, lx, ly));
                let m = choose|m: int| 0 <= m < t && #[trigger] edge_joins(edges[m], lx, ly);
                assert(joined_before(edges, t + 1, lx, ly));
            } else {
                assert(edge_joins(edges[t], lx, ly));
                assert(joined_before(edges, t + 1, lx, ly));
            }
        }
    }
    assert forall|k: int| 0 <= k < g3.edges.len() implies first_weight(
        edges,
        t + 1,
        g3.labels[(#[trigger] g3.edges[k]).a as int],
        g3.labels[g3.edges[k].b as int],
        g3.edges[k].weight,
    ) by {
        let lx = g3.labels[g3.edges[k].a as int];
        let ly = g3.labels[g3.edges[k].b as int];
        if k < g2.edges.len() {
            assert(g3.edges[k] == g2.edges[k]);
            let m = choose|m: int|
                0 <= m < t && #[trigger] edge_joins(edges[m], lx, ly) && edges[m].2 == g3.edges[k].weight
                    && !joined_before(edges, m, lx, ly);
            assert(0 <= m < t + 1);
        } else {
            assert(g3.edges[k].a == a && g3.edges[k].b == b);
            assert(!joined_before(edges, t, lx, ly)) by {
                if joined_before(edges, t, lx, ly) {
                    assert(has_edge(g2.edges, a as int, b as int));
                }
            }
            assert(edge_joins(edges[t], lx, ly));
        }
    }
}

/// The edges of a line that lists nodes: every pair of its labels, the
/// earlier label first, in order of the earlier label and then of the
/// later one, all with weight `w`.
pub open spec fn line_pairs(s: Seq<String>, i: int, w: u64) -> Seq<(String, String, u64)>
    decreases s.len() - i,
{
    if 0 <= i < s.len() {
        s.subrange(i + 1, s.len() as int).map_values(|t: String| (s[i], t, w)) + line_pairs(s, i + 1, w)
    } else {
        seq![]
    }
}

/// The edges of a line of node labels (see `line_pairs`): one for each
/// pair of its labels.
pub fn line_edges(tokens: &Vec<String>, w: u64) -> (r: Vec<(String, String, u64)>)
    ensures
        r@ == line_pairs(tokens@, 0, w),
{
    let mut r: Vec<(String, String, u64)> = Vec::new();
    let n = tokens.len();
    let mut i: usize = 0;
    while i < n
        invariant
            n == tokens.len(),
            i <= n,
            r@ + line_pairs(tokens@, i as int, w) == line_pairs(tokens@, 0, w),
        decreases n - i,
    {
        let ghost r0 = r@;
        let mut j: usize = i + 1;
        while j < n
            invariant
                n == tokens.len(),
                i < n,
                i + 1 <= j <= n,
                r@ == r0 + tokens@.subrange(i as int + 1, j as int).map_values(|t: String| (tokens@[i as int], t, w)),
            decreases n - j,
        {
            r.push((tokens[i].clone(), tokens[j].clone(), w));
            proof {
                let f = |t: String| (tokens@[i as int], t, w);
                assert(tokens@.subrange(i as int + 1, j as int + 1).map_values(f) =~= tokens@.subrange(
                    i as int + 1,
                    j as int,
                ).map_values(f).push(f(tokens@[j as int])));
                assert(r@ =~= r0 + tokens@.subrange(i as int + 1, j as int + 1).map_values(f));
            }
            j = j + 1;
        }
        proof {
            let f = |t: String| (tokens@[i as int], t, w);
            let part = tokens@.subrange(i as int + 1, n as int).map_values(f);
            assert(line_pairs(tokens@, i as int, w) == part + line_pairs(tokens@, i as int + 1, w));
            assert(r0 + line_pairs(tokens@, i as int, w) =~= r@ + line_pairs(tokens@, i as int + 1, w));
        }
        i = i + 1;
    }
    assert(r@ =~= r@ + line_pairs(tokens@, n as int, w));
    r
}

} // verus!
