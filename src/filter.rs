//! The filter on edge weights, shared by the spring forces of the layout and
//! by the drawing of edges, and the node pairs that springs pull together.
use vstd::prelude::*;
use crate::graph::{Graph, GraphView, WeightedEdge, joins};

verus! {

/// Which edges take part in the layout and are drawn. In an unweighted
/// graph every edge does; in a weighted one, those whose weight key is at
/// least `min_weight`, or all of them while no minimum is set.
#[derive(Clone, Copy, Debug, PartialEq, Eq, Structural)]
pub struct WeightFilter {
    pub weighted: bool,
    pub min_weight: Option<u64>,
}

pub open spec fn passes(f: WeightFilter, w: u64) -> bool {
    !f.weighted || match f.min_weight {
        None => true,
        Some(m) => w >= m,
    }
}

/// Some edge of `edges` joins `u` and `v` and passes the filter.
pub open spec fn spring_edge(edges: Seq<WeightedEdge>, f: WeightFilter, u: usize, v: usize) -> bool {
    exists|k: int| 0 <= k < edges.len() && #[trigger] joins(edges[k], u as int, v as int) && passes(f, edges[k].weight)
}

/// The spring from `u` to `v` acts in component `comp` of graph `g`.
pub open spec fn spring_in(g: GraphView, comp: Seq<usize>, f: WeightFilter, u: usize, v: usize) -> bool {
    comp.contains(u) && comp.contains(v) && spring_edge(g.edges, f, u, v)
}

impl WeightFilter {
    /// A filter that lets every edge through.
    pub fn new(weighted: bool) -> (r: WeightFilter)
        ensures
            r.weighted == weighted,
            r.min_weight.is_none(),
            forall|w: u64| passes(r, w),
    {
        WeightFilter { weighted, min_weight: None }
    }

    /// Sets the smallest weight key that passes.
    pub fn set_min_weight(&mut self, m: u64)
        ensures
            *final(self) == (WeightFilter { min_weight: Some(m), ..*old(self) }),
    {
        self.min_weight = Some(m);
    }

    /// Whether an edge of weight key `w` passes.
    pub fn passes(&self, w: u64) -> (r: bool)
        ensures
            r == passes(*self, w),
    {
        if !self.weighted {
            return true;
        }
        match self.min_weight {
            None => true,
            Some(m) => w >= m,
        }
    }
}

/// The positions of the edges of `g` to draw: those that pass `f`, in order.
pub fn visible_edges(g: &Graph, f: WeightFilter) -> (r: Vec<usize>)
    ensures
        forall|i: int, j: int| 0 <= i < j < r@.len() ==> r@[i] < r@[j],
        forall|k: usize| #[trigger] r@.contains(k) <==> (k < g@.edges.len() && passes(f, g@.edges[k as int].weight)),
{
    let edges = g.edges();
    let mut r: Vec<usize> = Vec::new();
    let mut k: usize = 0;
    while k < edges.len()
        invariant
            k <= edges.len(),
            edges@ == g@.edges,
            forall|i: int, j: int| 0 <= i < j < r@.len() ==> r@[i] < r@[j],
            forall|i: int| 0 <= i < r@.len() ==> r@[i] < k,
            forall|q: usize| #[trigger] r@.contains(q) <==> (q < k && passes(f, g@.edges[q as int].weight)),
        decreases edges.len() - k,
    {
        let ghost before = r@;
        if f.passes(edges[k].weight) {
            r.push(k);
        }
        proof {
            assert forall|q: usize| #[trigger] r@.contains(q) <==> (q < k + 1 && passes(f, g@.edges[q as int].weight)) by {
                if q == k && passes(f, g@.edges[q as int].weight) {
                    assert(r@[r@.len() - 1] == q);
                }
                if before.contains(q) {
                    let p = choose|p: int| 0 <= p < before.len() && before[p] == q;
                    assert(r@[p] == q);
                }
                if r@.contains(q) && !before.contains(q) {
                    let p = choose|p: int| 0 <= p < r@.len() && r@[p] == q;
                    assert(p == before.len());
                }
            }
        }
        k = k + 1;
    }
    r
}

fn vec_contains(v: &Vec<usize>, x: usize) -> (r: bool)
    ensures
        r == v@.contains(x),
{
    let mut i: usize = 0;
    while i < v.len()
        invariant
            i <= v.len(),
            forall|k: int| 0 <= k < i ==> v@[k] != x,
        decreases v.len() - i,
    {
        if v[i] == x {
            return true;
        }
        i = i + 1;
    }
    false
}

/// The nodes of `comp` that a spring from `u` pulls on, each once.
pub fn spring_partners(g: &Graph, comp: &Vec<usize>, f: WeightFilter, u: usize) -> (r: Vec<usize>)
    requires
        g.wf(),
    ensures
        r@.no_duplicates(),
        forall|v: usize| #[trigger] r@.contains(v) <==> (comp@.contains(v) && spring_edge(g@.edges, f, u, v)),
{
    let edges = g.edges();
    let mut r: Vec<usize> = Vec::new();
    let mut k: usize = 0;
    while k < edges.len()
        invariant
            k <= edges.len(),
            edges@ == g@.edges,
            g@.wf(),
            r@.no_duplicates(),
            forall|v: usize| #[trigger] r@.contains(v) <==> (comp@.contains(v) && exists|q: int|
                0 <= q < k && #[trigger] joins(edges@[q], u as int, v as int) && passes(f, edges@[q].weight)),
        decreases edges.len() - k,
    {
        let e = edges[k];
        let ghost before = r@;
        if (e.a == u || e.b == u) && f.passes(e.weight) {
            let v = if e.a == u { e.b } else { e.a };
            if vec_contains(comp, v) {
                proof {
                    assert(joins(e, u as int, v as int));
                    if before.contains(v) {
                        let q = choose|q: int|
                            0 <= q < k && #[trigger] joins(edges@[q], u as int, v as int) && passes(f, edges@[q].weight);
                        assert(!joins(edges@[q], e.a as int, e.b as int));
                        assert(false);
                    }
                }
                r.push(v);
            }
        }
        proof {
            assert forall|v: usize| #[trigger] r@.contains(v) <==> (comp@.contains(v) && exists|q: int|
                0 <= q < k + 1 && #[trigger] joins(edges@[q], u as int, v as int) && passes(f, edges@[q].weight)) by {
                if comp@.contains(v) && joins(edges@[k as int], u as int, v as int) && passes(f, edges@[k as int].weight) {
                    assert(r@[r@.len() - 1] == v);
                }
                if before.contains(v) {
                    let p = choose|p: int| 0 <= p < before.len() && before[p] == v;
                    assert(r@[p] == v);
                }
                if r@.contains(v) && !before.contains(v) {
                    let p = choose|p: int| 0 <= p < r@.len() && r@[p] == v;
                    assert(p == before.len());
                    assert(joins(edges@[k as int], u as int, v as int));
                }
            }
        }
        k = k + 1;
    }
    r
}

/// The ordered node pairs `(u, v)` of component `comp` whose spring acts
/// on `u`, each once: for every edge inside `comp` that passes `f`, one
/// pair in each direction.
pub fn spring_pairs(g: &Graph, comp: &Vec<usize>, f: WeightFilter) -> (r: Vec<(usize, usize)>)
    requires
        g.wf(),
        comp@.no_duplicates(),
    ensures
        r@.no_duplicates(),
        forall|u: usize, v: usize| #[trigger] r@.contains((u, v)) <==> spring_in(g@, comp@, f, u, v),
{
    let mut r: Vec<(usize, usize)> = Vec::new();
    let mut i: usize = 0;
    while i < comp.len()
        invariant
            i <= comp.len(),
            g.wf(),
            comp@.no_duplicates(),
            r@.no_duplicates(),
            forall|p: int| 0 <= p < r@.len() ==> comp@.subrange(0, i as int).contains((#[trigger] r@[p]).0),
            forall|u: usize, v: usize| #[trigger] r@.contains((u, v)) <==> (comp@.subrange(0, i as int).contains(u)
                && spring_in(g@, comp@, f, u, v)),
        decreases comp.len() - i,
    {
        let u = comp[i];
        let partners = spring_partners(g, comp, f, u);
        let ghost r0 = r@;
        let mut j: usize = 0;
        while j < partners.len()
            invariant
                i < comp.len(),
                u == comp@[i as int],
                j <= partners.len(),
                g.wf(),
                comp@.no_duplicates(),
                partners@.no_duplicates(),
                forall|v: usize| #[trigger] partners@.contains(v) <==> (comp@.contains(v) && spring_edge(g@.edges, f, u, v)),
                r@.no_duplicates(),
                r@.len() == r0.len() + j,
                forall|p: int| 0 <= p < r0.len() ==> r@[p] == r0[p],
                forall|p: int| 0 <= p < j ==> r@[r0.len() + p] == (u, partners@[p]),
                forall|p: int| 0 <= p < r0.len() ==> comp@.subrange(0, i as int).contains((#[trigger] r0[p]).0),
            decreases partners.len() - j,
        {
            let ghost before = r@;
            r.push((u, partners[j]));
            proof {
                assert forall|a: int, b: int| 0 <= a < r@.len() && 0 <= b < r@.len() && a != b implies r@[a] != r@[b] by {
                    if a < before.len() && b < before.len() {
                        assert(before[a] == r@[a] && before[b] == r@[b]);
                    } else {
                        let (x, y) = if a == before.len() { (b, a) } else { (a, b) };
                        // y is the new pair, x an older one
                        if x < r0.len() {
                            let w = r0[x].0;
                            assert(comp@.subrange(0, i as int).contains(w));
                            let t = choose|t: int| 0 <= t < i && comp@.subrange(0, i as int)[t] == w;
                            assert(comp@[t] == w);
                        } else {
                            let px = x - r0.len();
                            assert(r@[x] == (u, partners@[px]));
                            assert(partners@[px] != partners@[j as int]);
                        }
                    }
                }
            }
            j = j + 1;
        }
        proof {
            let sub = comp@.subrange(0, i as int + 1);
            assert(sub =~= comp@.subrange(0, i as int).push(u));
            assert forall|p: int| 0 <= p < r@.len() implies sub.contains((#[trigger] r@[p]).0) by {
                if p < r0.len() {
                    assert(r@[p] == r0[p]);
                    let w = r0[p].0;
                    assert(comp@.subrange(0, i as int).contains(w));
                    let t = choose|t: int| 0 <= t < i && comp@.subrange(0, i as int)[t] == w;
                    assert(sub[t] == w);
                } else {
                    let q = p - r0.len();
                    assert(r@[r0.len() + q] == (u, partners@[q]));
                    assert(sub[i as int] == u);
                }
            }
            assert forall|x: usize, y: usize| #[trigger] r@.contains((x, y)) <==> (sub.contains(x)
                && spring_in(g@, comp@, f, x, y)) by {
                if r@.contains((x, y)) {
                    let p = choose|p: int| 0 <= p < r@.len() && r@[p] == (x, y);
                    if p < r0.len() {
                        assert(r0[p] == (x, y));
                        assert(r0.contains((x, y)));
                        let t = choose|t: int| 0 <= t < i && comp@.subrange(0, i as int)[t] == x;
                        assert(sub[t] == x);
                    } else {
                        let q = p - r0.len();
                        assert(partners@[q] == y);
                        assert(partners@.contains(y));
                        assert(x == u);
                        assert(sub[i as int] == x);
                        assert(comp@[i as int] == u);
                    }
                }
                if sub.contains(x) && spring_in(g@, comp@, f, x, y) {
                    let t = choose|t: int| 0 <= t < sub.len() && sub[t] == x;
                    if t < i {
                        assert(comp@.subrange(0, i as int)[t] == x);
                        assert(r0.contains((x, y)));
                        let p = choose|p: int| 0 <= p < r0.len() && r0[p] == (x, y);
                        assert(r@[p] == (x, y));
                    } else {
                        assert(x == u);
                        assert(partners@.contains(y));
                        let q = choose|q: int| 0 <= q < partners@.len() && partners@[q] == y;
                        assert(r@[r0.len() + q] == (x, y));
                    }
                }
            }
        }
        i = i + 1;
    }
    assert(comp@.subrange(0, comp.len() as int) =~= comp@);
    r
}

/// Once the minimum weight is raised above the weight of an edge, its
/// spring no longer acts, in either direction and in any component, and it
/// is no longer drawn.
pub proof fn lemma_raised_minimum_drops_edge(g: GraphView, comp: Seq<usize>, f: WeightFilter, k: int)
    requires
        g.wf(),
        0 <= k < g.edges.len(),
        f.weighted,
        f.min_weight matches Some(m) && g.edges[k].weight < m,
    ensures
        !passes(f, g.edges[k].weight),
        !spring_in(g, comp, f, g.edges[k].a, g.edges[k].b),
        !spring_in(g, comp, f, g.edges[k].b, g.edges[k].a),
{
    let e = g.edges[k];
    assert forall|q: int| 0 <= q < g.edges.len() && #[trigger] joins(g.edges[q], e.a as int, e.b as int) implies q == k by {
        if q < k {
            assert(!joins(g.edges[q], e.a as int, e.b as int));
        } else if q > k {
            assert(!joins(g.edges[k], g.edges[q].a as int, g.edges[q].b as int));
        }
    }
    assert forall|q: int| 0 <= q < g.edges.len() && #[trigger] joins(g.edges[q], e.b as int, e.a as int) implies q == k by {
        if q < k {
            assert(!joins(g.edges[q], e.a as int, e.b as int));
        } else if q > k {
            assert(!joins(g.edges[k], g.edges[q].a as int, g.edges[q].b as int));
        }
    }
}

} // verus!
