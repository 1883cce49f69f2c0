//! What the line-plot and scatter-plot widgets draw, in terms of indices:
//! which points a line joins and which axis ticks carry a label. Turning
//! indices into pixel positions is left to the drawing code.
use vstd::prelude::*;

verus! {

/// Number of intervals between the tick lines of an axis.
pub const TICK_INTERVALS: usize = 10;

/// A line plot of a series of values, in order.
pub struct Plot {}

/// A scatter plot of `(x, y)` points.
pub struct Scatter {}

/// The indices `lo..hi`.
fn index_range(lo: usize, hi: usize) -> (r: Vec<usize>)
    requires
        lo <= hi,
    ensures
        r@ == Seq::new((hi - lo) as nat, |i: int| (lo + i) as usize),
{
    let mut r: Vec<usize> = Vec::new();
    let mut k: usize = lo;
    while k < hi
        invariant
            lo <= k <= hi,
            r@ == Seq::new((k - lo) as nat, |i: int| (lo + i) as usize),
        decreases hi - k,
    {
        r.push(k);
        assert(r@ =~= Seq::new((k + 1 - lo) as nat, |i: int| (lo + i) as usize));
        k = k + 1;
    }
    r
}

impl Plot {
    pub fn new() -> (r: Plot) {
        Plot {}
    }

    /// Whether a series of `n` values draws anything: an empty one does not.
    pub fn draws(&self, n: usize) -> (r: bool)
        ensures
            r == (n > 0),
    {
        n > 0
    }

    /// The line segments of a series of `n` values: each value is joined to
    /// the next one.
    pub fn segments(&self, n: usize) -> (r: Vec<(usize, usize)>)
        ensures
            r@.len() == if n == 0 {
                0
            } else {
                n - 1
            },
            forall|i: int| 0 <= i < r@.len() ==> #[trigger] r@[i] == (i as usize, (i + 1) as usize),
    {
        let mut r: Vec<(usize, usize)> = Vec::new();
        if n == 0 {
            return r;
        }
        let mut i: usize = 0;
        while i + 1 < n
            invariant
                n > 0,
                i < n,
                r@.len() == i,
                forall|k: int| 0 <= k < r@.len() ==> #[trigger] r@[k] == (k as usize, (k + 1) as usize),
            decreases n - i,
        {
            r.push((i, i + 1));
            i = i + 1;
        }
        r
    }

    /// The ticks of the value axis, from the top one: each carries a label.
    pub fn value_ticks(&self) -> (r: Vec<usize>)
        ensures
            r@ == Seq::new((TICK_INTERVALS + 1) as nat, |i: int| i as usize),
    {
        index_range(0, TICK_INTERVALS + 1)
    }
}

impl Scatter {
    pub fn new() -> (r: Scatter) {
        Scatter {}
    }

    /// Whether a set of `n` points draws anything: an empty one does not.
    pub fn draws(&self, n: usize) -> (r: bool)
        ensures
            r == (n > 0),
    {
        n > 0
    }

    /// The tick lines of each axis.
    pub fn grid_ticks(&self) -> (r: Vec<usize>)
        ensures
            r@ == Seq::new((TICK_INTERVALS + 1) as nat, |i: int| i as usize),
    {
        index_range(0, TICK_INTERVALS + 1)
    }

    /// The ticks of the horizontal axis that carry a label: all but the
    /// last, whose label would run off the edge.
    pub fn labelled_x_ticks(&self) -> (r: Vec<usize>)
        ensures
            r@ == Seq::new(TICK_INTERVALS as nat, |i: int| i as usize),
    {
        index_range(0, TICK_INTERVALS)
    }

    /// The ticks of the vertical axis that carry a label: all of them.
    pub fn labelled_y_ticks(&self) -> (r: Vec<usize>)
        ensures
            r@ == Seq::new((TICK_INTERVALS + 1) as nat, |i: int| i as usize),
    {
        index_range(0, TICK_INTERVALS + 1)
    }
}

} // verus!
