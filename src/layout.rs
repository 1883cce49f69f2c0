//! Placement of components on a square grid, and the scheduler that decides
//! when the layout simulation runs and when it has settled.
use vstd::prelude::*;

verus! {

/// The number of grid columns for `k` components: the smallest `c` with
/// `c * c >= k`, the ceiling of the square root of `k`.
pub open spec fn is_grid_columns(k: nat, c: nat) -> bool {
    c * c >= k && (c == 0 || (c - 1) * (c - 1) < k)
}

/// The number of grid columns (and at most rows) for `k` components.
pub fn grid_columns(k: usize) -> (c: usize)
    ensures
        is_grid_columns(k as nat, c as nat),
{
    let mut c: usize = 0;
    loop
        invariant
            c == 0 || (c - 1) * (c - 1) < k,
            c <= k,
        ensures
            is_grid_columns(k as nat, c as nat),
        decreases k - c,
    {
        let wide = c as u128;
        proof {
            assert(wide * wide <= 0xffff_ffff_ffff_ffffu128 * 0xffff_ffff_ffff_ffffu128) by (nonlinear_arith)
                requires
                    wide <= 0xffff_ffff_ffff_ffffu128,
            ;
        }
        if wide * wide >= k as u128 {
            return c;
        }
        proof {
            if c > 0 {
                assert(c * c >= c) by (nonlinear_arith)
                    requires
                        c > 0,
                ;
            }
        }
        c = c + 1;
    }
}

/// The grid cell `(row, column)` of the component at position `index`,
/// filling rows of `columns` cells one after another.
pub fn grid_cell(index: usize, columns: usize) -> (r: (usize, usize))
    requires
        columns > 0,
    ensures
        r == (index / columns, index % columns),
        r.1 < columns,
        r.0 * columns + r.1 == index,
{
    proof {
        vstd::arithmetic::div_mod::lemma_fundamental_div_mod(index as int, columns as int);
        vstd::arithmetic::mul::lemma_mul_is_commutative(columns as int, index as int / columns as int);
    }
    (index / columns, index % columns)
}

/// Whether the layout simulation is advancing, or has come to rest.
#[derive(Clone, Copy, Debug, PartialEq, Eq, Structural)]
pub enum SimState {
    Running,
    Settled,
}

/// When the simulation runs. It counts the frames since it last started
/// running, records whether the clock of the run has been started, and
/// whether the layout has settled once since the graph was loaded (the
/// first settle frames the whole graph in view).
#[derive(Clone, Copy, Debug, PartialEq, Eq, Structural)]
pub struct Scheduler {
    pub state: SimState,
    pub frame_count: u64,
    pub clock_started: bool,
    pub settled_once: bool,
}

impl Scheduler {
    /// Running, with no frame counted and no clock.
    pub fn new() -> (r: Scheduler)
        ensures
            r == (Scheduler { state: SimState::Running, frame_count: 0, clock_started: false, settled_once: false }),
    {
        Scheduler { state: SimState::Running, frame_count: 0, clock_started: false, settled_once: false }
    }

    pub fn is_running(&self) -> (r: bool)
        ensures
            r == (self.state == SimState::Running),
    {
        match self.state {
            SimState::Running => true,
            SimState::Settled => false,
        }
    }

    /// Starts a frame of the simulation: counts it, and returns whether the
    /// clock of this run must be started now.
    pub fn begin_frame(&mut self) -> (start_clock: bool)
        requires
            old(self).state == SimState::Running,
        ensures
            start_clock == !old(self).clock_started,
            *final(self) == (Scheduler {
                frame_count: if old(self).frame_count < u64::MAX {
                    (old(self).frame_count + 1) as u64
                } else {
                    old(self).frame_count
                },
                clock_started: true,
                ..*old(self)
            }),
    {
        let start_clock = !self.clock_started;
        self.clock_started = true;
        if self.frame_count < u64::MAX {
            self.frame_count = self.frame_count + 1;
        }
        start_clock
    }

    /// Ends a frame in which the largest movement was below the adaptive
    /// threshold (`below`) or not. Below it, the simulation settles and its
    /// counters are reset. Returns whether this is the first settle, the
    /// moment to frame the whole graph.
    pub fn end_frame(&mut self, below: bool) -> (first_settle: bool)
        ensures
            first_settle == (below && !old(self).settled_once),
            *final(self) == if below {
                Scheduler { state: SimState::Settled, frame_count: 0, clock_started: false, settled_once: true }
            } else {
                *old(self)
            },
    {
        if below {
            let first = !self.settled_once;
            *self = Scheduler { state: SimState::Settled, frame_count: 0, clock_started: false, settled_once: true };
            first
        } else {
            false
        }
    }

    /// Pauses a running simulation, or resumes a settled or paused one.
    pub fn toggle(&mut self)
        ensures
            *final(self) == (Scheduler {
                state: match old(self).state {
                    SimState::Running => SimState::Settled,
                    SimState::Settled => SimState::Running,
                },
                ..*old(self)
            }),
    {
        self.state = match self.state {
            SimState::Running => SimState::Settled,
            SimState::Settled => SimState::Running,
        };
    }

    /// A new layout: running again, with the counters cleared.
    pub fn reset(&mut self)
        ensures
            *final(self) == (Scheduler {
                state: SimState::Running,
                frame_count: 0,
                clock_started: false,
                settled_once: old(self).settled_once,
            }),
    {
        self.state = SimState::Running;
        self.frame_count = 0;
        self.clock_started = false;
    }
}

} // verus!
