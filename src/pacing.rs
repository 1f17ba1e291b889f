use vstd::prelude::*;

verus! {

/// Length of one tick in nanoseconds: a sixtieth of a second.
pub const TICK_NS: i64 = 16_666_666;

/// The fixed-rate pacing of the main loop.
///
/// `lag` is how far the loop runs behind its schedule: each tick adds the
/// time measured since the previous tick started and takes one period off.
/// The sleep asked for shrinks when work overruns, so the loop catches up
/// without drifting.
pub struct TickPacer {
    lag_ns: i64,
    ticks: Ghost<nat>,
    elapsed: Ghost<int>,
}

/// The sleep that a lag calls for: what is left of the period, or nothing.
pub open spec fn sleep_for(lag: int) -> int {
    if TICK_NS - lag > 0 {
        TICK_NS - lag
    } else {
        0
    }
}

impl TickPacer {
    /// The current lag in nanoseconds.
    pub closed spec fn lag(&self) -> int {
        self.lag_ns as int
    }

    /// Ticks finished so far.
    pub closed spec fn ticks(&self) -> nat {
        self.ticks@
    }

    /// Time measured so far, in nanoseconds.
    pub closed spec fn elapsed(&self) -> int {
        self.elapsed@
    }

    /// The lag is exactly the time measured minus one period per finished tick.
    pub open spec fn wf(&self) -> bool {
        self.lag() == self.elapsed() - self.ticks() * TICK_NS
    }

    /// A pacer with no lag.
    pub fn new() -> (p: TickPacer)
        ensures
            p.wf(),
            p.lag() == 0,
            p.ticks() == 0,
            p.elapsed() == 0,
    {
        TickPacer { lag_ns: 0, ticks: Ghost(0), elapsed: Ghost(0) }
    }

    /// The current lag in nanoseconds.
    pub fn lag_ns(&self) -> (r: i64)
        ensures
            r == self.lag(),
    {
        self.lag_ns
    }

    /// Starts a tick that began `elapsed_ns` after the previous one; returns
    /// the nanoseconds to sleep before working.
    pub fn begin_tick(&mut self, elapsed_ns: u64) -> (sleep_ns: u64)
        requires
            old(self).wf(),
            old(self).lag() + elapsed_ns <= i64::MAX,
        ensures
            final(self).wf(),
            final(self).lag() == old(self).lag() + elapsed_ns,
            final(self).ticks() == old(self).ticks(),
            final(self).elapsed() == old(self).elapsed() + elapsed_ns,
            sleep_ns == sleep_for(final(self).lag()),
    {
        let lag = self.lag_ns as i128 + elapsed_ns as i128;
        self.lag_ns = lag as i64;
        self.elapsed = Ghost(self.elapsed@ + elapsed_ns);
        if lag < TICK_NS as i128 {
            (TICK_NS as i128 - lag) as u64
        } else {
            0
        }
    }

    /// Ends a tick: one period is taken off the lag.
    pub fn end_tick(&mut self)
        requires
            old(self).wf(),
            old(self).lag() - TICK_NS >= i64::MIN,
        ensures
            final(self).wf(),
            final(self).lag() == old(self).lag() - TICK_NS,
            final(self).ticks() == old(self).ticks() + 1,
            final(self).elapsed() == old(self).elapsed(),
    {
        let ghost t = self.ticks@;
        self.lag_ns = self.lag_ns - TICK_NS;
        self.ticks = Ghost(t + 1);
        proof {
            assert((t + 1) * TICK_NS == t * TICK_NS + TICK_NS) by (nonlinear_arith);
        }
    }
}

/// The loop never runs more than one period ahead of the clock. A tick that
/// ends with lag `lag` slept `sleep_for(lag + TICK_NS)`. When the lag is at
/// least minus one period and the next tick measures at least that sleep,
/// the next tick ends with the lag at least minus one period again; and
/// while that holds, the ticks finished are at most the elapsed time over the
/// period, plus one.
pub proof fn lemma_not_ahead(lag: int, elapsed_next: int, ticks: nat, elapsed: int)
    requires
        lag >= -TICK_NS,
        lag == elapsed - ticks * TICK_NS,
        elapsed_next >= 0,
        elapsed_next >= sleep_for(lag + TICK_NS),
    ensures
        lag + elapsed_next - TICK_NS >= -TICK_NS,
        ticks * TICK_NS <= elapsed + TICK_NS,
        (ticks + 1) * TICK_NS <= elapsed + elapsed_next + TICK_NS,
{
    assert((ticks + 1) * TICK_NS == ticks * TICK_NS + TICK_NS) by (nonlinear_arith);
}

/// No drift either way while each tick's work takes at most one period: a
/// pacer that starts with no lag keeps its lag within one period below zero.
/// A tick that ends with lag `lag` in `[-T, 0]` slept `sleep_for(lag + T)`;
/// the next tick measures that sleep plus its work `work`, and ends with the
/// lag in `[-T, 0]` again. So the ticks finished never differ from the
/// elapsed time over the period by more than one.
pub proof fn lemma_no_drift(lag: int, work: int, ticks: nat, elapsed: int)
    requires
        -TICK_NS <= lag <= 0,
        0 <= work <= TICK_NS,
        lag == elapsed - ticks * TICK_NS,
    ensures
        -TICK_NS <= lag + (sleep_for(lag + TICK_NS) + work) - TICK_NS <= 0,
        ticks * TICK_NS <= elapsed + TICK_NS,
        elapsed <= ticks * TICK_NS,
        (ticks + 1) * TICK_NS <= elapsed + sleep_for(lag + TICK_NS) + work + TICK_NS,
        elapsed + sleep_for(lag + TICK_NS) + work <= (ticks + 1) * TICK_NS,
{
    assert((ticks + 1) * TICK_NS == ticks * TICK_NS + TICK_NS) by (nonlinear_arith);
}

} // verus!
