//! The periodic trigger driving each acquisition pipeline: a fixed period
//! and a phase within it, evaluated against a whole-second clock. One
//! schedule is independent of the other; overlap of invocations is
//! permitted, which the pipelines tolerate because publishing the same
//! value twice is harmless on an at-most-once, non-persistent bus.
use vstd::prelude::*;

verus! {

/// Fires at every second `t` with `t % period == phase`.
pub struct Periodic {
    period: u64,
    phase: u64,
}

impl Periodic {
    pub closed spec fn spec_period(&self) -> u64 {
        self.period
    }

    pub closed spec fn spec_phase(&self) -> u64 {
        self.phase
    }

    pub open spec fn wf(&self) -> bool {
        0 < self.spec_period() && self.spec_phase() < self.spec_period()
    }

    /// Whether the schedule fires at second `t`.
    pub open spec fn spec_due(&self, t: u64) -> bool {
        t % self.spec_period() == self.spec_phase()
    }

    pub fn new(period: u64, phase: u64) -> (s: Periodic)
        requires
            0 < period,
            phase < period,
        ensures
            s.wf(),
            s.spec_period() == period,
            s.spec_phase() == phase,
    {
        Periodic { period, phase }
    }

    /// Whether the schedule fires at second `t`.
    pub fn due(&self, t: u64) -> (r: bool)
        requires
            self.wf(),
        ensures
            r == self.spec_due(t),
    {
        t % self.period == self.phase
    }

    /// The first second after `t` at which the schedule fires: no firing
    /// time is skipped and none is invented.
    pub fn next_after(&self, t: u64) -> (n: u64)
        requires
            self.wf(),
            t + self.spec_period() <= u64::MAX,
        ensures
            t < n <= t + self.spec_period(),
            self.spec_due(n),
            forall|u: u64| t < u < n ==> !self.spec_due(u),
    {
        let p = self.period;
        let r = t % p;
        let n = if r < self.phase {
            t + (self.phase - r)
        } else {
            t + p - (r - self.phase)
        };
        proof {
            let pi = p as int;
            let ti = t as int;
            let ph = self.phase as int;
            let ri = r as int;
            let q = ti / pi;
            assert(ti == q * pi + ri && 0 <= ri < pi) by (nonlinear_arith)
                requires
                    ri == ti % pi,
                    q == ti / pi,
                    pi > 0,
                    ti >= 0,
            ;
            if ri < ph {
                assert(n == q * pi + ph);
                assert(n as int % pi == ph) by (nonlinear_arith)
                    requires
                        n == q * pi + ph,
                        0 <= ph < pi,
                        q >= 0,
                ;
                assert forall|u: u64| t < u < n implies !self.spec_due(u) by {
                    let d = u - t;
                    assert(u == q * pi + (ri + d));
                    assert(0 < d < ph - ri);
                    assert(u as int % pi == ri + d) by (nonlinear_arith)
                        requires
                            u == q * pi + (ri + d),
                            0 <= ri + d < pi,
                            q >= 0,
                    ;
                }
            } else {
                assert(n == (q + 1) * pi + ph) by (nonlinear_arith)
                    requires
                        n == ti + pi - (ri - ph),
                        ti == q * pi + ri,
                ;
                assert(n as int % pi == ph) by (nonlinear_arith)
                    requires
                        n == (q + 1) * pi + ph,
                        0 <= ph < pi,
                        q >= 0,
                ;
                assert forall|u: u64| t < u < n implies !self.spec_due(u) by {
                    let d = u - t;
                    if ri + d < pi {
                        assert(u == q * pi + (ri + d));
                        assert(ph < ri + d < pi);
                        assert(u as int % pi == ri + d) by (nonlinear_arith)
                            requires
                                u == q * pi + (ri + d),
                                0 <= ri + d < pi,
                                q >= 0,
                        ;
                    } else {
                        let e = ri + d - pi;
                        assert(u == (q + 1) * pi + e) by (nonlinear_arith)
                            requires
                                u == q * pi + (ri + d),
                                e == ri + d - pi,
                        ;
                        assert(0 <= e < ph);
                        assert(u as int % pi == e) by (nonlinear_arith)
                            requires
                                u == (q + 1) * pi + e,
                                0 <= e < pi,
                                q >= 0,
                        ;
                    }
                }
            }
        }
        n
    }
}

/// Ticks never drift: stepping from one firing time to the next advances
/// by exactly one period, so two independent schedules stay periodic.
pub proof fn lemma_periodic_step(s: &Periodic, t: u64)
    requires
        s.wf(),
        s.spec_due(t),
        t + s.spec_period() <= u64::MAX,
    ensures
        s.spec_due((t + s.spec_period()) as u64),
{
    let pi = s.spec_period() as int;
    let ti = t as int;
    assert((ti + pi) % pi == ti % pi) by (nonlinear_arith)
        requires
            pi > 0,
            ti >= 0,
    ;
}

} // verus!
