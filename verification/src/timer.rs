//! Wall-clock-decaying 8-bit countdown register.
//!
//! The current value is never stored; it is derived on read from the elapsed
//! time since the register was last set.  All instants are given to this
//! module as microseconds on a monotonic clock, so the decay arithmetic is
//! exact integer arithmetic and the caller owns the clock.

use vstd::prelude::*;
use vstd::arithmetic::div_mod::{lemma_div_is_ordered, lemma_hoist_over_denominator};

verus! {

/// Nanoseconds-scale denominator: micros * hz * milli-multiplier / this
/// gives whole elapsed ticks.
pub const STEP_DENOM: u128 = 1_000_000_000;

/// An 8-bit countdown register that decays lazily against a monotonic clock.
///
/// The register stores the instant it was created, the instant it was last
/// set, the value it was set to, a tick frequency in Hz and a speed
/// multiplier in thousandths.  Reads compute how many whole ticks lie
/// between the last set and now on the absolute tick grid anchored at
/// `start_micros`, and subtract, clamping at zero.
#[derive(Debug)]
pub struct Timer {
    pub start_micros: u64,
    pub last_set_micros: u64,
    pub freq_hz: u32,
    pub multi_milli: u32,
    pub reg_value: u8,
}

impl Timer {
    /// Well-formed: the last set never precedes creation and the tick rate
    /// is positive.
    pub open spec fn wf(&self) -> bool {
        &&& self.last_set_micros >= self.start_micros
        &&& self.freq_hz > 0
        &&& self.multi_milli > 0
    }

    pub open spec fn spec_start_micros(&self) -> u64 {
        self.start_micros
    }

    pub open spec fn spec_last_set_micros(&self) -> u64 {
        self.last_set_micros
    }

    pub open spec fn spec_freq_hz(&self) -> u32 {
        self.freq_hz
    }

    pub open spec fn spec_multi_milli(&self) -> u32 {
        self.multi_milli
    }

    pub open spec fn spec_reg_value(&self) -> u8 {
        self.reg_value
    }

    /// Whole ticks elapsed between creation and `t`, on the absolute grid:
    /// floor(elapsed_micros * freq_hz * multi_milli / 10^9).
    pub open spec fn steps_at(&self, t: u64) -> int {
        if t <= self.start_micros {
            0
        } else {
            (t - self.start_micros) * self.freq_hz * self.multi_milli / (STEP_DENOM as int)
        }
    }

    /// Ticks consumed since the register was last set, clamped at zero.
    pub open spec fn steps_since_set(&self, now: u64) -> int {
        if self.steps_at(now) >= self.steps_at(self.last_set_micros) {
            self.steps_at(now) - self.steps_at(self.last_set_micros)
        } else {
            0
        }
    }

    /// The derived register value at instant `now`: the value it was last
    /// set to minus the ticks consumed since, floored at zero.  A register
    /// set to zero stays at rest.
    pub open spec fn value_at(&self, now: u64) -> u8 {
        if self.reg_value == 0 {
            0u8
        } else if (self.reg_value as int) < self.steps_since_set(now) {
            0u8
        } else {
            (self.reg_value - self.steps_since_set(now)) as u8
        }
    }

    /// Creates a timer at rest at instant `now`, ticking `freq_hz` times a
    /// second scaled by `multi_milli` thousandths.
    pub fn new(now_micros: u64, freq_hz: u32, multi_milli: u32) -> (t: Timer)
        requires
            freq_hz > 0,
            multi_milli > 0,
        ensures
            t.wf(),
            t.spec_start_micros() == now_micros,
            t.spec_last_set_micros() == now_micros,
            t.spec_freq_hz() == freq_hz,
            t.spec_multi_milli() == multi_milli,
            t.spec_reg_value() == 0,
    {
        Timer {
            start_micros: now_micros,
            last_set_micros: now_micros,
            freq_hz,
            multi_milli,
            reg_value: 0,
        }
    }

    /// Arms (or clears) the register: records the set instant and the value.
    pub fn set_reg(&mut self, now_micros: u64, val: u8)
        requires
            old(self).wf(),
            now_micros >= old(self).last_set_micros,
        ensures
            final(self).wf(),
            final(self).spec_reg_value() == val,
            final(self).spec_last_set_micros() == now_micros,
            final(self).spec_start_micros() == old(self).spec_start_micros(),
            final(self).spec_freq_hz() == old(self).spec_freq_hz(),
            final(self).spec_multi_milli() == old(self).spec_multi_milli(),
            final(self).value_at(now_micros) == val,
    {
        self.last_set_micros = now_micros;
        self.reg_value = val;
        proof {
            assert(self.steps_since_set(now_micros) == 0);
        }
    }

    /// Reads the decayed value at instant `now`; never underflows below zero.
    pub fn get_reg(&self, now_micros: u64) -> (r: u8)
        requires
            self.wf(),
        ensures
            r == self.value_at(now_micros),
    {
        if self.reg_value == 0 {
            return 0;
        }
        let steps_now = self.steps_at_exec(now_micros);
        let steps_set = self.steps_at_exec(self.last_set_micros);
        let diff: u128 = if steps_now >= steps_set {
            steps_now - steps_set
        } else {
            0
        };
        if (self.reg_value as u128) < diff {
            0
        } else {
            self.reg_value - (diff as u8)
        }
    }

    /// Remaining countdown duration in microseconds at the configured
    /// frequency, or `None` when the register is at rest.  The speed
    /// multiplier deliberately does not shorten the reported duration.
    pub fn time_left(&self) -> (r: Option<u64>)
        requires
            self.wf(),
        ensures
            r is None <==> self.spec_reg_value() == 0,
            r is Some ==> r->0 == self.spec_reg_value() * 1_000_000 / (self.spec_freq_hz() as int),
    {
        if self.reg_value == 0 {
            return None;
        }
        let micros: u64 = (self.reg_value as u64) * 1_000_000 / (self.freq_hz as u64);
        Some(micros)
    }

    /// Whole elapsed ticks at `t`, computed exactly as `steps_at` states.
    fn steps_at_exec(&self, t: u64) -> (r: u128)
        requires
            self.wf(),
        ensures
            r == self.steps_at(t),
    {
        if t <= self.start_micros {
            0
        } else {
            let elapsed: u128 = (t - self.start_micros) as u128;
            proof {
                assert(elapsed * (self.freq_hz as u128) < 0x1_0000_0000_0000_0000_0000_0000)
                    by (nonlinear_arith)
                    requires
                        elapsed < 0x1_0000_0000_0000_0000,
                        (self.freq_hz as u128) < 0x1_0000_0000,
                ;
                assert(elapsed * (self.freq_hz as u128) * (self.multi_milli as u128)
                    < 0x1_0000_0000_0000_0000_0000_0000_0000_0000)
                    by (nonlinear_arith)
                    requires
                        elapsed * (self.freq_hz as u128) < 0x1_0000_0000_0000_0000_0000_0000,
                        (self.multi_milli as u128) < 0x1_0000_0000,
                ;
            }
            let num: u128 = elapsed * (self.freq_hz as u128) * (self.multi_milli as u128);
            num / STEP_DENOM
        }
    }
}


/// Elapsed ticks never decrease as the clock advances.
proof fn lemma_steps_monotone(t: &Timer, t1: u64, t2: u64)
    requires
        t.wf(),
        t1 <= t2,
    ensures
        t.steps_at(t1) <= t.steps_at(t2),
        t.steps_at(t1) >= 0,
{
    let s = t.start_micros as int;
    let f = t.freq_hz as int;
    let m = t.multi_milli as int;
    if t1 <= t.start_micros {
        if t2 <= t.start_micros {
        } else {
            assert((t2 - s) * f * m >= 0) by (nonlinear_arith)
                requires
                    t2 - s >= 0,
                    f >= 0,
                    m >= 0,
            ;
            lemma_div_is_ordered(0, (t2 - s) * f * m, STEP_DENOM as int);
        }
    } else {
        assert((t1 - s) * f * m <= (t2 - s) * f * m && (t1 - s) * f * m >= 0) by (nonlinear_arith)
            requires
                0 <= t1 - s <= t2 - s,
                f > 0,
                m > 0,
        ;
        lemma_div_is_ordered((t1 - s) * f * m, (t2 - s) * f * m, STEP_DENOM as int);
        lemma_div_is_ordered(0, (t1 - s) * f * m, STEP_DENOM as int);
    }
}

/// Repeated reads without an intervening set are monotonically
/// non-increasing: a countdown register never counts up.
pub proof fn lemma_timer_monotone(t: &Timer, t1: u64, t2: u64)
    requires
        t.wf(),
        t1 <= t2,
    ensures
        t.value_at(t2) <= t.value_at(t1),
{
    lemma_steps_monotone(t, t1, t2);
}

/// At 60 Hz with multiplier 1.0, a register set to 60 reads 30 exactly
/// half a second after the set, and 0 one second after it.
pub proof fn lemma_timer_decay_at_60hz(t: &Timer)
    requires
        t.wf(),
        t.freq_hz == 60,
        t.multi_milli == 1000,
        t.reg_value == 60,
        t.last_set_micros + 1_000_000 <= u64::MAX,
    ensures
        t.value_at(t.last_set_micros) == 60,
        t.value_at((t.last_set_micros + 500_000) as u64) == 30,
        t.value_at((t.last_set_micros + 1_000_000) as u64) == 0,
    {
    let s = t.start_micros as int;
    let ls = t.last_set_micros as int;
    let d = STEP_DENOM as int;
    let e = ls - s;
    assert(e * 60 * 1000 == e * 60000 && (e + 500000) * 60 * 1000 == e * 60000 + 30
        * 1_000_000_000 && (e + 1000000) * 60 * 1000 == e * 60000 + 60 * 1_000_000_000)
        by (nonlinear_arith);
    if t.last_set_micros > t.start_micros {
        lemma_hoist_over_denominator(e * 60000, 30, 1_000_000_000nat);
        lemma_hoist_over_denominator(e * 60000, 60, 1_000_000_000nat);
        assert(t.steps_at((t.last_set_micros + 500_000) as u64) == t.steps_at(t.last_set_micros)
            + 30);
        assert(t.steps_at((t.last_set_micros + 1_000_000) as u64) == t.steps_at(
            t.last_set_micros,
        ) + 60);
    } else {
        assert(e == 0);
        assert(t.steps_at(t.last_set_micros) == 0);
        lemma_hoist_over_denominator(0, 30, 1_000_000_000nat);
        lemma_hoist_over_denominator(0, 60, 1_000_000_000nat);
        assert(t.steps_at((t.last_set_micros + 500_000) as u64) == 30);
        assert(t.steps_at((t.last_set_micros + 1_000_000) as u64) == 60);
    }
}

/// A register set to 60 at 60 Hz reads 0 at any instant from one second
/// after the set onward: it clamps at zero and never underflows.
pub proof fn lemma_timer_expired(t: &Timer, now: u64)
    requires
        t.wf(),
        t.freq_hz == 60,
        t.multi_milli == 1000,
        t.reg_value == 60,
        t.last_set_micros + 1_000_000 <= now,
    ensures
        t.value_at(now) == 0,
{
    lemma_timer_decay_at_60hz(t);
    lemma_timer_monotone(t, (t.last_set_micros + 1_000_000) as u64, now);
}

/// Two reads at most 10 ms apart at 60 Hz differ by at most one step:
/// separate truncations against the same absolute tick grid never
/// double-count a tick.
pub proof fn lemma_timer_no_double_decrement(t: &Timer, t1: u64, t2: u64)
    requires
        t.wf(),
        t.freq_hz == 60,
        t.multi_milli == 1000,
        t1 <= t2,
        t2 - t1 <= 10_000,
    ensures
        t.value_at(t2) <= t.value_at(t1),
        t.value_at(t1) - t.value_at(t2) <= 1,
{
    lemma_steps_monotone(t, t1, t2);
    let s = t.start_micros as int;
    let d = STEP_DENOM as int;
    if t2 <= t.start_micros {
    } else if t1 <= t.start_micros {
        assert((t2 - s) * 60 * 1000 == (t2 - s) * 60000) by (nonlinear_arith);
        assert((t2 - s) * 60000 < d) by (nonlinear_arith)
            requires
                0 < t2 - s <= 10_000,
                d == 1_000_000_000,
        ;
        assert(t.steps_at(t2) == (t2 - s) * 60000 / d);
        vstd::arithmetic::div_mod::lemma_basic_div((t2 - s) * 60000, d);
    } else {
        let e1 = t1 - s;
        let e2 = t2 - s;
        assert(e1 * 60 * 1000 == e1 * 60000 && e2 * 60 * 1000 == e2 * 60000 && e2 * 60000 <= e1
            * 60000 + 600_000_000) by (nonlinear_arith)
            requires
                0 <= e1 <= e2,
                e2 - e1 <= 10_000,
        ;
        lemma_hoist_over_denominator(e1 * 60000, 1, 1_000_000_000nat);
        lemma_div_is_ordered(e2 * 60000, e1 * 60000 + 1_000_000_000, d);
    }
}

} // verus!
