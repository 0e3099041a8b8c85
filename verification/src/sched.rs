//! The scheduling model that decouples instruction execution from
//! rendering: the engine configuration, the integer rate limiter, and the
//! decision rules of the producer/consumer handoff protocol.  The loop
//! that performs channel operations and sleeps lives with the frontend;
//! every decision it takes is computed here, from plain values.

use vstd::prelude::*;

verus! {

/// What a channel send attempt observed.
#[derive(Clone, Copy, PartialEq, Eq, Structural, Debug)]
pub enum SendOutcome {
    Delivered,
    Full,
    Disconnected,
}

/// What a channel receive attempt observed.
#[derive(Clone, Copy, PartialEq, Eq, Structural, Debug)]
pub enum RecvOutcome {
    Received,
    Empty,
    Disconnected,
}

/// The engine configuration the frontend assembles: frame-skip policy,
/// optional frame and instruction rate caps in millihertz, verbosity, and
/// an optional palette override.
#[derive(Clone, Copy)]
pub struct Emulator {
    pub skip_frames: bool,
    pub fps_limit_millihz: Option<u64>,
    pub ips_limit_millihz: Option<u64>,
    pub debug: u64,
    pub colors: Option<[u32; 4]>,
}

impl Emulator {
    /// The default configuration: no frame skipping, no rate caps, no
    /// debug output, the built-in palette.
    pub fn new() -> (e: Emulator)
        ensures
            e.skip_frames == false,
            e.fps_limit_millihz is None,
            e.ips_limit_millihz is None,
            e.debug == 0,
            e.colors is None,
    {
        Emulator {
            skip_frames: false,
            fps_limit_millihz: None,
            ips_limit_millihz: None,
            debug: 0,
            colors: None,
        }
    }

    pub fn with_skip_frames(self, skip: bool) -> (e: Emulator)
        ensures
            e == (Emulator { skip_frames: skip, ..self }),
    {
        Emulator { skip_frames: skip, ..self }
    }

    pub fn with_fps_limit(self, limit: Option<u64>) -> (e: Emulator)
        ensures
            e == (Emulator { fps_limit_millihz: limit, ..self }),
    {
        Emulator { fps_limit_millihz: limit, ..self }
    }

    pub fn with_ips_limit(self, limit: Option<u64>) -> (e: Emulator)
        ensures
            e == (Emulator { ips_limit_millihz: limit, ..self }),
    {
        Emulator { ips_limit_millihz: limit, ..self }
    }

    pub fn with_colors(self, colors: Option<[u32; 4]>) -> (e: Emulator)
        ensures
            e == (Emulator { colors: colors, ..self }),
    {
        Emulator { colors, ..self }
    }

    pub fn with_debug(self, debug: u64) -> (e: Emulator)
        ensures
            e == (Emulator { debug: debug, ..self }),
    {
        Emulator { debug, ..self }
    }
}

/// A frame is offered to the frontend either when display content
/// changed, or after every tick under the flicker-reducing policy.
pub fn should_send_frame(reduce_flicker: bool, updated: bool) -> (r: bool)
    ensures
        r == (reduce_flicker || updated),
{
    reduce_flicker || updated
}

/// Whether the engine loop must stop after a frame handoff: only a
/// disconnected peer stops it.  Under the skip-frames policy a full
/// notification slot drops the frame and the engine proceeds at once; it
/// never waits.  The payload is sent only after the notification was
/// delivered.
pub fn frame_send_stops(skip_frames: bool, notify: SendOutcome, payload: Option<SendOutcome>) -> (r:
    bool)
    requires
        !skip_frames ==> !(notify is Full),
        payload is Some <==> notify is Delivered,
        payload is Some ==> !(payload->0 is Full),
    ensures
        r == (notify is Disconnected || (notify is Delivered && payload->0 is Disconnected)),
        skip_frames && notify is Full ==> r == false,
{
    match notify {
        SendOutcome::Disconnected => true,
        SendOutcome::Full => false,
        SendOutcome::Delivered => match payload {
            Some(SendOutcome::Disconnected) => true,
            _ => false,
        },
    }
}

/// Whether the engine loop must stop after draining the key mailbox: a
/// missing snapshot is routine, a disconnected frontend is shutdown.
pub fn key_recv_stops(outcome: RecvOutcome) -> (r: bool)
    ensures
        r == (outcome is Disconnected),
{
    matches!(outcome, RecvOutcome::Disconnected)
}

/// How long the engine loop yields when a tick executed no instruction
/// (blocked on the wait-for-key opcode): a short fixed sleep instead of a
/// rate-limiter token, so it never busy-spins; after a real instruction
/// the rate limiter paces the loop instead.
pub fn idle_sleep_micros(executed: bool) -> (r: Option<u64>)
    ensures
        executed ==> r is None,
        !executed ==> r == Some(1000u64),
{
    if executed {
        None
    } else {
        Some(1000)
    }
}

/// A sleep-until-next-slot rate limiter over a monotonic microsecond
/// clock.  The target rate is in millihertz (0 disables the limiter);
/// when the rate is at least 100 Hz the wall clock is consulted only
/// every Nth token to amortize timing calls.
pub struct PerfLimiter {
    pub last_check_micros: u64,
    pub last_rate_check_micros: u64,
    pub rate_millihz: u64,
    pub counter: u64,
    pub last_counter: u64,
    pub every_nths: u64,
    pub nths_counter: u64,
}

impl PerfLimiter {
    /// The batch size: consult the clock once per `every_nths` tokens.
    pub open spec fn spec_batch(rate_millihz: u64) -> u64 {
        if rate_millihz / 1000 >= 100 {
            (rate_millihz / 1000 / 100) as u64
        } else {
            1u64
        }
    }

    /// The slot length in microseconds for one batch of tokens.
    pub open spec fn spec_period_micros(&self) -> int {
        self.every_nths * 1_000_000_000 / (self.rate_millihz as int)
    }

    pub open spec fn wf(&self) -> bool {
        &&& self.every_nths == PerfLimiter::spec_batch(self.rate_millihz)
        &&& self.every_nths >= 1
        &&& self.nths_counter < self.every_nths
    }

    /// A limiter for the given rate, idle at instant `now`.
    pub fn new(rate_millihz: Option<u64>, now_micros: u64) -> (p: PerfLimiter)
        ensures
            p.wf(),
            p.rate_millihz == (if rate_millihz is Some {
                rate_millihz->0
            } else {
                0u64
            }),
            p.last_check_micros == now_micros,
            p.last_rate_check_micros == now_micros,
            p.counter == 0,
            p.last_counter == 0,
            p.nths_counter == 0,
    {
        let rate: u64 = match rate_millihz {
            Some(r) => r,
            None => 0,
        };
        let every_nths: u64 = if rate / 1000 >= 100 {
            rate / 1000 / 100
        } else {
            1
        };
        PerfLimiter {
            last_check_micros: now_micros,
            last_rate_check_micros: now_micros,
            rate_millihz: rate,
            counter: 0,
            last_counter: 0,
            every_nths,
            nths_counter: 0,
        }
    }

    /// The rolling achieved rate in millihertz since the last reading,
    /// for diagnostics; resets the measurement window.
    pub fn measured_rate_millihz(&mut self, now_micros: u64) -> (r: u64)
        requires
            old(self).wf(),
            old(self).counter >= old(self).last_counter,
        ensures
            final(self).wf(),
            *final(self) == (PerfLimiter {
                last_rate_check_micros: now_micros,
                last_counter: old(self).counter,
                ..*old(self)
            }),
            r == (if now_micros <= old(self).last_rate_check_micros {
                0int
            } else {
                let q = (old(self).counter - old(self).last_counter) * 1_000_000_000 / (now_micros
                    - old(self).last_rate_check_micros);
                if q > 0xFFFF_FFFF_FFFF_FFFF {
                    0xFFFF_FFFF_FFFF_FFFFint
                } else {
                    q
                }
            }),
    {
        let r: u64 = if now_micros <= self.last_rate_check_micros {
            0
        } else {
            let delta: u128 = (self.counter - self.last_counter) as u128;
            let elapsed: u128 = (now_micros - self.last_rate_check_micros) as u128;
            proof {
                vstd::arithmetic::mul::lemma_mul_upper_bound(
                    delta as int,
                    0xFFFF_FFFF_FFFF_FFFF,
                    1_000_000_000,
                    1_000_000_000,
                );
            }
            let q: u128 = (delta * 1_000_000_000) / elapsed;
            if q > 0xFFFF_FFFF_FFFF_FFFFu128 {
                0xFFFF_FFFF_FFFF_FFFFu64
            } else {
                q as u64
            }
        };
        self.last_rate_check_micros = now_micros;
        self.last_counter = self.counter;
        r
    }

    /// Takes one token and decides how long the caller must sleep to hold
    /// the configured rate: zero when the limiter is disabled, the batch
    /// is not yet exhausted, or the slot has already elapsed.  The next
    /// slot is measured from the instant the caller finishes sleeping.
    pub fn wait_micros(&mut self, now_micros: u64) -> (sleep: u64)
        requires
            old(self).wf(),
            old(self).counter < u64::MAX,
        ensures
            final(self).wf(),
            final(self).counter == old(self).counter + 1,
            final(self).rate_millihz == old(self).rate_millihz,
            final(self).every_nths == old(self).every_nths,
            final(self).last_rate_check_micros == old(self).last_rate_check_micros,
            final(self).last_counter == old(self).last_counter,
            old(self).every_nths > 1 && old(self).nths_counter < old(self).every_nths - 1 ==> sleep
                == 0 && final(self).nths_counter == old(self).nths_counter + 1 && final(self).last_check_micros == old(self).last_check_micros,
            !(old(self).every_nths > 1 && old(self).nths_counter < old(self).every_nths - 1) ==> ({
                let elapsed = if now_micros >= old(self).last_check_micros {
                    now_micros - old(self).last_check_micros
                } else {
                    0
                };
                &&& final(self).nths_counter == 0
                &&& (old(self).rate_millihz == 0 || old(self).spec_period_micros() <= elapsed
                    ==> sleep == 0 && final(self).last_check_micros == now_micros)
                &&& (!(old(self).rate_millihz == 0 || old(self).spec_period_micros() <= elapsed)
                    ==> sleep == (if old(self).spec_period_micros() - elapsed
                        > 0xFFFF_FFFF_FFFF_FFFF {
                        0xFFFF_FFFF_FFFF_FFFFint
                    } else {
                        old(self).spec_period_micros() - elapsed
                    }) && final(self).last_check_micros == (if now_micros + sleep
                        > 0xFFFF_FFFF_FFFF_FFFF {
                        0xFFFF_FFFF_FFFF_FFFFint
                    } else {
                        now_micros + sleep
                    }))
            }),
    {
        self.counter = self.counter + 1;
        if self.every_nths > 1 && self.nths_counter < self.every_nths - 1 {
            self.nths_counter = self.nths_counter + 1;
            return 0;
        }
        self.nths_counter = 0;
        let elapsed: u64 = if now_micros >= self.last_check_micros {
            now_micros - self.last_check_micros
        } else {
            0
        };
        if self.rate_millihz == 0 {
            self.last_check_micros = now_micros;
            return 0;
        }
        let period_u128: u128 = (self.every_nths as u128) * 1_000_000_000 / (
        self.rate_millihz as u128);
        proof {
            vstd::arithmetic::mul::lemma_mul_upper_bound(
                old(self).every_nths as int,
                0xFFFF_FFFF_FFFF_FFFF,
                1_000_000_000,
                1_000_000_000,
            );
        }
        if period_u128 <= elapsed as u128 {
            self.last_check_micros = now_micros;
            return 0;
        }
        let sleep_u128: u128 = period_u128 - elapsed as u128;
        let sleep: u64 = if sleep_u128 > 0xFFFF_FFFF_FFFF_FFFFu128 {
            0xFFFF_FFFF_FFFF_FFFFu64
        } else {
            sleep_u128 as u64
        };
        if now_micros <= u64::MAX - sleep {
            self.last_check_micros = now_micros + sleep;
        } else {
            self.last_check_micros = u64::MAX;
        }
        sleep
    }

    /// Checks without sleeping whether the next slot has arrived: returns
    /// `false` and takes a token when it has (or the limiter is
    /// disabled), else `true`, meaning the caller is early.
    pub fn wait_nonblocking(&mut self, now_micros: u64) -> (early: bool)
        requires
            old(self).wf(),
            old(self).counter < u64::MAX,
        ensures
            final(self).wf(),
            final(self).rate_millihz == old(self).rate_millihz,
            final(self).every_nths == old(self).every_nths,
            ({
                let elapsed = if now_micros >= old(self).last_check_micros {
                    now_micros - old(self).last_check_micros
                } else {
                    0
                };
                let due = old(self).rate_millihz == 0 || (1_000_000_000 as int) / (
                old(self).rate_millihz as int) <= elapsed;
                &&& early == !due
                &&& (due ==> *final(self) == (PerfLimiter {
                    last_check_micros: now_micros,
                    counter: (old(self).counter + 1) as u64,
                    ..*old(self)
                }))
                &&& (!due ==> *final(self) == *old(self))
            }),
    {
        let elapsed: u64 = if now_micros >= self.last_check_micros {
            now_micros - self.last_check_micros
        } else {
            0
        };
        if self.rate_millihz == 0 {
            self.last_check_micros = now_micros;
            self.counter = self.counter + 1;
            return false;
        }
        let period_u128: u128 = 1_000_000_000u128 / (self.rate_millihz as u128);
        proof {
            vstd::arithmetic::div_mod::lemma_div_is_ordered(
                1_000_000_000,
                0xFFFF_FFFF_FFFF_FFFF,
                old(self).rate_millihz as int,
            );
        }
        if period_u128 <= elapsed as u128 {
            self.last_check_micros = now_micros;
            self.counter = self.counter + 1;
            false
        } else {
            true
        }
    }
}

} // verus!
