//! Loss recovery and congestion control (RFC 9002): the round-trip estimate, the probe
//! timeout and a NewReno window. Times are in nanoseconds.

use vstd::prelude::*;

verus! {

/// Initial congestion window: ten full packets.
pub const INITIAL_CWND: u64 = 12_000;

/// Smallest congestion window: two full packets.
pub const MIN_CWND: u64 = 2_400;

/// Size of a full packet.
pub const MSS: u64 = 1_200;

/// A microsecond.
pub const MICRO: u64 = 1_000;

/// A millisecond.
pub const MILLI: u64 = 1_000_000;

/// Round-trip time assumed before the first sample.
pub const INITIAL_RTT: u64 = 333_000_000;

/// Variation of the round-trip time assumed before the first sample.
pub const INITIAL_RTTVAR: u64 = 166_000_000;

/// The largest acknowledgement delay that is advertised.
pub const MAX_ACK_DELAY: u64 = 25_000_000;

pub open spec fn min_int(a: int, b: int) -> int {
    if a <= b {
        a
    } else {
        b
    }
}

pub open spec fn max_int(a: int, b: int) -> int {
    if a >= b {
        a
    } else {
        b
    }
}

/// A sum that stops at the largest number.
pub open spec fn capped(n: int) -> u64 {
    min_int(n, u64::MAX as int) as u64
}

/// A difference that stops at zero.
pub open spec fn minus(a: u64, b: u64) -> u64 {
    max_int(a - b, 0) as u64
}

/// Congestion and timing state of a connection.
#[derive(Debug, Clone, Copy)]
pub struct Recovery {
    /// Congestion window in bytes.
    pub cwnd: u64,
    /// Slow-start threshold in bytes.
    pub ssthresh: u64,
    /// Bytes sent and neither acknowledged nor lost.
    pub bytes_in_flight: u64,
    /// Smoothed round-trip time.
    pub smoothed_rtt: u64,
    /// Variation of the round-trip time.
    pub rttvar: u64,
    /// Latest round-trip sample.
    pub latest_rtt: u64,
    /// When the next probe is due.
    pub pto_due: Option<u64>,
    /// Probes since the last acknowledgement.
    pub pto_count: u32,
    /// When the last loss episode began.
    pub recovery_start: Option<u64>,
}

impl Recovery {
    /// The window never falls below its minimum.
    pub open spec fn wf(self) -> bool {
        self.cwnd >= MIN_CWND && self.ssthresh >= MIN_CWND
    }

    /// At the start of a connection.
    pub open spec fn initial() -> Recovery {
        Recovery {
            cwnd: INITIAL_CWND,
            ssthresh: u64::MAX,
            bytes_in_flight: 0,
            smoothed_rtt: INITIAL_RTT,
            rttvar: INITIAL_RTTVAR,
            latest_rtt: INITIAL_RTT,
            pto_due: None,
            pto_count: 0,
            recovery_start: None,
        }
    }

    pub fn new() -> (r: Self)
        ensures
            r == Recovery::initial(),
            r.wf(),
    {
        Recovery {
            cwnd: INITIAL_CWND,
            ssthresh: u64::MAX,
            bytes_in_flight: 0,
            smoothed_rtt: INITIAL_RTT,
            rttvar: INITIAL_RTTVAR,
            latest_rtt: INITIAL_RTT,
            pto_due: None,
            pto_count: 0,
            recovery_start: None,
        }
    }

    /// After `n` packet numbers are acknowledged: the window grows by a full packet for
    /// each in slow start, by a full packet per window otherwise. The loss episode is over
    /// once less than half the window is in flight.
    pub open spec fn acknowledged(self, n: u64) -> Recovery {
        let cwnd = if self.cwnd < self.ssthresh {
            capped(self.cwnd + MSS * n)
        } else {
            capped(self.cwnd + (MSS * MSS * n) / max_int(self.cwnd as int, MSS as int))
        };
        Recovery {
            cwnd,
            recovery_start: if self.bytes_in_flight < cwnd / 2 {
                None
            } else {
                self.recovery_start
            },
            ..self
        }
    }

    pub fn on_acks_cc(&mut self, n: u64)
        requires
            old(self).wf(),
        ensures
            *final(self) == old(self).acknowledged(n),
            final(self).wf(),
    {
        let inc: u128 = if self.cwnd < self.ssthresh {
            1_200u128 * n as u128
        } else {
            let base: u128 = if self.cwnd > MSS {
                self.cwnd as u128
            } else {
                MSS as u128
            };
            (1_440_000u128 * n as u128) / base
        };
        let sum: u128 = self.cwnd as u128 + inc;
        self.cwnd = if sum > u64::MAX as u128 {
            u64::MAX
        } else {
            sum as u64
        };
        if self.bytes_in_flight < self.cwnd / 2 {
            self.recovery_start = None;
        }
    }

    /// Whether a loss episode that began less than a round trip ago is under way.
    pub open spec fn recovering(self, now: u64) -> bool {
        match self.recovery_start {
            Some(t) => minus(now, t) < max_int(self.smoothed_rtt as int, MILLI as int),
            None => false,
        }
    }

    /// After a loss: the window is halved, once in an episode.
    pub open spec fn lost(self, now: u64) -> Recovery {
        if self.recovering(now) {
            self
        } else {
            let half = max_int(self.cwnd as int / 2, MIN_CWND as int) as u64;
            Recovery { ssthresh: half, cwnd: half, recovery_start: Some(now), ..self }
        }
    }

    pub fn on_loss(&mut self, now: u64)
        ensures
            *final(self) == old(self).lost(now),
            old(self).wf() ==> final(self).wf(),
    {
        let in_recovery = match self.recovery_start {
            Some(t) => {
                let wait: u64 = if self.smoothed_rtt > MILLI {
                    self.smoothed_rtt
                } else {
                    MILLI
                };
                now.saturating_sub(t) < wait
            },
            None => false,
        };
        if !in_recovery {
            let half: u64 = if self.cwnd / 2 > MIN_CWND {
                self.cwnd / 2
            } else {
                MIN_CWND
            };
            self.ssthresh = half;
            self.cwnd = half;
            self.recovery_start = Some(now);
        }
    }

    /// The round-trip estimate after a packet sent at `sent_at` is acknowledged with a
    /// delay in units of eight microseconds. The first sample is taken as it is.
    pub open spec fn sampled(self, sent_at: u64, ack_delay: u64, now: u64) -> Recovery {
        let latest = minus(now, sent_at);
        let delay = (ack_delay * 8) % 0x1_0000_0000_0000_0000 * MICRO;
        let adjusted = max_int(latest - delay, 0);
        if self.rttvar == INITIAL_RTTVAR && self.smoothed_rtt == INITIAL_RTT {
            Recovery { smoothed_rtt: latest, rttvar: latest / 2, latest_rtt: latest, ..self }
        } else {
            let diff = if self.smoothed_rtt >= adjusted {
                self.smoothed_rtt - adjusted
            } else {
                adjusted - self.smoothed_rtt
            };
            Recovery {
                smoothed_rtt: ((self.smoothed_rtt * 7 + adjusted) / 8) as u64,
                rttvar: ((self.rttvar * 3 + diff) / 4) as u64,
                latest_rtt: latest,
                ..self
            }
        }
    }

    pub fn sample_rtt(&mut self, sent_at: u64, ack_delay: u64, now: u64)
        ensures
            *final(self) == old(self).sampled(sent_at, ack_delay, now),
            old(self).wf() ==> final(self).wf(),
    {
        let latest: u64 = now.saturating_sub(sent_at);
        let units: u128 = (ack_delay as u128 * 8) % 0x1_0000_0000_0000_0000;
        let delay: u128 = units * MICRO as u128;
        let adjusted: u64 = if (latest as u128) > delay {
            (latest as u128 - delay) as u64
        } else {
            0
        };
        if self.rttvar == INITIAL_RTTVAR && self.smoothed_rtt == INITIAL_RTT {
            self.smoothed_rtt = latest;
            self.rttvar = latest / 2;
        } else {
            let diff: u64 = if self.smoothed_rtt >= adjusted {
                self.smoothed_rtt - adjusted
            } else {
                adjusted - self.smoothed_rtt
            };
            self.rttvar = ((self.rttvar as u128 * 3 + diff as u128) / 4) as u64;
            self.smoothed_rtt = ((self.smoothed_rtt as u128 * 7 + adjusted as u128) / 8) as u64;
        }
        self.latest_rtt = latest;
    }

    /// The time to wait for an acknowledgement before a probe: the smoothed round trip,
    /// four times its variation and the peer's delay, doubled for each probe so far, ten
    /// times at most.
    pub open spec fn period(self) -> u64 {
        let base = self.smoothed_rtt + max_int(self.rttvar * 4, MILLI as int) + MAX_ACK_DELAY;
        capped(base * backoff(min_int(self.pto_count as int, 10) as nat))
    }

    pub fn pto_period(&self) -> (r: u64)
        ensures
            r == self.period(),
    {
        let wide: u128 = self.rttvar as u128 * 4;
        let spread: u128 = if wide > MILLI as u128 {
            wide
        } else {
            MILLI as u128
        };
        let base: u128 = self.smoothed_rtt as u128 + spread + MAX_ACK_DELAY as u128;
        let count: u32 = if self.pto_count < 10 {
            self.pto_count
        } else {
            10
        };
        let mut factor: u128 = 1;
        let mut i: u32 = 0;
        while i < count
            invariant
                i <= count <= 10,
                factor == backoff(i as nat),
                1 <= factor <= 1024,
            decreases count - i,
        {
            proof {
                lemma_backoff(i as nat);
            }
            factor = factor * 2;
            i = i + 1;
        }
        proof {
            assert(base * factor <= base * 1024) by (nonlinear_arith)
                requires
                    factor <= 1024,
                    base >= 0,
            ;
        }
        let period: u128 = base * factor;
        if period > u64::MAX as u128 {
            u64::MAX
        } else {
            period as u64
        }
    }

    /// After an ack-eliciting packet of `size` bytes is sent.
    pub open spec fn sent(self, size: nat, now: u64) -> Recovery {
        Recovery {
            bytes_in_flight: capped(self.bytes_in_flight + size),
            pto_due: Some(capped(now + self.period())),
            ..self
        }
    }

    pub fn on_sent(&mut self, size: usize, now: u64)
        ensures
            *final(self) == old(self).sent(size as nat, now),
            old(self).wf() ==> final(self).wf(),
    {
        self.bytes_in_flight = self.bytes_in_flight.saturating_add(size as u64);
        let period: u64 = self.pto_period();
        self.pto_due = Some(now.saturating_add(period));
    }

    /// After a probe.
    pub open spec fn probed(self, now: u64) -> Recovery {
        let next = Recovery {
            pto_count: min_int(self.pto_count + 1, u32::MAX as int) as u32,
            ..self
        };
        Recovery { pto_due: Some(capped(now + next.period())), ..next }
    }

    pub fn on_probe(&mut self, now: u64)
        ensures
            *final(self) == old(self).probed(now),
            old(self).wf() ==> final(self).wf(),
    {
        self.pto_count = self.pto_count.saturating_add(1);
        let period: u64 = self.pto_period();
        self.pto_due = Some(now.saturating_add(period));
    }

    /// Whether a packet sent at `sent_at` counts as lost: it is older than nine eighths of
    /// the larger of the smoothed and the latest round trip.
    pub open spec fn overdue(self, sent_at: u64, now: u64) -> bool {
        8 * minus(now, sent_at) > 9 * max_int(self.smoothed_rtt as int, self.latest_rtt as int)
    }

    pub fn is_overdue(&self, sent_at: u64, now: u64) -> (r: bool)
        ensures
            r == self.overdue(sent_at, now),
    {
        let base: u64 = if self.smoothed_rtt > self.latest_rtt {
            self.smoothed_rtt
        } else {
            self.latest_rtt
        };
        8 * now.saturating_sub(sent_at) as u128 > 9 * base as u128
    }
}

/// Two to the power `n`.
pub open spec fn backoff(n: nat) -> int
    decreases n,
{
    if n == 0 {
        1
    } else {
        2 * backoff((n - 1) as nat)
    }
}

proof fn lemma_backoff(n: nat)
    requires
        n < 10,
    ensures
        backoff(n) <= 512,
{
    reveal_with_fuel(backoff, 11);
}

} // verus!
