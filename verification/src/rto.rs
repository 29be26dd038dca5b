//! Retransmission timeout estimation.
//!
//! Round-trip samples feed an exponentially smoothed estimator in the style of
//! RFC 6298. The timeout derived from it always lies between a configured
//! minimum and maximum, and doubles, up to the maximum, each time the
//! retransmission timer expires. All times are in milliseconds.

use vstd::prelude::*;

verus! {

/// Timeout used before the first round-trip sample, in milliseconds.
pub const RTO_INITIAL: u64 = 3000;

/// Smallest timeout of the default configuration, in milliseconds.
pub const RTO_MIN: u64 = 1000;

/// Largest timeout of the default configuration, in milliseconds.
pub const RTO_MAX: u64 = 60000;

/// Delay before a delayed acknowledgement is sent, in milliseconds.
pub const ACK_INTERVAL: u64 = 200;

/// How often a handshake message is sent again before the association gives up.
pub const MAX_INIT_RETRANS: u32 = 8;

/// How often data is sent again on timeout before the path counts as failed.
pub const PATH_MAX_RETRANS: u32 = 5;

/// The estimator's state.
#[derive(Clone, Copy, Debug, PartialEq, Eq, Structural)]
pub struct RtoState {
    /// Smoothed round-trip time; zero until the first sample.
    pub srtt: u64,
    /// Round-trip time variation.
    pub rttvar: u64,
    /// Current retransmission timeout.
    pub rto: u64,
    /// Lower bound of the timeout.
    pub rto_min: u64,
    /// Upper bound of the timeout.
    pub rto_max: u64,
    /// When set, samples are ignored.
    pub no_update: bool,
}

/// `x` moved into the interval from `lo` to `hi`.
pub open spec fn clamp(x: int, lo: int, hi: int) -> int {
    if x < lo {
        if lo < hi { lo } else { hi }
    } else if x < hi {
        x
    } else {
        hi
    }
}

/// The distance between two numbers.
pub open spec fn abs_diff(a: int, b: int) -> int {
    if a >= b { a - b } else { b - a }
}

impl RtoState {
    /// The bounds are ordered and the timeout lies between them.
    pub open spec fn wf(self) -> bool {
        self.rto_min <= self.rto <= self.rto_max
    }

    /// The smoothed round-trip time after a sample of `rtt`.
    pub open spec fn next_srtt(self, rtt: u64) -> int {
        if self.srtt == 0 {
            rtt as int
        } else {
            (7 * self.srtt + rtt) / 8
        }
    }

    /// The round-trip time variation after a sample of `rtt`.
    pub open spec fn next_rttvar(self, rtt: u64) -> int {
        if self.srtt == 0 {
            (rtt / 2) as int
        } else {
            (3 * self.rttvar + abs_diff(self.srtt as int, rtt as int)) / 4
        }
    }

    /// The state after a round-trip sample of `rtt`.
    pub open spec fn sampled(self, rtt: u64) -> RtoState {
        if self.no_update {
            self
        } else {
            RtoState {
                srtt: self.next_srtt(rtt) as u64,
                rttvar: self.next_rttvar(rtt) as u64,
                rto: clamp(
                    self.next_srtt(rtt) + 4 * self.next_rttvar(rtt),
                    self.rto_min as int,
                    self.rto_max as int,
                ) as u64,
                ..self
            }
        }
    }

    /// The state after the retransmission timer has expired once.
    pub open spec fn expired(self) -> RtoState {
        RtoState { rto: clamp(2 * self.rto, self.rto_min as int, self.rto_max as int) as u64, ..self }
    }

    /// The state after the retransmission timer has expired `n` times in a row.
    pub open spec fn expired_times(self, n: nat) -> RtoState
        decreases n,
    {
        if n == 0 {
            self
        } else {
            self.expired_times((n - 1) as nat).expired()
        }
    }

    /// The state with estimates forgotten and the timeout set to `rto_initial`.
    pub open spec fn cleared(self, rto_initial: u64) -> RtoState {
        RtoState {
            srtt: 0,
            rttvar: 0,
            rto: clamp(rto_initial as int, self.rto_min as int, self.rto_max as int) as u64,
            ..self
        }
    }
}

/// Estimates the retransmission timeout of one association.
#[derive(Clone, Copy, Debug)]
pub struct RtoManager {
    state: RtoState,
}

impl View for RtoManager {
    type V = RtoState;

    closed spec fn view(&self) -> RtoState {
        self.state
    }
}

impl RtoManager {
    /// A manager with the given bounds and no sample yet, or `None` when the
    /// bounds are not ordered or the initial timeout lies outside them.
    pub fn new(rto_initial: u64, rto_min: u64, rto_max: u64) -> (r: Option<RtoManager>)
        ensures
            r.is_some() <==> rto_min <= rto_initial <= rto_max,
            r matches Some(m) ==> m@ == (RtoState {
                srtt: 0,
                rttvar: 0,
                rto: rto_initial,
                rto_min,
                rto_max,
                no_update: false,
            }) && m@.wf(),
    {
        if rto_min <= rto_initial && rto_initial <= rto_max {
            Some(
                RtoManager {
                    state: RtoState {
                        srtt: 0,
                        rttvar: 0,
                        rto: rto_initial,
                        rto_min,
                        rto_max,
                        no_update: false,
                    },
                },
            )
        } else {
            None
        }
    }

    /// A manager with the default bounds and no sample yet.
    pub fn with_defaults() -> (m: RtoManager)
        ensures
            m@ == (RtoState {
                srtt: 0,
                rttvar: 0,
                rto: RTO_INITIAL,
                rto_min: RTO_MIN,
                rto_max: RTO_MAX,
                no_update: false,
            }),
            m@.wf(),
    {
        RtoManager {
            state: RtoState {
                srtt: 0,
                rttvar: 0,
                rto: RTO_INITIAL,
                rto_min: RTO_MIN,
                rto_max: RTO_MAX,
                no_update: false,
            },
        }
    }

    /// The estimator's state.
    pub fn state(&self) -> (s: RtoState)
        ensures
            s == self@,
    {
        self.state
    }

    /// Takes a newly measured round-trip time and adjusts the timeout.
    /// Returns the smoothed round-trip time.
    pub fn set_new_rtt(&mut self, rtt: u64) -> (srtt: u64)
        requires
            old(self)@.wf(),
        ensures
            final(self)@ == old(self)@.sampled(rtt),
            final(self)@.wf(),
            srtt == final(self)@.srtt,
    {
        if self.state.no_update {
            return self.state.srtt;
        }
        let old_srtt: u128 = self.state.srtt as u128;
        let old_var: u128 = self.state.rttvar as u128;
        let sample: u128 = rtt as u128;
        let srtt: u128;
        let rttvar: u128;
        if old_srtt == 0 {
            srtt = sample;
            rttvar = sample / 2;
        } else {
            let diff: u128 = if old_srtt >= sample { old_srtt - sample } else { sample - old_srtt };
            rttvar = (3 * old_var + diff) / 4;
            srtt = (7 * old_srtt + sample) / 8;
        }
        let raw: u128 = srtt + 4 * rttvar;
        let lo: u128 = self.state.rto_min as u128;
        let hi: u128 = self.state.rto_max as u128;
        let rto: u128 = if raw < lo { lo } else if raw < hi { raw } else { hi };
        self.state.srtt = srtt as u64;
        self.state.rttvar = rttvar as u64;
        self.state.rto = rto as u64;
        self.state.srtt
    }

    /// The current retransmission timeout.
    pub fn get_rto(&self) -> (rto: u64)
        ensures
            rto == self@.rto,
    {
        self.state.rto
    }

    /// Backs the timeout off after the retransmission timer has expired:
    /// it doubles, but does not pass the maximum. Returns the new timeout.
    ///
    /// This is for a caller that keeps the backed-off timeout in the
    /// estimate itself. An association does not call it: its timers count
    /// their expiries and back off from the estimate by that count, as
    /// `Timer::checked` says, and the estimate stays as the last sample
    /// left it.
    pub fn on_expiry(&mut self) -> (rto: u64)
        requires
            old(self)@.wf(),
        ensures
            final(self)@ == old(self)@.expired(),
            final(self)@.wf(),
            rto == final(self)@.rto,
    {
        let doubled: u128 = 2 * (self.state.rto as u128);
        let hi: u128 = self.state.rto_max as u128;
        let rto: u128 = if doubled < hi { doubled } else { hi };
        self.state.rto = rto as u64;
        self.state.rto
    }

    /// Forgets the estimates and starts again from `rto_initial`, moved into the bounds.
    pub fn reset(&mut self, rto_initial: u64)
        requires
            old(self)@.wf(),
        ensures
            final(self)@ == old(self)@.cleared(rto_initial),
            final(self)@.wf(),
    {
        let lo: u64 = self.state.rto_min;
        let hi: u64 = self.state.rto_max;
        self.state.srtt = 0;
        self.state.rttvar = 0;
        self.state.rto = if rto_initial < lo { lo } else if rto_initial < hi { rto_initial } else { hi };
    }

    /// Sets the timeout to `rto`, moved into the bounds, and decides whether
    /// later samples may change it.
    pub fn set_rto(&mut self, rto: u64, no_update: bool)
        requires
            old(self)@.wf(),
        ensures
            final(self)@ == (RtoState {
                rto: clamp(rto as int, old(self)@.rto_min as int, old(self)@.rto_max as int) as u64,
                no_update,
                ..old(self)@
            }),
            final(self)@.wf(),
    {
        let lo: u64 = self.state.rto_min;
        let hi: u64 = self.state.rto_max;
        self.state.rto = if rto < lo { lo } else if rto < hi { rto } else { hi };
        self.state.no_update = no_update;
    }
}

/// The timeout after `n` expiries in a row that began at `rto`: doubled each
/// time, never above `rto_max`.
pub open spec fn backoff(rto: int, n: nat, rto_max: int) -> int
    decreases n,
{
    if n == 0 {
        if rto < rto_max { rto } else { rto_max }
    } else {
        let prev = backoff(rto, (n - 1) as nat, rto_max);
        if 2 * prev < rto_max { 2 * prev } else { rto_max }
    }
}

/// The backed-off timeout is never negative and never above the maximum.
pub proof fn lemma_backoff_bounds(rto: int, n: nat, rto_max: int)
    requires
        0 <= rto,
        0 <= rto_max,
    ensures
        0 <= backoff(rto, n, rto_max) <= rto_max,
    decreases n,
{
    if n > 0 {
        lemma_backoff_bounds(rto, (n - 1) as nat, rto_max);
    }
}

/// Once the backed-off timeout has reached the maximum, or is zero, further expiries keep it.
pub proof fn lemma_backoff_settles(rto: int, n: nat, m: nat, rto_max: int)
    requires
        0 <= rto,
        0 <= rto_max,
        n <= m,
        backoff(rto, n, rto_max) == rto_max || backoff(rto, n, rto_max) == 0,
    ensures
        backoff(rto, m, rto_max) == backoff(rto, n, rto_max),
    decreases m - n,
{
    if n < m {
        lemma_backoff_settles(rto, n, (m - 1) as nat, rto_max);
    }
}

/// The timeout to arm the timer with after it has expired `n_rtos` times in a
/// row, starting from `rto`.
pub fn calculate_next_timeout(rto: u64, n_rtos: u32, rto_max: u64) -> (t: u64)
    ensures
        t == backoff(rto as int, n_rtos as nat, rto_max as int),
{
    let mut t: u64 = if rto < rto_max { rto } else { rto_max };
    let mut i: u32 = 0;
    while i < n_rtos && t != 0 && t < rto_max
        invariant
            i <= n_rtos,
            t == backoff(rto as int, i as nat, rto_max as int),
            t <= rto_max,
        decreases n_rtos - i,
    {
        let doubled: u128 = 2 * (t as u128);
        t = if doubled < rto_max as u128 { doubled as u64 } else { rto_max };
        i = i + 1;
    }
    proof {
        if i < n_rtos {
            lemma_backoff_settles(rto as int, i as nat, n_rtos as nat, rto_max as int);
        }
    }
    t
}

/// Each expiry of the retransmission timer at least doubles the timeout, but
/// for the maximum: the new timeout is the smaller of twice the old one and
/// the maximum.
pub proof fn lemma_expiry_doubles(s: RtoState)
    requires
        s.wf(),
    ensures
        s.expired().wf(),
        s.expired().rto == (if 2 * s.rto < s.rto_max { 2 * s.rto } else { s.rto_max as int }),
        s.expired().rto >= s.rto,
        s.expired().rto >= 2 * s.rto || s.expired().rto == s.rto_max,
        s.expired().rto <= s.rto_max,
{
}

/// After any number of expiries in a row the timeout is the first one doubled
/// that many times, bounded by the maximum; each further expiry at least
/// doubles it or leaves it at the maximum.
pub proof fn lemma_expiries_back_off(s: RtoState, n: nat)
    requires
        s.wf(),
    ensures
        s.expired_times(n).wf(),
        s.expired_times(n).rto == backoff(s.rto as int, n, s.rto_max as int),
        s.expired_times(n).rto_min == s.rto_min,
        s.expired_times(n).rto_max == s.rto_max,
        s.expired_times(n + 1).rto >= 2 * s.expired_times(n).rto
            || s.expired_times(n + 1).rto == s.rto_max,
        s.expired_times(n + 1).rto <= s.rto_max,
    decreases n,
{
    reveal_with_fuel(RtoState::expired_times, 2);
    if n > 0 {
        lemma_expiries_back_off(s, (n - 1) as nat);
    }
    lemma_expiry_doubles(s.expired_times(n));
}

/// A sample never moves the timeout out of its bounds.
pub proof fn lemma_sample_keeps_bounds(s: RtoState, rtt: u64)
    requires
        s.wf(),
    ensures
        s.sampled(rtt).wf(),
        s.sampled(rtt).rto_min == s.rto_min,
        s.sampled(rtt).rto_max == s.rto_max,
{
}

} // verus!
