//! Timers without a clock.
//!
//! A timer is a deadline, if it is armed, and the count of how often it has
//! expired in a row. The engine never waits: it reports the earliest deadline
//! and is told the time when it is called again.

use vstd::prelude::*;
use crate::rto::{backoff, calculate_next_timeout};

verus! {

/// The smaller of two optional instants, where a missing one does not count.
pub open spec fn spec_min_opt(x: Option<u64>, y: Option<u64>) -> Option<u64> {
    match (x, y) {
        (Some(a), Some(b)) => Some(if a <= b { a } else { b }),
        (Some(a), None) => Some(a),
        (None, Some(b)) => Some(b),
        (None, None) => None,
    }
}

/// The smaller of two optional instants, where a missing one does not count.
pub fn min_opt(x: Option<u64>, y: Option<u64>) -> (r: Option<u64>)
    ensures
        r == spec_min_opt(x, y),
{
    match (x, y) {
        (Some(a), Some(b)) => Some(if a <= b { a } else { b }),
        (Some(a), None) => Some(a),
        (None, Some(b)) => Some(b),
        (None, None) => None,
    }
}

/// The earliest of the instants is no later than either, and is one of them.
pub proof fn lemma_min_opt(x: Option<u64>, y: Option<u64>)
    ensures
        spec_min_opt(x, y) == spec_min_opt(y, x),
        spec_min_opt(x, y).is_none() <==> x.is_none() && y.is_none(),
        spec_min_opt(x, y) == x || spec_min_opt(x, y) == y,
        x matches Some(a) ==> spec_min_opt(x, y).unwrap() <= a,
        y matches Some(b) ==> spec_min_opt(x, y).unwrap() <= b,
{
}

/// The time that a clock at `time` moves to when each of two sides has
/// said when it wants to be woken, if it wants to be: the earlier of the two
/// instants, but never back before `time`. `None` if neither side wants to
/// be woken.
pub open spec fn spec_next_time(time: u64, client: Option<u64>, server: Option<u64>) -> Option<u64> {
    match spec_min_opt(client, server) {
        Some(t) => Some(if t > time { t } else { time }),
        None => None,
    }
}

/// The time that a clock at `time` moves to. See `spec_next_time`.
pub fn next_time(time: u64, client: Option<u64>, server: Option<u64>) -> (r: Option<u64>)
    ensures
        r == spec_next_time(time, client, server),
{
    match min_opt(client, server) {
        Some(t) => Some(if t > time { t } else { time }),
        None => None,
    }
}

/// A clock never moves back, and where it moves on it moves to the earlier
/// of the two instants, so that no wakeup is passed over.
pub proof fn lemma_next_time(time: u64, client: Option<u64>, server: Option<u64>)
    ensures
        spec_next_time(time, client, server).is_none() <==> client.is_none() && server.is_none(),
        spec_next_time(time, client, server) matches Some(t) ==> t >= time && (t == time || Some(t) == client
            || Some(t) == server) && (client matches Some(c) ==> t <= c || t == time) && (server matches Some(
            s,
        ) ==> t <= s || t == time),
{
}

/// One retransmission timer.
#[derive(Clone, Copy, Debug, PartialEq, Eq, Structural)]
pub struct Timer {
    /// When the timer expires, if it is armed.
    pub deadline: Option<u64>,
    /// How often the timer has expired since it was last started.
    pub n_rtos: u32,
    /// How often the timer may expire before the engine gives up; `None` for no limit.
    pub max_retrans: Option<u32>,
}

/// What an expired timer asks for.
#[derive(Clone, Copy, Debug, PartialEq, Eq, Structural)]
pub enum Expiry {
    /// The timer is not armed, or its deadline lies ahead.
    NotYet,
    /// The timer has expired and was armed again: send again.
    Retransmit,
    /// The timer has expired once more than it may: give up.
    Failure,
}

/// `base` plus `delay`, but no later than the last instant there is.
pub open spec fn later(base: u64, delay: u64) -> u64 {
    if base + delay > u64::MAX {
        u64::MAX
    } else {
        (base + delay) as u64
    }
}

impl Timer {
    /// The timer started at `now` with the timeout `rto`.
    pub open spec fn started(self, now: u64, rto: u64) -> Timer {
        Timer { deadline: Some(later(now, rto)), n_rtos: 0, ..self }
    }

    /// Whether the timer has expired at `now`.
    pub open spec fn is_due(self, now: u64) -> bool {
        self.deadline matches Some(d) && d <= now
    }

    /// Whether one more expiry is more than the timer may have.
    pub open spec fn exhausted(self) -> bool {
        self.max_retrans matches Some(m) && self.n_rtos >= m
    }

    /// The timer after it was looked at at `now`: if it has expired it is
    /// armed again with the timeout backed off, or stopped for good.
    pub open spec fn checked(self, now: u64, rto: u64, rto_max: u64) -> Timer {
        if !self.is_due(now) {
            self
        } else if self.exhausted() {
            Timer { deadline: None, ..self }
        } else {
            let n = if self.n_rtos < u32::MAX { (self.n_rtos + 1) as u32 } else { self.n_rtos };
            Timer {
                deadline: Some(later(now, backoff(rto as int, n as nat, rto_max as int) as u64)),
                n_rtos: n,
                ..self
            }
        }
    }

    /// What a look at the timer at `now` finds.
    pub open spec fn expiry(self, now: u64) -> Expiry {
        if !self.is_due(now) {
            Expiry::NotYet
        } else if self.exhausted() {
            Expiry::Failure
        } else {
            Expiry::Retransmit
        }
    }

    /// A timer that is not armed.
    pub fn new(max_retrans: Option<u32>) -> (t: Timer)
        ensures
            t == (Timer { deadline: None, n_rtos: 0, max_retrans }),
    {
        Timer { deadline: None, n_rtos: 0, max_retrans }
    }

    /// Arms the timer to expire `rto` after `now` and forgets earlier expiries.
    pub fn start(&mut self, now: u64, rto: u64)
        ensures
            *final(self) == old(self).started(now, rto),
    {
        self.deadline = Some(add_delay(now, rto));
        self.n_rtos = 0;
    }

    /// Arms the timer as `start` does, unless it is armed already.
    pub fn start_if_idle(&mut self, now: u64, rto: u64)
        ensures
            *final(self) == (if old(self).deadline.is_some() {
                *old(self)
            } else {
                old(self).started(now, rto)
            }),
    {
        if self.deadline.is_none() {
            self.start(now, rto);
        }
    }

    /// Stops the timer.
    pub fn stop(&mut self)
        ensures
            *final(self) == (Timer { deadline: None, n_rtos: 0, ..*old(self) }),
    {
        self.deadline = None;
        self.n_rtos = 0;
    }

    /// Whether the timer is armed.
    pub fn is_running(&self) -> (b: bool)
        ensures
            b == self.deadline.is_some(),
    {
        self.deadline.is_some()
    }

    /// Looks at the timer at `now`. If it has expired, it is armed again with
    /// the timeout `rto` backed off once for each expiry in a row, at most
    /// `rto_max`; if it has expired more often than it may, it is stopped.
    pub fn check(&mut self, now: u64, rto: u64, rto_max: u64) -> (e: Expiry)
        ensures
            *final(self) == old(self).checked(now, rto, rto_max),
            e == old(self).expiry(now),
    {
        let due: bool = match self.deadline {
            Some(d) => d <= now,
            None => false,
        };
        if !due {
            return Expiry::NotYet;
        }
        let exhausted: bool = match self.max_retrans {
            Some(m) => self.n_rtos >= m,
            None => false,
        };
        if exhausted {
            self.deadline = None;
            return Expiry::Failure;
        }
        if self.n_rtos < u32::MAX {
            self.n_rtos = self.n_rtos + 1;
        }
        self.deadline = Some(add_delay(now, calculate_next_timeout(rto, self.n_rtos, rto_max)));
        Expiry::Retransmit
    }
}

/// `base` plus `delay`, but no later than the last instant there is.
pub fn add_delay(base: u64, delay: u64) -> (t: u64)
    ensures
        t == later(base, delay),
{
    if base <= u64::MAX - delay {
        base + delay
    } else {
        u64::MAX
    }
}

/// A timer that was started expires as often as it may, each time with the
/// timeout backed off once more, and then fails: it never expires more
/// often than its limit allows.
pub proof fn lemma_timer_gives_up(t: Timer, now: u64, rto: u64, rto_max: u64)
    requires
        t.is_due(now),
    ensures
        t.expiry(now) == Expiry::Failure <==> t.exhausted(),
        t.expiry(now) == Expiry::Retransmit ==> t.checked(now, rto, rto_max).n_rtos >= t.n_rtos
            && t.checked(now, rto, rto_max).deadline.is_some(),
        t.expiry(now) == Expiry::Failure ==> t.checked(now, rto, rto_max).deadline.is_none(),
{
}

/// Each expiry of a timer at least doubles the interval after which it
/// expires next, but for the maximum: the interval that is armed at an
/// expiry is the smaller of twice the interval that was armed at the expiry
/// before it and the maximum. The interval armed at the first expiry is the
/// smaller of twice the timeout and the maximum.
pub proof fn lemma_expiry_backs_off(t: Timer, now: u64, rto: u64, rto_max: u64)
    requires
        t.is_due(now),
        !t.exhausted(),
        t.n_rtos < u32::MAX,
    ensures
        ({
            let before = backoff(rto as int, t.n_rtos as nat, rto_max as int);
            let after = backoff(rto as int, (t.n_rtos + 1) as nat, rto_max as int);
            &&& t.expiry(now) == Expiry::Retransmit
            &&& t.checked(now, rto, rto_max).n_rtos == t.n_rtos + 1
            &&& t.checked(now, rto, rto_max).deadline == Some(later(now, after as u64))
            &&& after == (if 2 * before < rto_max { 2 * before } else { rto_max as int })
            &&& after >= 2 * before || after == rto_max
            &&& after <= rto_max
            &&& rto <= rto_max ==> after >= before
            &&& t.n_rtos == 0 && rto <= rto_max ==> before == rto
        }),
{
    crate::rto::lemma_backoff_bounds(rto as int, t.n_rtos as nat, rto_max as int);
}

} // verus!
