//! Congestion control: the window that bounds how much data may be in flight.
//!
//! The controller is a pure state machine. It grows the window in slow start
//! and congestion avoidance as data is acknowledged, halves its target on loss,
//! and collapses the window to one packet when the retransmission timer
//! expires. Whatever happens, the window never falls below one MTU.

use vstd::prelude::*;
use crate::serial::{gte32, sna32gte};

verus! {

/// Default number of missing reports that triggers a fast retransmit.
pub const MISSING_REPORT_THRESHOLD: u8 = 4;

/// Default path MTU, in bytes.
pub const INITIAL_MTU: u16 = 1228;

/// The congestion state of one association.
#[derive(Clone, Copy, Debug, PartialEq, Eq, Structural)]
pub struct CongestionState {
    /// Congestion window, in bytes.
    pub cwnd: u32,
    /// Slow start threshold, in bytes.
    pub ssthresh: u32,
    /// Bytes acknowledged since the window last grew in congestion avoidance.
    pub partial_bytes_acked: u32,
    /// Whether a fast retransmit is being recovered from.
    pub in_fast_recovery: bool,
    /// The sequence number whose acknowledgement ends fast recovery.
    pub recovery_point_tsn: u32,
}

/// What can happen to the congestion state.
#[derive(Clone, Copy, Debug, PartialEq, Eq, Structural)]
pub enum CongestionEvent {
    /// A selective acknowledgement arrived that newly acknowledged `bytes_acked`
    /// bytes and carried the cumulative acknowledgement `cum_ack`.
    Sack { bytes_acked: u32, cum_ack: u32 },
    /// A chunk was reported missing often enough to be sent again at once;
    /// `highest_tsn` is the highest sequence number outstanding at that moment.
    FastRetransmit { highest_tsn: u32 },
    /// The retransmission timer expired.
    Timeout,
}

/// The smaller of two numbers.
pub open spec fn min_int(a: int, b: int) -> int {
    if a <= b { a } else { b }
}

/// The larger of two numbers.
pub open spec fn max_int(a: int, b: int) -> int {
    if a >= b { a } else { b }
}

/// The slow start threshold after a loss at window `cwnd`: half the window,
/// but at least two MTUs.
pub open spec fn reduced_ssthresh(cwnd: u32, mtu: u16) -> int {
    max_int(cwnd as int / 2, 2 * mtu)
}

/// The window that congestion control starts with: between two and four MTUs,
/// aiming at 4380 bytes.
pub open spec fn initial_cwnd(mtu: u16) -> int {
    min_int(4 * mtu, max_int(2 * mtu, 4380))
}

/// How many bytes may be sent now: what the smaller of the congestion window
/// and the peer's receive window leaves above the bytes in flight.
pub open spec fn budget(cwnd: u32, peer_rwnd: u32, bytes_in_flight: u32) -> int {
    max_int(0, min_int(cwnd - bytes_in_flight, peer_rwnd - bytes_in_flight))
}

impl CongestionState {
    /// The window is at least one MTU, and so is the threshold that the
    /// window returns to when fast recovery ends.
    pub open spec fn wf(self, mtu: u16) -> bool {
        &&& self.cwnd >= mtu
        &&& self.in_fast_recovery ==> self.ssthresh >= mtu
    }

    /// The state with fast recovery ended if `cum_ack` has reached the recovery point.
    pub open spec fn recovered(self, cum_ack: u32) -> CongestionState {
        if self.in_fast_recovery && gte32(cum_ack, self.recovery_point_tsn) {
            CongestionState { in_fast_recovery: false, cwnd: self.ssthresh, ..self }
        } else {
            self
        }
    }

    /// The state after `bytes_acked` bytes were newly acknowledged outside fast recovery.
    ///
    /// Below the threshold the window grows by the bytes acknowledged, at most
    /// one MTU. At or above it the bytes are accumulated, and the window grows
    /// by one MTU once a full window's worth has been acknowledged.
    pub open spec fn grown(self, bytes_acked: u32, mtu: u16) -> CongestionState {
        if self.cwnd < self.ssthresh {
            CongestionState {
                cwnd: min_int(self.cwnd + min_int(bytes_acked as int, mtu as int), u32::MAX as int) as u32,
                ..self
            }
        } else {
            let partial = min_int(self.partial_bytes_acked + bytes_acked, u32::MAX as int);
            if partial >= self.cwnd {
                CongestionState {
                    partial_bytes_acked: (partial - self.cwnd) as u32,
                    cwnd: min_int(self.cwnd + mtu, u32::MAX as int) as u32,
                    ..self
                }
            } else {
                CongestionState { partial_bytes_acked: partial as u32, ..self }
            }
        }
    }

    /// The state after a selective acknowledgement: fast recovery ends if the
    /// cumulative acknowledgement has reached the recovery point, and outside
    /// fast recovery the window grows.
    pub open spec fn sacked(self, bytes_acked: u32, cum_ack: u32, mtu: u16) -> CongestionState {
        let s = self.recovered(cum_ack);
        if s.in_fast_recovery {
            s
        } else {
            s.grown(bytes_acked, mtu)
        }
    }

    /// The state after a fast retransmit was triggered. Inside fast recovery
    /// nothing changes; outside, the threshold is reduced, the window becomes
    /// the threshold and `threshold` MTUs, and fast recovery begins.
    pub open spec fn fast_retransmitted(self, highest_tsn: u32, mtu: u16, threshold: u8) -> CongestionState {
        if self.in_fast_recovery {
            self
        } else {
            CongestionState {
                ssthresh: reduced_ssthresh(self.cwnd, mtu) as u32,
                cwnd: (reduced_ssthresh(self.cwnd, mtu) + threshold * mtu) as u32,
                partial_bytes_acked: 0,
                in_fast_recovery: true,
                recovery_point_tsn: highest_tsn,
            }
        }
    }

    /// The state after the retransmission timer expired: the threshold is
    /// reduced and the window is one MTU, so slow start begins again.
    pub open spec fn timed_out(self, mtu: u16) -> CongestionState {
        CongestionState {
            ssthresh: reduced_ssthresh(self.cwnd, mtu) as u32,
            cwnd: mtu as u32,
            partial_bytes_acked: 0,
            ..self
        }
    }

    /// The state after one event.
    pub open spec fn after(self, event: CongestionEvent, mtu: u16, threshold: u8) -> CongestionState {
        match event {
            CongestionEvent::Sack { bytes_acked, cum_ack } => self.sacked(bytes_acked, cum_ack, mtu),
            CongestionEvent::FastRetransmit { highest_tsn } => self.fast_retransmitted(
                highest_tsn,
                mtu,
                threshold,
            ),
            CongestionEvent::Timeout => self.timed_out(mtu),
        }
    }

    /// The state after a sequence of events, first to last.
    pub open spec fn after_all(self, events: Seq<CongestionEvent>, mtu: u16, threshold: u8) -> CongestionState
        decreases events.len(),
    {
        if events.len() == 0 {
            self
        } else {
            self.after_all(events.drop_last(), mtu, threshold).after(events.last(), mtu, threshold)
        }
    }
}

/// Governs the in-flight budget of one association.
#[derive(Clone, Copy, Debug)]
pub struct CongestionController {
    state: CongestionState,
    mtu: u16,
    threshold: u8,
}

impl View for CongestionController {
    type V = CongestionState;

    closed spec fn view(&self) -> CongestionState {
        self.state
    }
}

impl CongestionController {
    /// The path MTU that the controller counts in.
    pub closed spec fn mtu(&self) -> u16 {
        self.mtu
    }

    /// The number of missing reports that triggers a fast retransmit.
    pub closed spec fn threshold(&self) -> u8 {
        self.threshold
    }

    /// The controller's state is well formed for its MTU.
    pub open spec fn wf(&self) -> bool {
        self@.wf(self.mtu())
    }

    /// A controller at the start of an association: the window is the initial
    /// window for `mtu` and the threshold is the peer's receive window.
    pub fn new(mtu: u16, threshold: u8, peer_rwnd: u32) -> (c: CongestionController)
        ensures
            c.wf(),
            c.mtu() == mtu,
            c.threshold() == threshold,
            c@ == (CongestionState {
                cwnd: initial_cwnd(mtu) as u32,
                ssthresh: peer_rwnd,
                partial_bytes_acked: 0,
                in_fast_recovery: false,
                recovery_point_tsn: 0,
            }),
    {
        let m: u32 = mtu as u32;
        let floor: u32 = if 2 * m >= 4380 { 2 * m } else { 4380 };
        let cwnd: u32 = if 4 * m <= floor { 4 * m } else { floor };
        CongestionController {
            state: CongestionState {
                cwnd,
                ssthresh: peer_rwnd,
                partial_bytes_acked: 0,
                in_fast_recovery: false,
                recovery_point_tsn: 0,
            },
            mtu,
            threshold,
        }
    }

    /// The controller's state.
    pub fn state(&self) -> (s: CongestionState)
        ensures
            s == self@,
    {
        self.state
    }

    /// The path MTU that the controller counts in.
    pub fn get_mtu(&self) -> (m: u16)
        ensures
            m == self.mtu(),
    {
        self.mtu
    }

    /// The number of missing reports that triggers a fast retransmit.
    pub fn get_threshold(&self) -> (t: u8)
        ensures
            t == self.threshold(),
    {
        self.threshold
    }

    /// Takes note of a selective acknowledgement that newly acknowledged
    /// `bytes_acked` bytes and carried the cumulative acknowledgement `cum_ack`.
    pub fn on_sack(&mut self, bytes_acked: u32, cum_ack: u32)
        requires
            old(self).wf(),
        ensures
            final(self)@ == old(self)@.sacked(bytes_acked, cum_ack, old(self).mtu()),
            final(self).mtu() == old(self).mtu(),
            final(self).threshold() == old(self).threshold(),
            final(self).wf(),
    {
        if self.state.in_fast_recovery && sna32gte(cum_ack, self.state.recovery_point_tsn) {
            self.state.in_fast_recovery = false;
            self.state.cwnd = self.state.ssthresh;
        }
        if self.state.in_fast_recovery {
            return;
        }
        let mtu: u32 = self.mtu as u32;
        if self.state.cwnd < self.state.ssthresh {
            let step: u32 = if bytes_acked <= mtu { bytes_acked } else { mtu };
            self.state.cwnd = if self.state.cwnd <= u32::MAX - step {
                self.state.cwnd + step
            } else {
                u32::MAX
            };
        } else {
            let partial: u32 = if self.state.partial_bytes_acked <= u32::MAX - bytes_acked {
                self.state.partial_bytes_acked + bytes_acked
            } else {
                u32::MAX
            };
            if partial >= self.state.cwnd {
                self.state.partial_bytes_acked = partial - self.state.cwnd;
                self.state.cwnd = if self.state.cwnd <= u32::MAX - mtu {
                    self.state.cwnd + mtu
                } else {
                    u32::MAX
                };
            } else {
                self.state.partial_bytes_acked = partial;
            }
        }
    }

    /// Takes note of a fast retransmit. Returns whether fast recovery began
    /// with it, which it does unless it was under way already.
    pub fn on_fast_retransmit(&mut self, highest_tsn: u32) -> (entered: bool)
        requires
            old(self).wf(),
        ensures
            final(self)@ == old(self)@.fast_retransmitted(
                highest_tsn,
                old(self).mtu(),
                old(self).threshold(),
            ),
            entered == !old(self)@.in_fast_recovery,
            final(self).mtu() == old(self).mtu(),
            final(self).threshold() == old(self).threshold(),
            final(self).wf(),
    {
        if self.state.in_fast_recovery {
            return false;
        }
        let mtu: u32 = self.mtu as u32;
        let half: u32 = self.state.cwnd / 2;
        let ssthresh: u32 = if half >= 2 * mtu { half } else { 2 * mtu };
        assert(self.threshold * mtu <= 255 * 65535) by (nonlinear_arith)
            requires
                self.threshold <= 255,
                mtu <= 65535,
        ;
        self.state.ssthresh = ssthresh;
        self.state.cwnd = ssthresh + (self.threshold as u32) * mtu;
        self.state.partial_bytes_acked = 0;
        self.state.in_fast_recovery = true;
        self.state.recovery_point_tsn = highest_tsn;
        true
    }

    /// Takes note of an expiry of the retransmission timer.
    pub fn on_timeout(&mut self)
        requires
            old(self).wf(),
        ensures
            final(self)@ == old(self)@.timed_out(old(self).mtu()),
            final(self).mtu() == old(self).mtu(),
            final(self).threshold() == old(self).threshold(),
            final(self).wf(),
    {
        let mtu: u32 = self.mtu as u32;
        let half: u32 = self.state.cwnd / 2;
        self.state.ssthresh = if half >= 2 * mtu { half } else { 2 * mtu };
        self.state.cwnd = mtu;
        self.state.partial_bytes_acked = 0;
    }

    /// Applies one event.
    pub fn apply(&mut self, event: CongestionEvent)
        requires
            old(self).wf(),
        ensures
            final(self)@ == old(self)@.after(event, old(self).mtu(), old(self).threshold()),
            final(self).mtu() == old(self).mtu(),
            final(self).threshold() == old(self).threshold(),
            final(self).wf(),
    {
        match event {
            CongestionEvent::Sack { bytes_acked, cum_ack } => {
                self.on_sack(bytes_acked, cum_ack);
            },
            CongestionEvent::FastRetransmit { highest_tsn } => {
                let _ = self.on_fast_retransmit(highest_tsn);
            },
            CongestionEvent::Timeout => {
                self.on_timeout();
            },
        }
    }

    /// How many bytes may be sent now, with `bytes_in_flight` bytes
    /// outstanding and the peer's receive window at `peer_rwnd`.
    pub fn send_budget(&self, bytes_in_flight: u32, peer_rwnd: u32) -> (b: u32)
        ensures
            b == budget(self@.cwnd, peer_rwnd, bytes_in_flight),
    {
        let window: u32 = if self.state.cwnd <= peer_rwnd { self.state.cwnd } else { peer_rwnd };
        if window > bytes_in_flight {
            window - bytes_in_flight
        } else {
            0
        }
    }
}

/// No single event takes the window below one MTU.
pub proof fn lemma_event_keeps_window(s: CongestionState, event: CongestionEvent, mtu: u16, threshold: u8)
    requires
        s.wf(mtu),
    ensures
        s.after(event, mtu, threshold).wf(mtu),
        s.after(event, mtu, threshold).cwnd >= mtu,
{
    assert(threshold * mtu <= 255 * 65535) by (nonlinear_arith)
        requires
            threshold <= 255,
            mtu <= 65535,
    ;
    assert(threshold * mtu >= 0) by (nonlinear_arith)
        requires
            threshold >= 0,
            mtu >= 0,
    ;
}

/// The congestion window never falls below one MTU: whatever events arrive,
/// in whatever order, the window is at least one MTU after each of them.
pub proof fn lemma_cwnd_never_below_mtu(
    s: CongestionState,
    events: Seq<CongestionEvent>,
    mtu: u16,
    threshold: u8,
)
    requires
        s.wf(mtu),
    ensures
        s.after_all(events, mtu, threshold).wf(mtu),
        s.after_all(events, mtu, threshold).cwnd >= mtu,
    decreases events.len(),
{
    if events.len() > 0 {
        lemma_cwnd_never_below_mtu(s, events.drop_last(), mtu, threshold);
        lemma_event_keeps_window(
            s.after_all(events.drop_last(), mtu, threshold),
            events.last(),
            mtu,
            threshold,
        );
    }
}

/// Whether each of the events is a selective acknowledgement that newly
/// acknowledges at least `least` bytes: nothing was lost, and no timer expired.
pub open spec fn all_acknowledge(events: Seq<CongestionEvent>, least: u32) -> bool {
    forall|i: int|
        0 <= i < events.len() ==> (#[trigger] events[i] matches CongestionEvent::Sack { bytes_acked, .. }
            && bytes_acked >= least)
}

/// Without loss the window only grows. Whatever selective acknowledgements
/// arrive, as long as no chunk is fast retransmitted and no timer expires,
/// fast recovery is not entered, the threshold stays what it was, and the
/// window never shrinks. If each acknowledges at least `least` bytes, no
/// more than one MTU, the window has grown by that much for each of them,
/// or has reached the threshold: slow start ends, and once the window has
/// reached the threshold it stays at or above it.
pub proof fn lemma_no_loss_only_grows(
    s: CongestionState,
    events: Seq<CongestionEvent>,
    least: u32,
    mtu: u16,
    threshold: u8,
)
    requires
        s.wf(mtu),
        !s.in_fast_recovery,
        all_acknowledge(events, least),
        least <= mtu,
    ensures
        ({
            let e = s.after_all(events, mtu, threshold);
            &&& !e.in_fast_recovery
            &&& e.ssthresh == s.ssthresh
            &&& e.cwnd >= s.cwnd
            &&& e.cwnd >= min_int(s.cwnd + events.len() * least, s.ssthresh as int)
            &&& s.cwnd >= s.ssthresh ==> e.cwnd >= e.ssthresh
        }),
    decreases events.len(),
{
    if events.len() > 0 {
        let front = events.drop_last();
        assert forall|i: int| 0 <= i < front.len() implies (#[trigger] front[i] matches CongestionEvent::Sack {
            bytes_acked,
            ..
        } && bytes_acked >= least) by {
            assert(front[i] == events[i]);
        }
        lemma_no_loss_only_grows(s, front, least, mtu, threshold);
        let before = s.after_all(front, mtu, threshold);
        let last = events.last();
        assert(last == events[events.len() - 1]);
        assert(s.after_all(events, mtu, threshold) == before.after(last, mtu, threshold));
        assert(events.len() * least == front.len() * least + least) by (nonlinear_arith)
            requires
                events.len() == front.len() + 1,
        ;
    }
}

/// The send budget never exceeds the congestion window nor the peer's
/// receive window, and is zero once either is used up.
pub proof fn lemma_budget_bounds(cwnd: u32, peer_rwnd: u32, bytes_in_flight: u32)
    ensures
        0 <= budget(cwnd, peer_rwnd, bytes_in_flight) <= cwnd,
        budget(cwnd, peer_rwnd, bytes_in_flight) <= peer_rwnd,
        bytes_in_flight >= cwnd || bytes_in_flight >= peer_rwnd ==> budget(
            cwnd,
            peer_rwnd,
            bytes_in_flight,
        ) == 0,
        bytes_in_flight + budget(cwnd, peer_rwnd, bytes_in_flight) <= max_int(
            bytes_in_flight as int,
            min_int(cwnd as int, peer_rwnd as int),
        ),
{
}

} // verus!
