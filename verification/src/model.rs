//! What an association does, as mathematics.
//!
//! `AssociationView` is an association as a value, and each function here
//! says what one event makes of it: the arrival of a chunk, the expiry of a
//! timer, a request of the user, the making of the next packet. The code in
//! `association` is proved to do exactly this.

use vstd::prelude::*;
use crate::chunk::{DataView, PayloadProtocolIdentifier, PendingView, ReliabilityType, MAX_CHUNK_PAYLOAD};
use crate::config::{AckMode, TransportConfig};
use crate::congestion::CongestionState;
use crate::error::Error;
use crate::inflight::{abandoned_prefix, first_sample, skipped_streams, InflightView, SackView, MAX_IN_FLIGHT};
use crate::packet::{
    chunk_bytes,
    chunks_bytes,
    packet_body,
    packet_bytes,
    ChunkView,
    CommonHeader,
    ForwardTsnStream,
    ForwardTsnView,
    InitView,
    PacketView,
    ResetRequestView,
    ResetResponse,
    SackChunkView,
    RESET_BAD_SEQUENCE,
    RESET_IN_PROGRESS,
    RESET_NOTHING_TO_DO,
    RESET_PERFORMED,
};
use crate::reassembly::pool_bytes;

use crate::receiver::{gap_blocks, TrackerView};
use crate::rto::{backoff, RtoState, ACK_INTERVAL, MAX_INIT_RETRANS};
use crate::serial::{add32, lte32};
use crate::shared::{EndpointEvent, EndpointEventInner, IpAddress, SocketAddress};
use crate::state::{step_of, Action, AssociationState, Notice, Trigger};
use crate::stream::{fragments_of, parts_of, StreamView};
use crate::timer::{later, lemma_expiry_backs_off, spec_min_opt, Expiry, Timer};

verus! {

/// The port that both sides use unless told otherwise.
pub const DEFAULT_PORT: u16 = 5000;

/// Which side of the handshake an association is on.
#[derive(Clone, Copy, Debug, PartialEq, Eq, Structural)]
pub enum Side {
    /// The side that sends the INIT.
    Client,
    /// The side that answers it.
    Server,
}

/// What an association tells the application.
#[derive(Clone, Copy, Debug, PartialEq, Eq, Structural)]
pub enum Event {
    /// The handshake is done.
    Connected,
    /// The peer has opened the stream, which can now be accepted.
    StreamOpened(u16),
    /// A whole message waits to be read on the stream.
    DataReady(u16),
    /// The stream was reset: it is no more. A stream that is opened under
    /// its number later begins at stream sequence number zero.
    Reset(u16),
    /// The association has ended in order.
    Closed,
    /// The association has ended with a failure.
    Error(Error),
}

/// What an association draws by chance when it is made.
#[derive(Debug)]
pub struct Seed {
    /// The sequence number of the first DATA chunk that the association sends.
    pub initial_tsn: u32,
    /// The state cookie that the association hands out if it answers an INIT.
    pub cookie: Vec<u8>,
}

/// An association as a mathematical value.
pub struct AssociationView {
    pub side: Side,
    pub state: AssociationState,
    pub config: TransportConfig,
    pub my_verification_tag: u32,
    pub peer_verification_tag: u32,
    pub remote_addr: SocketAddress,
    pub local_ip: Option<IpAddress>,
    pub initial_tsn: u32,
    pub my_cookie: Seq<u8>,
    pub peer_cookie: Seq<u8>,
    pub peer_rwnd: u32,
    pub use_forward_tsn: bool,
    pub tracker: TrackerView,
    pub inflight: InflightView,
    pub pending: Seq<DataView>,
    pub cc: CongestionState,
    pub rto: RtoState,
    pub streams: Seq<StreamView>,
    pub control: Seq<ChunkView>,
    pub ack_due: bool,
    pub ack_count: u8,
    pub forward_tsn_due: bool,
    pub t1_init: Timer,
    pub t1_cookie: Timer,
    pub t2_shutdown: Timer,
    pub t3_rtx: Timer,
    pub ack_timer: Timer,
    /// The stream that the association has asked its peer to reset, while the answer is awaited.
    pub reset_out: Option<u16>,
    /// The last sequence number that was given to a DATA chunk when that request was made.
    pub reset_last_tsn: u32,
    /// The number of the association's next request to reset a stream, or of the one under way.
    pub my_reset_seq: u32,
    /// The number of the next such request that is expected of the peer.
    pub peer_reset_seq: u32,
    pub t_reset: Timer,
    pub events: Seq<Event>,
    pub endpoint_events: Seq<EndpointEvent>,
}

/// The INIT or INIT ACK that an association with these parameters sends.
pub open spec fn own_init(
    config: TransportConfig,
    tag: u32,
    initial_tsn: u32,
    cookie: Seq<u8>,
) -> InitView {
    InitView {
        initiate_tag: tag,
        a_rwnd: config.max_receive_buffer_size,
        num_outbound_streams: config.max_num_outbound_streams,
        num_inbound_streams: config.max_num_inbound_streams,
        initial_tsn,
        cookie,
        forward_tsn_supported: true,
    }
}

/// The congestion state at the start of an association whose peer's receive window is `peer_rwnd`.
pub open spec fn fresh_cc(config: TransportConfig, peer_rwnd: u32) -> CongestionState {
    CongestionState {
        cwnd: crate::congestion::initial_cwnd(config.mtu) as u32,
        ssthresh: peer_rwnd,
        partial_bytes_acked: 0,
        in_fast_recovery: false,
        recovery_point_tsn: 0,
    }
}

impl AssociationView {
    /// The association that is made from these arguments, before anything has happened to it.
    pub open spec fn created(
        side: Side,
        config: TransportConfig,
        local_aid: u32,
        remote_addr: SocketAddress,
        local_ip: Option<IpAddress>,
        now: u64,
        initial_tsn: u32,
        cookie: Seq<u8>,
    ) -> AssociationView {
        let idle = AssociationView {
            side,
            state: AssociationState::Closed,
            config,
            my_verification_tag: local_aid,
            peer_verification_tag: 0,
            remote_addr,
            local_ip,
            initial_tsn,
            my_cookie: cookie,
            peer_cookie: Seq::<u8>::empty(),
            peer_rwnd: 0,
            use_forward_tsn: false,
            tracker: TrackerView { cum: 0, bits: Seq::<bool>::empty() },
            inflight: InflightView {
                cum_ack: add32(initial_tsn, 0xffff_ffff),
                chunks: Seq::<crate::chunk::PendingView>::empty(),
            },
            pending: Seq::<DataView>::empty(),
            cc: fresh_cc(config, 0),
            rto: RtoState {
                srtt: 0,
                rttvar: 0,
                rto: config.rto_initial,
                rto_min: config.rto_min,
                rto_max: config.rto_max,
                no_update: false,
            },
            streams: Seq::<StreamView>::empty(),
            control: Seq::<ChunkView>::empty(),
            ack_due: false,
            ack_count: 0,
            forward_tsn_due: false,
            t1_init: Timer { deadline: None, n_rtos: 0, max_retrans: Some(MAX_INIT_RETRANS) },
            t1_cookie: Timer { deadline: None, n_rtos: 0, max_retrans: Some(MAX_INIT_RETRANS) },
            t2_shutdown: Timer { deadline: None, n_rtos: 0, max_retrans: None },
            t3_rtx: Timer { deadline: None, n_rtos: 0, max_retrans: None },
            ack_timer: Timer { deadline: None, n_rtos: 0, max_retrans: None },
            reset_out: None,
            reset_last_tsn: 0,
            my_reset_seq: initial_tsn,
            peer_reset_seq: 0,
            t_reset: Timer { deadline: None, n_rtos: 0, max_retrans: None },
            events: Seq::<Event>::empty(),
            endpoint_events: Seq::<EndpointEvent>::empty(),
        };
        match side {
            Side::Server => idle,
            Side::Client => idle.connecting(now),
        }
    }

    /// The INIT that the association sends.
    pub open spec fn init_chunk(self) -> ChunkView {
        ChunkView::Init(
            own_init(self.config, self.my_verification_tag, self.initial_tsn, Seq::<u8>::empty()),
        )
    }

    /// The association after it has begun to connect: the INIT waits to be sent.
    pub open spec fn connecting(self, now: u64) -> AssociationView {
        if step_of(self.state, Trigger::Connect).action == Action::SendInit {
            AssociationView {
                state: AssociationState::CookieWait,
                control: self.control.push(self.init_chunk()),
                t1_init: self.t1_init.started(now, self.rto.rto),
                ..self
            }
        } else {
            self
        }
    }

    /// What the association has learnt of its peer from an INIT or INIT ACK.
    pub open spec fn knowing_peer(self, init: InitView) -> AssociationView {
        AssociationView {
            peer_verification_tag: init.initiate_tag,
            peer_rwnd: init.a_rwnd,
            use_forward_tsn: init.forward_tsn_supported,
            tracker: TrackerView { cum: add32(init.initial_tsn, 0xffff_ffff), bits: Seq::<bool>::empty() },
            cc: fresh_cc(self.config, init.a_rwnd),
            peer_reset_seq: init.initial_tsn,
            ..self
        }
    }

    /// The association after an INIT has arrived. One without an initiate
    /// tag, and one that arrives when an association exists already, is dropped.
    pub open spec fn on_init(self, init: InitView) -> AssociationView {
        if init.initiate_tag != 0 && step_of(self.state, Trigger::Init).action == Action::SendInitAck {
            let known = self.knowing_peer(init);
            AssociationView {
                control: self.control.push(
                    ChunkView::InitAck(
                        own_init(self.config, self.my_verification_tag, self.initial_tsn, self.my_cookie),
                    ),
                ),
                ..known
            }
        } else {
            self
        }
    }

    /// The association after an INIT ACK has arrived. One without an
    /// initiate tag or without a cookie, and one that was not asked for, is dropped.
    pub open spec fn on_init_ack(self, init: InitView, now: u64) -> AssociationView {
        if init.initiate_tag != 0 && init.cookie.len() > 0 && step_of(self.state, Trigger::InitAck).action
            == Action::SendCookieEcho {
            let known = self.knowing_peer(init);
            AssociationView {
                state: AssociationState::CookieEchoed,
                peer_cookie: init.cookie,
                control: self.control.push(ChunkView::CookieEcho(init.cookie)),
                t1_init: Timer { deadline: None, n_rtos: 0, ..self.t1_init },
                t1_cookie: self.t1_cookie.started(now, self.rto.rto),
                ..known
            }
        } else {
            self
        }
    }

    /// The association after a COOKIE ECHO has arrived. One whose cookie is
    /// not the one that was handed out is dropped.
    pub open spec fn on_cookie_echo(self, cookie: Seq<u8>) -> AssociationView {
        let s = step_of(self.state, Trigger::CookieEcho);
        if cookie == self.my_cookie && self.peer_verification_tag != 0 && s.action
            == Action::SendCookieAck {
            AssociationView {
                state: s.state,
                control: self.control.push(ChunkView::CookieAck),
                events: if s.notice == Notice::Connected {
                    self.events.push(Event::Connected)
                } else {
                    self.events
                },
                ..self
            }
        } else {
            self
        }
    }

    /// The association after a COOKIE ACK has arrived.
    pub open spec fn on_cookie_ack(self) -> AssociationView {
        let s = step_of(self.state, Trigger::CookieAck);
        if s.notice == Notice::Connected {
            AssociationView {
                state: s.state,
                t1_cookie: Timer { deadline: None, n_rtos: 0, ..self.t1_cookie },
                events: self.events.push(Event::Connected),
                ..self
            }
        } else {
            self
        }
    }

    /// The association after an ABORT has arrived: it is closed at once,
    /// sends nothing more, and tells the application and the endpoint.
    pub open spec fn on_abort(self) -> AssociationView {
        let s = step_of(self.state, Trigger::Abort);
        if s.notice == Notice::Aborted {
            self.ended(Event::Error(Error::ErrAborted))
        } else {
            self
        }
    }

    /// The association after it has ended: closed, with nothing left to
    /// send and no timer armed.
    pub open spec fn ended(self, event: Event) -> AssociationView {
        AssociationView {
            state: AssociationState::Closed,
            control: Seq::<ChunkView>::empty(),
            pending: Seq::<DataView>::empty(),
            ack_due: false,
            forward_tsn_due: false,
            t1_init: Timer { deadline: None, n_rtos: 0, ..self.t1_init },
            t1_cookie: Timer { deadline: None, n_rtos: 0, ..self.t1_cookie },
            t2_shutdown: Timer { deadline: None, n_rtos: 0, ..self.t2_shutdown },
            t3_rtx: Timer { deadline: None, n_rtos: 0, ..self.t3_rtx },
            ack_timer: Timer { deadline: None, n_rtos: 0, ..self.ack_timer },
            reset_out: None,
            t_reset: Timer { deadline: None, n_rtos: 0, ..self.t_reset },
            events: self.events.push(event),
            endpoint_events: self.endpoint_events.push(EndpointEvent(EndpointEventInner::Drained)),
            ..self
        }
    }

    /// The earliest deadline of the association's timers.
    pub open spec fn next_timeout(self) -> Option<u64> {
        spec_min_opt(
            spec_min_opt(
                spec_min_opt(self.t1_init.deadline, self.t1_cookie.deadline),
                spec_min_opt(self.t2_shutdown.deadline, self.t3_rtx.deadline),
            ),
            spec_min_opt(self.ack_timer.deadline, self.t_reset.deadline),
        )
    }
}

/// The place of the stream with the number `id`, if there is one.
pub open spec fn stream_index(streams: Seq<StreamView>, id: u16) -> Option<int>
    decreases streams.len(),
{
    if streams.len() == 0 {
        None
    } else {
        match stream_index(streams.drop_last(), id) {
            Some(i) => Some(i),
            None => if streams.last().stream_identifier == id {
                Some(streams.len() - 1)
            } else {
                None
            },
        }
    }
}

/// Whether data is taken and acknowledgements are read in the state.
pub open spec fn carries_data(state: AssociationState) -> bool {
    state == AssociationState::Established || state == AssociationState::ShutdownPending || state
        == AssociationState::ShutdownSent
}

/// `n`, but no more than 32 bits can say.
pub open spec fn clip32(n: int) -> u32 {
    if n > u32::MAX {
        u32::MAX
    } else if n < 0 {
        0
    } else {
        n as u32
    }
}

/// The size on the wire of a DATA chunk with a payload of `len` bytes.
pub open spec fn data_chunk_size(len: int) -> int {
    16 + (len + 3) / 4 * 4
}

/// The stream after a FORWARD TSN chunk's entries from `k` on have been applied to it.
pub open spec fn stream_forwarded(st: StreamView, entries: Seq<ForwardTsnStream>, k: int) -> StreamView
    decreases entries.len() - k,
{
    if k < 0 || k >= entries.len() {
        st
    } else if entries[k].stream_id == st.stream_identifier {
        stream_forwarded(
            StreamView {
                reassembly_queue: st.reassembly_queue.ordered_forwarded(entries[k].ssn),
                ..st
            },
            entries,
            k + 1,
        )
    } else {
        stream_forwarded(st, entries, k + 1)
    }
}

/// A stream after a FORWARD TSN chunk: its unordered fragments up to the
/// new cumulative point are dropped, and it moves past the ordered messages
/// that the chunk names for it.
pub open spec fn stream_after_forward(st: StreamView, f: ForwardTsnView) -> StreamView {
    stream_forwarded(
        StreamView {
            reassembly_queue: st.reassembly_queue.unordered_forwarded(f.new_cumulative_tsn),
            ..st
        },
        f.streams,
        0,
    )
}

/// The events that tell of the streams, from the first `n`, on which a
/// FORWARD TSN chunk has made a message readable.
pub open spec fn forward_events(before: Seq<StreamView>, after: Seq<StreamView>, n: nat) -> Seq<Event>
    decreases n,
{
    if n == 0 {
        Seq::<Event>::empty()
    } else {
        let rest = forward_events(before, after, (n - 1) as nat);
        if after[n - 1].reassembly_queue.ready.len() > before[n - 1].reassembly_queue.ready.len() {
            rest.push(Event::DataReady(before[n - 1].stream_identifier))
        } else {
            rest
        }
    }
}

/// Whether a request to reset streams that lists `ids` asks for the
/// stream `id`: it is listed, or no stream is.
pub open spec fn asks_for(ids: Seq<u16>, id: u16) -> bool {
    ids.len() == 0 || ids.contains(id)
}

/// Those of the first `n` streams that a request to reset the streams
/// `ids` does not ask for, in their order.
pub open spec fn streams_left(streams: Seq<StreamView>, ids: Seq<u16>, n: nat) -> Seq<StreamView>
    decreases n,
{
    if n == 0 {
        Seq::<StreamView>::empty()
    } else {
        let rest = streams_left(streams, ids, (n - 1) as nat);
        if asks_for(ids, streams[n - 1].stream_identifier) {
            rest
        } else {
            rest.push(streams[n - 1])
        }
    }
}

/// The events that tell of the streams, from the first `n`, that a request
/// to reset the streams `ids` asks for.
pub open spec fn reset_events(streams: Seq<StreamView>, ids: Seq<u16>, n: nat) -> Seq<Event>
    decreases n,
{
    if n == 0 {
        Seq::<Event>::empty()
    } else {
        let rest = reset_events(streams, ids, (n - 1) as nat);
        if asks_for(ids, streams[n - 1].stream_identifier) {
            rest.push(Event::Reset(streams[n - 1].stream_identifier))
        } else {
            rest
        }
    }
}

impl AssociationView {
    /// The association with the stream `id` in it, opened by the peer if it
    /// was not there, and the stream's place.
    pub open spec fn with_stream(self, id: u16, ppi: PayloadProtocolIdentifier) -> (AssociationView, int) {
        match stream_index(self.streams, id) {
            Some(i) => (self, i),
            None => (
                AssociationView {
                    streams: self.streams.push(StreamView::opened(id, ppi, false)),
                    events: self.events.push(Event::StreamOpened(id)),
                    ..self
                },
                self.streams.len() as int,
            ),
        }
    }

    /// The association after the fragment `d` has been handed to its stream.
    pub open spec fn delivered(self, d: DataView) -> AssociationView {
        let (a, i) = self.with_stream(d.stream_id, d.ppi);
        let st = a.streams[i];
        let queue = st.reassembly_queue.pushed(d);
        AssociationView {
            streams: a.streams.update(i, StreamView { reassembly_queue: queue, ..st }),
            events: if queue.ready.len() > st.reassembly_queue.ready.len() {
                a.events.push(Event::DataReady(d.stream_id))
            } else {
                a.events
            },
            ..a
        }
    }

    /// The association after it has decided when to acknowledge data that
    /// has just arrived. `fresh` says whether the data was new.
    pub open spec fn ack_scheduled(self, fresh: bool, now: u64) -> AssociationView {
        let delayed = if self.ack_timer.deadline.is_some() {
            self.ack_timer
        } else {
            self.ack_timer.started(now, ACK_INTERVAL)
        };
        match self.config.ack_mode {
            AckMode::NoDelay => AssociationView { ack_due: true, ..self },
            AckMode::AlwaysDelay => AssociationView { ack_timer: delayed, ..self },
            AckMode::Normal => if !fresh || self.tracker.bits.len() > 0 || self.ack_count >= 1 {
                AssociationView { ack_due: true, ack_count: 0, ..self }
            } else {
                AssociationView { ack_count: 1, ack_timer: delayed, ..self }
            },
        }
    }

    /// The association after a DATA chunk has arrived. Outside the states
    /// that carry data it is dropped; one that was received before is
    /// acknowledged again and not handed on.
    pub open spec fn on_data(self, d: DataView, now: u64) -> AssociationView {
        if !carries_data(self.state) {
            self
        } else {
            let fresh = self.tracker.takes(d.tsn);
            let a = AssociationView { tracker: self.tracker.pushed(d.tsn), ..self };
            (if fresh { a.delivered(d) } else { a }).ack_scheduled(fresh, now)
        }
    }

    /// The association after a selective acknowledgement has arrived.
    pub open spec fn on_sack(self, s: SackChunkView, now: u64) -> AssociationView {
        let sack = SackView { cum_ack: s.cumulative_tsn_ack, gaps: s.gaps };
        let threshold = self.config.missing_report_threshold;
        if !carries_data(self.state) || !self.inflight.accepts(sack) {
            self
        } else {
            let inflight = self.inflight.sacked(sack, threshold);
            let k = self.inflight.newly_covered(sack.cum_ack);
            let bytes = clip32(self.inflight.bytes() - inflight.bytes());
            let fired = self.inflight.fired_by(sack, threshold).len() > 0;
            let grown = self.cc.sacked(bytes, s.cumulative_tsn_ack, self.config.mtu);
            let cc = if fired {
                grown.fast_retransmitted(
                    add32(inflight.cum_ack, inflight.chunks.len() as int),
                    self.config.mtu,
                    threshold,
                )
            } else {
                grown
            };
            let rto = match first_sample(self.inflight.chunks.take(k)) {
                Some(t) => if now >= t {
                    self.rto.sampled((now - t) as u64)
                } else {
                    self.rto
                },
                None => self.rto,
            };
            let t3 = if inflight.chunks.len() == 0 {
                Timer { deadline: None, n_rtos: 0, ..self.t3_rtx }
            } else if k > 0 {
                self.t3_rtx.started(now, rto.rto)
            } else {
                self.t3_rtx
            };
            (AssociationView {
                inflight,
                cc,
                rto,
                peer_rwnd: s.a_rwnd,
                t3_rtx: t3,
                forward_tsn_due: self.forward_tsn_due || (self.use_forward_tsn && abandoned_prefix(
                    inflight.chunks,
                ) > 0),
                ..self
            }).shutdown_if_drained(now)
        }
    }

    /// The association after it has sent its SHUTDOWN, if it was asked to
    /// close and nothing more waits to be acknowledged or sent.
    pub open spec fn shutdown_if_drained(self, now: u64) -> AssociationView {
        if self.inflight.chunks.len() == 0 && self.pending.len() == 0 && step_of(
            self.state,
            Trigger::AllAcked,
        ).action == Action::SendShutdown {
            AssociationView {
                state: AssociationState::ShutdownSent,
                control: self.control.push(ChunkView::Shutdown(self.tracker.cum)),
                t2_shutdown: self.t2_shutdown.started(now, self.rto.rto),
                ..self
            }
        } else {
            self
        }
    }

    /// The association after a FORWARD TSN chunk has arrived.
    pub open spec fn on_forward_tsn(self, f: ForwardTsnView) -> AssociationView {
        if !carries_data(self.state) {
            self
        } else {
            let streams = Seq::new(self.streams.len(), |i: int| stream_after_forward(self.streams[i], f));
            AssociationView {
                tracker: self.tracker.forwarded(f.new_cumulative_tsn),
                streams,
                events: self.events + forward_events(self.streams, streams, self.streams.len()),
                ack_due: true,
                ..self
            }
        }
    }

    /// The association after a SHUTDOWN has arrived.
    pub open spec fn on_shutdown(self, now: u64) -> AssociationView {
        if step_of(self.state, Trigger::Shutdown).action == Action::SendShutdownAck {
            AssociationView {
                state: AssociationState::ShutdownAckSent,
                control: self.control.push(ChunkView::ShutdownAck),
                t2_shutdown: self.t2_shutdown.started(now, self.rto.rto),
                ..self
            }
        } else {
            self
        }
    }

    /// The association after a SHUTDOWN ACK has arrived.
    pub open spec fn on_shutdown_ack(self) -> AssociationView {
        if step_of(self.state, Trigger::ShutdownAck).action == Action::SendShutdownComplete {
            AssociationView {
                control: seq![ChunkView::ShutdownComplete],
                ..self.ended(Event::Closed)
            }
        } else {
            self
        }
    }

    /// The association after a SHUTDOWN COMPLETE has arrived.
    pub open spec fn on_shutdown_complete(self) -> AssociationView {
        if step_of(self.state, Trigger::ShutdownComplete).notice == Notice::Closed {
            self.ended(Event::Closed)
        } else {
            self
        }
    }

    /// The answer that waits to be sent after a request to reset streams
    /// has arrived.
    pub open spec fn answering(self, sequence: u32, result: u32) -> AssociationView {
        AssociationView {
            control: self.control.push(ChunkView::ResetResponse(ResetResponse { sequence, result })),
            ..self
        }
    }

    /// The association after a request to reset streams has arrived.
    ///
    /// The request that is expected next is done once everything up to its
    /// last sequence number has been received: the streams it asks for are
    /// dropped, with what waits in them, and the application is told of
    /// each. Before that the answer says to ask again. The request that was
    /// done last is answered once more, since its first answer may have
    /// been lost. Any other request is answered as out of sequence.
    pub open spec fn on_reset_request(self, r: ResetRequestView) -> AssociationView {
        if !carries_data(self.state) {
            self
        } else if r.request_sequence == self.peer_reset_seq {
            if lte32(r.last_tsn, self.tracker.cum) {
                (AssociationView {
                    streams: streams_left(self.streams, r.streams, self.streams.len()),
                    events: self.events + reset_events(self.streams, r.streams, self.streams.len()),
                    peer_reset_seq: add32(self.peer_reset_seq, 1),
                    ..self
                }).answering(r.request_sequence, RESET_PERFORMED)
            } else {
                self.answering(r.request_sequence, RESET_IN_PROGRESS)
            }
        } else if r.request_sequence == add32(self.peer_reset_seq, 0xffff_ffff) {
            self.answering(r.request_sequence, RESET_NOTHING_TO_DO)
        } else {
            self.answering(r.request_sequence, RESET_BAD_SEQUENCE)
        }
    }

    /// The association after the answer to a request to reset a stream
    /// has arrived.
    ///
    /// Only the answer to the request under way counts. If it says to ask
    /// again, the request stays under way. Otherwise the request is over;
    /// if it was done, the stream is dropped, and the application is told so.
    pub open spec fn on_reset_response(self, r: ResetResponse) -> AssociationView {
        match self.reset_out {
            Some(id) => if r.sequence != self.my_reset_seq || r.result == RESET_IN_PROGRESS {
                self
            } else {
                let over = AssociationView {
                    reset_out: None,
                    my_reset_seq: add32(self.my_reset_seq, 1),
                    t_reset: stopped(self.t_reset),
                    ..self
                };
                match stream_index(self.streams, id) {
                    Some(i) => if r.result == RESET_PERFORMED || r.result == RESET_NOTHING_TO_DO {
                        AssociationView {
                            streams: self.streams.remove(i),
                            events: self.events.push(Event::Reset(id)),
                            ..over
                        }
                    } else {
                        over
                    },
                    None => over,
                }
            },
            None => self,
        }
    }

    /// The association after a chunk of a type that it does not know has
    /// arrived: if the type asks for it, an ERROR chunk waits to be sent.
    pub open spec fn on_unknown(self, typ: u8) -> AssociationView {
        if crate::packet::reports_unknown(typ) && self.state != AssociationState::Closed {
            AssociationView { control: self.control.push(ChunkView::Error), ..self }
        } else {
            self
        }
    }

    /// The association after one chunk has arrived.
    #[verifier::opaque]
    pub open spec fn on_chunk(self, c: ChunkView, now: u64) -> AssociationView {
        match c {
            ChunkView::Init(i) => self.on_init(i),
            ChunkView::InitAck(i) => self.on_init_ack(i, now),
            ChunkView::CookieEcho(cookie) => self.on_cookie_echo(cookie),
            ChunkView::CookieAck => self.on_cookie_ack(),
            ChunkView::Data(d) => self.on_data(d, now),
            ChunkView::Sack(s) => self.on_sack(s, now),
            ChunkView::ForwardTsn(f) => self.on_forward_tsn(f),
            ChunkView::Shutdown(_) => self.on_shutdown(now),
            ChunkView::ShutdownAck => self.on_shutdown_ack(),
            ChunkView::ShutdownComplete => self.on_shutdown_complete(),
            ChunkView::Abort => self.on_abort(),
            ChunkView::Error => self,
            ChunkView::ResetRequest(r) => self.on_reset_request(r),
            ChunkView::ResetResponse(r) => self.on_reset_response(r),
            ChunkView::Unknown(t) => self.on_unknown(t),
        }
    }

    /// Whether the association goes on with the chunks that follow `c` in a
    /// packet: it stops at a chunk of an unknown type that does not allow it.
    pub open spec fn goes_on_after(c: ChunkView) -> bool {
        match c {
            ChunkView::Unknown(t) => crate::packet::skips_unknown(t),
            _ => true,
        }
    }

    /// The association after the chunks of a packet from the place `k` on have arrived.
    pub open spec fn on_chunks(self, chunks: Seq<ChunkView>, k: int, now: u64) -> AssociationView
        decreases chunks.len() - k,
    {
        if k < 0 || k >= chunks.len() {
            self
        } else if AssociationView::goes_on_after(chunks[k]) {
            self.on_chunk(chunks[k], now).on_chunks(chunks, k + 1, now)
        } else {
            self.on_chunk(chunks[k], now)
        }
    }

    /// Whether the association takes a packet: its verification tag is the
    /// association's own, or the packet is nothing but an INIT, which carries none.
    pub open spec fn takes_packet(self, p: PacketView) -> bool {
        if p.chunks.len() == 1 && p.chunks[0] is Init {
            p.header.verification_tag == 0
        } else {
            p.header.verification_tag == self.my_verification_tag
        }
    }

    /// The association after a packet has arrived. One with the wrong
    /// verification tag is dropped.
    pub open spec fn on_packet(self, p: PacketView, now: u64) -> AssociationView {
        if self.takes_packet(p) {
            self.on_chunks(p.chunks, 0, now)
        } else {
            self
        }
    }
}

/// The number of payload bytes that the reassembly queues of the first `n` streams hold.
pub open spec fn queued_bytes(streams: Seq<StreamView>, n: nat) -> nat
    decreases n,
{
    if n == 0 {
        0
    } else {
        queued_bytes(streams, (n - 1) as nat) + streams[n - 1].reassembly_queue.bytes()
    }
}

/// The place of the first stream that the application has not been handed yet.
pub open spec fn first_unaccepted(streams: Seq<StreamView>) -> Option<int>
    decreases streams.len(),
{
    if streams.len() == 0 {
        None
    } else {
        match first_unaccepted(streams.drop_last()) {
            Some(i) => Some(i),
            None => if !streams.last().accepted {
                Some(streams.len() - 1)
            } else {
                None
            },
        }
    }
}

/// How hard the stream `id` tries to deliver its messages; a stream that
/// does not exist counts as reliable.
pub open spec fn policy_of(streams: Seq<StreamView>, id: u16) -> (ReliabilityType, u32) {
    match stream_index(streams, id) {
        Some(i) => (streams[i].reliability_type, streams[i].reliability_value),
        None => (ReliabilityType::Reliable, 0),
    }
}

/// The DATA chunks of a sequence of fragments.
pub open spec fn as_chunks(data: Seq<DataView>) -> Seq<ChunkView> {
    data.map_values(|d: DataView| ChunkView::Data(d))
}

/// A timer stopped.
pub open spec fn stopped(t: Timer) -> Timer {
    Timer { deadline: None, n_rtos: 0, ..t }
}

impl AssociationView {
    /// The components are well formed and fit each other.
    pub open spec fn wf(self) -> bool {
        &&& self.config.wf()
        &&& self.inflight.wf()
        &&& self.tracker.wf()
        &&& self.cc.wf(self.config.mtu)
        &&& self.rto.wf()
        &&& self.rto.rto_max == self.config.rto_max
        &&& forall|i: int| 0 <= i < self.streams.len() ==> (#[trigger] self.streams[i]).wf()
        &&& forall|i: int|
            0 <= i < self.pending.len() ==> (#[trigger] self.pending[i]).payload.len() <= MAX_CHUNK_PAYLOAD
    }

    /// The association after the handshake was given up, if it was under way.
    pub open spec fn handshake_failed(self) -> AssociationView {
        if step_of(self.state, Trigger::RetriesExceeded).notice == Notice::HandshakeFailed {
            self.ended(Event::Error(Error::ErrHandshakeTimeout))
        } else {
            self
        }
    }

    /// The association after a look at the timer of the INIT.
    pub open spec fn on_t1_init(self, now: u64) -> AssociationView {
        let timer = self.t1_init.checked(now, self.rto.rto, self.rto.rto_max);
        match self.t1_init.expiry(now) {
            Expiry::NotYet => self,
            Expiry::Retransmit => AssociationView {
                t1_init: timer,
                control: self.control.push(self.init_chunk()),
                ..self
            },
            Expiry::Failure => (AssociationView { t1_init: timer, ..self }).handshake_failed(),
        }
    }

    /// The association after a look at the timer of the COOKIE ECHO.
    pub open spec fn on_t1_cookie(self, now: u64) -> AssociationView {
        let timer = self.t1_cookie.checked(now, self.rto.rto, self.rto.rto_max);
        match self.t1_cookie.expiry(now) {
            Expiry::NotYet => self,
            Expiry::Retransmit => AssociationView {
                t1_cookie: timer,
                control: self.control.push(ChunkView::CookieEcho(self.peer_cookie)),
                ..self
            },
            Expiry::Failure => (AssociationView { t1_cookie: timer, ..self }).handshake_failed(),
        }
    }

    /// The association after a look at the timer of the shutdown.
    pub open spec fn on_t2_shutdown(self, now: u64) -> AssociationView {
        let timer = self.t2_shutdown.checked(now, self.rto.rto, self.rto.rto_max);
        match self.t2_shutdown.expiry(now) {
            Expiry::NotYet => self,
            _ => AssociationView {
                t2_shutdown: timer,
                control: if self.state == AssociationState::ShutdownSent {
                    self.control.push(ChunkView::Shutdown(self.tracker.cum))
                } else if self.state == AssociationState::ShutdownAckSent {
                    self.control.push(ChunkView::ShutdownAck)
                } else {
                    self.control
                },
                ..self
            },
        }
    }

    /// The association after a look at the retransmission timer. When it
    /// has expired, the congestion window collapses to one MTU, and every
    /// chunk that is not acknowledged waits to be sent again.
    pub open spec fn on_t3_rtx(self, now: u64) -> AssociationView {
        let timer = self.t3_rtx.checked(now, self.rto.rto, self.rto.rto_max);
        match self.t3_rtx.expiry(now) {
            Expiry::NotYet => self,
            _ => AssociationView {
                t3_rtx: timer,
                cc: self.cc.timed_out(self.config.mtu),
                inflight: self.inflight.timed_out(),
                ..self
            },
        }
    }

    /// The association after a look at the timer of the delayed acknowledgement.
    pub open spec fn on_ack_timer(self, now: u64) -> AssociationView {
        if self.ack_timer.is_due(now) {
            AssociationView { ack_due: true, ack_timer: stopped(self.ack_timer), ..self }
        } else {
            self
        }
    }

    /// The request to reset a stream that is under way, as a chunk.
    pub open spec fn reset_chunk(self) -> ChunkView {
        ChunkView::ResetRequest(
            ResetRequestView {
                request_sequence: self.my_reset_seq,
                response_sequence: add32(self.peer_reset_seq, 0xffff_ffff),
                last_tsn: self.reset_last_tsn,
                streams: match self.reset_out {
                    Some(id) => seq![id],
                    None => Seq::<u16>::empty(),
                },
            },
        )
    }

    /// The association after a look at the timer of the request to reset a
    /// stream: when it has expired and the request is still under way, the
    /// request waits to be sent again.
    pub open spec fn on_t_reset(self, now: u64) -> AssociationView {
        let timer = self.t_reset.checked(now, self.rto.rto, self.rto.rto_max);
        match self.t_reset.expiry(now) {
            Expiry::NotYet => self,
            _ => AssociationView {
                t_reset: timer,
                control: if self.reset_out.is_some() {
                    self.control.push(self.reset_chunk())
                } else {
                    self.control
                },
                ..self
            },
        }
    }

    /// The association after a look at all of its timers.
    pub open spec fn on_timeout(self, now: u64) -> AssociationView {
        self.on_t1_init(now).on_t1_cookie(now).on_t2_shutdown(now).on_t3_rtx(now).on_ack_timer(now).on_t_reset(
            now,
        )
    }

    /// The receive window that the association advertises: what its receive
    /// buffer has left beside the bytes that wait in the reassembly queues.
    pub open spec fn receive_window(self) -> u32 {
        clip32(self.config.max_receive_buffer_size - queued_bytes(self.streams, self.streams.len()))
    }

    /// The bytes that were written and are not yet acknowledged.
    pub open spec fn buffered(self) -> nat {
        pool_bytes(self.pending) + self.inflight.bytes()
    }

    /// The selective acknowledgement that the association sends.
    pub open spec fn sack_chunk(self) -> ChunkView {
        ChunkView::Sack(
            SackChunkView {
                cumulative_tsn_ack: self.tracker.cum,
                a_rwnd: self.receive_window(),
                gaps: gap_blocks(self.tracker.bits),
                duplicate_tsns: Seq::<u32>::empty(),
            },
        )
    }

    /// The FORWARD TSN chunk that the association sends.
    pub open spec fn forward_chunk(self) -> ChunkView {
        ChunkView::ForwardTsn(
            ForwardTsnView {
                new_cumulative_tsn: self.inflight.forward_point(),
                streams: skipped_streams(self.inflight.chunks, abandoned_prefix(self.inflight.chunks)),
            },
        )
    }

    /// The header of the packets that the association sends once it knows its peer.
    pub open spec fn header(self) -> CommonHeader {
        CommonHeader {
            source_port: DEFAULT_PORT,
            destination_port: DEFAULT_PORT,
            verification_tag: self.peer_verification_tag,
        }
    }

    /// The packet of control chunks that the association sends next. An
    /// INIT travels alone and without a verification tag.
    pub open spec fn control_packet(self) -> PacketView {
        if self.control[0] is Init {
            PacketView {
                header: CommonHeader { verification_tag: 0, ..self.header() },
                chunks: seq![self.control[0]],
            }
        } else {
            PacketView { header: self.header(), chunks: self.control }
        }
    }

    /// The association after it has sent its next packet of control chunks.
    pub open spec fn after_control(self) -> AssociationView {
        AssociationView {
            control: if self.control[0] is Init {
                self.control.drop_first()
            } else {
                Seq::<ChunkView>::empty()
            },
            ..self
        }
    }

    /// The association after the chunks that wait to be sent again have been
    /// gathered into a packet with `room` bytes left, those chunks after the
    /// chunks `acc`, and the room that is left then. A chunk is taken only
    /// if it fits the room with its header and its padding.
    pub open spec fn gathered_retransmits(self, room: int, now: u64, fuel: nat, acc: Seq<DataView>) -> (
        AssociationView,
        Seq<DataView>,
        int,
    )
        decreases fuel,
    {
        if fuel == 0 || room < 16 {
            (self, acc, room)
        } else {
            let (queue, taken) = self.inflight.retransmit_from(0, (room - 16) / 4 * 4, now);
            let a = AssociationView { inflight: queue, ..self };
            match taken {
                None => (a, acc, room),
                Some(d) => a.gathered_retransmits(
                    room - data_chunk_size(d.payload.len() as int),
                    now,
                    (fuel - 1) as nat,
                    acc.push(d),
                ),
            }
        }
    }

    /// Whether the first chunk that waits to be sent for the first time may
    /// go into a packet with `room` bytes left: it fits, and the send budget
    /// allows it or nothing is in flight.
    pub open spec fn may_send_next(self, room: int) -> bool {
        &&& self.pending.len() > 0
        &&& self.inflight.chunks.len() < MAX_IN_FLIGHT
        &&& data_chunk_size(self.pending[0].payload.len() as int) <= room
        &&& (self.inflight.chunks.len() == 0 || self.pending[0].payload.len() <= crate::congestion::budget(
            self.cc.cwnd,
            self.peer_rwnd,
            clip32(self.inflight.bytes() as int),
        ))
    }

    /// The association after the first chunk that waits to be sent for the
    /// first time has moved to the retransmission queue, and that chunk with
    /// its sequence number.
    pub open spec fn sent_next(self, now: u64) -> (AssociationView, DataView) {
        let d = DataView { tsn: self.inflight.next_tsn(), ..self.pending[0] };
        let (reliability_type, reliability_value) = policy_of(self.streams, d.stream_id);
        (
            AssociationView {
                pending: self.pending.drop_first(),
                inflight: InflightView {
                    chunks: self.inflight.chunks.push(
                        PendingView {
                            data: d,
                            send_time: now,
                            transmit_count: 1,
                            miss_indicator: 0,
                            acked: false,
                            abandoned: false,
                            retransmit: false,
                            reliability_type,
                            reliability_value,
                        },
                    ),
                    ..self.inflight
                },
                ..self
            },
            d,
        )
    }

    /// The association after the chunks that wait to be sent for the first
    /// time have been gathered into a packet with `room` bytes left, as far
    /// as they may go, and those chunks after the chunks `acc`.
    pub open spec fn gathered_new(self, room: int, now: u64, fuel: nat, acc: Seq<DataView>) -> (
        AssociationView,
        Seq<DataView>,
    )
        decreases fuel,
    {
        if fuel == 0 || !self.may_send_next(room) {
            (self, acc)
        } else {
            let (a, d) = self.sent_next(now);
            a.gathered_new(
                room - data_chunk_size(d.payload.len() as int),
                now,
                (fuel - 1) as nat,
                acc.push(d),
            )
        }
    }

    /// The association after it has made its next packet at `now`, and that
    /// packet, if there is anything to send.
    ///
    /// Control chunks go first, in a packet of their own. Otherwise the
    /// chunks that wait to be sent again and that their streams give up are
    /// marked so, and the packet holds the selective acknowledgement if one
    /// is due, the FORWARD TSN if one is due or chunks were just given up,
    /// the chunks that wait to be sent again, and the chunks that wait to be
    /// sent for the first time, in this order and as far as the MTU and the
    /// send budget allow.
    pub open spec fn polled(self, now: u64) -> (AssociationView, Option<PacketView>) {
        if self.control.len() > 0 {
            (self.after_control(), Some(self.control_packet()))
        } else if !carries_data(self.state) {
            (self, None)
        } else {
            let sack = if self.ack_due { seq![self.sack_chunk()] } else { Seq::<ChunkView>::empty() };
            let a0 = AssociationView { inflight: self.inflight.given_up(now), ..self };
            let due = self.use_forward_tsn && abandoned_prefix(a0.inflight.chunks) > 0 && (
            self.forward_tsn_due || abandoned_prefix(a0.inflight.chunks) > abandoned_prefix(
                self.inflight.chunks,
            ));
            let forward = if due { seq![a0.forward_chunk()] } else { Seq::<ChunkView>::empty() };
            let a1 = AssociationView {
                ack_due: false,
                ack_count: if self.ack_due { 0 } else { self.ack_count },
                ack_timer: if self.ack_due { stopped(self.ack_timer) } else { self.ack_timer },
                forward_tsn_due: false,
                ..a0
            };
            let used = 12 + (if self.ack_due {
                16 + 4 * gap_blocks(self.tracker.bits).len()
            } else {
                0
            }) + (if due {
                8 + 4 * skipped_streams(a0.inflight.chunks, abandoned_prefix(a0.inflight.chunks)).len()
            } else {
                0
            });
            let (a2, again, room) = a1.gathered_retransmits(
                self.config.mtu - used,
                now,
                a1.inflight.chunks.len(),
                Seq::<DataView>::empty(),
            );
            let (a3, data) = a2.gathered_new(room, now, a2.pending.len(), again);
            let a4 = if data.len() > 0 && a3.t3_rtx.deadline.is_none() {
                AssociationView { t3_rtx: a3.t3_rtx.started(now, a3.rto.rto), ..a3 }
            } else {
                a3
            };
            let chunks = sack + forward + as_chunks(data);
            if chunks.len() == 0 {
                (a4, None)
            } else {
                (a4, Some(PacketView { header: self.header(), chunks }))
            }
        }
    }

    /// The association after the application has opened the stream `id`,
    /// or the error if the stream exists.
    pub open spec fn opened(self, id: u16, ppi: PayloadProtocolIdentifier) -> Result<AssociationView, Error> {
        if stream_index(self.streams, id).is_some() {
            Err(Error::ErrStreamAlreadyExist)
        } else {
            Ok(AssociationView { streams: self.streams.push(StreamView::opened(id, ppi, true)), ..self })
        }
    }

    /// Why a message of `len` bytes cannot be written to the stream `id`, if it cannot.
    pub open spec fn write_error(self, id: u16, len: nat) -> Option<Error> {
        if len > self.config.max_message_size {
            Some(Error::ErrOutboundPacketTooLarge)
        } else if self.state != AssociationState::Established {
            Some(Error::ErrNotEstablished)
        } else if stream_index(self.streams, id).is_none() {
            Some(Error::ErrStreamClosed)
        } else if self.reset_out == Some(id) {
            Some(Error::ErrTryAgain)
        } else {
            None
        }
    }

    /// Why the stream `id` cannot be reset now, if it cannot: the
    /// association is not established, there is no such stream, a request
    /// is under way already, or data waits to be sent for the first time.
    pub open spec fn reset_error(self, id: u16) -> Option<Error> {
        if self.state != AssociationState::Established {
            Some(Error::ErrNotEstablished)
        } else if stream_index(self.streams, id).is_none() {
            Some(Error::ErrStreamClosed)
        } else if self.reset_out.is_some() || self.pending.len() > 0 {
            Some(Error::ErrTryAgain)
        } else {
            None
        }
    }

    /// The association after the application has asked to reset the stream
    /// `id`: the request waits to be sent, and its timer is armed.
    pub open spec fn resetting(self, id: u16, now: u64) -> AssociationView {
        let under_way = AssociationView {
            reset_out: Some(id),
            reset_last_tsn: add32(self.inflight.cum_ack, self.inflight.chunks.len() as int),
            t_reset: self.t_reset.started(now, self.rto.rto),
            ..self
        };
        AssociationView { control: under_way.control.push(under_way.reset_chunk()), ..under_way }
    }

    /// The association after a message was written to the stream `id`: its
    /// fragments wait to be sent, behind those that waited before.
    pub open spec fn written(self, id: u16, raw: Seq<u8>, ppi: PayloadProtocolIdentifier) -> AssociationView {
        let i = stream_index(self.streams, id).unwrap();
        let st = self.streams[i];
        AssociationView {
            streams: self.streams.update(i, st.written(ppi, raw.len())),
            pending: self.pending + fragments_of(
                id,
                st.sequence_number,
                ppi,
                st.sends_unordered(ppi),
                parts_of(raw, self.config.spec_max_payload() as nat),
            ),
            ..self
        }
    }

    /// The association after the user has asked to close it.
    pub open spec fn closing(self, now: u64) -> AssociationView {
        (AssociationView { state: step_of(self.state, Trigger::Close).state, ..self }).shutdown_if_drained(now)
    }

    /// The association after the user has aborted it: an ABORT waits to be
    /// sent, and nothing else.
    pub open spec fn aborting(self) -> AssociationView {
        if step_of(self.state, Trigger::LocalAbort).action == Action::SendAbort {
            AssociationView { control: seq![ChunkView::Abort], ..self.ended(Event::Closed) }
        } else {
            self
        }
    }
}

/// A DATA chunk that arrives a second time is not handed to its stream
/// again: the streams, what the application is told, and the record of
/// what was received stay as the first arrival left them. Only the
/// acknowledgement is scheduled anew.
pub proof fn lemma_repeated_data_is_dropped(a: AssociationView, d: DataView, again: DataView, now: u64, then: u64)
    requires
        a.wf(),
        again.tsn == d.tsn,
    ensures
        ({
            let b = a.on_data(d, now);
            let c = b.on_data(again, then);
            &&& c.streams == b.streams
            &&& c.events == b.events
            &&& c.tracker == b.tracker
            &&& c.state == b.state
            &&& c == b.ack_scheduled(false, then) || c == b
        }),
{
    crate::receiver::lemma_pushed_has(a.tracker, d.tsn);
    let b = a.on_data(d, now);
    if carries_data(a.state) {
        assert(b.tracker == a.tracker.pushed(d.tsn));
        assert(b.state == a.state);
        crate::receiver::lemma_pushed_has(b.tracker, d.tsn);
        assert(!b.tracker.takes(again.tsn));
    }
}

/// The handshake connects both sides. A client that waits for the answer
/// to its INIT and a server that is closed, each with a tag that is not
/// zero, and the server with a cookie to hand out: the INIT is answered by
/// an INIT ACK with the cookie, that by a COOKIE ECHO, and that by a COOKIE
/// ACK; the server is established and tells its application so when the
/// COOKIE ECHO arrives, the client when the COOKIE ACK arrives.
pub proof fn lemma_handshake_connects(client: AssociationView, server: AssociationView, now: u64)
    requires
        client.state == AssociationState::CookieWait,
        server.state == AssociationState::Closed,
        client.my_verification_tag != 0,
        server.my_verification_tag != 0,
        server.my_cookie.len() > 0,
    ensures
        ({
            let init = own_init(client.config, client.my_verification_tag, client.initial_tsn, Seq::<u8>::empty());
            let init_ack = own_init(server.config, server.my_verification_tag, server.initial_tsn, server.my_cookie);
            let s1 = server.on_init(init);
            let c1 = client.on_init_ack(init_ack, now);
            let s2 = s1.on_cookie_echo(server.my_cookie);
            let c2 = c1.on_cookie_ack();
            &&& client.init_chunk() == ChunkView::Init(init)
            &&& s1.control == server.control.push(ChunkView::InitAck(init_ack))
            &&& s1.peer_verification_tag == client.my_verification_tag
            &&& c1.state == AssociationState::CookieEchoed
            &&& c1.control == client.control.push(ChunkView::CookieEcho(server.my_cookie))
            &&& c1.peer_verification_tag == server.my_verification_tag
            &&& s2.state == AssociationState::Established
            &&& s2.control == s1.control.push(ChunkView::CookieAck)
            &&& s2.events == server.events.push(Event::Connected)
            &&& c2.state == AssociationState::Established
            &&& c2.events == client.events.push(Event::Connected)
        }),
{
}

/// The sequence numbers of a sequence of DATA chunks.
pub open spec fn tsns_of(ds: Seq<DataView>) -> Seq<u32> {
    ds.map_values(|d: DataView| d.tsn)
}

impl AssociationView {
    /// The association after the DATA chunks `ds` have arrived, first to last, at `now`.
    pub open spec fn on_data_all(self, ds: Seq<DataView>, now: u64) -> AssociationView
        decreases ds.len(),
    {
        if ds.len() == 0 {
            self
        } else {
            self.on_data_all(ds.drop_last(), now).on_data(ds.last(), now)
        }
    }
}

/// The record of what was received follows the DATA chunks that arrive,
/// and their arrival does not change the state of the association.
pub proof fn lemma_data_is_recorded(a: AssociationView, ds: Seq<DataView>, now: u64)
    requires
        carries_data(a.state),
    ensures
        a.on_data_all(ds, now).state == a.state,
        a.on_data_all(ds, now).tracker == a.tracker.pushed_all(tsns_of(ds)),
    decreases ds.len(),
{
    if ds.len() > 0 {
        lemma_data_is_recorded(a, ds.drop_last(), now);
        assert(tsns_of(ds).drop_last() =~= tsns_of(ds.drop_last()));
        assert(tsns_of(ds).last() == ds.last().tsn);
    }
}

/// Each DATA chunk is handed to its stream once, however often it
/// arrives: when a chunk arrives again, whatever DATA chunks have arrived
/// in between, the streams and what the application is told stay as they
/// were, and only the acknowledgement is scheduled anew. This holds as
/// long as the chunks in between cannot have moved the cumulative point
/// half way round the circle of sequence numbers.
pub proof fn lemma_repeated_data_is_dropped_later(
    a: AssociationView,
    d: DataView,
    between: Seq<DataView>,
    again: DataView,
    now: u64,
    then: u64,
)
    requires
        a.wf(),
        carries_data(a.state),
        a.tracker.takes(d.tsn),
        again.tsn == d.tsn,
        (between.len() + 1) * crate::receiver::MAX_WINDOW < 0x8000_0000,
    ensures
        ({
            let b = a.on_data(d, now).on_data_all(between, now);
            let c = b.on_data(again, then);
            &&& c.streams == b.streams
            &&& c.events == b.events
            &&& c.tracker == b.tracker
            &&& c.state == b.state
        }),
{
    let first = a.on_data(d, now);
    assert(first.state == a.state);
    assert(first.tracker == a.tracker.pushed(d.tsn));
    lemma_data_is_recorded(first, between, now);
    assert(tsns_of(between).len() == between.len());
    crate::receiver::lemma_received_once(a.tracker, d.tsn, tsns_of(between));
}

/// Each expiry of an association's retransmission timer at least doubles
/// the interval after which the timer expires next, but for the maximum:
/// the timer is armed again for the smaller of twice the interval before
/// and the maximum timeout. The estimate of the timeout itself stays; the
/// congestion window falls to one MTU, and every chunk that is not
/// acknowledged waits to be sent again.
pub proof fn lemma_retransmission_timer_backs_off(a: AssociationView, now: u64)
    requires
        a.wf(),
        a.t3_rtx.is_due(now),
        !a.t3_rtx.exhausted(),
        a.t3_rtx.n_rtos < u32::MAX,
    ensures
        ({
            let b = a.on_t3_rtx(now);
            let before = backoff(a.rto.rto as int, a.t3_rtx.n_rtos as nat, a.rto.rto_max as int);
            let after = backoff(a.rto.rto as int, (a.t3_rtx.n_rtos + 1) as nat, a.rto.rto_max as int);
            &&& b.rto == a.rto
            &&& b.t3_rtx.n_rtos == a.t3_rtx.n_rtos + 1
            &&& b.t3_rtx.deadline == Some(later(now, after as u64))
            &&& after == (if 2 * before < a.rto.rto_max { 2 * before } else { a.rto.rto_max as int })
            &&& after >= before
            &&& after <= a.rto.rto_max
            &&& b.cc == a.cc.timed_out(a.config.mtu)
            &&& b.inflight == a.inflight.timed_out()
        }),
{
    lemma_expiry_backs_off(a.t3_rtx, now, a.rto.rto, a.rto.rto_max);
}

/// When a request to reset streams has been done, none of the streams that
/// it asks for is left, and each stream that is left was there before.
pub proof fn lemma_reset_leaves_the_others(streams: Seq<StreamView>, ids: Seq<u16>, n: nat)
    requires
        n <= streams.len(),
    ensures
        streams_left(streams, ids, n).len() <= n,
        forall|j: int|
            0 <= j < streams_left(streams, ids, n).len() ==> {
                let st = #[trigger] streams_left(streams, ids, n)[j];
                !asks_for(ids, st.stream_identifier) && streams.contains(st)
            },
    decreases n,
{
    if n > 0 {
        lemma_reset_leaves_the_others(streams, ids, (n - 1) as nat);
        let rest = streams_left(streams, ids, (n - 1) as nat);
        let left = streams_left(streams, ids, n);
        assert forall|j: int| 0 <= j < left.len() implies {
            let st = #[trigger] left[j];
            !asks_for(ids, st.stream_identifier) && streams.contains(st)
        } by {
            if j < rest.len() {
                assert(left[j] == rest[j]);
            } else {
                assert(left[j] == streams[n - 1]);
            }
        }
    }
}

/// A request to reset streams is done once: when it arrives again after
/// it was done, the streams and what the application is told stay as they
/// are, and only the answer is sent again.
pub proof fn lemma_reset_done_once(a: AssociationView, r: ResetRequestView)
    requires
        carries_data(a.state),
        r.request_sequence == a.peer_reset_seq,
        lte32(r.last_tsn, a.tracker.cum),
    ensures
        ({
            let done = a.on_reset_request(r);
            let again = done.on_reset_request(r);
            &&& done.peer_reset_seq == add32(a.peer_reset_seq, 1)
            &&& again == done.answering(r.request_sequence, RESET_NOTHING_TO_DO)
        }),
{
    let next = add32(a.peer_reset_seq, 1);
    assert(add32(next, 0xffff_ffff) == a.peer_reset_seq);
    assert(next != a.peer_reset_seq);
}

/// What names an association and what it drew by chance when it was made.
pub open spec fn identity(a: AssociationView) -> (Side, u32, u32, Seq<u8>, SocketAddress, Option<IpAddress>) {
    (a.side, a.my_verification_tag, a.initial_tsn, a.my_cookie, a.remote_addr, a.local_ip)
}

/// No chunk changes what names an association.
pub proof fn lemma_chunk_keeps_identity(a: AssociationView, c: ChunkView, now: u64)
    ensures
        identity(a.on_chunk(c, now)) == identity(a),
{
    reveal(AssociationView::on_chunk);
}

/// No packet changes what names an association.
pub proof fn lemma_packet_keeps_identity(a: AssociationView, chunks: Seq<ChunkView>, k: int, now: u64)
    ensures
        identity(a.on_chunks(chunks, k, now)) == identity(a),
    decreases chunks.len() - k,
{
    if 0 <= k < chunks.len() {
        lemma_chunk_keeps_identity(a, chunks[k], now);
        if AssociationView::goes_on_after(chunks[k]) {
            lemma_packet_keeps_identity(a.on_chunk(chunks[k], now), chunks, k + 1, now);
        }
    }
}


/// The size on the wire of a sequence of DATA chunks.
pub open spec fn data_size(data: Seq<DataView>) -> int
    decreases data.len(),
{
    if data.len() == 0 {
        0
    } else {
        data_size(data.drop_last()) + data_chunk_size(data.last().payload.len() as int)
    }
}

/// Gathering the chunks that wait to be sent again uses up exactly the
/// room that the chunks gathered take, and never more than there is.
pub proof fn lemma_gathered_retransmits_room(
    a: AssociationView,
    room: int,
    now: u64,
    fuel: nat,
    acc: Seq<DataView>,
)
    ensures
        ({
            let (b, out, left) = a.gathered_retransmits(room, now, fuel, acc);
            &&& data_size(out) - data_size(acc) == room - left
            &&& room >= 0 ==> left >= 0
            &&& left <= room
        }),
    decreases fuel,
{
    if fuel > 0 && room >= 16 {
        let (queue, taken) = a.inflight.retransmit_from(0, (room - 16) / 4 * 4, now);
        crate::inflight::lemma_retransmit_fits(a.inflight, 0, (room - 16) / 4 * 4, now);
        match taken {
            None => {},
            Some(d) => {
                let next = AssociationView { inflight: queue, ..a };
                lemma_gathered_retransmits_room(
                    next,
                    room - data_chunk_size(d.payload.len() as int),
                    now,
                    (fuel - 1) as nat,
                    acc.push(d),
                );
                assert(acc.push(d).drop_last() =~= acc);
            },
        }
    }
}

/// Gathering the chunks that wait to be sent for the first time uses up no
/// more room than there is.
pub proof fn lemma_gathered_new_room(a: AssociationView, room: int, now: u64, fuel: nat, acc: Seq<DataView>)
    ensures
        ({
            let (b, out) = a.gathered_new(room, now, fuel, acc);
            &&& data_size(out) >= data_size(acc)
            &&& room >= 0 ==> data_size(out) - data_size(acc) <= room
            &&& room < 0 ==> data_size(out) == data_size(acc)
        }),
    decreases fuel,
{
    if fuel > 0 && a.may_send_next(room) {
        let (next, d) = a.sent_next(now);
        lemma_gathered_new_room(
            next,
            room - data_chunk_size(d.payload.len() as int),
            now,
            (fuel - 1) as nat,
            acc.push(d),
        );
        assert(acc.push(d).drop_last() =~= acc);
    }
}

/// The bytes of chunks put one after the other are as many as those of a
/// front part and those of the rest.
pub proof fn lemma_chunks_bytes_add(a: Seq<ChunkView>, b: Seq<ChunkView>)
    ensures
        chunks_bytes(a + b).len() == chunks_bytes(a).len() + chunks_bytes(b).len(),
    decreases b.len(),
{
    if b.len() == 0 {
        assert(a + b =~= a);
    } else {
        lemma_chunks_bytes_add(a, b.drop_last());
        assert((a + b).drop_last() =~= a + b.drop_last());
        assert((a + b).last() == b.last());
    }
}

/// The bytes of a sequence of DATA chunks are as many as `data_size` says.
pub proof fn lemma_data_bytes(data: Seq<DataView>)
    ensures
        chunks_bytes(as_chunks(data)).len() == data_size(data),
    decreases data.len(),
{
    if data.len() > 0 {
        lemma_data_bytes(data.drop_last());
        assert(as_chunks(data).drop_last() =~= as_chunks(data.drop_last()));
        assert(as_chunks(data).last() == ChunkView::Data(data.last()));
    }
}

/// The size on the wire of the selective acknowledgement that an association sends.
pub proof fn lemma_sack_chunk_len(a: AssociationView)
    ensures
        chunk_bytes(a.sack_chunk()).len() == 16 + 4 * gap_blocks(a.tracker.bits).len(),
        chunks_bytes(seq![a.sack_chunk()]).len() == 16 + 4 * gap_blocks(a.tracker.bits).len(),
{
    crate::packet::lemma_gaps_bytes_len(gap_blocks(a.tracker.bits));
    crate::packet::lemma_numbers_bytes_len(Seq::<u32>::empty());
    assert(seq![a.sack_chunk()].drop_last() =~= Seq::<ChunkView>::empty());
    assert(chunks_bytes(Seq::<ChunkView>::empty()).len() == 0);
}

/// The size on the wire of the FORWARD TSN chunk that an association sends.
pub proof fn lemma_forward_chunk_len(a: AssociationView)
    ensures
        chunk_bytes(a.forward_chunk()).len() == 8 + 4 * skipped_streams(
            a.inflight.chunks,
            abandoned_prefix(a.inflight.chunks),
        ).len(),
        chunks_bytes(seq![a.forward_chunk()]).len() == 8 + 4 * skipped_streams(
            a.inflight.chunks,
            abandoned_prefix(a.inflight.chunks),
        ).len(),
{
    crate::packet::lemma_streams_bytes_len(
        skipped_streams(a.inflight.chunks, abandoned_prefix(a.inflight.chunks)),
    );
    assert(seq![a.forward_chunk()].drop_last() =~= Seq::<ChunkView>::empty());
    assert(chunks_bytes(Seq::<ChunkView>::empty()).len() == 0);
}

/// Chunks that take no room are no chunks.
pub proof fn lemma_data_size_zero(data: Seq<DataView>)
    ensures
        data_size(data) >= 16 * data.len(),
    decreases data.len(),
{
    if data.len() > 0 {
        lemma_data_size_zero(data.drop_last());
    }
}

/// A packet is twelve bytes of header and its chunks.
pub proof fn lemma_packet_len(p: PacketView)
    ensures
        packet_bytes(p).len() == 12 + chunks_bytes(p.chunks).len(),
{
    assert(packet_body(p).len() == 12 + chunks_bytes(p.chunks).len());
}

/// The size of a packet that is made of an acknowledgement, a FORWARD TSN
/// chunk and DATA chunks, as far as each is there.
proof fn lemma_bundle_len(
    header: CommonHeader,
    sack: Seq<ChunkView>,
    forward: Seq<ChunkView>,
    data: Seq<DataView>,
)
    ensures
        packet_bytes(PacketView { header, chunks: sack + forward + as_chunks(data) }).len() == 12
            + chunks_bytes(sack).len() + chunks_bytes(forward).len() + data_size(data),
{
    lemma_chunks_bytes_add(sack + forward, as_chunks(data));
    lemma_chunks_bytes_add(sack, forward);
    lemma_data_bytes(data);
    lemma_packet_len(PacketView { header, chunks: sack + forward + as_chunks(data) });
}

/// A packet of data is bundled up to the MTU: whenever the association
/// makes a packet that is not one of control chunks, the packet is no
/// larger than the MTU, unless the acknowledgement and the FORWARD TSN chunk
/// alone are, in which case the packet holds nothing but them.
#[verifier::rlimit(50)]
pub proof fn lemma_packet_within_mtu(a: AssociationView, now: u64)
    requires
        a.control.len() == 0,
    ensures
        a.polled(now).1 matches Some(p) ==> packet_bytes(p).len() <= a.config.mtu || p.chunks.len() <= 2,
{
    if carries_data(a.state) {
        let sack = if a.ack_due { seq![a.sack_chunk()] } else { Seq::<ChunkView>::empty() };
        let a0 = AssociationView { inflight: a.inflight.given_up(now), ..a };
        let due = a.use_forward_tsn && abandoned_prefix(a0.inflight.chunks) > 0 && (a.forward_tsn_due
            || abandoned_prefix(a0.inflight.chunks) > abandoned_prefix(a.inflight.chunks));
        let forward = if due { seq![a0.forward_chunk()] } else { Seq::<ChunkView>::empty() };
        let a1 = AssociationView {
            ack_due: false,
            ack_count: if a.ack_due { 0 } else { a.ack_count },
            ack_timer: if a.ack_due { stopped(a.ack_timer) } else { a.ack_timer },
            forward_tsn_due: false,
            ..a0
        };
        let used = 12 + (if a.ack_due { 16 + 4 * gap_blocks(a.tracker.bits).len() } else { 0 }) + (if due {
            8 + 4 * skipped_streams(a0.inflight.chunks, abandoned_prefix(a0.inflight.chunks)).len()
        } else {
            0
        });
        let room0 = a.config.mtu - used;
        let first = a1.gathered_retransmits(room0, now, a1.inflight.chunks.len(), Seq::<DataView>::empty());
        let second = first.0.gathered_new(first.2, now, first.0.pending.len(), first.1);
        let data = second.1;
        assert(a.polled(now).1 matches Some(p) ==> p.chunks == sack + forward + as_chunks(data));
        lemma_gathered_retransmits_room(
            a1,
            room0,
            now,
            a1.inflight.chunks.len(),
            Seq::<DataView>::empty(),
        );
        lemma_gathered_new_room(first.0, first.2, now, first.0.pending.len(), first.1);
        lemma_sack_chunk_len(a);
        lemma_forward_chunk_len(a0);
        lemma_bundle_len(a.header(), sack, forward, data);
        lemma_data_size_zero(data);
        assert(chunks_bytes(Seq::<ChunkView>::empty()).len() == 0);
        assert(data_size(Seq::<DataView>::empty()) == 0);
        assert(12 + chunks_bytes(sack).len() + chunks_bytes(forward).len() == used);
        if room0 < 0 {
            assert(data.len() == 0);
        }
    }
}

} // verus!
