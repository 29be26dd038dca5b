//! One association: the handshake, the dispatch of inbound chunks, the
//! sending of data under congestion control, and the timers.
//!
//! An association owns its retransmission queue, its congestion state and the
//! reassembly queues of its streams, and shares none of them. Each public
//! operation runs to its end before the next one is taken. Nothing waits:
//! `poll_timeout` says when the association wants to be called again.

use vstd::prelude::*;
use crate::chunk::{copy_bytes, data_views, DataChunk, DataView, GapAckBlock, PayloadProtocolIdentifier, PendingView, ReliabilityType, MAX_CHUNK_PAYLOAD};
use std::sync::Arc;
use crate::config::{AckMode, ServerConfig, TransportConfig};
use crate::param::ParamStateCookie;
use crate::random::random_u32;
use crate::congestion::CongestionController;
use crate::error::Error;
use crate::inflight::{abandoned_prefix, in_flight, lemma_skipped_streams_len, InflightQueue, MAX_IN_FLIGHT};
use crate::model::{as_chunks, asks_for, carries_data, first_unaccepted, forward_events, policy_of, queued_bytes, reset_events, stream_after_forward, stream_forwarded, stream_index, streams_left, AssociationView, Event, Seed, Side, DEFAULT_PORT};
use crate::packet::{chunk_views, chunks_fit, packet_bytes, parse_packet, Chunk, ChunkView, CommonHeader, ForwardTsnChunk, ForwardTsnStream, InitChunk, Packet, ResetRequest, ResetResponse, SackChunk, RESET_BAD_SEQUENCE, RESET_IN_PROGRESS, RESET_NOTHING_TO_DO, RESET_PERFORMED};
use crate::serial::{advance32, sna32lte};
use crate::reassembly::{pool_bytes, Message, ReadError};
use crate::receiver::{lemma_gap_blocks_len, TsnTracker};
use crate::rto::{RtoManager, ACK_INTERVAL, MAX_INIT_RETRANS};
use crate::shared::{AssociationEvent, AssociationEventInner, EndpointEvent, EndpointEventInner, IpAddress, Payload, SocketAddress, Transmit};
use crate::state::{step, Action, AssociationState, Notice, Step, Trigger};
use crate::stream::{fragments_of, parts_of, stream_views, StreamState, StreamView};
use crate::timer::{min_opt, Expiry, Timer};

verus! {

/// One association.
#[derive(Debug)]
pub struct Association {
    side: Side,
    state: AssociationState,
    config: TransportConfig,
    my_verification_tag: u32,
    peer_verification_tag: u32,
    remote_addr: SocketAddress,
    local_ip: Option<IpAddress>,
    initial_tsn: u32,
    my_cookie: Vec<u8>,
    peer_cookie: Vec<u8>,
    peer_rwnd: u32,
    use_forward_tsn: bool,
    tracker: TsnTracker,
    inflight: InflightQueue,
    pending: Vec<DataChunk>,
    cc: CongestionController,
    rto: RtoManager,
    streams: Vec<StreamState>,
    control: Vec<Chunk>,
    ack_due: bool,
    ack_count: u8,
    forward_tsn_due: bool,
    t1_init: Timer,
    t1_cookie: Timer,
    t2_shutdown: Timer,
    t3_rtx: Timer,
    ack_timer: Timer,
    reset_out: Option<u16>,
    reset_last_tsn: u32,
    my_reset_seq: u32,
    peer_reset_seq: u32,
    t_reset: Timer,
    events: Vec<Event>,
    endpoint_events: Vec<EndpointEvent>,
}

impl View for Association {
    type V = AssociationView;

    closed spec fn view(&self) -> AssociationView {
        AssociationView {
            side: self.side,
            state: self.state,
            config: self.config,
            my_verification_tag: self.my_verification_tag,
            peer_verification_tag: self.peer_verification_tag,
            remote_addr: self.remote_addr,
            local_ip: self.local_ip,
            initial_tsn: self.initial_tsn,
            my_cookie: self.my_cookie@,
            peer_cookie: self.peer_cookie@,
            peer_rwnd: self.peer_rwnd,
            use_forward_tsn: self.use_forward_tsn,
            tracker: self.tracker@,
            inflight: self.inflight@,
            pending: data_views(self.pending@),
            cc: self.cc@,
            rto: self.rto@,
            streams: stream_views(self.streams@),
            control: chunk_views(self.control@),
            ack_due: self.ack_due,
            ack_count: self.ack_count,
            forward_tsn_due: self.forward_tsn_due,
            t1_init: self.t1_init,
            t1_cookie: self.t1_cookie,
            t2_shutdown: self.t2_shutdown,
            t3_rtx: self.t3_rtx,
            ack_timer: self.ack_timer,
            reset_out: self.reset_out,
            reset_last_tsn: self.reset_last_tsn,
            my_reset_seq: self.my_reset_seq,
            peer_reset_seq: self.peer_reset_seq,
            t_reset: self.t_reset,
            events: self.events@,
            endpoint_events: self.endpoint_events@,
        }
    }
}

/// The place of the stream with the number `id` is in the sequence, the
/// stream there has that number, and no stream before it has.
pub proof fn lemma_stream_index(streams: Seq<StreamView>, id: u16)
    ensures
        match stream_index(streams, id) {
            Some(i) => 0 <= i < streams.len() && streams[i].stream_identifier == id && forall|j: int|
                0 <= j < i ==> (#[trigger] streams[j]).stream_identifier != id,
            None => forall|j: int| 0 <= j < streams.len() ==> (#[trigger] streams[j]).stream_identifier != id,
        },
    decreases streams.len(),
{
    if streams.len() > 0 {
        lemma_stream_index(streams.drop_last(), id);
        match stream_index(streams.drop_last(), id) {
            Some(i) => {
                assert(streams.drop_last()[i] == streams[i]);
                assert forall|j: int| 0 <= j < i implies (#[trigger] streams[j]).stream_identifier != id by {
                    assert(streams.drop_last()[j] == streams[j]);
                }
            },
            None => {
                assert forall|j: int| 0 <= j < streams.len() - 1 implies (
                #[trigger] streams[j]).stream_identifier != id by {
                    assert(streams.drop_last()[j] == streams[j]);
                }
            },
        }
    }
}

/// The place of the first stream that was not handed to the application is
/// in the sequence, and every stream before it was handed over.
pub proof fn lemma_first_unaccepted(streams: Seq<StreamView>)
    ensures
        match first_unaccepted(streams) {
            Some(i) => 0 <= i < streams.len() && !streams[i].accepted && forall|j: int|
                0 <= j < i ==> (#[trigger] streams[j]).accepted,
            None => forall|j: int| 0 <= j < streams.len() ==> (#[trigger] streams[j]).accepted,
        },
    decreases streams.len(),
{
    if streams.len() > 0 {
        lemma_first_unaccepted(streams.drop_last());
        match first_unaccepted(streams.drop_last()) {
            Some(i) => {
                assert(streams.drop_last()[i] == streams[i]);
                assert forall|j: int| 0 <= j < i implies (#[trigger] streams[j]).accepted by {
                    assert(streams.drop_last()[j] == streams[j]);
                }
            },
            None => {
                assert forall|j: int| 0 <= j < streams.len() - 1 implies (#[trigger] streams[j]).accepted by {
                    assert(streams.drop_last()[j] == streams[j]);
                }
            },
        }
    }
}

/// Whether a request to reset streams that lists `ids` asks for the stream `id`.
fn listed(ids: &Vec<u16>, id: u16) -> (r: bool)
    ensures
        r == asks_for(ids@, id),
{
    if ids.len() == 0 {
        return true;
    }
    let mut i: usize = 0;
    while i < ids.len()
        invariant
            i <= ids.len(),
            forall|j: int| 0 <= j < i ==> ids@[j] != id,
        decreases ids.len() - i,
    {
        if ids[i] == id {
            assert(ids@.contains(id));
            return true;
        }
        i = i + 1;
    }
    false
}

/// Whether two byte strings are the same.
fn same_bytes(a: &Vec<u8>, b: &Vec<u8>) -> (r: bool)
    ensures
        r == (a@ == b@),
{
    if a.len() != b.len() {
        return false;
    }
    let mut i: usize = 0;
    while i < a.len()
        invariant
            i <= a.len(),
            a.len() == b.len(),
            forall|j: int| 0 <= j < i ==> a@[j] == b@[j],
        decreases a.len() - i,
    {
        if a[i] != b[i] {
            return false;
        }
        i = i + 1;
    }
    assert(a@ =~= b@);
    true
}

impl Association {
    /// The association's parts are well formed and fit each other.
    pub closed spec fn wf(&self) -> bool {
        &&& self@.wf()
        &&& self.inflight.wf()
        &&& self.tracker.wf()
        &&& self.cc.wf()
        &&& self.cc.mtu() == self.config.mtu
        &&& self.cc.threshold() == self.config.missing_report_threshold
        &&& forall|i: int| 0 <= i < self.streams.len() ==> (#[trigger] self.streams@[i]).reassembly_queue.wf()
    }

    /// Whatever has happened to an association, its parts are well formed;
    /// among other things its congestion window is at least one MTU.
    pub proof fn lemma_wf(&self)
        requires
            self.wf(),
        ensures
            self@.wf(),
            self@.cc.cwnd >= self@.config.mtu,
    {
    }

    /// Makes an association from what it would otherwise draw by chance:
    /// the sequence number of its first DATA chunk and its state cookie.
    ///
    /// The side that connects has its INIT waiting to be sent at once.
    /// Parameters that are not well formed are replaced by the defaults.
    pub fn with_seed(
        side: Side,
        config: TransportConfig,
        local_aid: u32,
        remote_addr: SocketAddress,
        local_ip: Option<IpAddress>,
        now: u64,
        seed: Seed,
    ) -> (a: Association)
        ensures
            a.wf(),
            a@ == AssociationView::created(
                side,
                config.normalized(),
                local_aid,
                remote_addr,
                local_ip,
                now,
                seed.initial_tsn,
                seed.cookie@,
            ),
    {
        let config: TransportConfig = config.normalize();
        let rto: RtoManager = match RtoManager::new(config.rto_initial, config.rto_min, config.rto_max) {
            Some(m) => m,
            None => RtoManager::with_defaults(),
        };
        let mut a = Association {
            side,
            state: AssociationState::Closed,
            config,
            my_verification_tag: local_aid,
            peer_verification_tag: 0,
            remote_addr,
            local_ip,
            initial_tsn: seed.initial_tsn,
            my_cookie: seed.cookie,
            peer_cookie: Vec::new(),
            peer_rwnd: 0,
            use_forward_tsn: false,
            tracker: TsnTracker::new(0),
            inflight: InflightQueue::new(seed.initial_tsn),
            pending: Vec::new(),
            cc: CongestionController::new(config.mtu, config.missing_report_threshold, 0),
            rto,
            streams: Vec::new(),
            control: Vec::new(),
            ack_due: false,
            ack_count: 0,
            forward_tsn_due: false,
            t1_init: Timer::new(Some(MAX_INIT_RETRANS)),
            t1_cookie: Timer::new(Some(MAX_INIT_RETRANS)),
            t2_shutdown: Timer::new(None),
            t3_rtx: Timer::new(None),
            ack_timer: Timer::new(None),
            reset_out: None,
            reset_last_tsn: 0,
            my_reset_seq: seed.initial_tsn,
            peer_reset_seq: 0,
            t_reset: Timer::new(None),
            events: Vec::new(),
            endpoint_events: Vec::new(),
        };
        proof {
            assert(a@.peer_cookie =~= Seq::<u8>::empty());
            assert(a@.pending =~= Seq::<DataView>::empty());
            assert(a@.streams =~= Seq::<StreamView>::empty());
            assert(a@.control =~= Seq::<ChunkView>::empty());
            assert(a@.events =~= Seq::<Event>::empty());
            assert(a@.endpoint_events =~= Seq::<EndpointEvent>::empty());
            assert(a@.inflight.chunks =~= Seq::<PendingView>::empty());
        }
        match side {
            Side::Server => {},
            Side::Client => {
                a.connect(now);
            },
        }
        a
    }

    /// Makes an association, drawing the sequence number of its first DATA
    /// chunk and its state cookie by chance.
    ///
    /// With a server configuration the association is on the side that
    /// answers; without one it connects, and its INIT waits to be sent.
    pub fn new(
        server_config: Option<Arc<ServerConfig>>,
        config: Arc<TransportConfig>,
        local_aid: u32,
        remote_addr: SocketAddress,
        local_ip: Option<IpAddress>,
        now: u64,
    ) -> (a: Association)
        ensures
            a.wf(),
            a@ == AssociationView::created(
                if server_config.is_some() { Side::Server } else { Side::Client },
                config.normalized(),
                local_aid,
                remote_addr,
                local_ip,
                now,
                a@.initial_tsn,
                a@.my_cookie,
            ),
            a@.my_cookie.len() == crate::param::COOKIE_LENGTH,
    {
        let side: Side = if server_config.is_some() { Side::Server } else { Side::Client };
        Association::with_random_seed(side, *config, local_aid, remote_addr, local_ip, now)
    }

    /// Makes an association as `with_seed` does, with a seed drawn by chance.
    pub fn with_random_seed(
        side: Side,
        config: TransportConfig,
        local_aid: u32,
        remote_addr: SocketAddress,
        local_ip: Option<IpAddress>,
        now: u64,
    ) -> (a: Association)
        ensures
            a.wf(),
            a@ == AssociationView::created(
                side,
                config.normalized(),
                local_aid,
                remote_addr,
                local_ip,
                now,
                a@.initial_tsn,
                a@.my_cookie,
            ),
            a@.my_cookie.len() == crate::param::COOKIE_LENGTH,
    {
        let seed = Seed { initial_tsn: random_u32(), cookie: ParamStateCookie::new().cookie };
        Association::with_seed(side, config, local_aid, remote_addr, local_ip, now, seed)
    }

    /// Which side of the handshake the association is on.
    pub fn side(&self) -> (s: Side)
        ensures
            s == self@.side,
    {
        self.side
    }

    /// The state that the association is in.
    pub fn state(&self) -> (s: AssociationState)
        ensures
            s == self@.state,
    {
        self.state
    }

    /// The verification tag that names the association on the wire.
    pub fn local_aid(&self) -> (t: u32)
        ensures
            t == self@.my_verification_tag,
    {
        self.my_verification_tag
    }

    /// The verification tag of the peer, zero until it is known.
    pub fn remote_aid(&self) -> (t: u32)
        ensures
            t == self@.peer_verification_tag,
    {
        self.peer_verification_tag
    }

    /// The address of the peer.
    pub fn remote_addr(&self) -> (a: SocketAddress)
        ensures
            a == self@.remote_addr,
    {
        self.remote_addr
    }

    /// When the association acknowledges data.
    pub fn ack_mode(&self) -> (m: AckMode)
        ensures
            m == self@.config.ack_mode,
    {
        self.config.ack_mode
    }

    /// Sets when the association acknowledges data.
    pub fn set_ack_mode(&mut self, mode: AckMode)
        requires
            old(self).wf(),
        ensures
            final(self).wf(),
            final(self)@ == (AssociationView {
                config: TransportConfig { ack_mode: mode, ..old(self)@.config },
                ..old(self)@
            }),
    {
        self.config.ack_mode = mode;
    }

    /// Whether the association is in fast recovery, its congestion window
    /// and its slow start threshold.
    pub fn congestion(&self) -> (s: crate::congestion::CongestionState)
        ensures
            s == self@.cc,
    {
        self.cc.state()
    }

    /// The current retransmission timeout, in milliseconds.
    pub fn rto(&self) -> (t: u64)
        ensures
            t == self@.rto.rto,
    {
        self.rto.get_rto()
    }

    /// Puts the INIT in line to be sent, if the association is closed.
    fn connect(&mut self, now: u64)
        requires
            old(self).wf(),
        ensures
            final(self).wf(),
            final(self)@ == old(self)@.connecting(now),
    {
        let s: Step = step(self.state, Trigger::Connect);
        match s.action {
            Action::SendInit => {
                let init = Chunk::Init(self.own_init(false));
                let ghost before = chunk_views(self.control@);
                self.control.push(init);
                assert(chunk_views(self.control@) =~= before.push(init@));
                self.state = AssociationState::CookieWait;
                self.t1_init.start(now, self.rto.get_rto());
            },
            _ => {},
        }
    }

    /// The INIT that the association sends, or its INIT ACK if `with_cookie` is set.
    fn own_init(&self, with_cookie: bool) -> (i: InitChunk)
        ensures
            i@ == crate::model::own_init(
                self@.config,
                self@.my_verification_tag,
                self@.initial_tsn,
                if with_cookie { self@.my_cookie } else { Seq::<u8>::empty() },
            ),
    {
        let cookie: Vec<u8> = if with_cookie { copy_bytes(&self.my_cookie) } else { Vec::new() };
        assert(!with_cookie ==> cookie@ =~= Seq::<u8>::empty());
        InitChunk {
            initiate_tag: self.my_verification_tag,
            a_rwnd: self.config.max_receive_buffer_size,
            num_outbound_streams: self.config.max_num_outbound_streams,
            num_inbound_streams: self.config.max_num_inbound_streams,
            initial_tsn: self.initial_tsn,
            cookie,
            forward_tsn_supported: true,
        }
    }

    /// Takes note of what an INIT or INIT ACK says of the peer.
    fn learn_peer(&mut self, init: &InitChunk)
        requires
            old(self).wf(),
        ensures
            final(self).wf(),
            final(self)@ == old(self)@.knowing_peer(init@),
    {
        self.peer_verification_tag = init.initiate_tag;
        self.peer_rwnd = init.a_rwnd;
        self.use_forward_tsn = init.forward_tsn_supported;
        self.tracker = TsnTracker::new(init.initial_tsn.wrapping_sub(1));
        self.cc = CongestionController::new(self.config.mtu, self.config.missing_report_threshold, init.a_rwnd);
        self.peer_reset_seq = init.initial_tsn;
    }

    /// Takes an INIT.
    fn handle_init(&mut self, init: &InitChunk)
        requires
            old(self).wf(),
        ensures
            final(self).wf(),
            final(self)@ == old(self)@.on_init(init@),
    {
        let s: Step = step(self.state, Trigger::Init);
        let answers: bool = match s.action {
            Action::SendInitAck => true,
            _ => false,
        };
        if init.initiate_tag != 0 && answers {
            let ack = Chunk::InitAck(self.own_init(true));
            self.learn_peer(init);
            let ghost before = chunk_views(self.control@);
            self.control.push(ack);
            assert(chunk_views(self.control@) =~= before.push(ack@));
        }
    }

    /// Takes an INIT ACK.
    fn handle_init_ack(&mut self, init: &InitChunk, now: u64)
        requires
            old(self).wf(),
        ensures
            final(self).wf(),
            final(self)@ == old(self)@.on_init_ack(init@, now),
    {
        let s: Step = step(self.state, Trigger::InitAck);
        let answers: bool = match s.action {
            Action::SendCookieEcho => true,
            _ => false,
        };
        if init.initiate_tag != 0 && init.cookie.len() > 0 && answers {
            self.learn_peer(init);
            self.state = AssociationState::CookieEchoed;
            self.peer_cookie = copy_bytes(&init.cookie);
            let echo = Chunk::CookieEcho(copy_bytes(&init.cookie));
            let ghost before = chunk_views(self.control@);
            self.control.push(echo);
            assert(chunk_views(self.control@) =~= before.push(echo@));
            self.t1_init.stop();
            self.t1_cookie.start(now, self.rto.get_rto());
        }
    }

    /// Takes a COOKIE ECHO.
    fn handle_cookie_echo(&mut self, cookie: &Vec<u8>)
        requires
            old(self).wf(),
        ensures
            final(self).wf(),
            final(self)@ == old(self)@.on_cookie_echo(cookie@),
    {
        let s: Step = step(self.state, Trigger::CookieEcho);
        let answers: bool = match s.action {
            Action::SendCookieAck => true,
            _ => false,
        };
        if same_bytes(cookie, &self.my_cookie) && self.peer_verification_tag != 0 && answers {
            self.state = s.state;
            let ghost before = chunk_views(self.control@);
            self.control.push(Chunk::CookieAck);
            assert(chunk_views(self.control@) =~= before.push(ChunkView::CookieAck));
            match s.notice {
                Notice::Connected => {
                    self.events.push(Event::Connected);
                },
                _ => {},
            }
        }
    }

    /// Takes a COOKIE ACK.
    fn handle_cookie_ack(&mut self)
        requires
            old(self).wf(),
        ensures
            final(self).wf(),
            final(self)@ == old(self)@.on_cookie_ack(),
    {
        let s: Step = step(self.state, Trigger::CookieAck);
        match s.notice {
            Notice::Connected => {
                self.state = s.state;
                self.t1_cookie.stop();
                self.events.push(Event::Connected);
            },
            _ => {},
        }
    }

    /// Ends the association: it is closed, sends nothing more, and tells
    /// the application `event` and the endpoint that it can be dropped.
    fn end(&mut self, event: Event)
        requires
            old(self).wf(),
        ensures
            final(self).wf(),
            final(self)@ == old(self)@.ended(event),
    {
        self.state = AssociationState::Closed;
        self.control = Vec::new();
        self.pending = Vec::new();
        self.ack_due = false;
        self.forward_tsn_due = false;
        self.t1_init.stop();
        self.t1_cookie.stop();
        self.t2_shutdown.stop();
        self.t3_rtx.stop();
        self.ack_timer.stop();
        self.reset_out = None;
        self.t_reset.stop();
        self.events.push(event);
        self.endpoint_events.push(EndpointEvent(EndpointEventInner::Drained));
        assert(chunk_views(self.control@) =~= Seq::<ChunkView>::empty());
        assert(data_views(self.pending@) =~= Seq::<DataView>::empty());
    }

    /// Takes an ABORT.
    fn handle_abort(&mut self)
        requires
            old(self).wf(),
        ensures
            final(self).wf(),
            final(self)@ == old(self)@.on_abort(),
    {
        let s: Step = step(self.state, Trigger::Abort);
        match s.notice {
            Notice::Aborted => {
                self.end(Event::Error(Error::ErrAborted));
            },
            _ => {},
        }
    }

    /// The place of the stream with the number `id`, if there is one.
    fn find_stream(&self, id: u16) -> (r: Option<usize>)
        ensures
            match r {
                Some(i) => stream_index(self@.streams, id) == Some(i as int) && i < self.streams.len()
                    && self@.streams[i as int].stream_identifier == id,
                None => stream_index(self@.streams, id).is_none(),
            },
    {
        let ghost views = stream_views(self.streams@);
        proof {
            lemma_stream_index(views, id);
        }
        let mut i: usize = 0;
        while i < self.streams.len()
            invariant
                i <= self.streams.len(),
                views == stream_views(self.streams@),
                forall|j: int| 0 <= j < i ==> (#[trigger] views[j]).stream_identifier != id,
            decreases self.streams.len() - i,
        {
            assert(views[i as int] == self.streams@[i as int]@);
            if self.streams[i].stream_identifier == id {
                proof {
                    lemma_stream_index(views, id);
                }
                return Some(i);
            }
            i = i + 1;
        }
        None
    }
}

impl Association {
    /// Hands the fragment `d` to its stream, which is opened if it was not there.
    fn deliver(&mut self, d: DataChunk)
        requires
            old(self).wf(),
        ensures
            final(self).wf(),
            final(self)@ == old(self)@.delivered(d@),
    {
        let id: u16 = d.stream_id;
        let i: usize = match self.find_stream(id) {
            Some(i) => i,
            None => {
                let st = StreamState::new(id, d.ppi, false);
                let ghost before = stream_views(self.streams@);
                self.streams.push(st);
                assert(stream_views(self.streams@) =~= before.push(st@));
                self.events.push(Event::StreamOpened(id));
                self.streams.len() - 1
            },
        };
        let ghost mid = self@;
        let ghost view = d@;
        assert(mid == old(self)@.with_stream(id, d.ppi).0);
        assert(mid.streams[i as int] == self.streams@[i as int]@);
        let readable: bool = self.streams[i].reassembly_queue.push(d);
        proof {
            let st = mid.streams[i as int];
            assert(self.streams@[i as int]@ == (StreamView {
                reassembly_queue: st.reassembly_queue.pushed(view),
                ..st
            }));
            assert(stream_views(self.streams@) =~= mid.streams.update(
                i as int,
                StreamView { reassembly_queue: st.reassembly_queue.pushed(view), ..st },
            ));
        }
        if readable {
            self.events.push(Event::DataReady(id));
        }
    }

    /// Decides when to acknowledge data that has just arrived.
    fn schedule_ack(&mut self, fresh: bool, now: u64)
        requires
            old(self).wf(),
        ensures
            final(self).wf(),
            final(self)@ == old(self)@.ack_scheduled(fresh, now),
    {
        match self.config.ack_mode {
            AckMode::NoDelay => {
                self.ack_due = true;
            },
            AckMode::AlwaysDelay => {
                self.ack_timer.start_if_idle(now, ACK_INTERVAL);
            },
            AckMode::Normal => {
                if !fresh || self.tracker.window_len() > 0 || self.ack_count >= 1 {
                    self.ack_due = true;
                    self.ack_count = 0;
                } else {
                    self.ack_count = 1;
                    self.ack_timer.start_if_idle(now, ACK_INTERVAL);
                }
            },
        }
    }

    /// Whether data is taken and acknowledgements are read in the association's state.
    fn in_data_state(&self) -> (b: bool)
        ensures
            b == carries_data(self@.state),
    {
        match self.state {
            AssociationState::Established
            | AssociationState::ShutdownPending
            | AssociationState::ShutdownSent => true,
            _ => false,
        }
    }

    /// Takes a DATA chunk.
    fn handle_data(&mut self, d: DataChunk, now: u64)
        requires
            old(self).wf(),
        ensures
            final(self).wf(),
            final(self)@ == old(self)@.on_data(d@, now),
    {
        if !self.in_data_state() {
            return;
        }
        let fresh: bool = self.tracker.push(d.tsn);
        if fresh {
            self.deliver(d);
        }
        self.schedule_ack(fresh, now);
    }

    /// Sends the SHUTDOWN if the association was asked to close and nothing
    /// more waits to be acknowledged or sent.
    fn shutdown_if_drained(&mut self, now: u64)
        requires
            old(self).wf(),
        ensures
            final(self).wf(),
            final(self)@ == old(self)@.shutdown_if_drained(now),
    {
        let s: Step = step(self.state, Trigger::AllAcked);
        let sends: bool = match s.action {
            Action::SendShutdown => true,
            _ => false,
        };
        if self.inflight.is_empty() && self.pending.len() == 0 && sends {
            self.state = AssociationState::ShutdownSent;
            let c = Chunk::Shutdown(self.tracker.cumulative_tsn());
            let ghost before = chunk_views(self.control@);
            self.control.push(c);
            assert(chunk_views(self.control@) =~= before.push(c@));
            self.t2_shutdown.start(now, self.rto.get_rto());
        }
    }

    /// Takes a selective acknowledgement.
    #[verifier::rlimit(100)]
    fn handle_sack(&mut self, s: &SackChunk, now: u64)
        requires
            old(self).wf(),
        ensures
            final(self).wf(),
            final(self)@ == old(self)@.on_sack(s@, now),
    {
        if !self.in_data_state() {
            return;
        }
        let threshold: u8 = self.config.missing_report_threshold;
        let outcome = match self.inflight.on_sack(s.cumulative_tsn_ack, &s.gaps, threshold) {
            Some(o) => o,
            None => {
                return;
            },
        };
        let bytes: u32 = if outcome.bytes_acked > 0xffff_ffff {
            0xffff_ffff
        } else {
            outcome.bytes_acked as u32
        };
        self.cc.on_sack(bytes, s.cumulative_tsn_ack);
        if outcome.fired.len() > 0 {
            let _ = self.cc.on_fast_retransmit(self.inflight.highest_tsn());
        }
        match outcome.rtt_send_time {
            Some(t) => {
                if now >= t {
                    let _ = self.rto.set_new_rtt(now - t);
                }
            },
            None => {},
        }
        self.peer_rwnd = s.a_rwnd;
        if self.inflight.is_empty() {
            self.t3_rtx.stop();
        } else if outcome.newly_covered > 0 {
            self.t3_rtx.start(now, self.rto.get_rto());
        }
        if self.use_forward_tsn {
            let (_, _, given_up) = self.inflight.forward_tsn();
            if given_up > 0 {
                self.forward_tsn_due = true;
            }
        }
        self.shutdown_if_drained(now);
    }

    /// Takes a FORWARD TSN chunk.
    fn handle_forward_tsn(&mut self, f: &ForwardTsnChunk)
        requires
            old(self).wf(),
        ensures
            final(self).wf(),
            final(self)@ == old(self)@.on_forward_tsn(f@),
    {
        if !self.in_data_state() {
            return;
        }
        self.tracker.forward(f.new_cumulative_tsn);
        self.ack_due = true;
        let ghost start = self@;
        let ghost first = old(self)@;
        let ghost target = Seq::new(first.streams.len(), |i: int| stream_after_forward(first.streams[i], f@));
        let n: usize = self.streams.len();
        let mut i: usize = 0;
        assert(self@.events =~= first.events + forward_events(first.streams, target, 0));
        while i < n
            invariant
                i <= n,
                n == self.streams.len(),
                n == first.streams.len(),
                self.wf(),
                first.wf(),
                start.streams == first.streams,
                start.events == first.events,
                target == Seq::new(first.streams.len(), |i: int| stream_after_forward(first.streams[i], f@)),
                forall|j: int| 0 <= j < i ==> (#[trigger] self@.streams[j]) == target[j],
                forall|j: int| i <= j < n ==> (#[trigger] self@.streams[j]) == first.streams[j],
                self@.events == first.events + forward_events(first.streams, target, i as nat),
                self@ == (AssociationView { streams: self@.streams, events: self@.events, ..start }),
            decreases n - i,
        {
            let ghost before = self@;
            assert(before.streams[i as int] == self.streams@[i as int]@);
            assert(first.streams[i as int].wf());
            let id: u16 = self.streams[i].stream_identifier;
            let grew: bool = forward_stream(&mut self.streams[i], f);
            proof {
                assert(self.streams@[i as int]@ == target[i as int]);
                assert(stream_views(self.streams@) =~= before.streams.update(i as int, target[i as int]));
            }
            if grew {
                self.events.push(Event::DataReady(id));
            }
            proof {
                assert(self@.events =~= first.events + forward_events(first.streams, target, (i + 1) as nat));
            }
            i = i + 1;
        }
        assert(self@.streams =~= target);
    }
}

/// Applies a FORWARD TSN chunk to one stream. Returns whether a message became readable.
fn forward_stream(st: &mut StreamState, f: &ForwardTsnChunk) -> (grew: bool)
    requires
        old(st).wf(),
        old(st).reassembly_queue.wf(),
    ensures
        final(st).wf(),
        final(st).reassembly_queue.wf(),
        final(st)@ == stream_after_forward(old(st)@, f@),
        grew == (final(st)@.reassembly_queue.ready.len() > old(st)@.reassembly_queue.ready.len()),
{
    let was: usize = st.reassembly_queue.ready_len();
    let id: u16 = st.stream_identifier;
    st.reassembly_queue.forward_tsn_for_unordered(f.new_cumulative_tsn);
    let mut k: usize = 0;
    while k < f.streams.len()
        invariant
            k <= f.streams.len(),
            st.wf(),
            st.reassembly_queue.wf(),
            st@.stream_identifier == id,
            stream_forwarded(st@, f@.streams, k as int) == stream_after_forward(old(st)@, f@),
            st@.reassembly_queue.ready.len() >= was,
            was == old(st)@.reassembly_queue.ready.len(),
        decreases f.streams.len() - k,
    {
        let entry: ForwardTsnStream = f.streams[k];
        if entry.stream_id == id {
            st.reassembly_queue.forward_tsn_for_ordered(entry.ssn);
        }
        k = k + 1;
    }
    st.reassembly_queue.ready_len() > was
}

impl Association {
    /// Takes a SHUTDOWN.
    fn handle_shutdown(&mut self, now: u64)
        requires
            old(self).wf(),
        ensures
            final(self).wf(),
            final(self)@ == old(self)@.on_shutdown(now),
    {
        let s: Step = step(self.state, Trigger::Shutdown);
        match s.action {
            Action::SendShutdownAck => {
                self.state = AssociationState::ShutdownAckSent;
                let ghost before = chunk_views(self.control@);
                self.control.push(Chunk::ShutdownAck);
                assert(chunk_views(self.control@) =~= before.push(ChunkView::ShutdownAck));
                self.t2_shutdown.start(now, self.rto.get_rto());
            },
            _ => {},
        }
    }

    /// Takes a SHUTDOWN ACK.
    fn handle_shutdown_ack(&mut self)
        requires
            old(self).wf(),
        ensures
            final(self).wf(),
            final(self)@ == old(self)@.on_shutdown_ack(),
    {
        let s: Step = step(self.state, Trigger::ShutdownAck);
        match s.action {
            Action::SendShutdownComplete => {
                self.end(Event::Closed);
                self.control.push(Chunk::ShutdownComplete);
                assert(chunk_views(self.control@) =~= seq![ChunkView::ShutdownComplete]);
            },
            _ => {},
        }
    }

    /// Takes a SHUTDOWN COMPLETE.
    fn handle_shutdown_complete(&mut self)
        requires
            old(self).wf(),
        ensures
            final(self).wf(),
            final(self)@ == old(self)@.on_shutdown_complete(),
    {
        let s: Step = step(self.state, Trigger::ShutdownComplete);
        match s.notice {
            Notice::Closed => {
                self.end(Event::Closed);
            },
            _ => {},
        }
    }

    /// Puts the answer to a request to reset streams among the chunks that wait to be sent.
    fn answer(&mut self, sequence: u32, result: u32)
        requires
            old(self).wf(),
        ensures
            final(self).wf(),
            final(self)@ == old(self)@.answering(sequence, result),
    {
        let ghost before = chunk_views(self.control@);
        let c = Chunk::ResetResponse(ResetResponse { sequence, result });
        self.control.push(c);
        assert(chunk_views(self.control@) =~= before.push(c@));
    }

    /// Drops each stream that a request to reset streams asks for, and
    /// tells the application of each.
    fn drop_streams(&mut self, ids: &Vec<u16>)
        requires
            old(self).wf(),
        ensures
            final(self).wf(),
            final(self)@ == (AssociationView {
                streams: streams_left(old(self)@.streams, ids@, old(self)@.streams.len()),
                events: old(self)@.events + reset_events(old(self)@.streams, ids@, old(self)@.streams.len()),
                ..old(self)@
            }),
    {
        let ghost first = self@;
        let mut all: Vec<StreamState> = Vec::new();
        std::mem::swap(&mut all, &mut self.streams);
        let mut kept: Vec<StreamState> = Vec::new();
        let n: usize = all.len();
        let mut i: usize = 0;
        proof {
            assert(stream_views(all@) =~= first.streams.skip(0));
            assert(stream_views(kept@) =~= streams_left(first.streams, ids@, 0));
            assert(self@.events =~= first.events + reset_events(first.streams, ids@, 0));
            assert(stream_views(self.streams@) =~= Seq::<StreamView>::empty());
        }
        while i < n
            invariant
                i <= n,
                n == first.streams.len(),
                all.len() == n - i,
                first.wf(),
                stream_views(all@) == first.streams.skip(i as int),
                stream_views(kept@) == streams_left(first.streams, ids@, i as nat),
                forall|j: int| 0 <= j < all.len() ==> (#[trigger] all@[j]).reassembly_queue.wf(),
                forall|j: int|
                    0 <= j < kept.len() ==> (#[trigger] kept@[j]).reassembly_queue.wf() && kept@[j]@.wf(),
                self@.events == first.events + reset_events(first.streams, ids@, i as nat),
                self@ == (AssociationView {
                    streams: Seq::<StreamView>::empty(),
                    events: self@.events,
                    ..first
                }),
                self.inflight.wf(),
                self.tracker.wf(),
                self.cc.wf(),
                self.cc.mtu() == self.config.mtu,
                self.cc.threshold() == self.config.missing_report_threshold,
            decreases n - i,
        {
            let ghost rest = stream_views(all@);
            let ghost held = stream_views(kept@);
            assert(rest[0] == all@[0]@);
            assert(rest[0] == first.streams[i as int]);
            assert(first.streams[i as int].wf());
            let ghost waiting = all@;
            let st: StreamState = all.remove(0);
            let id: u16 = st.stream_identifier;
            proof {
                assert forall|j: int| 0 <= j < all.len() implies #[trigger] stream_views(all@)[j]
                    == first.streams.skip(i + 1)[j] by {
                    assert(all@[j] == waiting[j + 1]);
                    assert(rest[j + 1] == waiting[j + 1]@);
                    assert(rest[j + 1] == first.streams[i + j + 1]);
                }
                assert forall|j: int| 0 <= j < all.len() implies (#[trigger] all@[j]).reassembly_queue.wf() by {
                    assert(all@[j] == waiting[j + 1]);
                }
            }
            if listed(ids, id) {
                self.events.push(Event::Reset(id));
            } else {
                kept.push(st);
                assert(stream_views(kept@) =~= held.push(st@));
            }
            proof {
                assert(stream_views(all@) =~= first.streams.skip(i + 1));
                assert(self@.events =~= first.events + reset_events(first.streams, ids@, (i + 1) as nat));
            }
            i = i + 1;
        }
        self.streams = kept;
    }

    /// Takes a request to reset streams.
    fn handle_reset_request(&mut self, r: &ResetRequest)
        requires
            old(self).wf(),
        ensures
            final(self).wf(),
            final(self)@ == old(self)@.on_reset_request(r@),
    {
        if !self.in_data_state() {
            return;
        }
        if r.request_sequence == self.peer_reset_seq {
            if sna32lte(r.last_tsn, self.tracker.cumulative_tsn()) {
                self.peer_reset_seq = advance32(self.peer_reset_seq, 1);
                self.drop_streams(&r.streams);
                self.answer(r.request_sequence, RESET_PERFORMED);
            } else {
                self.answer(r.request_sequence, RESET_IN_PROGRESS);
            }
        } else if r.request_sequence == advance32(self.peer_reset_seq, 0xffff_ffff) {
            self.answer(r.request_sequence, RESET_NOTHING_TO_DO);
        } else {
            self.answer(r.request_sequence, RESET_BAD_SEQUENCE);
        }
    }

    /// Takes the answer to a request to reset a stream.
    fn handle_reset_response(&mut self, r: ResetResponse)
        requires
            old(self).wf(),
        ensures
            final(self).wf(),
            final(self)@ == old(self)@.on_reset_response(r),
    {
        let id: u16 = match self.reset_out {
            None => {
                return;
            },
            Some(id) => id,
        };
        if r.sequence != self.my_reset_seq || r.result == RESET_IN_PROGRESS {
            return;
        }
        let place: Option<usize> = self.find_stream(id);
        self.reset_out = None;
        self.my_reset_seq = advance32(self.my_reset_seq, 1);
        self.t_reset.stop();
        match place {
            Some(i) => if r.result == RESET_PERFORMED || r.result == RESET_NOTHING_TO_DO {
                let ghost views = stream_views(self.streams@);
                let _ = self.streams.remove(i);
                assert(stream_views(self.streams@) =~= views.remove(i as int));
                self.events.push(Event::Reset(id));
            },
            None => {},
        }
    }

    /// The request to reset a stream that is under way, as a chunk.
    fn reset_chunk(&self) -> (c: Chunk)
        ensures
            c@ == self@.reset_chunk(),
    {
        let mut streams: Vec<u16> = Vec::new();
        match self.reset_out {
            Some(id) => {
                streams.push(id);
                assert(streams@ =~= seq![id]);
            },
            None => {},
        }
        Chunk::ResetRequest(
            ResetRequest {
                request_sequence: self.my_reset_seq,
                response_sequence: advance32(self.peer_reset_seq, 0xffff_ffff),
                last_tsn: self.reset_last_tsn,
                streams,
            },
        )
    }

    /// Takes a chunk of a type that the association does not know.
    fn handle_unknown(&mut self, typ: u8)
        requires
            old(self).wf(),
        ensures
            final(self).wf(),
            final(self)@ == old(self)@.on_unknown(typ),
    {
        let closed: bool = match self.state {
            AssociationState::Closed => true,
            _ => false,
        };
        if (typ / 0x40) % 2 == 1 && !closed {
            let ghost before = chunk_views(self.control@);
            self.control.push(Chunk::Error);
            assert(chunk_views(self.control@) =~= before.push(ChunkView::Error));
        }
    }

    /// Takes one chunk.
    fn handle_chunk(&mut self, c: &Chunk, now: u64)
        requires
            old(self).wf(),
        ensures
            final(self).wf(),
            final(self)@ == old(self)@.on_chunk(c@, now),
    {
        proof {
            reveal(AssociationView::on_chunk);
        }
        match c {
            Chunk::Init(i) => self.handle_init(i),
            Chunk::InitAck(i) => self.handle_init_ack(i, now),
            Chunk::CookieEcho(cookie) => self.handle_cookie_echo(cookie),
            Chunk::CookieAck => self.handle_cookie_ack(),
            Chunk::Data(d) => self.handle_data(d.clone(), now),
            Chunk::Sack(s) => self.handle_sack(s, now),
            Chunk::ForwardTsn(f) => self.handle_forward_tsn(f),
            Chunk::Shutdown(_) => self.handle_shutdown(now),
            Chunk::ShutdownAck => self.handle_shutdown_ack(),
            Chunk::ShutdownComplete => self.handle_shutdown_complete(),
            Chunk::Abort => self.handle_abort(),
            Chunk::Error => {},
            Chunk::ResetRequest(r) => self.handle_reset_request(r),
            Chunk::ResetResponse(r) => self.handle_reset_response(*r),
            Chunk::Unknown(t) => self.handle_unknown(*t),
        }
    }

    /// Takes a packet that has arrived at `now`: each chunk in turn.
    ///
    /// A packet with the wrong verification tag is dropped. After a chunk of
    /// an unknown type that does not allow it, the rest of the packet is dropped.
    pub fn handle_packet(&mut self, packet: &Packet, now: u64)
        requires
            old(self).wf(),
        ensures
            final(self).wf(),
            final(self)@ == old(self)@.on_packet(packet@, now),
    {
        let lone_init: bool = packet.chunks.len() == 1 && match packet.chunks[0] {
            Chunk::Init(_) => true,
            _ => false,
        };
        proof {
            if packet.chunks.len() == 1 {
                assert(packet@.chunks[0] == packet.chunks@[0]@);
            }
        }
        let takes: bool = if lone_init {
            packet.header.verification_tag == 0
        } else {
            packet.header.verification_tag == self.my_verification_tag
        };
        if !takes {
            return;
        }
        let n: usize = packet.chunks.len();
        let mut k: usize = 0;
        while k < n
            invariant
                k <= n,
                n == packet.chunks.len(),
                self.wf(),
                old(self)@.takes_packet(packet@),
                self@.on_chunks(packet@.chunks, k as int, now) == old(self)@.on_chunks(packet@.chunks, 0, now),
            decreases n - k,
        {
            assert(packet@.chunks[k as int] == packet.chunks@[k as int]@);
            let goes_on: bool = match packet.chunks[k] {
                Chunk::Unknown(t) => t / 0x80 == 1,
                _ => true,
            };
            self.handle_chunk(&packet.chunks[k], now);
            if !goes_on {
                return;
            }
            k = k + 1;
        }
    }

    /// Takes a datagram. One whose chunks cannot be read is dropped, and so
    /// is one that holds outbound packets.
    pub fn handle_transmit(&mut self, transmit: Transmit)
        requires
            old(self).wf(),
        ensures
            final(self).wf(),
            final(self)@ == (match transmit.payload {
                Payload::PartialDecode(p) => match parse_packet(p.raw()) {
                    Ok(packet) => old(self)@.on_packet(packet, transmit.now),
                    Err(_) => old(self)@,
                },
                Payload::RawEncode(_) => old(self)@,
            }),
    {
        let now: u64 = transmit.now;
        match transmit.payload {
            Payload::PartialDecode(p) => {
                match p.finish() {
                    Ok(packet) => {
                        self.handle_packet(&packet, now);
                    },
                    Err(_) => {},
                }
            },
            Payload::RawEncode(_) => {},
        }
    }

    /// Takes what the endpoint tells the association.
    pub fn handle_event(&mut self, event: AssociationEvent)
        requires
            old(self).wf(),
        ensures
            final(self).wf(),
            final(self)@ == (match event.0 {
                AssociationEventInner::Datagram(t) => match t.payload {
                    Payload::PartialDecode(p) => match parse_packet(p.raw()) {
                        Ok(packet) => old(self)@.on_packet(packet, t.now),
                        Err(_) => old(self)@,
                    },
                    Payload::RawEncode(_) => old(self)@,
                },
                AssociationEventInner::NewIdentifiers(_, _) => old(self)@,
            }),
    {
        match event.0 {
            AssociationEventInner::Datagram(t) => {
                self.handle_transmit(t);
            },
            AssociationEventInner::NewIdentifiers(_, _) => {},
        }
    }

    /// Gives the handshake up, if it is under way.
    fn fail_handshake(&mut self)
        requires
            old(self).wf(),
        ensures
            final(self).wf(),
            final(self)@ == old(self)@.handshake_failed(),
    {
        let s: Step = step(self.state, Trigger::RetriesExceeded);
        match s.notice {
            Notice::HandshakeFailed => {
                self.end(Event::Error(Error::ErrHandshakeTimeout));
            },
            _ => {},
        }
    }

    /// Looks at the timer of the INIT.
    fn check_t1_init(&mut self, now: u64)
        requires
            old(self).wf(),
        ensures
            final(self).wf(),
            final(self)@ == old(self)@.on_t1_init(now),
    {
        match self.t1_init.check(now, self.rto.get_rto(), self.rto.state().rto_max) {
            Expiry::NotYet => {},
            Expiry::Retransmit => {
                let init = Chunk::Init(self.own_init(false));
                let ghost before = chunk_views(self.control@);
                self.control.push(init);
                assert(chunk_views(self.control@) =~= before.push(init@));
            },
            Expiry::Failure => {
                self.fail_handshake();
            },
        }
    }

    /// Looks at the timer of the COOKIE ECHO.
    fn check_t1_cookie(&mut self, now: u64)
        requires
            old(self).wf(),
        ensures
            final(self).wf(),
            final(self)@ == old(self)@.on_t1_cookie(now),
    {
        match self.t1_cookie.check(now, self.rto.get_rto(), self.rto.state().rto_max) {
            Expiry::NotYet => {},
            Expiry::Retransmit => {
                let echo = Chunk::CookieEcho(copy_bytes(&self.peer_cookie));
                let ghost before = chunk_views(self.control@);
                self.control.push(echo);
                assert(chunk_views(self.control@) =~= before.push(echo@));
            },
            Expiry::Failure => {
                self.fail_handshake();
            },
        }
    }

    /// Looks at the timer of the shutdown.
    fn check_t2_shutdown(&mut self, now: u64)
        requires
            old(self).wf(),
        ensures
            final(self).wf(),
            final(self)@ == old(self)@.on_t2_shutdown(now),
    {
        match self.t2_shutdown.check(now, self.rto.get_rto(), self.rto.state().rto_max) {
            Expiry::NotYet => {},
            _ => {
                let ghost before = chunk_views(self.control@);
                match self.state {
                    AssociationState::ShutdownSent => {
                        let c = Chunk::Shutdown(self.tracker.cumulative_tsn());
                        self.control.push(c);
                        assert(chunk_views(self.control@) =~= before.push(c@));
                    },
                    AssociationState::ShutdownAckSent => {
                        self.control.push(Chunk::ShutdownAck);
                        assert(chunk_views(self.control@) =~= before.push(ChunkView::ShutdownAck));
                    },
                    _ => {},
                }
            },
        }
    }

    /// Looks at the retransmission timer.
    fn check_t3_rtx(&mut self, now: u64)
        requires
            old(self).wf(),
        ensures
            final(self).wf(),
            final(self)@ == old(self)@.on_t3_rtx(now),
    {
        match self.t3_rtx.check(now, self.rto.get_rto(), self.rto.state().rto_max) {
            Expiry::NotYet => {},
            _ => {
                self.cc.on_timeout();
                self.inflight.mark_all_to_retransmit();
            },
        }
    }

    /// Looks at the timer of the delayed acknowledgement.
    fn check_ack_timer(&mut self, now: u64)
        requires
            old(self).wf(),
        ensures
            final(self).wf(),
            final(self)@ == old(self)@.on_ack_timer(now),
    {
        let due: bool = match self.ack_timer.deadline {
            Some(d) => d <= now,
            None => false,
        };
        if due {
            self.ack_due = true;
            self.ack_timer.stop();
        }
    }

    /// Looks at the timer of the request to reset a stream.
    fn check_t_reset(&mut self, now: u64)
        requires
            old(self).wf(),
        ensures
            final(self).wf(),
            final(self)@ == old(self)@.on_t_reset(now),
    {
        match self.t_reset.check(now, self.rto.get_rto(), self.rto.state().rto_max) {
            Expiry::NotYet => {},
            _ => {
                if self.reset_out.is_some() {
                    let ghost before = chunk_views(self.control@);
                    let c = self.reset_chunk();
                    self.control.push(c);
                    assert(chunk_views(self.control@) =~= before.push(c@));
                }
            },
        }
    }

    /// Takes note that it is `now`: each timer that has expired does its work.
    pub fn handle_timeout(&mut self, now: u64)
        requires
            old(self).wf(),
        ensures
            final(self).wf(),
            final(self)@ == old(self)@.on_timeout(now),
    {
        self.check_t1_init(now);
        self.check_t1_cookie(now);
        self.check_t2_shutdown(now);
        self.check_t3_rtx(now);
        self.check_ack_timer(now);
        self.check_t_reset(now);
    }

    /// When the association wants to be called again: the earliest
    /// deadline of its timers, if one is armed.
    pub fn poll_timeout(&self) -> (t: Option<u64>)
        ensures
            t == self@.next_timeout(),
    {
        min_opt(
            min_opt(
                min_opt(self.t1_init.deadline, self.t1_cookie.deadline),
                min_opt(self.t2_shutdown.deadline, self.t3_rtx.deadline),
            ),
            min_opt(self.ack_timer.deadline, self.t_reset.deadline),
        )
    }

    /// The next thing to tell the application, if there is one.
    pub fn poll_event(&mut self) -> (e: Option<Event>)
        requires
            old(self).wf(),
        ensures
            final(self).wf(),
            match e {
                Some(x) => old(self)@.events.len() > 0 && x == old(self)@.events[0] && final(self)@ == (
                AssociationView { events: old(self)@.events.drop_first(), ..old(self)@ }),
                None => old(self)@.events.len() == 0 && final(self)@ == old(self)@,
            },
    {
        if self.events.len() == 0 {
            return None;
        }
        let e: Event = self.events.remove(0);
        assert(self.events@ =~= old(self).events@.drop_first());
        Some(e)
    }

    /// The next thing to tell the endpoint, if there is one.
    pub fn poll_endpoint_event(&mut self) -> (e: Option<EndpointEvent>)
        requires
            old(self).wf(),
        ensures
            final(self).wf(),
            match e {
                Some(x) => old(self)@.endpoint_events.len() > 0 && x == old(self)@.endpoint_events[0]
                    && final(self)@ == (AssociationView {
                    endpoint_events: old(self)@.endpoint_events.drop_first(),
                    ..old(self)@
                }),
                None => old(self)@.endpoint_events.len() == 0 && final(self)@ == old(self)@,
            },
    {
        if self.endpoint_events.len() == 0 {
            return None;
        }
        let e: EndpointEvent = self.endpoint_events.remove(0);
        assert(self.endpoint_events@ =~= old(self).endpoint_events@.drop_first());
        Some(e)
    }
}

impl Association {
    /// The receive window that the association advertises.
    fn receive_window(&self) -> (w: u32)
        requires
            self.wf(),
        ensures
            w == self@.receive_window(),
    {
        let ghost views = self@.streams;
        let mut total: usize = 0;
        let mut i: usize = 0;
        while i < self.streams.len()
            invariant
                i <= self.streams.len(),
                views == stream_views(self.streams@),
                total == (if queued_bytes(views, i as nat) > usize::MAX {
                    usize::MAX as nat
                } else {
                    queued_bytes(views, i as nat)
                }),
            decreases self.streams.len() - i,
        {
            assert(views[i as int] == self.streams@[i as int]@);
            let n: usize = self.streams[i].reassembly_queue.get_num_bytes();
            total = if total <= usize::MAX - n { total + n } else { usize::MAX };
            i = i + 1;
        }
        let max: usize = self.config.max_receive_buffer_size as usize;
        if total >= max {
            0
        } else {
            (max - total) as u32
        }
    }

    /// How hard the stream `id` tries to deliver its messages.
    fn policy(&self, id: u16) -> (r: (ReliabilityType, u32))
        ensures
            r == policy_of(self@.streams, id),
    {
        match self.find_stream(id) {
            Some(i) => {
                assert(self@.streams[i as int] == self.streams@[i as int]@);
                (self.streams[i].reliability_type, self.streams[i].reliability_value)
            },
            None => (ReliabilityType::Reliable, 0),
        }
    }

    /// Gathers the chunks that wait to be sent again. See `gathered_retransmits`.
    fn gather_retransmits(&mut self, room0: i64, now: u64, out: &mut Vec<DataChunk>) -> (left: i64)
        requires
            old(self).wf(),
            -0x100_0000_0000 <= room0 <= 0x1_0000,
        ensures
            final(self).wf(),
            (final(self)@, data_views(final(out)@), left as int) == old(self)@.gathered_retransmits(
                room0 as int,
                now,
                old(self)@.inflight.chunks.len(),
                data_views(old(out)@),
            ),
            -0x100_0000_0000 <= left <= room0,
            final(self)@.pending == old(self)@.pending,
    {
        let ghost start = self@;
        let ghost target = start.gathered_retransmits(
            room0 as int,
            now,
            start.inflight.chunks.len(),
            data_views(out@),
        );
        let mut room: i64 = room0;
        let mut fuel: usize = self.inflight.len();
        while fuel > 0 && room >= 16
            invariant
                self.wf(),
                -0x100_0000_0000 <= room <= room0 <= 0x1_0000,
                self@ == (AssociationView { inflight: self@.inflight, ..start }),
                self@.gathered_retransmits(room as int, now, fuel as nat, data_views(out@)) == target,
                start == old(self)@,
                target == start.gathered_retransmits(
                    room0 as int,
                    now,
                    start.inflight.chunks.len(),
                    data_views(old(out)@),
                ),
            decreases fuel,
        {
            let ghost before = self@;
            let ghost acc = data_views(out@);
            match self.inflight.take_retransmit(((room - 16) / 4 * 4) as usize, now) {
                None => {
                    proof {
                        assert(before.gathered_retransmits(room as int, now, fuel as nat, acc) == (
                            self@,
                            acc,
                            room as int,
                        ));
                    }
                    return room;
                },
                Some(d) => {
                    let size: usize = d.payload.len();
                    proof {
                        assert(size <= (room - 16) / 4 * 4);
                        assert((size + 3) / 4 * 4 <= room - 16);
                    }
                    out.push(d);
                    assert(data_views(out@) =~= acc.push(d@));
                    room = room - (16 + ((size + 3) / 4 * 4) as i64);
                    fuel = fuel - 1;
                },
            }
        }
        room
    }

    /// Whether the first chunk that waits to be sent for the first time may go out. See `may_send_next`.
    fn can_send_next(&self, room: i64) -> (b: bool)
        requires
            self.wf(),
        ensures
            b == self@.may_send_next(room as int),
    {
        if self.pending.len() == 0 || self.inflight.len() >= MAX_IN_FLIGHT {
            return false;
        }
        assert(self@.pending[0] == self.pending@[0]@);
        let size: usize = self.pending[0].payload.len();
        if 16 + ((size + 3) / 4 * 4) as i64 > room {
            return false;
        }
        if self.inflight.len() == 0 {
            return true;
        }
        let bytes: u64 = self.inflight.get_num_bytes();
        let in_flight: u32 = if bytes > 0xffff_ffff { 0xffff_ffff } else { bytes as u32 };
        let budget: u32 = self.cc.send_budget(in_flight, self.peer_rwnd);
        size as u64 <= budget as u64
    }

    /// Gathers the chunks that wait to be sent for the first time. See `gathered_new`.
    fn gather_new(&mut self, room0: i64, now: u64, out: &mut Vec<DataChunk>)
        requires
            old(self).wf(),
            -0x100_0000_0000 <= room0 <= 0x1_0000,
        ensures
            final(self).wf(),
            (final(self)@, data_views(final(out)@)) == old(self)@.gathered_new(
                room0 as int,
                now,
                old(self)@.pending.len(),
                data_views(old(out)@),
            ),
    {
        let ghost start = self@;
        let ghost target = start.gathered_new(room0 as int, now, start.pending.len(), data_views(out@));
        let mut room: i64 = room0;
        let mut fuel: usize = self.pending.len();
        while fuel > 0
            invariant
                self.wf(),
                -0x100_0000_0000 <= room <= 0x1_0000,
                self@.gathered_new(room as int, now, fuel as nat, data_views(out@)) == target,
                target == old(self)@.gathered_new(
                    room0 as int,
                    now,
                    old(self)@.pending.len(),
                    data_views(old(out)@),
                ),
            decreases fuel,
        {
            if !self.can_send_next(room) {
                proof {
                    assert(self@.gathered_new(room as int, now, fuel as nat, data_views(out@)) == (
                        self@,
                        data_views(out@),
                    ));
                }
                return;
            }
            let ghost before = self@;
            let ghost acc = data_views(out@);
            let ghost pool = data_views(self.pending@);
            let mut d: DataChunk = self.pending.remove(0);
            assert(data_views(self.pending@) =~= pool.drop_first());
            assert(d@ == pool[0]);
            let size: usize = d.payload.len();
            let (reliability_type, reliability_value) = self.policy(d.stream_id);
            let tsn: u32 = self.inflight.next_tsn();
            d.tsn = tsn;
            let copy: DataChunk = d.clone();
            match self.inflight.push(d, now, reliability_type, reliability_value) {
                Ok(_) => {},
                Err(_) => {},
            }
            out.push(copy);
            proof {
                assert(data_views(out@) =~= acc.push(copy@));
                assert((self@, copy@) == before.sent_next(now));
            }
            room = room - (16 + ((size + 3) / 4 * 4) as i64);
            fuel = fuel - 1;
        }
    }

    /// Makes the next packet to send at `now`, if there is anything to send. See `polled`.
    #[verifier::rlimit(100)]
    pub fn poll_packet(&mut self, now: u64) -> (r: Option<Packet>)
        requires
            old(self).wf(),
        ensures
            final(self).wf(),
            final(self)@ == old(self)@.polled(now).0,
            match r {
                Some(p) => old(self)@.polled(now).1 == Some(p@),
                None => old(self)@.polled(now).1.is_none(),
            },
    {
        let header = CommonHeader {
            source_port: DEFAULT_PORT,
            destination_port: DEFAULT_PORT,
            verification_tag: self.peer_verification_tag,
        };
        if self.control.len() > 0 {
            let ghost before = chunk_views(self.control@);
            assert(before[0] == self.control@[0]@);
            let first_is_init: bool = match self.control[0] {
                Chunk::Init(_) => true,
                _ => false,
            };
            if first_is_init {
                let c: Chunk = self.control.remove(0);
                assert(chunk_views(self.control@) =~= before.drop_first());
                let chunks: Vec<Chunk> = vec![c];
                assert(chunk_views(chunks@) =~= seq![before[0]]);
                return Some(
                    Packet { header: CommonHeader { verification_tag: 0, ..header }, chunks },
                );
            } else {
                let mut chunks: Vec<Chunk> = Vec::new();
                std::mem::swap(&mut chunks, &mut self.control);
                assert(chunk_views(self.control@) =~= Seq::<ChunkView>::empty());
                return Some(Packet { header, chunks });
            }
        }
        if !self.in_data_state() {
            return None;
        }
        let ghost first = self@;
        let mut chunks: Vec<Chunk> = Vec::new();
        let mut used: i64 = 12;
        if self.ack_due {
            let gaps: Vec<GapAckBlock> = self.tracker.gap_ack_blocks();
            proof {
                lemma_gap_blocks_len(self@.tracker.bits, 0);
            }
            used = used + 16 + 4 * (gaps.len() as i64);
            let c = Chunk::Sack(
                SackChunk {
                    cumulative_tsn_ack: self.tracker.cumulative_tsn(),
                    a_rwnd: self.receive_window(),
                    gaps,
                    duplicate_tsns: Vec::new(),
                },
            );
            assert(c@ == first.sack_chunk());
            chunks.push(c);
            self.ack_due = false;
            self.ack_count = 0;
            self.ack_timer.stop();
        }
        let ghost sack = chunk_views(chunks@);
        assert(sack =~= (if first.ack_due { seq![first.sack_chunk()] } else { Seq::<ChunkView>::empty() }));
        let (_, _, was_given_up) = self.inflight.forward_tsn();
        self.inflight.give_up(now);
        let ghost a0 = AssociationView { inflight: first.inflight.given_up(now), ..first };
        let (point, streams, given_up) = self.inflight.forward_tsn();
        proof {
            lemma_skipped_streams_len(self@.inflight.chunks, abandoned_prefix(self@.inflight.chunks));
            crate::inflight::lemma_abandoned_prefix(self@.inflight.chunks);
        }
        let due: bool = self.use_forward_tsn && given_up > 0 && (self.forward_tsn_due || given_up
            > was_given_up);
        if due {
            used = used + 8 + 4 * (streams.len() as i64);
            let c = Chunk::ForwardTsn(ForwardTsnChunk { new_cumulative_tsn: point, streams });
            assert(c@ == a0.forward_chunk());
            chunks.push(c);
        }
        self.forward_tsn_due = false;
        let ghost head = chunk_views(chunks@);
        let ghost forward = if due { seq![a0.forward_chunk()] } else { Seq::<ChunkView>::empty() };
        assert(head =~= sack + forward);
        let ghost a1 = self@;
        let mut data: Vec<DataChunk> = Vec::new();
        assert(data_views(data@) =~= Seq::<DataView>::empty());
        let room: i64 = self.config.mtu as i64 - used;
        let left: i64 = self.gather_retransmits(room, now, &mut data);
        let ghost a2 = self@;
        self.gather_new(left, now, &mut data);
        let ghost a3 = self@;
        let ghost all = data_views(data@);
        if data.len() > 0 && self.t3_rtx.deadline.is_none() {
            self.t3_rtx.start(now, self.rto.get_rto());
        }
        let mut k: usize = 0;
        while k < data.len()
            invariant
                k <= data.len(),
                all == data_views(data@),
                chunk_views(chunks@) == head + as_chunks(all.take(k as int)),
            decreases data.len() - k,
        {
            let c = Chunk::Data(data[k].clone());
            let ghost before = chunk_views(chunks@);
            chunks.push(c);
            proof {
                assert(all[k as int] == data@[k as int]@);
                assert(chunk_views(chunks@) =~= before.push(c@));
                assert(before.push(c@) =~= head + as_chunks(all.take(k + 1)));
            }
            k = k + 1;
        }
        assert(all.take(data.len() as int) =~= all);
        if chunks.len() == 0 {
            None
        } else {
            Some(Packet { header, chunks })
        }
    }

    /// Makes the next datagram to send at `now`, if there is anything to send.
    pub fn poll_transmit(&mut self, now: u64) -> (r: Option<Transmit>)
        requires
            old(self).wf(),
        ensures
            final(self).wf(),
            final(self)@ == old(self)@.polled(now).0,
            match r {
                Some(t) => {
                    &&& old(self)@.polled(now).1 matches Some(p)
                    &&& chunks_fit(p.chunks)
                    &&& t.now == now
                    &&& t.remote == old(self)@.remote_addr
                    &&& t.local_ip == old(self)@.local_ip
                    &&& t.ecn.is_none()
                    &&& t.payload matches Payload::RawEncode(raw)
                    &&& raw@.len() == 1
                    &&& raw@[0]@ == packet_bytes(p)
                },
                None => old(self)@.polled(now).1 matches Some(p) ==> !chunks_fit(p.chunks),
            },
    {
        let remote: SocketAddress = self.remote_addr;
        let local_ip: Option<IpAddress> = self.local_ip;
        match self.poll_packet(now) {
            None => None,
            Some(packet) => match packet.marshal() {
                Err(_) => None,
                Ok(raw) => {
                    let mut list: Vec<Vec<u8>> = Vec::new();
                    list.push(raw);
                    Some(Transmit { now, remote, ecn: None, local_ip, payload: Payload::RawEncode(list) })
                },
            },
        }
    }

    /// Opens the stream `id` for the application.
    pub fn open_stream(&mut self, id: u16, ppi: PayloadProtocolIdentifier) -> (r: Result<(), Error>)
        requires
            old(self).wf(),
        ensures
            final(self).wf(),
            match r {
                Ok(_) => old(self)@.opened(id, ppi) == Ok::<AssociationView, Error>(final(self)@),
                Err(e) => old(self)@.opened(id, ppi) == Err::<AssociationView, Error>(e) && final(self)@
                    == old(self)@,
            },
    {
        match self.find_stream(id) {
            Some(_) => Err(Error::ErrStreamAlreadyExist),
            None => {
                let st = StreamState::new(id, ppi, true);
                let ghost before = stream_views(self.streams@);
                self.streams.push(st);
                assert(stream_views(self.streams@) =~= before.push(st@));
                Ok(())
            },
        }
    }

    /// Hands the application the first stream that the peer has opened and
    /// that was not handed over before, by its number.
    pub fn accept_stream(&mut self) -> (r: Option<u16>)
        requires
            old(self).wf(),
        ensures
            final(self).wf(),
            match first_unaccepted(old(self)@.streams) {
                Some(i) => r == Some(old(self)@.streams[i].stream_identifier) && final(self)@ == (
                AssociationView {
                    streams: old(self)@.streams.update(
                        i,
                        StreamView { accepted: true, ..old(self)@.streams[i] },
                    ),
                    ..old(self)@
                }),
                None => r.is_none() && final(self)@ == old(self)@,
            },
    {
        let ghost views = stream_views(self.streams@);
        proof {
            lemma_first_unaccepted(views);
        }
        let mut i: usize = 0;
        while i < self.streams.len()
            invariant
                i <= self.streams.len(),
                self.wf(),
                self@ == old(self)@,
                views == stream_views(self.streams@),
                forall|j: int| 0 <= j < i ==> (#[trigger] views[j]).accepted,
            decreases self.streams.len() - i,
        {
            assert(views[i as int] == self.streams@[i as int]@);
            if !self.streams[i].accepted {
                proof {
                    lemma_first_unaccepted(views);
                }
                self.streams[i].accepted = true;
                assert(stream_views(self.streams@) =~= views.update(
                    i as int,
                    StreamView { accepted: true, ..views[i as int] },
                ));
                return Some(self.streams[i].stream_identifier);
            }
            i = i + 1;
        }
        None
    }

    /// Sets whether the stream `id` sends its messages unordered and how
    /// hard the association tries to deliver them.
    pub fn set_reliability_params(
        &mut self,
        id: u16,
        unordered: bool,
        rel_type: ReliabilityType,
        rel_val: u32,
    ) -> (r: Result<(), Error>)
        requires
            old(self).wf(),
        ensures
            final(self).wf(),
            match stream_index(old(self)@.streams, id) {
                Some(i) => r.is_ok() && final(self)@ == (AssociationView {
                    streams: old(self)@.streams.update(
                        i,
                        StreamView {
                            unordered,
                            reliability_type: rel_type,
                            reliability_value: rel_val,
                            ..old(self)@.streams[i]
                        },
                    ),
                    ..old(self)@
                }),
                None => r == Err::<(), Error>(Error::ErrStreamClosed) && final(self)@ == old(self)@,
            },
    {
        match self.find_stream(id) {
            None => Err(Error::ErrStreamClosed),
            Some(i) => {
                let ghost views = stream_views(self.streams@);
                assert(views[i as int] == self.streams@[i as int]@);
                self.streams[i].set_reliability_params(unordered, rel_type, rel_val);
                assert(stream_views(self.streams@) =~= views.update(
                    i as int,
                    StreamView {
                        unordered,
                        reliability_type: rel_type,
                        reliability_value: rel_val,
                        ..views[i as int]
                    },
                ));
                Ok(())
            },
        }
    }

    /// Writes a message to the stream `id`. Returns the number of bytes
    /// written, which is the size of the message.
    ///
    /// The message is cut into chunks that wait to be sent. It is refused
    /// if it is larger than the configured maximum, if the association is
    /// not established, if the stream does not exist, or while the stream
    /// is being reset.
    pub fn write_sctp(&mut self, id: u16, raw: &Vec<u8>, ppi: PayloadProtocolIdentifier) -> (r: Result<
        usize,
        Error,
    >)
        requires
            old(self).wf(),
        ensures
            final(self).wf(),
            match r {
                Ok(n) => old(self)@.write_error(id, raw@.len()).is_none() && n == raw@.len() && final(self)@
                    == old(self)@.written(id, raw@, ppi),
                Err(e) => old(self)@.write_error(id, raw@.len()) == Some(e) && final(self)@ == old(self)@,
            },
    {
        if raw.len() > self.config.max_message_size as usize {
            return Err(Error::ErrOutboundPacketTooLarge);
        }
        match self.state {
            AssociationState::Established => {},
            _ => {
                return Err(Error::ErrNotEstablished);
            },
        }
        let i: usize = match self.find_stream(id) {
            None => {
                return Err(Error::ErrStreamClosed);
            },
            Some(i) => i,
        };
        match self.reset_out {
            Some(under_way) => if under_way == id {
                return Err(Error::ErrTryAgain);
            },
            None => {},
        }
        let ghost views = stream_views(self.streams@);
        let ghost pool = data_views(self.pending@);
        assert(views[i as int] == self.streams@[i as int]@);
        let max: usize = self.config.max_payload() as usize;
        let mut chunks: Vec<DataChunk> = self.streams[i].packetize(raw, ppi, max);
        proof {
            assert(stream_views(self.streams@) =~= views.update(
                i as int,
                views[i as int].written(ppi, raw@.len()),
            ));
            crate::stream::lemma_parts_hold_message(raw@, max as nat);
        }
        let ghost added = data_views(chunks@);
        let ghost st = views[i as int];
        proof {
            assert(st == old(self)@.streams[i as int]);
            assert(added == fragments_of(
                id,
                st.sequence_number,
                ppi,
                st.sends_unordered(ppi),
                parts_of(raw@, old(self)@.config.spec_max_payload() as nat),
            ));
        }
        self.pending.append(&mut chunks);
        proof {
            assert(data_views(self.pending@) =~= pool + added);
            assert forall|k: int| 0 <= k < self@.pending.len() implies (
            #[trigger] self@.pending[k]).payload.len() <= MAX_CHUNK_PAYLOAD by {
                if k >= pool.len() {
                    assert(self@.pending[k] == added[k - pool.len()]);
                } else {
                    assert(self@.pending[k] == pool[k]);
                }
            }
        }
        Ok(raw.len())
    }

    /// Asks the peer to reset the stream `id`: once the peer has agreed,
    /// the stream is dropped on both sides, and a stream that is opened
    /// under its number later begins at stream sequence number zero.
    ///
    /// The request is refused if the association is not established, if
    /// the stream does not exist, and, for the time being, while another
    /// request is under way or data waits to be sent for the first time.
    /// Until the peer has answered, nothing can be written to the stream;
    /// the application learns by a `Reset` event that the stream is gone.
    pub fn reset_stream(&mut self, id: u16, now: u64) -> (r: Result<(), Error>)
        requires
            old(self).wf(),
        ensures
            final(self).wf(),
            match r {
                Ok(_) => old(self)@.reset_error(id).is_none() && final(self)@ == old(self)@.resetting(id, now),
                Err(e) => old(self)@.reset_error(id) == Some(e) && final(self)@ == old(self)@,
            },
    {
        match self.state {
            AssociationState::Established => {},
            _ => {
                return Err(Error::ErrNotEstablished);
            },
        }
        if self.find_stream(id).is_none() {
            return Err(Error::ErrStreamClosed);
        }
        if self.reset_out.is_some() || self.pending.len() > 0 {
            return Err(Error::ErrTryAgain);
        }
        self.reset_out = Some(id);
        self.reset_last_tsn = self.inflight.highest_tsn();
        self.t_reset.start(now, self.rto.get_rto());
        let ghost before = chunk_views(self.control@);
        let c = self.reset_chunk();
        self.control.push(c);
        assert(chunk_views(self.control@) =~= before.push(c@));
        Ok(())
    }

    /// Whether a whole message waits to be read on the stream `id`.
    pub fn is_readable(&self, id: u16) -> (b: bool)
        ensures
            b == (stream_index(self@.streams, id) matches Some(i) && self@.streams[i].reassembly_queue.ready.len()
                > 0),
    {
        match self.find_stream(id) {
            None => false,
            Some(i) => {
                assert(self@.streams[i as int] == self.streams@[i as int]@);
                self.streams[i].reassembly_queue.is_readable()
            },
        }
    }

    /// Reads the next whole message of the stream `id` if it fits a buffer
    /// of `capacity` bytes.
    ///
    /// A message that does not fit stays where it is: the read fails with
    /// `ErrShortBuffer`, and a later read with a larger buffer gets the message.
    pub fn read_sctp(&mut self, id: u16, capacity: usize) -> (r: Result<Message, Error>)
        requires
            old(self).wf(),
        ensures
            final(self).wf(),
            match r {
                Ok(m) => {
                    &&& stream_index(old(self)@.streams, id) matches Some(i)
                    &&& old(self)@.streams[i].reassembly_queue.ready.len() > 0
                    &&& m@ == old(self)@.streams[i].reassembly_queue.ready[0]
                    &&& m@.payload.len() <= capacity
                    &&& final(self)@ == (AssociationView {
                        streams: old(self)@.streams.update(
                            i,
                            StreamView {
                                reassembly_queue: crate::reassembly::ReassemblyView {
                                    ready: old(self)@.streams[i].reassembly_queue.ready.drop_first(),
                                    ..old(self)@.streams[i].reassembly_queue
                                },
                                ..old(self)@.streams[i]
                            },
                        ),
                        ..old(self)@
                    })
                },
                Err(e) => {
                    &&& final(self)@ == old(self)@
                    &&& e == (match stream_index(old(self)@.streams, id) {
                        None => Error::ErrStreamClosed,
                        Some(i) => if old(self)@.streams[i].reassembly_queue.ready.len() == 0 {
                            Error::ErrTryAgain
                        } else {
                            Error::ErrShortBuffer
                        },
                    })
                    &&& stream_index(old(self)@.streams, id) matches Some(i) ==> old(
                        self,
                    )@.streams[i].reassembly_queue.ready.len() == 0
                        || old(self)@.streams[i].reassembly_queue.ready[0].payload.len() > capacity
                },
            },
    {
        let i: usize = match self.find_stream(id) {
            None => {
                return Err(Error::ErrStreamClosed);
            },
            Some(i) => i,
        };
        let ghost views = stream_views(self.streams@);
        assert(views[i as int] == self.streams@[i as int]@);
        match self.streams[i].reassembly_queue.read_within(capacity) {
            Ok(m) => {
                proof {
                    assert(stream_views(self.streams@) =~= views.update(
                        i as int,
                        StreamView {
                            reassembly_queue: crate::reassembly::ReassemblyView {
                                ready: views[i as int].reassembly_queue.ready.drop_first(),
                                ..views[i as int].reassembly_queue
                            },
                            ..views[i as int]
                        },
                    ));
                }
                Ok(m)
            },
            Err(e) => {
                proof {
                    assert(self.streams@[i as int]@ == views[i as int]);
                    assert(stream_views(self.streams@) =~= views);
                }
                match e {
                    ReadError::NotReadable => Err(Error::ErrTryAgain),
                    ReadError::ShortBuffer => Err(Error::ErrShortBuffer),
                }
            },
        }
    }

    /// The bytes that were written and are not yet acknowledged, or the
    /// largest number there is if they are more.
    pub fn buffered_amount(&self) -> (n: usize)
        requires
            self.wf(),
        ensures
            n == (if self@.buffered() > usize::MAX { usize::MAX as nat } else { self@.buffered() }),
    {
        let ghost pool = data_views(self.pending@);
        let mut total: usize = 0;
        let mut i: usize = 0;
        assert(pool.take(0) =~= Seq::<DataView>::empty());
        while i < self.pending.len()
            invariant
                i <= self.pending.len(),
                pool == data_views(self.pending@),
                total == (if pool_bytes(pool.take(i as int)) > usize::MAX {
                    usize::MAX as nat
                } else {
                    pool_bytes(pool.take(i as int))
                }),
            decreases self.pending.len() - i,
        {
            proof {
                assert(pool.take(i + 1).drop_last() =~= pool.take(i as int));
                assert(pool.take(i + 1).last() == self.pending@[i as int]@);
            }
            let len: usize = self.pending[i].payload.len();
            total = if total <= usize::MAX - len { total + len } else { usize::MAX };
            i = i + 1;
        }
        assert(pool.take(self.pending.len() as int) =~= pool);
        let bytes: u64 = self.inflight.get_num_bytes();
        if bytes > (usize::MAX - total) as u64 {
            usize::MAX
        } else {
            total + bytes as usize
        }
    }

    /// Asks the association to close in order: what was written is still
    /// delivered, then the shutdown handshake runs.
    pub fn close(&mut self, now: u64)
        requires
            old(self).wf(),
        ensures
            final(self).wf(),
            final(self)@ == old(self)@.closing(now),
    {
        let s: Step = step(self.state, Trigger::Close);
        self.state = s.state;
        self.shutdown_if_drained(now);
    }

    /// Aborts the association at once: what waits to be sent is dropped,
    /// and the peer is told.
    pub fn abort(&mut self)
        requires
            old(self).wf(),
        ensures
            final(self).wf(),
            final(self)@ == old(self)@.aborting(),
    {
        let s: Step = step(self.state, Trigger::LocalAbort);
        match s.action {
            Action::SendAbort => {
                self.end(Event::Closed);
                self.control.push(Chunk::Abort);
                assert(chunk_views(self.control@) =~= seq![ChunkView::Abort]);
            },
            _ => {},
        }
    }

    /// Whether the association has nothing to send and waits for nothing.
    pub fn is_idle(&self) -> (b: bool)
        ensures
            b == (self@.control.len() == 0 && self@.pending.len() == 0 && self@.inflight.chunks.len() == 0
                && !self@.ack_due && self@.next_timeout().is_none()),
    {
        self.control.len() == 0 && self.pending.len() == 0 && self.inflight.is_empty() && !self.ack_due
            && self.poll_timeout().is_none()
    }
}

} // verus!
