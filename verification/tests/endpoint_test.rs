use bytes::Bytes;
use sctp_proto::association::Association;
use sctp_proto::chunk::{DataChunk, PayloadProtocolIdentifier, ReliabilityType};
use sctp_proto::config::{client_config, server_config, AckMode, ClientConfig, EndpointConfig, ServerConfig};
use sctp_proto::endpoint::{
    AssociationHandle, AssociationIdGenerator, ConnectError, DatagramEvent, Endpoint,
    RandomAssociationIdGenerator, SequentialAssociationIdGenerator,
};
use sctp_proto::error::Error;
use sctp_proto::model::Event;
use sctp_proto::shared::{
    AssociationEvent, AssociationEventInner, EcnCodepoint, EndpointEvent, EndpointEventInner, IpAddress,
    PartialDecode, Payload, SocketAddress, Transmit,
};
use sctp_proto::state::AssociationState;
use sctp_proto::timer::{min_opt, next_time};
use std::collections::{HashMap, VecDeque};
use std::sync::Arc;

struct TestEndpoint {
    endpoint: Endpoint,
    addr: SocketAddress,
    timeout: Option<u64>,
    outbound: VecDeque<Transmit>,
    delayed: VecDeque<Transmit>,
    inbound: VecDeque<(u64, Option<EcnCodepoint>, Bytes)>,
    accepted: Option<AssociationHandle>,
    connections: HashMap<AssociationHandle, Association>,
    conn_events: HashMap<AssociationHandle, VecDeque<AssociationEvent>>,
}

impl TestEndpoint {
    fn new(endpoint: Endpoint, addr: SocketAddress) -> Self {
        Self {
            endpoint,
            addr,
            timeout: None,
            outbound: VecDeque::new(),
            delayed: VecDeque::new(),
            inbound: VecDeque::new(),
            accepted: None,
            connections: HashMap::default(),
            conn_events: HashMap::default(),
        }
    }

    fn drive(&mut self, now: u64, remote: SocketAddress) {
        while self.inbound.front().map_or(false, |x| x.0 <= now) {
            let (recv_time, ecn, packet) = self.inbound.pop_front().unwrap();
            if let Some((ch, event)) = self.endpoint.handle(recv_time, remote, None, ecn, packet) {
                match event {
                    DatagramEvent::NewAssociation(conn) => {
                        self.connections.insert(ch, conn);
                        self.accepted = Some(ch);
                    }
                    DatagramEvent::AssociationEvent(event) => {
                        self.conn_events.entry(ch).or_insert_with(VecDeque::new).push_back(event);
                    }
                }
            }
        }

        while let Some(x) = self.endpoint.poll_transmit() {
            self.outbound.push_back(x);
        }

        let mut endpoint_events: Vec<(AssociationHandle, EndpointEvent)> = vec![];
        for (ch, conn) in self.connections.iter_mut() {
            if self.timeout.map_or(false, |x| x <= now) {
                self.timeout = None;
                conn.handle_timeout(now);
            }

            for (_, mut events) in self.conn_events.drain() {
                for event in events.drain(..) {
                    conn.handle_event(event);
                }
            }

            while let Some(event) = conn.poll_endpoint_event() {
                endpoint_events.push((*ch, event));
            }

            while let Some(x) = conn.poll_transmit(now) {
                self.outbound.push_back(x);
            }
            self.timeout = conn.poll_timeout();
        }

        for (ch, event) in endpoint_events {
            self.endpoint.handle_event(ch, event);
        }
    }

    fn next_wakeup(&self) -> Option<u64> {
        let next_inbound = self.inbound.front().map(|x| x.0);
        min_opt(self.timeout, next_inbound)
    }

    fn is_idle(&self) -> bool {
        self.connections.values().all(|x| x.is_idle())
    }

    fn delay_outbound(&mut self) {
        assert!(self.delayed.is_empty());
        std::mem::swap(&mut self.delayed, &mut self.outbound);
    }

    fn finish_delay(&mut self) {
        let delayed: Vec<Transmit> = self.delayed.drain(..).collect();
        self.outbound.extend(delayed);
    }

    fn assert_accept(&mut self) -> AssociationHandle {
        self.accepted.take().expect("server didn't connect")
    }
}

struct Pair {
    server: TestEndpoint,
    client: TestEndpoint,
    time: u64,
    latency: u64,
}

fn localhost(port: u16) -> SocketAddress {
    SocketAddress { ip: IpAddress::V6(1), port }
}

impl Pair {
    fn new(endpoint_config: Arc<EndpointConfig>, server_config: ServerConfig) -> Self {
        let server = Endpoint::new(
            endpoint_config.clone(),
            Some(Arc::new(server_config)),
            Box::new(RandomAssociationIdGenerator::new()),
        );
        let client = Endpoint::new(endpoint_config, None, Box::new(RandomAssociationIdGenerator::new()));
        Pair::new_from_endpoint(client, server)
    }

    fn new_from_endpoint(client: Endpoint, server: Endpoint) -> Self {
        Self {
            server: TestEndpoint::new(server, localhost(4433)),
            client: TestEndpoint::new(client, localhost(44433)),
            time: 0,
            latency: 0,
        }
    }

    fn default() -> Self {
        Pair::new(Arc::new(EndpointConfig::new()), server_config())
    }

    /// Returns whether the connection is not idle
    fn step(&mut self) -> bool {
        self.drive_client();
        self.drive_server();
        if self.client.is_idle() && self.server.is_idle() {
            return false;
        }

        let client_t = self.client.next_wakeup();
        let server_t = self.server.next_wakeup();
        match next_time(self.time, client_t, server_t) {
            Some(t) => {
                self.time = t;
                true
            }
            None => false,
        }
    }

    /// Advance time until both connections are idle
    fn drive(&mut self) {
        let mut steps = 0;
        while self.step() {
            steps += 1;
            assert!(steps < 100_000, "the pair does not come to rest");
        }
    }

    fn drive_client(&mut self) {
        self.client.drive(self.time, self.server.addr);
        for x in self.client.outbound.drain(..) {
            if let Payload::RawEncode(contents) = x.payload {
                for content in contents {
                    if self.server.addr == x.remote {
                        self.server.inbound.push_back((self.time + self.latency, x.ecn, Bytes::from(content)));
                    }
                }
            }
        }
    }

    fn drive_server(&mut self) {
        self.server.drive(self.time, self.client.addr);
        for x in self.server.outbound.drain(..) {
            if let Payload::RawEncode(contents) = x.payload {
                for content in contents {
                    if self.client.addr == x.remote {
                        self.client.inbound.push_back((self.time + self.latency, x.ecn, Bytes::from(content)));
                    }
                }
            }
        }
    }

    fn connect(&mut self) -> (AssociationHandle, AssociationHandle) {
        self.connect_with(client_config())
    }

    fn connect_with(&mut self, config: ClientConfig) -> (AssociationHandle, AssociationHandle) {
        let client_ch = self.begin_connect(config);
        self.drive();
        let server_ch = self.server.assert_accept();
        self.finish_connect(client_ch, server_ch);
        (client_ch, server_ch)
    }

    /// Just start connecting the client
    fn begin_connect(&mut self, config: ClientConfig) -> AssociationHandle {
        let (client_ch, client_conn) = self.client.endpoint.connect(config, self.server.addr, self.time).unwrap();
        self.client.connections.insert(client_ch, client_conn);
        client_ch
    }

    fn finish_connect(&mut self, client_ch: AssociationHandle, server_ch: AssociationHandle) {
        assert!(matches!(self.client_conn_mut(client_ch).poll_event(), Some(Event::Connected)));
        assert!(matches!(self.server_conn_mut(server_ch).poll_event(), Some(Event::Connected)));
    }

    fn client_conn_mut(&mut self, ch: AssociationHandle) -> &mut Association {
        self.client.connections.get_mut(&ch).unwrap()
    }

    fn server_conn_mut(&mut self, ch: AssociationHandle) -> &mut Association {
        self.server.connections.get_mut(&ch).unwrap()
    }
}

fn create_association_pair(ack_mode: AckMode, _recv_buf_size: u32) -> (Pair, AssociationHandle, AssociationHandle) {
    let mut pair = Pair::default();
    let (client_ch, server_ch) = pair.connect();
    pair.client_conn_mut(client_ch).set_ack_mode(ack_mode);
    pair.server_conn_mut(server_ch).set_ack_mode(ack_mode);
    (pair, client_ch, server_ch)
}

fn establish_session_pair(pair: &mut Pair, client_ch: AssociationHandle, server_ch: AssociationHandle, si: u16) {
    let hello_msg = b"Hello".to_vec();
    pair.client_conn_mut(client_ch).open_stream(si, PayloadProtocolIdentifier::Binary).unwrap();
    pair.client_conn_mut(client_ch).write_sctp(si, &hello_msg, PayloadProtocolIdentifier::Dcep).unwrap();
    pair.drive();

    {
        let s1 = pair.server_conn_mut(server_ch).accept_stream().unwrap();
        assert_eq!(si, s1, "si should match");
    }
    pair.drive();

    let message = pair.server_conn_mut(server_ch).read_sctp(si, 1024).unwrap();
    assert_eq!(message.payload.len(), hello_msg.len(), "received data must by 5 bytes");
    assert_eq!(message.ppi, PayloadProtocolIdentifier::Dcep, "unexpected ppi");
    assert_eq!(message.payload, hello_msg, "received data mismatch");
    pair.drive();
}

fn drain_events(conn: &mut Association) -> Vec<Event> {
    let mut events = vec![];
    while let Some(e) = conn.poll_event() {
        events.push(e);
    }
    events
}

#[test]
fn test_assoc_reliable_simple() {
    let si: u16 = 1;
    let msg: Vec<u8> = b"ABC".to_vec();

    let (mut pair, client_ch, server_ch) = create_association_pair(AckMode::NoDelay, 0);

    establish_session_pair(&mut pair, client_ch, server_ch, si);

    {
        let a = pair.client_conn_mut(client_ch);
        assert_eq!(0, a.buffered_amount(), "incorrect bufferedAmount");
    }

    let n = pair.client_conn_mut(client_ch).write_sctp(si, &msg, PayloadProtocolIdentifier::Binary).unwrap();
    assert_eq!(msg.len(), n, "unexpected length of received data");
    {
        let a = pair.client_conn_mut(client_ch);
        assert_eq!(msg.len(), a.buffered_amount(), "incorrect bufferedAmount");
    }

    pair.drive();

    let chunks = pair.server_conn_mut(server_ch).read_sctp(si, 1024).unwrap();
    let (n, ppi) = (chunks.payload.len(), chunks.ppi);
    assert_eq!(n, msg.len(), "unexpected length of received data");
    assert_eq!(ppi, PayloadProtocolIdentifier::Binary, "unexpected ppi");
    assert_eq!(chunks.payload, msg);

    {
        let q = pair.client_conn_mut(client_ch);
        assert!(!q.is_readable(si), "should no longer be readable");
    }

    {
        let a = pair.client_conn_mut(client_ch);
        assert_eq!(0, a.buffered_amount(), "incorrect bufferedAmount");
    }
}

#[test]
fn test_assoc_reliable_ordered_reordered() {
    let si: u16 = 2;
    let mut sbuf = vec![0u8; 1000];
    for i in 0..sbuf.len() {
        sbuf[i] = (i & 0xff) as u8;
    }
    let mut sbufl = vec![0u8; 2000];
    for i in 0..sbufl.len() {
        sbufl[i] = (i & 0xff) as u8;
    }

    let (mut pair, client_ch, server_ch) = create_association_pair(AckMode::NoDelay, 0);

    establish_session_pair(&mut pair, client_ch, server_ch, si);

    {
        let a = pair.client_conn_mut(client_ch);
        assert_eq!(0, a.buffered_amount(), "incorrect bufferedAmount");
    }

    sbuf[0..4].copy_from_slice(&0u32.to_be_bytes());
    let n = pair.client_conn_mut(client_ch).write_sctp(si, &sbuf.clone(), PayloadProtocolIdentifier::Binary).unwrap();
    assert_eq!(sbuf.len(), n, "unexpected length of received data");
    let (time, server_addr) = (pair.time, pair.server.addr);
    pair.client.drive(time, server_addr);
    pair.client.delay_outbound(); // Delay it

    sbuf[0..4].copy_from_slice(&1u32.to_be_bytes());
    let n = pair.client_conn_mut(client_ch).write_sctp(si, &sbuf.clone(), PayloadProtocolIdentifier::Binary).unwrap();
    assert_eq!(sbuf.len(), n, "unexpected length of received data");
    pair.client.drive(time, server_addr);
    pair.client.finish_delay(); // Reorder it

    pair.drive();

    let chunks = pair.server_conn_mut(server_ch).read_sctp(si, 2000).unwrap();
    let (n, ppi) = (chunks.payload.len(), chunks.ppi);
    let buf = chunks.payload;
    assert_eq!(n, sbuf.len(), "unexpected length of received data");
    assert_eq!(ppi, PayloadProtocolIdentifier::Binary, "unexpected ppi");
    assert_eq!(u32::from_be_bytes([buf[0], buf[1], buf[2], buf[3]]), 0, "unexpected received data");

    let chunks = pair.server_conn_mut(server_ch).read_sctp(si, 2000).unwrap();
    let (n, ppi) = (chunks.payload.len(), chunks.ppi);
    let buf = chunks.payload;
    assert_eq!(n, sbuf.len(), "unexpected length of received data");
    assert_eq!(ppi, PayloadProtocolIdentifier::Binary, "unexpected ppi");
    assert_eq!(u32::from_be_bytes([buf[0], buf[1], buf[2], buf[3]]), 1, "unexpected received data");

    pair.drive();

    {
        let q = pair.client_conn_mut(client_ch);
        assert!(!q.is_readable(si), "should no longer be readable");
    }
}

#[test]
fn test_assoc_reliable_ordered_fragmented_then_defragmented() {
    let si: u16 = 3;
    let mut sbuf = vec![0u8; 1000];
    for i in 0..sbuf.len() {
        sbuf[i] = (i & 0xff) as u8;
    }
    let mut sbufl = vec![0u8; 2000];
    for i in 0..sbufl.len() {
        sbufl[i] = (i & 0xff) as u8;
    }

    let (mut pair, client_ch, server_ch) = create_association_pair(AckMode::NoDelay, 0);

    establish_session_pair(&mut pair, client_ch, server_ch, si);

    pair.client_conn_mut(client_ch).set_reliability_params(si, false, ReliabilityType::Reliable, 0).unwrap();
    pair.server_conn_mut(server_ch).set_reliability_params(si, false, ReliabilityType::Reliable, 0).unwrap();

    let n = pair.client_conn_mut(client_ch).write_sctp(si, &sbufl.clone(), PayloadProtocolIdentifier::Binary).unwrap();
    assert_eq!(sbufl.len(), n, "unexpected length of received data");

    pair.drive();

    let chunks = pair.server_conn_mut(server_ch).read_sctp(si, 2000).unwrap();
    let (n, ppi) = (chunks.payload.len(), chunks.ppi);
    let rbuf = chunks.payload;
    assert_eq!(n, sbufl.len(), "unexpected length of received data");
    assert_eq!(&rbuf[..n], &sbufl, "unexpected received data");
    assert_eq!(ppi, PayloadProtocolIdentifier::Binary, "unexpected ppi");

    pair.drive();

    {
        let q = pair.client_conn_mut(client_ch);
        assert!(!q.is_readable(si), "should no longer be readable");
    }
}

#[test]
fn test_handshake_reports_connected_on_both_sides() {
    let mut pair = Pair::default();
    let client_ch = pair.begin_connect(client_config());
    assert_eq!(pair.client_conn_mut(client_ch).state(), AssociationState::CookieWait);
    pair.drive();
    let server_ch = pair.server.assert_accept();
    assert_eq!(pair.client_conn_mut(client_ch).state(), AssociationState::Established);
    assert_eq!(pair.server_conn_mut(server_ch).state(), AssociationState::Established);
    assert_eq!(drain_events(pair.client_conn_mut(client_ch)), vec![Event::Connected]);
    assert_eq!(drain_events(pair.server_conn_mut(server_ch)), vec![Event::Connected]);
    let client_tag = pair.client_conn_mut(client_ch).local_aid();
    let server_tag = pair.server_conn_mut(server_ch).local_aid();
    assert_eq!(pair.client_conn_mut(client_ch).remote_aid(), server_tag);
    assert_eq!(pair.server_conn_mut(server_ch).remote_aid(), client_tag);
}

#[test]
fn test_assoc_short_buffer_keeps_message() {
    let si: u16 = 4;
    let msg: Vec<u8> = b"Hello!".to_vec();
    let (mut pair, client_ch, server_ch) = create_association_pair(AckMode::NoDelay, 0);
    establish_session_pair(&mut pair, client_ch, server_ch, si);
    pair.client_conn_mut(client_ch).write_sctp(si, &msg, PayloadProtocolIdentifier::Binary).unwrap();
    pair.drive();

    let server = pair.server_conn_mut(server_ch);
    assert_eq!(server.read_sctp(si, 3).unwrap_err(), Error::ErrShortBuffer);
    assert!(server.is_readable(si), "a failed read takes nothing away");
    let m = server.read_sctp(si, 6).unwrap();
    assert_eq!(m.payload, msg);
    assert_eq!(server.read_sctp(si, 6).unwrap_err(), Error::ErrTryAgain);
    assert_eq!(server.read_sctp(77, 6).unwrap_err(), Error::ErrStreamClosed);
}

#[test]
fn test_assoc_unreliable_rexmit_zero_lost_first_transmission() {
    let si: u16 = 5;
    let (mut pair, client_ch, server_ch) = create_association_pair(AckMode::NoDelay, 0);
    establish_session_pair(&mut pair, client_ch, server_ch, si);

    pair.client_conn_mut(client_ch).set_reliability_params(si, false, ReliabilityType::Rexmit, 0).unwrap();

    let lost: Vec<u8> = vec![7u8; 1000];
    let kept: Vec<u8> = vec![9u8; 1000];
    pair.client_conn_mut(client_ch).write_sctp(si, &lost, PayloadProtocolIdentifier::Binary).unwrap();
    let (time, server_addr) = (pair.time, pair.server.addr);
    pair.client.drive(time, server_addr);
    assert_eq!(pair.client.outbound.len(), 1);
    pair.client.outbound.clear(); // the first transmission is lost

    pair.client_conn_mut(client_ch).write_sctp(si, &kept, PayloadProtocolIdentifier::Binary).unwrap();
    pair.drive();

    let server = pair.server_conn_mut(server_ch);
    let m = server.read_sctp(si, 2000).unwrap();
    assert_eq!(m.payload, kept, "the later message is delivered");
    assert_eq!(m.ssn, 2, "the stream has moved past the message that was given up");
    assert_eq!(server.read_sctp(si, 2000).unwrap_err(), Error::ErrTryAgain, "the lost message never is");
    assert_eq!(pair.client_conn_mut(client_ch).buffered_amount(), 0);
}

#[test]
fn test_assoc_retransmission_of_lost_reliable_message() {
    let si: u16 = 6;
    let (mut pair, client_ch, server_ch) = create_association_pair(AckMode::NoDelay, 0);
    establish_session_pair(&mut pair, client_ch, server_ch, si);

    let msg: Vec<u8> = vec![3u8; 500];
    pair.client_conn_mut(client_ch).write_sctp(si, &msg, PayloadProtocolIdentifier::Binary).unwrap();
    let (time, server_addr) = (pair.time, pair.server.addr);
    pair.client.drive(time, server_addr);
    pair.client.outbound.clear(); // lost
    let before = pair.client_conn_mut(client_ch).congestion();
    pair.drive();

    let after = pair.client_conn_mut(client_ch).congestion();
    // The timer expired once: the window is one MTU grown by the bytes acknowledged since.
    assert!(after.cwnd >= 1228);
    assert!(after.cwnd < before.cwnd);
    assert_eq!(after.ssthresh, std::cmp::max(before.cwnd / 2, 2 * 1228));
    let m = pair.server_conn_mut(server_ch).read_sctp(si, 2000).unwrap();
    assert_eq!(m.payload, msg);
    assert!(pair.time >= 1000, "the retransmission waited for the timer");
}

#[test]
fn test_assoc_congestion_control_two_thousand_sends() {
    let si: u16 = 7;
    let mut config = server_config();
    config.transport = Arc::new(config.transport.with_max_receive_buffer_size(64 * 1024));
    let mut pair = Pair::new(Arc::new(EndpointConfig::new()), config);
    let (client_ch, server_ch) = pair.connect();
    pair.client_conn_mut(client_ch).set_ack_mode(AckMode::NoDelay);
    pair.server_conn_mut(server_ch).set_ack_mode(AckMode::NoDelay);
    establish_session_pair(&mut pair, client_ch, server_ch, si);

    let n_packets: u32 = 2000;
    let mut sbuf = vec![0u8; 1000];
    for i in 0..n_packets {
        sbuf[0..4].copy_from_slice(&i.to_be_bytes());
        let n = pair.client_conn_mut(client_ch).write_sctp(si, &sbuf, PayloadProtocolIdentifier::Binary).unwrap();
        assert_eq!(n, sbuf.len());
        pair.drive();
        let m = pair.server_conn_mut(server_ch).read_sctp(si, 4000).unwrap();
        assert_eq!(m.payload.len(), 1000);
        assert_eq!(u32::from_be_bytes([m.payload[0], m.payload[1], m.payload[2], m.payload[3]]), i);
    }
    let cc = pair.client_conn_mut(client_ch).congestion();
    assert!(!cc.in_fast_recovery, "should not be in fast recovery");
    assert!(cc.cwnd > cc.ssthresh, "should be in congestion avoidance mode");
    assert!(cc.ssthresh >= 64 * 1024 - 16, "ssthresh should stay at the peer's window");
    assert_eq!(pair.client_conn_mut(client_ch).buffered_amount(), 0);
}

#[test]
fn test_assoc_unordered_fragmented() {
    let si: u16 = 8;
    let (mut pair, client_ch, server_ch) = create_association_pair(AckMode::NoDelay, 0);
    establish_session_pair(&mut pair, client_ch, server_ch, si);
    pair.client_conn_mut(client_ch).set_reliability_params(si, true, ReliabilityType::Reliable, 0).unwrap();
    let mut sbufl = vec![0u8; 5000];
    for i in 0..sbufl.len() {
        sbufl[i] = (i % 251) as u8;
    }
    pair.client_conn_mut(client_ch).write_sctp(si, &sbufl, PayloadProtocolIdentifier::Binary).unwrap();
    pair.drive();
    let m = pair.server_conn_mut(server_ch).read_sctp(si, 5000).unwrap();
    assert!(m.unordered);
    assert_eq!(m.payload, sbufl);
}

#[test]
fn test_assoc_write_errors() {
    let si: u16 = 9;
    let mut pair = Pair::default();
    let client_ch = pair.begin_connect(client_config());
    let conn = pair.client_conn_mut(client_ch);
    conn.open_stream(si, PayloadProtocolIdentifier::Binary).unwrap();
    assert_eq!(conn.open_stream(si, PayloadProtocolIdentifier::Binary), Err(Error::ErrStreamAlreadyExist));
    assert_eq!(
        conn.write_sctp(si, &vec![0u8; 10], PayloadProtocolIdentifier::Binary),
        Err(Error::ErrNotEstablished)
    );
    assert_eq!(
        conn.write_sctp(si, &vec![0u8; 65537], PayloadProtocolIdentifier::Binary),
        Err(Error::ErrOutboundPacketTooLarge)
    );
    pair.drive();
    let conn = pair.client_conn_mut(client_ch);
    assert_eq!(
        conn.write_sctp(si + 1, &vec![0u8; 10], PayloadProtocolIdentifier::Binary),
        Err(Error::ErrStreamClosed)
    );
    assert_eq!(
        conn.set_reliability_params(si + 1, true, ReliabilityType::Timed, 10),
        Err(Error::ErrStreamClosed)
    );
    assert_eq!(conn.write_sctp(si, &vec![0u8; 10], PayloadProtocolIdentifier::Binary), Ok(10));
}

#[test]
fn test_assoc_graceful_close() {
    let si: u16 = 10;
    let (mut pair, client_ch, server_ch) = create_association_pair(AckMode::NoDelay, 0);
    establish_session_pair(&mut pair, client_ch, server_ch, si);
    let msg: Vec<u8> = vec![1u8; 100];
    pair.client_conn_mut(client_ch).write_sctp(si, &msg, PayloadProtocolIdentifier::Binary).unwrap();
    let now = pair.time;
    pair.client_conn_mut(client_ch).close(now);
    assert_eq!(pair.client_conn_mut(client_ch).state(), AssociationState::ShutdownPending);
    pair.drive();
    assert_eq!(pair.client.connections[&client_ch].state(), AssociationState::Closed);
    assert_eq!(pair.server.connections[&server_ch].state(), AssociationState::Closed);
    // What was written before the close is still delivered.
    assert_eq!(pair.server_conn_mut(server_ch).read_sctp(si, 1000).unwrap().payload, msg);
    let client_events = drain_events(pair.client_conn_mut(client_ch));
    assert_eq!(client_events, vec![Event::Closed]);
    let server_events = drain_events(pair.server_conn_mut(server_ch));
    assert!(server_events.contains(&Event::Closed));
}

#[test]
fn test_assoc_abort() {
    let si: u16 = 11;
    let (mut pair, client_ch, server_ch) = create_association_pair(AckMode::NoDelay, 0);
    establish_session_pair(&mut pair, client_ch, server_ch, si);
    drain_events(pair.server_conn_mut(server_ch));
    pair.client_conn_mut(client_ch).write_sctp(si, &vec![1u8; 100], PayloadProtocolIdentifier::Binary).unwrap();
    pair.client_conn_mut(client_ch).abort();
    assert_eq!(pair.client_conn_mut(client_ch).state(), AssociationState::Closed);
    assert_eq!(pair.client_conn_mut(client_ch).buffered_amount(), 0);
    pair.drive();
    assert_eq!(pair.server.connections[&server_ch].state(), AssociationState::Closed);
    let events = drain_events(pair.server_conn_mut(server_ch));
    assert_eq!(events, vec![Event::Error(Error::ErrAborted)]);
    // Nothing is sent after an abort.
    let now = pair.time;
    assert!(pair.server_conn_mut(server_ch).poll_transmit(now).is_none());
}

#[test]
fn test_handshake_gives_up_without_answer() {
    let mut pair = Pair::default();
    let client_ch = pair.begin_connect(client_config());
    let mut sent = 0;
    let mut now = 0u64;
    let mut last_gap = 0u64;
    let mut gaps = vec![];
    loop {
        let conn = pair.client_conn_mut(client_ch);
        conn.handle_timeout(now);
        while conn.poll_transmit(now).is_some() {
            sent += 1;
        }
        match conn.poll_timeout() {
            Some(t) => {
                gaps.push(t - now);
                last_gap = t - now;
                now = t;
            }
            None => break,
        }
        assert!(sent < 100);
    }
    assert!(last_gap > 0);
    // The INIT and eight retransmissions.
    assert_eq!(sent, 9);
    // Each wait is twice the one before, up to the maximum.
    assert_eq!(gaps, vec![3000, 6000, 12000, 24000, 48000, 60000, 60000, 60000, 60000]);
    let conn = pair.client_conn_mut(client_ch);
    assert_eq!(conn.state(), AssociationState::Closed);
    assert_eq!(drain_events(conn), vec![Event::Error(Error::ErrHandshakeTimeout)]);
    assert_eq!(conn.poll_endpoint_event(), Some(EndpointEvent(EndpointEventInner::Drained)));
}

#[test]
fn test_endpoint_connect_errors() {
    let mut endpoint = Endpoint::new(
        Arc::new(EndpointConfig::new()),
        None,
        Box::new(RandomAssociationIdGenerator::new()),
    );
    let bad = SocketAddress { ip: IpAddress::V4(0x7f00_0001), port: 0 };
    match endpoint.connect(client_config(), bad, 0) {
        Err(e) => assert_eq!(e, ConnectError::InvalidRemoteAddress(bad)),
        Ok(_) => panic!("a remote port of zero must be refused"),
    }
    let good = SocketAddress { ip: IpAddress::V4(0x7f00_0001), port: 5000 };
    let (ch, conn) = endpoint.connect(client_config(), good, 0).unwrap();
    assert_eq!(ch, AssociationHandle(0));
    assert_eq!(conn.remote_addr(), good);
    let (ch2, _conn2) = endpoint.connect(client_config(), good, 0).unwrap();
    assert_eq!(ch2, AssociationHandle(1));
}

struct StuckGenerator;

impl sctp_proto::endpoint::AssociationIdGenerator for StuckGenerator {
    fn generate_aid(&mut self) -> u32 {
        42
    }
    fn aid_lifetime(&self) -> Option<u64> {
        None
    }
}

#[test]
fn test_endpoint_gives_up_when_generator_repeats() {
    let mut endpoint = Endpoint::new(Arc::new(EndpointConfig::new()), None, Box::new(StuckGenerator));
    let remote = SocketAddress { ip: IpAddress::V4(1), port: 1 };
    let (ch, conn) = endpoint.connect(client_config(), remote, 0).unwrap();
    assert_eq!(conn.local_aid(), 42);
    assert!(!endpoint.is_unused(42));
    assert!(endpoint.is_unused(43));
    match endpoint.connect(client_config(), remote, 0) {
        Err(e) => assert_eq!(e, ConnectError::TooManyAssociations),
        Ok(_) => panic!("no identifier was free"),
    }
    // No identifier can be issued either.
    let r = endpoint.handle_event(ch, EndpointEvent(EndpointEventInner::NeedIdentifiers(7, 3)));
    match r {
        Some(AssociationEvent(AssociationEventInner::NewIdentifiers(ids, now))) => {
            assert!(ids.is_empty());
            assert_eq!(now, 7);
        }
        _ => panic!("expected new identifiers"),
    }
}

#[test]
fn test_endpoint_issues_and_retires_identifiers() {
    let mut endpoint = Endpoint::new(
        Arc::new(EndpointConfig::new()),
        None,
        Box::new(SequentialAssociationIdGenerator::new(100)),
    );
    let remote = SocketAddress { ip: IpAddress::V4(1), port: 1 };
    let (ch, conn) = endpoint.connect(client_config(), remote, 0).unwrap();
    assert_eq!(conn.local_aid(), 100);

    let r = endpoint.handle_event(ch, EndpointEvent(EndpointEventInner::NeedIdentifiers(5, 3)));
    match r {
        Some(AssociationEvent(AssociationEventInner::NewIdentifiers(ids, now))) => {
            assert_eq!(now, 5);
            let got: Vec<(u64, u32)> = ids.iter().map(|x| (x.sequence, x.id)).collect();
            assert_eq!(got, vec![(1, 101), (2, 102), (3, 103)]);
        }
        _ => panic!("expected new identifiers"),
    }
    for id in [100u32, 101, 102, 103] {
        assert!(!endpoint.is_unused(id));
    }

    // Retiring without leave to issue more takes the identifier out of use.
    let r = endpoint.handle_event(ch, EndpointEvent(EndpointEventInner::RetireAssociationId(6, 2, false)));
    assert!(r.is_none());
    assert!(endpoint.is_unused(102));
    // Retiring it again changes nothing.
    let r = endpoint.handle_event(ch, EndpointEvent(EndpointEventInner::RetireAssociationId(6, 2, true)));
    assert!(r.is_none());
    // Retiring with leave issues one more.
    let r = endpoint.handle_event(ch, EndpointEvent(EndpointEventInner::RetireAssociationId(7, 1, true)));
    match r {
        Some(AssociationEvent(AssociationEventInner::NewIdentifiers(ids, now))) => {
            assert_eq!(now, 7);
            assert_eq!(ids.len(), 1);
            assert_eq!((ids[0].sequence, ids[0].id), (4, 104));
        }
        _ => panic!("expected a new identifier"),
    }
    assert!(endpoint.is_unused(101));
    assert!(!endpoint.is_unused(104));

    // An unknown handle changes nothing.
    let r = endpoint.handle_event(AssociationHandle(9), EndpointEvent(EndpointEventInner::NeedIdentifiers(5, 3)));
    assert!(r.is_none());

    // When the association has ended, none of its identifiers is in use, and its handle is free again.
    assert!(endpoint.handle_event(ch, EndpointEvent::drained()).is_none());
    for id in [100u32, 103, 104] {
        assert!(endpoint.is_unused(id));
    }
    let (ch2, _) = endpoint.connect(client_config(), remote, 0).unwrap();
    assert_eq!(ch2, ch);
}

#[test]
fn test_endpoint_drops_what_it_cannot_read() {
    let mut endpoint = Endpoint::new(
        Arc::new(EndpointConfig::new()),
        Some(Arc::new(server_config())),
        Box::new(RandomAssociationIdGenerator::new()),
    );
    let remote = SocketAddress { ip: IpAddress::V4(1), port: 1 };
    // Too short.
    assert!(endpoint.handle(0, remote, None, None, Bytes::from(vec![1u8, 2, 3])).is_none());
    // A wrong checksum.
    assert!(endpoint.handle(0, remote, None, None, Bytes::from(vec![0u8; 16])).is_none());
}

#[test]
fn test_endpoint_refuses_when_asked_to() {
    let mut pair = Pair::default();
    pair.server.endpoint.reject_new_connections();
    let client_ch = pair.begin_connect(client_config());
    pair.drive_client();
    pair.drive_server();
    assert!(pair.server.accepted.is_none());
    assert!(pair.server.connections.is_empty());
    assert_eq!(pair.client_conn_mut(client_ch).state(), AssociationState::CookieWait);
}

#[test]
fn test_endpoint_without_server_config_takes_no_association() {
    let mut pair = Pair::default();
    pair.server.endpoint.set_server_config(None);
    let _ = pair.begin_connect(client_config());
    pair.drive_client();
    pair.drive_server();
    assert!(pair.server.accepted.is_none());
}

#[test]
fn test_endpoint_limit_of_concurrent_associations() {
    let mut config = server_config();
    config.concurrent_associations = 1;
    let mut pair = Pair::new(Arc::new(EndpointConfig::new()), config);
    let _ = pair.connect();
    // A second client is not taken.
    let mut other = TestEndpoint::new(
        Endpoint::new(Arc::new(EndpointConfig::new()), None, Box::new(RandomAssociationIdGenerator::new())),
        localhost(50000),
    );
    let (ch, conn) = other.endpoint.connect(client_config(), pair.server.addr, pair.time).unwrap();
    other.connections.insert(ch, conn);
    other.drive(pair.time, pair.server.addr);
    for x in other.outbound.drain(..) {
        if let Payload::RawEncode(contents) = x.payload {
            for content in contents {
                let r = pair.server.endpoint.handle(pair.time, other.addr, None, None, Bytes::from(content));
                assert!(r.is_none());
            }
        }
    }
    assert_eq!(pair.server.connections.len(), 1);
}

#[test]
fn test_config_defaults() {
    let c = client_config();
    assert_eq!(c.transport.max_receive_buffer_size, 1024 * 1024);
    assert_eq!(c.transport.max_message_size, 65536);
    let s = server_config();
    assert_eq!(s.concurrent_associations, 100_000);
    assert_eq!(s.transport.rto_initial, 3000);
    assert_eq!(s.transport.rto_min, 1000);
    assert_eq!(s.transport.rto_max, 60000);
    assert_eq!(s.transport.ack_mode, AckMode::Normal);
    assert_eq!(s.transport.mtu, 1228);
    assert_eq!(s.transport.max_payload(), 1200);
    assert_eq!(EndpointConfig::new().get_max_payload_size(), 1200);
    assert!(s.transport.with_rto(10, 20, 30).is_none());
    let t = s.transport.with_rto(20, 10, 30).unwrap();
    assert_eq!((t.rto_initial, t.rto_min, t.rto_max), (20, 10, 30));
    let mut broken = *s.transport;
    broken.rto_min = 100_000;
    broken.mtu = 10;
    let fixed = broken.normalize();
    assert_eq!((fixed.rto_initial, fixed.rto_min, fixed.rto_max, fixed.mtu), (3000, 1000, 60000, 1228));
}

#[test]
fn test_min_opt() {
    assert_eq!(min_opt(Some(1), Some(2)), Some(1));
    assert_eq!(min_opt(Some(2), Some(1)), Some(1));
    assert_eq!(min_opt(Some(3), None), Some(3));
    assert_eq!(min_opt(None, Some(4)), Some(4));
    assert_eq!(min_opt(None, None), None);
}

#[test]
fn test_assoc_packets_are_bundled_up_to_the_mtu() {
    let si: u16 = 12;
    let (mut pair, client_ch, server_ch) = create_association_pair(AckMode::NoDelay, 0);
    establish_session_pair(&mut pair, client_ch, server_ch, si);
    // Ten small messages fit one packet; a large one is cut to fit.
    for i in 0..10u8 {
        pair.client_conn_mut(client_ch).write_sctp(si, &vec![i; 50], PayloadProtocolIdentifier::Binary).unwrap();
    }
    pair.client_conn_mut(client_ch).write_sctp(si, &vec![0xaa; 4000], PayloadProtocolIdentifier::Binary).unwrap();
    let (time, server_addr) = (pair.time, pair.server.addr);
    pair.client.drive(time, server_addr);
    let mut sizes = vec![];
    for x in pair.client.outbound.iter() {
        if let Payload::RawEncode(contents) = &x.payload {
            for content in contents {
                sizes.push(content.len());
            }
        }
    }
    assert!(!sizes.is_empty());
    assert!(sizes.iter().all(|s| *s <= 1228), "a packet is larger than the MTU: {:?}", sizes);
    // The ten small messages travel together: 12 + 10 * (16 + 52) bytes.
    assert_eq!(sizes[0], 12 + 10 * 68);
    pair.drive();
    for i in 0..10u8 {
        assert_eq!(pair.server_conn_mut(server_ch).read_sctp(si, 100).unwrap().payload, vec![i; 50]);
    }
    assert_eq!(pair.server_conn_mut(server_ch).read_sctp(si, 4000).unwrap().payload, vec![0xaa; 4000]);
}

#[test]
fn test_assoc_delayed_ack() {
    let si: u16 = 13;
    let (mut pair, client_ch, server_ch) = create_association_pair(AckMode::AlwaysDelay, 0);
    let start = pair.time;
    pair.client_conn_mut(client_ch).open_stream(si, PayloadProtocolIdentifier::Binary).unwrap();
    pair.client_conn_mut(client_ch).write_sctp(si, &vec![1u8; 10], PayloadProtocolIdentifier::Binary).unwrap();
    pair.drive();
    assert_eq!(pair.client_conn_mut(client_ch).buffered_amount(), 0);
    assert_eq!(pair.time - start, 200, "the acknowledgement waited for its timer");
    assert_eq!(pair.server_conn_mut(server_ch).read_sctp(si, 10).unwrap().payload, vec![1u8; 10]);

    // In the normal mode the second packet in a row is acknowledged at once.
    pair.client_conn_mut(client_ch).set_ack_mode(AckMode::Normal);
    pair.server_conn_mut(server_ch).set_ack_mode(AckMode::Normal);
    let start = pair.time;
    pair.client_conn_mut(client_ch).write_sctp(si, &vec![2u8; 10], PayloadProtocolIdentifier::Binary).unwrap();
    pair.drive_client();
    pair.client_conn_mut(client_ch).write_sctp(si, &vec![3u8; 10], PayloadProtocolIdentifier::Binary).unwrap();
    pair.drive();
    assert_eq!(pair.time, start);
    assert_eq!(pair.client_conn_mut(client_ch).buffered_amount(), 0);
}

#[test]
fn test_assoc_congestion_control_fast_retransmission() {
    let si: u16 = 14;
    let (mut pair, client_ch, server_ch) = create_association_pair(AckMode::NoDelay, 0);
    establish_session_pair(&mut pair, client_ch, server_ch, si);
    let start = pair.time;
    let before = pair.client_conn_mut(client_ch).congestion();

    // The first of six packets is lost.
    for i in 0..6u32 {
        let mut sbuf = vec![0u8; 1000];
        sbuf[0..4].copy_from_slice(&i.to_be_bytes());
        pair.client_conn_mut(client_ch).write_sctp(si, &sbuf, PayloadProtocolIdentifier::Binary).unwrap();
        let (time, server_addr) = (pair.time, pair.server.addr);
        pair.client.drive(time, server_addr);
        if i == 0 {
            pair.client.outbound.clear();
        }
        pair.drive_client();
        pair.drive_server();
    }
    pair.drive();

    assert_eq!(pair.time, start, "the lost packet was sent again before the timer expired");
    for i in 0..6u32 {
        let m = pair.server_conn_mut(server_ch).read_sctp(si, 1000).unwrap();
        assert_eq!(u32::from_be_bytes([m.payload[0], m.payload[1], m.payload[2], m.payload[3]]), i);
    }
    let after = pair.client_conn_mut(client_ch).congestion();
    assert!(!after.in_fast_recovery, "fast recovery has ended");
    assert!(after.ssthresh < before.ssthresh, "the loss has lowered the threshold");
    assert!(after.cwnd >= 1228);
    assert_eq!(pair.client_conn_mut(client_ch).buffered_amount(), 0);
}

#[test]
fn test_assoc_timed_reliability_gives_up() {
    let si: u16 = 15;
    let (mut pair, client_ch, server_ch) = create_association_pair(AckMode::NoDelay, 0);
    establish_session_pair(&mut pair, client_ch, server_ch, si);
    pair.client_conn_mut(client_ch).set_reliability_params(si, true, ReliabilityType::Timed, 500).unwrap();
    pair.client_conn_mut(client_ch).write_sctp(si, &vec![5u8; 100], PayloadProtocolIdentifier::Binary).unwrap();
    let (time, server_addr) = (pair.time, pair.server.addr);
    pair.client.drive(time, server_addr);
    pair.client.outbound.clear(); // lost
    pair.drive();
    // When the timer expires, more than 500 ms have passed: the message is given up.
    assert_eq!(pair.server_conn_mut(server_ch).read_sctp(si, 1000).unwrap_err(), Error::ErrTryAgain);
    assert_eq!(pair.client_conn_mut(client_ch).buffered_amount(), 0);
    // The stream goes on.
    pair.client_conn_mut(client_ch).write_sctp(si, &vec![6u8; 100], PayloadProtocolIdentifier::Binary).unwrap();
    pair.drive();
    assert_eq!(pair.server_conn_mut(server_ch).read_sctp(si, 1000).unwrap().payload, vec![6u8; 100]);
}

#[test]
fn test_assoc_unknown_chunk_is_reported_or_skipped() {
    let si: u16 = 16;
    let (mut pair, client_ch, server_ch) = create_association_pair(AckMode::NoDelay, 0);
    establish_session_pair(&mut pair, client_ch, server_ch, si);
    let tag = pair.server_conn_mut(server_ch).local_aid();
    let header = sctp_proto::packet::CommonHeader { source_port: 5000, destination_port: 5000, verification_tag: tag };
    let now = pair.time;
    // 0xc1: skip and report. 0x41: stop and report. 0x81: skip in silence. 0x11: stop in silence.
    for (typ, expect_error, expect_ack) in [(0xc1u8, true, true), (0x41, true, false), (0x81, false, true), (0x11, false, false)] {
        // Behind the unknown chunk stands data, which is acknowledged at once where it is reached.
        let behind = DataChunk {
            tsn: 7,
            stream_id: si,
            ssn: 0,
            ppi: PayloadProtocolIdentifier::Binary,
            unordered: true,
            beginning_fragment: true,
            ending_fragment: true,
            payload: vec![1, 2, 3],
        };
        let packet = sctp_proto::packet::Packet {
            header,
            chunks: vec![sctp_proto::packet::Chunk::Unknown(typ), sctp_proto::packet::Chunk::Data(behind)],
        };
        let server = pair.server_conn_mut(server_ch);
        server.handle_packet(&packet, now);
        let mut kinds = vec![];
        while let Some(p) = server.poll_packet(now) {
            for c in p.chunks.iter() {
                kinds.push(sctp_proto::packet::type_of(c));
            }
        }
        assert_eq!(kinds.contains(&9), expect_error, "type {:#x}", typ);
        assert_eq!(kinds.contains(&3), expect_ack, "type {:#x}", typ);
    }
    // A packet with the wrong verification tag is dropped.
    let wrong = sctp_proto::packet::Packet {
        header: sctp_proto::packet::CommonHeader { verification_tag: tag.wrapping_add(1), ..header },
        chunks: vec![sctp_proto::packet::Chunk::Abort],
    };
    pair.server_conn_mut(server_ch).handle_packet(&wrong, now);
    assert_eq!(pair.server_conn_mut(server_ch).state(), AssociationState::Established);
}

#[test]
fn test_handle_converts_to_its_number() {
    assert_eq!(usize::from(AssociationHandle(7)), 7);
    assert_eq!(AssociationHandle(9).index(), 9);
    let d: EndpointConfig = Default::default();
    assert_eq!(d.get_max_payload_size(), 1200);
    let s: ServerConfig = Default::default();
    assert_eq!(s.concurrent_associations, 100_000);
    let c: ClientConfig = Default::default();
    assert_eq!(c.transport.mtu, 1228);
}

fn written_and_read(pair: &mut Pair, client_ch: AssociationHandle, server_ch: AssociationHandle, si: u16, msg: &[u8]) -> u16 {
    pair.client_conn_mut(client_ch).write_sctp(si, &msg.to_vec(), PayloadProtocolIdentifier::Binary).unwrap();
    pair.drive();
    let m = pair.server_conn_mut(server_ch).read_sctp(si, 1000).unwrap();
    assert_eq!(m.payload, msg.to_vec());
    m.ssn
}

#[test]
fn test_assoc_stream_reset_ends_the_stream_on_both_sides() {
    let si: u16 = 20;
    let (mut pair, client_ch, server_ch) = create_association_pair(AckMode::NoDelay, 0);
    establish_session_pair(&mut pair, client_ch, server_ch, si);
    let first = written_and_read(&mut pair, client_ch, server_ch, si, b"one");
    let second = written_and_read(&mut pair, client_ch, server_ch, si, b"two");
    assert_eq!(second, first.wrapping_add(1));
    assert!(second > 0);
    drain_events(pair.client_conn_mut(client_ch));
    drain_events(pair.server_conn_mut(server_ch));

    let now = pair.time;
    pair.client_conn_mut(client_ch).reset_stream(si, now).unwrap();
    // While the request is under way the stream takes nothing, and no second request is made.
    assert_eq!(
        pair.client_conn_mut(client_ch).write_sctp(si, &vec![1u8], PayloadProtocolIdentifier::Binary).unwrap_err(),
        Error::ErrTryAgain
    );
    assert_eq!(pair.client_conn_mut(client_ch).reset_stream(si, now).unwrap_err(), Error::ErrTryAgain);
    assert!(pair.client_conn_mut(client_ch).poll_timeout().is_some());
    pair.drive();
    assert_eq!(drain_events(pair.server_conn_mut(server_ch)), vec![Event::Reset(si)]);
    assert_eq!(drain_events(pair.client_conn_mut(client_ch)), vec![Event::Reset(si)]);
    assert!(pair.client_conn_mut(client_ch).poll_timeout().is_none());
    // The stream is gone on both sides.
    assert_eq!(
        pair.client_conn_mut(client_ch).write_sctp(si, &vec![1u8], PayloadProtocolIdentifier::Binary).unwrap_err(),
        Error::ErrStreamClosed
    );
    assert_eq!(pair.server_conn_mut(server_ch).read_sctp(si, 100).unwrap_err(), Error::ErrStreamClosed);

    // Opened anew, it begins at zero.
    pair.client_conn_mut(client_ch).open_stream(si, PayloadProtocolIdentifier::Binary).unwrap();
    assert_eq!(written_and_read(&mut pair, client_ch, server_ch, si, b"again"), 0);
    assert_eq!(
        drain_events(pair.server_conn_mut(server_ch)),
        vec![Event::StreamOpened(si), Event::DataReady(si)]
    );
    assert_eq!(written_and_read(&mut pair, client_ch, server_ch, si, b"and again"), 1);
    // A second request gets the next number and is done as well.
    let now = pair.time;
    pair.client_conn_mut(client_ch).reset_stream(si, now).unwrap();
    pair.drive();
    assert_eq!(drain_events(pair.server_conn_mut(server_ch)).iter().filter(|e| **e == Event::Reset(si)).count(), 1);
    pair.client_conn_mut(client_ch).open_stream(si, PayloadProtocolIdentifier::Binary).unwrap();
    assert_eq!(written_and_read(&mut pair, client_ch, server_ch, si, b"third time"), 0);
}

#[test]
fn test_assoc_stream_reset_request_is_sent_again_when_lost() {
    let si: u16 = 21;
    let (mut pair, client_ch, server_ch) = create_association_pair(AckMode::NoDelay, 0);
    establish_session_pair(&mut pair, client_ch, server_ch, si);
    written_and_read(&mut pair, client_ch, server_ch, si, b"one");
    drain_events(pair.client_conn_mut(client_ch));
    drain_events(pair.server_conn_mut(server_ch));

    let asked = pair.time;
    pair.client_conn_mut(client_ch).reset_stream(si, asked).unwrap();
    let server_addr = pair.server.addr;
    pair.client.drive(asked, server_addr);
    assert!(!pair.client.outbound.is_empty());
    pair.client.outbound.clear(); // lost
    pair.drive();
    assert!(pair.time > asked, "the request waited for its timer");
    assert_eq!(drain_events(pair.server_conn_mut(server_ch)), vec![Event::Reset(si)]);
    assert_eq!(drain_events(pair.client_conn_mut(client_ch)), vec![Event::Reset(si)]);
    pair.client_conn_mut(client_ch).open_stream(si, PayloadProtocolIdentifier::Binary).unwrap();
    assert_eq!(written_and_read(&mut pair, client_ch, server_ch, si, b"again"), 0);
}

#[test]
fn test_assoc_stream_reset_errors() {
    let si: u16 = 22;
    let (mut pair, client_ch, server_ch) = create_association_pair(AckMode::NoDelay, 0);
    establish_session_pair(&mut pair, client_ch, server_ch, si);
    let now = pair.time;
    assert_eq!(pair.client_conn_mut(client_ch).reset_stream(si + 1, now).unwrap_err(), Error::ErrStreamClosed);
    // Data that waits to be sent for the first time comes first.
    pair.client_conn_mut(client_ch).write_sctp(si, &vec![1u8; 10], PayloadProtocolIdentifier::Binary).unwrap();
    assert_eq!(pair.client_conn_mut(client_ch).reset_stream(si, now).unwrap_err(), Error::ErrTryAgain);
    pair.drive();
    let now = pair.time;
    pair.client_conn_mut(client_ch).close(now);
    assert_eq!(pair.client_conn_mut(client_ch).reset_stream(si, now).unwrap_err(), Error::ErrNotEstablished);
}

fn answers(server: &mut Association, now: u64) -> Vec<(u32, u32)> {
    let mut found = vec![];
    while let Some(p) = server.poll_packet(now) {
        for c in p.chunks.iter() {
            if let sctp_proto::packet::Chunk::ResetResponse(r) = c {
                found.push((r.sequence, r.result));
            }
        }
    }
    found
}

#[test]
fn test_assoc_stream_reset_requests_are_answered() {
    let si: u16 = 23;
    let (mut pair, client_ch, server_ch) = create_association_pair(AckMode::NoDelay, 0);
    establish_session_pair(&mut pair, client_ch, server_ch, si);
    // Two more streams, so that a request that lists none asks for two.
    pair.client_conn_mut(client_ch).open_stream(si + 1, PayloadProtocolIdentifier::Binary).unwrap();
    pair.client_conn_mut(client_ch).open_stream(si + 2, PayloadProtocolIdentifier::Binary).unwrap();
    written_and_read(&mut pair, client_ch, server_ch, si + 1, b"two");
    written_and_read(&mut pair, client_ch, server_ch, si + 2, b"three");
    written_and_read(&mut pair, client_ch, server_ch, si, b"one");
    drain_events(pair.server_conn_mut(server_ch));

    // What the client would ask shows the numbers that the server expects.
    let now = pair.time;
    pair.client_conn_mut(client_ch).reset_stream(si, now).unwrap();
    let asked = pair.client_conn_mut(client_ch).poll_packet(now).unwrap();
    let (sequence, last_tsn) = match &asked.chunks[0] {
        sctp_proto::packet::Chunk::ResetRequest(r) => {
            assert_eq!(r.streams, vec![si]);
            (r.request_sequence, r.last_tsn)
        }
        _ => panic!("expected a request to set a stream back"),
    };
    let header = asked.header;
    let request = |request_sequence: u32, last_tsn: u32, streams: Vec<u16>| sctp_proto::packet::Packet {
        header,
        chunks: vec![sctp_proto::packet::Chunk::ResetRequest(sctp_proto::packet::ResetRequest {
            request_sequence,
            response_sequence: 0,
            last_tsn,
            streams,
        })],
    };
    let server = pair.server_conn_mut(server_ch);
    // Out of sequence.
    server.handle_packet(&request(sequence.wrapping_add(5), last_tsn, vec![si]), now);
    assert_eq!(answers(server, now), vec![(sequence.wrapping_add(5), 5)]);
    assert!(drain_events(server).is_empty());
    // Data up to the last sequence number has not arrived yet.
    server.handle_packet(&request(sequence, last_tsn.wrapping_add(1), vec![si]), now);
    assert_eq!(answers(server, now), vec![(sequence, 6)]);
    assert!(drain_events(server).is_empty());
    // Done: of a stream that is not there and one that is, the one that is ends.
    server.handle_packet(&request(sequence, last_tsn, vec![999, si + 1]), now);
    assert_eq!(answers(server, now), vec![(sequence, 1)]);
    assert_eq!(drain_events(server), vec![Event::Reset(si + 1)]);
    assert_eq!(server.read_sctp(si + 1, 100).unwrap_err(), Error::ErrStreamClosed);
    assert_eq!(server.read_sctp(si, 100).unwrap_err(), Error::ErrTryAgain);
    // The same request again: nothing is done twice.
    server.handle_packet(&request(sequence, last_tsn, vec![999, si + 1]), now);
    assert_eq!(answers(server, now), vec![(sequence, 0)]);
    assert!(drain_events(server).is_empty());
    // The next request lists no stream, so all that are left end, in the order in which they were opened.
    server.handle_packet(&request(sequence.wrapping_add(1), last_tsn, vec![]), now);
    assert_eq!(answers(server, now), vec![(sequence.wrapping_add(1), 1)]);
    assert_eq!(drain_events(server), vec![Event::Reset(si), Event::Reset(si + 2)]);

    // An answer that is not to the request under way changes nothing; one that refuses ends the request.
    let client = pair.client_conn_mut(client_ch);
    let tag = client.local_aid();
    let answer = |sequence: u32, result: u32| sctp_proto::packet::Packet {
        header: sctp_proto::packet::CommonHeader { source_port: 5000, destination_port: 5000, verification_tag: tag },
        chunks: vec![sctp_proto::packet::Chunk::ResetResponse(sctp_proto::packet::ResetResponse { sequence, result })],
    };
    client.handle_packet(&answer(sequence.wrapping_add(1), 1), now);
    client.handle_packet(&answer(sequence, 6), now);
    assert_eq!(client.reset_stream(si, now).unwrap_err(), Error::ErrTryAgain);
    assert!(drain_events(client).is_empty());
    client.handle_packet(&answer(sequence, 2), now);
    assert!(drain_events(client).is_empty());
    assert!(client.poll_timeout().is_none());
    client.reset_stream(si, now).unwrap();
    match &client.poll_packet(now).unwrap().chunks[0] {
        sctp_proto::packet::Chunk::ResetRequest(r) => assert_eq!(r.request_sequence, sequence.wrapping_add(1)),
        _ => panic!("expected a request to set a stream back"),
    }
}

fn datagram(verification_tag: u32, chunk: sctp_proto::packet::Chunk) -> Vec<u8> {
    let packet = sctp_proto::packet::Packet {
        header: sctp_proto::packet::CommonHeader { source_port: 5000, destination_port: 5000, verification_tag },
        chunks: vec![chunk],
    };
    packet.marshal().unwrap()
}

fn init_datagram(initiate_tag: u32) -> Vec<u8> {
    datagram(
        0,
        sctp_proto::packet::Chunk::Init(sctp_proto::packet::InitChunk {
            initiate_tag,
            a_rwnd: 65535,
            num_outbound_streams: 10,
            num_inbound_streams: 10,
            initial_tsn: 100,
            cookie: vec![],
            forward_tsn_supported: true,
        }),
    )
}

fn server_endpoint(first: u32) -> Endpoint {
    Endpoint::new(
        Arc::new(EndpointConfig::new()),
        Some(Arc::new(server_config())),
        Box::new(SequentialAssociationIdGenerator::new(first)),
    )
}

#[test]
fn test_endpoint_accepts_under_a_given_identifier() {
    let remote = SocketAddress { ip: IpAddress::V4(1), port: 1 };
    let mut endpoint = server_endpoint(500);
    let first = PartialDecode::unmarshal(init_datagram(0x1234)).unwrap();
    let (ch, conn) = endpoint.accept_with(77, 5, remote, None, None, first).unwrap();
    assert_eq!(ch, AssociationHandle(0));
    assert_eq!(conn.local_aid(), 77);
    // The association has seen the INIT.
    assert_eq!(conn.remote_aid(), 0x1234);
    assert_eq!(conn.remote_addr(), remote);
    assert!(!endpoint.is_unused(77));
    assert!(endpoint.is_unused(500));

    // Under an identifier that is in use nothing is made.
    let again = PartialDecode::unmarshal(init_datagram(0x9999)).unwrap();
    assert!(endpoint.accept_with(77, 5, remote, None, None, again).is_none());
    // Under another one the next association is made, with the next handle.
    let again = PartialDecode::unmarshal(init_datagram(0x9999)).unwrap();
    let (ch, conn) = endpoint.accept_with(78, 6, remote, None, None, again).unwrap();
    assert_eq!((ch, conn.local_aid(), conn.remote_aid()), (AssociationHandle(1), 78, 0x9999));

    // A datagram that begins no handshake makes no association.
    let other = PartialDecode::unmarshal(datagram(0, sctp_proto::packet::Chunk::CookieAck)).unwrap();
    assert!(endpoint.accept_with(79, 6, remote, None, None, other).is_none());
    assert!(endpoint.is_unused(79));
    // Nor does any datagram once the endpoint refuses, or has no configuration for associations.
    endpoint.reject_new_connections();
    let other = PartialDecode::unmarshal(init_datagram(0x4321)).unwrap();
    assert!(endpoint.accept_with(79, 6, remote, None, None, other).is_none());
    let mut client =
        Endpoint::new(Arc::new(EndpointConfig::new()), None, Box::new(SequentialAssociationIdGenerator::new(1)));
    let other = PartialDecode::unmarshal(init_datagram(0x4321)).unwrap();
    assert!(client.accept_with(79, 6, remote, None, None, other).is_none());
}

#[test]
fn test_endpoint_takes_what_its_generator_makes() {
    let remote = SocketAddress { ip: IpAddress::V4(1), port: 1 };
    let mut endpoint = server_endpoint(500);
    // No identifier is in use: the first that the generator makes is taken.
    match endpoint.handle(3, remote, None, None, Bytes::from(init_datagram(0x1234))) {
        Some((ch, DatagramEvent::NewAssociation(conn))) => {
            assert_eq!(ch, AssociationHandle(0));
            assert_eq!(conn.local_aid(), 500);
            assert_eq!(conn.remote_aid(), 0x1234);
        }
        _ => panic!("expected a new association"),
    }
    // A datagram that names the association comes back as an event for it.
    let raw = datagram(500, sctp_proto::packet::Chunk::CookieAck);
    match endpoint.handle(4, remote, None, Some(EcnCodepoint::Ect0), Bytes::from(raw.clone())) {
        Some((ch, DatagramEvent::AssociationEvent(AssociationEvent(AssociationEventInner::Datagram(t))))) => {
            assert_eq!(ch, AssociationHandle(0));
            assert_eq!((t.now, t.remote, t.ecn, t.local_ip), (4, remote, Some(EcnCodepoint::Ect0), None));
        }
        _ => panic!("expected an event for the association"),
    }
    // One that names none and begins no handshake is dropped.
    let raw = datagram(501, sctp_proto::packet::Chunk::CookieAck);
    assert!(endpoint.handle(4, remote, None, None, Bytes::from(raw)).is_none());
    // The next association gets the next identifier and the next handle.
    match endpoint.handle(5, remote, None, None, Bytes::from(init_datagram(0x5678))) {
        Some((ch, DatagramEvent::NewAssociation(conn))) => {
            assert_eq!((ch, conn.local_aid()), (AssociationHandle(1), 501));
        }
        _ => panic!("expected a new association"),
    }
}

#[test]
fn test_generators_of_identifiers() {
    let mut sequential = SequentialAssociationIdGenerator::new(u32::MAX - 1);
    assert_eq!(sequential.generate_aid(), u32::MAX - 1);
    assert_eq!(sequential.generate_aid(), u32::MAX);
    assert_eq!(sequential.generate_aid(), 0);
    assert_eq!(sequential.take(), 1);
    assert_eq!(sequential.aid_lifetime(), None);
    let mut random = RandomAssociationIdGenerator::new();
    assert_eq!(random.aid_lifetime(), None);
    // Of 64 identifiers drawn by chance, not all are the same.
    let first = random.generate_aid();
    assert!((0..64).any(|_| random.generate_aid() != first));
}

#[test]
fn test_next_time() {
    assert_eq!(next_time(10, None, None), None);
    assert_eq!(next_time(10, Some(15), None), Some(15));
    assert_eq!(next_time(10, None, Some(12)), Some(12));
    assert_eq!(next_time(10, Some(15), Some(12)), Some(12));
    assert_eq!(next_time(10, Some(11), Some(12)), Some(11));
    // The clock does not move back.
    assert_eq!(next_time(10, Some(3), Some(12)), Some(10));
    assert_eq!(next_time(10, Some(10), None), Some(10));
}

#[test]
fn test_endpoint_connects_under_a_given_identifier() {
    let remote = SocketAddress { ip: IpAddress::V4(1), port: 7 };
    let mut endpoint =
        Endpoint::new(Arc::new(EndpointConfig::new()), None, Box::new(SequentialAssociationIdGenerator::new(1)));
    let (ch, conn) = endpoint.connect_with(77, 9, client_config(), remote, 5).unwrap();
    assert_eq!(ch, AssociationHandle(0));
    assert_eq!(conn.local_aid(), 77);
    assert_eq!(conn.remote_addr(), remote);
    assert_eq!(conn.state(), AssociationState::CookieWait);
    assert!(!endpoint.is_unused(77));
    assert!(endpoint.is_unused(9));
    // Under an identifier that is in use no association is made.
    match endpoint.connect_with(77, 9, client_config(), remote, 5) {
        Err(e) => assert_eq!(e, ConnectError::TooManyAssociations),
        Ok(_) => panic!("the identifier was in use"),
    }
    // Nor to a port that is zero.
    let nowhere = SocketAddress { ip: IpAddress::V4(1), port: 0 };
    match endpoint.connect_with(78, 9, client_config(), nowhere, 5) {
        Err(e) => assert_eq!(e, ConnectError::InvalidRemoteAddress(nowhere)),
        Ok(_) => panic!("the port was zero"),
    }
    assert!(endpoint.is_unused(78));
    let (ch, conn) = endpoint.connect_with(78, 9, client_config(), remote, 6).unwrap();
    assert_eq!((ch, conn.local_aid()), (AssociationHandle(1), 78));
    // The endpoint's own generator is asked where no identifier is given: its first is 1.
    let (ch, conn) = endpoint.connect(client_config(), remote, 6).unwrap();
    assert_eq!((ch, conn.local_aid()), (AssociationHandle(2), 1));
}

#[test]
fn test_endpoint_connects_while_no_identifier_is_in_use() {
    let remote = SocketAddress { ip: IpAddress::V4(1), port: 7 };
    let mut endpoint = Endpoint::new(Arc::new(EndpointConfig::new()), None, Box::new(StuckGenerator));
    // Whatever the generator makes will do.
    let (ch, conn) = endpoint.connect(client_config(), remote, 0).unwrap();
    assert_eq!((ch, conn.local_aid()), (AssociationHandle(0), 42));
}

#[test]
fn test_endpoint_issues_a_given_identifier() {
    let remote = SocketAddress { ip: IpAddress::V4(1), port: 7 };
    let mut endpoint =
        Endpoint::new(Arc::new(EndpointConfig::new()), None, Box::new(SequentialAssociationIdGenerator::new(100)));
    let (ch, _conn) = endpoint.connect_with(77, 9, client_config(), remote, 5).unwrap();
    let first = endpoint.issue_with(ch, 500).unwrap();
    assert_eq!((first.sequence, first.id), (1, 500));
    let second = endpoint.issue_with(ch, 501).unwrap();
    assert_eq!((second.sequence, second.id), (2, 501));
    assert!(!endpoint.is_unused(500));
    assert!(!endpoint.is_unused(501));
    // An identifier that is in use is not issued, nor is one to an association that is not known.
    assert!(endpoint.issue_with(ch, 500).is_none());
    assert!(endpoint.issue_with(ch, 77).is_none());
    assert!(endpoint.issue_with(AssociationHandle(5), 502).is_none());
    assert!(endpoint.is_unused(502));
    // The sequence goes on where it was.
    let third = endpoint.issue_with(ch, 502).unwrap();
    assert_eq!((third.sequence, third.id), (3, 502));
    // What the generator makes is issued in the same way: 100, 101.
    match endpoint.handle_event(ch, EndpointEvent(EndpointEventInner::NeedIdentifiers(9, 2))) {
        Some(AssociationEvent(AssociationEventInner::NewIdentifiers(ids, now))) => {
            assert_eq!(now, 9);
            assert_eq!(ids.iter().map(|x| (x.sequence, x.id)).collect::<Vec<_>>(), vec![(4, 100), (5, 101)]);
        }
        _ => panic!("expected new identifiers"),
    }
    // A datagram under an issued identifier is for the association.
    let raw = datagram(501, sctp_proto::packet::Chunk::CookieAck);
    match endpoint.handle(4, remote, None, None, Bytes::from(raw)) {
        Some((to, DatagramEvent::AssociationEvent(_))) => assert_eq!(to, ch),
        _ => panic!("expected an event for the association"),
    }
    // Asking for none issues none.
    match endpoint.handle_event(ch, EndpointEvent(EndpointEventInner::NeedIdentifiers(9, 0))) {
        Some(AssociationEvent(AssociationEventInner::NewIdentifiers(ids, _))) => assert!(ids.is_empty()),
        _ => panic!("expected new identifiers"),
    }
}

#[test]
fn test_assoc_repeated_datagram_is_read_once() {
    let si: u16 = 30;
    let (mut pair, client_ch, server_ch) = create_association_pair(AckMode::NoDelay, 0);
    establish_session_pair(&mut pair, client_ch, server_ch, si);
    drain_events(pair.server_conn_mut(server_ch));
    let now = pair.time;
    let client = pair.client_conn_mut(client_ch);
    client.write_sctp(si, &b"one".to_vec(), PayloadProtocolIdentifier::Binary).unwrap();
    let first = client.poll_packet(now).unwrap();
    client.write_sctp(si, &b"two".to_vec(), PayloadProtocolIdentifier::Binary).unwrap();
    let second = client.poll_packet(now).unwrap();
    let server = pair.server_conn_mut(server_ch);
    // Each datagram arrives twice, the first once more behind the second.
    server.handle_packet(&first, now);
    server.handle_packet(&first, now);
    server.handle_packet(&second, now);
    server.handle_packet(&first, now);
    server.handle_packet(&second, now);
    assert_eq!(drain_events(server), vec![Event::DataReady(si), Event::DataReady(si)]);
    assert_eq!(server.read_sctp(si, 100).unwrap().payload, b"one".to_vec());
    assert_eq!(server.read_sctp(si, 100).unwrap().payload, b"two".to_vec());
    assert_eq!(server.read_sctp(si, 100).unwrap_err(), Error::ErrTryAgain);
}
