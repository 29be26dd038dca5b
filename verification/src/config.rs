//! What can be configured.

use std::sync::Arc;
use vstd::prelude::*;
use crate::congestion::{INITIAL_MTU, MISSING_REPORT_THRESHOLD};
use crate::rto::{RTO_INITIAL, RTO_MAX, RTO_MIN};

verus! {

/// The receive buffer of the default configuration, in bytes.
pub const INITIAL_RECV_BUF_SIZE: u32 = 1024 * 1024;

/// The largest message of the default configuration, in bytes.
pub const DEFAULT_MAX_MESSAGE_SIZE: u32 = 65536;

/// The size of a packet's common header.
pub const COMMON_HEADER_SIZE: u32 = 12;

/// The size of a DATA chunk's headers.
pub const DATA_CHUNK_HEADER_SIZE: u32 = 16;

/// How many associations a server accepts at once in the default configuration.
pub const DEFAULT_CONCURRENT_ASSOCIATIONS: u32 = 100_000;

/// When a receiver acknowledges data.
#[derive(Clone, Copy, Debug, PartialEq, Eq, Structural)]
pub enum AckMode {
    /// At once when data arrives out of order or for the second time in a
    /// row, else after a short delay.
    Normal,
    /// At once, always.
    NoDelay,
    /// After a short delay, always.
    AlwaysDelay,
}

/// Parameters of one association.
#[derive(Clone, Copy, Debug, PartialEq, Eq, Structural)]
pub struct TransportConfig {
    pub max_receive_buffer_size: u32,
    pub max_message_size: u32,
    pub max_num_outbound_streams: u16,
    pub max_num_inbound_streams: u16,
    /// The retransmission timeout before the first round-trip sample, in milliseconds.
    pub rto_initial: u64,
    /// The smallest retransmission timeout, in milliseconds.
    pub rto_min: u64,
    /// The largest retransmission timeout, in milliseconds.
    pub rto_max: u64,
    pub ack_mode: AckMode,
    /// The path MTU, in bytes.
    pub mtu: u16,
    /// How many missing reports trigger a fast retransmit.
    pub missing_report_threshold: u8,
}

/// The default parameters of an association.
pub open spec fn default_transport() -> TransportConfig {
    TransportConfig {
        max_receive_buffer_size: INITIAL_RECV_BUF_SIZE,
        max_message_size: DEFAULT_MAX_MESSAGE_SIZE,
        max_num_outbound_streams: u16::MAX,
        max_num_inbound_streams: u16::MAX,
        rto_initial: RTO_INITIAL,
        rto_min: RTO_MIN,
        rto_max: RTO_MAX,
        ack_mode: AckMode::Normal,
        mtu: INITIAL_MTU,
        missing_report_threshold: MISSING_REPORT_THRESHOLD,
    }
}

impl TransportConfig {
    /// The timeouts are ordered and the MTU has room for a packet with data in it.
    pub open spec fn wf(self) -> bool {
        &&& self.rto_min <= self.rto_initial <= self.rto_max
        &&& self.mtu > COMMON_HEADER_SIZE + DATA_CHUNK_HEADER_SIZE
    }

    /// These parameters with what is not well formed replaced by the
    /// defaults: the timeouts if they are not ordered, and the MTU if it has
    /// no room for a packet with data in it.
    pub open spec fn normalized(self) -> TransportConfig {
        let ordered = self.rto_min <= self.rto_initial <= self.rto_max;
        TransportConfig {
            rto_initial: if ordered { self.rto_initial } else { RTO_INITIAL },
            rto_min: if ordered { self.rto_min } else { RTO_MIN },
            rto_max: if ordered { self.rto_max } else { RTO_MAX },
            mtu: if self.mtu > COMMON_HEADER_SIZE + DATA_CHUNK_HEADER_SIZE { self.mtu } else { INITIAL_MTU },
            ..self
        }
    }

    /// Replaces what is not well formed by the defaults. See `normalized`.
    pub fn normalize(self) -> (c: TransportConfig)
        ensures
            c == self.normalized(),
            c.wf(),
            self.wf() ==> c == self,
    {
        let ordered: bool = self.rto_min <= self.rto_initial && self.rto_initial <= self.rto_max;
        TransportConfig {
            rto_initial: if ordered { self.rto_initial } else { RTO_INITIAL },
            rto_min: if ordered { self.rto_min } else { RTO_MIN },
            rto_max: if ordered { self.rto_max } else { RTO_MAX },
            mtu: if self.mtu as u32 > COMMON_HEADER_SIZE + DATA_CHUNK_HEADER_SIZE {
                self.mtu
            } else {
                INITIAL_MTU
            },
            ..self
        }
    }

    /// The default parameters.
    pub fn new() -> (c: TransportConfig)
        ensures
            c == default_transport(),
            c.wf(),
    {
        TransportConfig {
            max_receive_buffer_size: INITIAL_RECV_BUF_SIZE,
            max_message_size: DEFAULT_MAX_MESSAGE_SIZE,
            max_num_outbound_streams: u16::MAX,
            max_num_inbound_streams: u16::MAX,
            rto_initial: RTO_INITIAL,
            rto_min: RTO_MIN,
            rto_max: RTO_MAX,
            ack_mode: AckMode::Normal,
            mtu: INITIAL_MTU,
            missing_report_threshold: MISSING_REPORT_THRESHOLD,
        }
    }

    /// These parameters with the receive buffer set to `value` bytes.
    pub fn with_max_receive_buffer_size(self, value: u32) -> (c: TransportConfig)
        ensures
            c == (TransportConfig { max_receive_buffer_size: value, ..self }),
    {
        TransportConfig { max_receive_buffer_size: value, ..self }
    }

    /// These parameters with the largest message set to `value` bytes.
    pub fn with_max_message_size(self, value: u32) -> (c: TransportConfig)
        ensures
            c == (TransportConfig { max_message_size: value, ..self }),
    {
        TransportConfig { max_message_size: value, ..self }
    }

    /// These parameters with at most `value` outbound streams.
    pub fn with_max_num_outbound_streams(self, value: u16) -> (c: TransportConfig)
        ensures
            c == (TransportConfig { max_num_outbound_streams: value, ..self }),
    {
        TransportConfig { max_num_outbound_streams: value, ..self }
    }

    /// These parameters with at most `value` inbound streams.
    pub fn with_max_num_inbound_streams(self, value: u16) -> (c: TransportConfig)
        ensures
            c == (TransportConfig { max_num_inbound_streams: value, ..self }),
    {
        TransportConfig { max_num_inbound_streams: value, ..self }
    }

    /// These parameters with the given acknowledgement mode.
    pub fn with_ack_mode(self, value: AckMode) -> (c: TransportConfig)
        ensures
            c == (TransportConfig { ack_mode: value, ..self }),
    {
        TransportConfig { ack_mode: value, ..self }
    }

    /// These parameters with the given timeouts, or `None` if the timeouts are not ordered.
    pub fn with_rto(self, rto_initial: u64, rto_min: u64, rto_max: u64) -> (c: Option<TransportConfig>)
        ensures
            c == (if rto_min <= rto_initial <= rto_max {
                Some(TransportConfig { rto_initial, rto_min, rto_max, ..self })
            } else {
                None
            }),
    {
        if rto_min <= rto_initial && rto_initial <= rto_max {
            Some(TransportConfig { rto_initial, rto_min, rto_max, ..self })
        } else {
            None
        }
    }

    /// The most bytes of user data that one DATA chunk carries with these parameters.
    pub open spec fn spec_max_payload(self) -> u32 {
        if self.mtu > COMMON_HEADER_SIZE + DATA_CHUNK_HEADER_SIZE {
            (self.mtu - COMMON_HEADER_SIZE - DATA_CHUNK_HEADER_SIZE) as u32
        } else {
            1
        }
    }

    /// The most bytes of user data that one DATA chunk carries with these parameters.
    pub fn max_payload(&self) -> (n: u32)
        ensures
            n == self.spec_max_payload(),
            1 <= n <= 65507,
    {
        let mtu: u32 = self.mtu as u32;
        if mtu > COMMON_HEADER_SIZE + DATA_CHUNK_HEADER_SIZE {
            mtu - COMMON_HEADER_SIZE - DATA_CHUNK_HEADER_SIZE
        } else {
            1
        }
    }
}

impl Default for TransportConfig {
    fn default() -> (c: TransportConfig)
        ensures
            c == default_transport(),
    {
        TransportConfig::new()
    }
}

/// Parameters of an endpoint.
#[derive(Clone, Copy, Debug, PartialEq, Eq, Structural)]
pub struct EndpointConfig {
    /// The most bytes of user data that one packet carries.
    pub max_payload_size: u32,
}

impl EndpointConfig {
    /// The default parameters.
    pub fn new() -> (c: EndpointConfig)
        ensures
            c.max_payload_size == INITIAL_MTU - (COMMON_HEADER_SIZE + DATA_CHUNK_HEADER_SIZE),
    {
        EndpointConfig { max_payload_size: INITIAL_MTU as u32 - (COMMON_HEADER_SIZE + DATA_CHUNK_HEADER_SIZE) }
    }

    /// The most bytes of user data that one packet carries.
    pub fn get_max_payload_size(&self) -> (n: u32)
        ensures
            n == self.max_payload_size,
    {
        self.max_payload_size
    }
}

impl Default for EndpointConfig {
    fn default() -> (c: EndpointConfig)
        ensures
            c.max_payload_size == INITIAL_MTU - (COMMON_HEADER_SIZE + DATA_CHUNK_HEADER_SIZE),
    {
        EndpointConfig::new()
    }
}

/// Parameters of the associations that an endpoint accepts.
#[derive(Clone, Debug)]
pub struct ServerConfig {
    /// The parameters of each association that is accepted.
    pub transport: Arc<TransportConfig>,
    /// How many associations may exist at once.
    pub concurrent_associations: u32,
}

impl ServerConfig {
    /// The default parameters.
    pub fn new() -> (c: ServerConfig)
        ensures
            *c.transport == default_transport(),
            c.concurrent_associations == DEFAULT_CONCURRENT_ASSOCIATIONS,
    {
        ServerConfig {
            transport: Arc::new(TransportConfig::new()),
            concurrent_associations: DEFAULT_CONCURRENT_ASSOCIATIONS,
        }
    }
}

impl Default for ServerConfig {
    fn default() -> (c: ServerConfig)
        ensures
            *c.transport == default_transport(),
            c.concurrent_associations == DEFAULT_CONCURRENT_ASSOCIATIONS,
    {
        ServerConfig::new()
    }
}

/// Parameters of the associations that an endpoint initiates.
#[derive(Clone, Debug)]
pub struct ClientConfig {
    /// The parameters of the association.
    pub transport: Arc<TransportConfig>,
}

impl ClientConfig {
    /// The default parameters.
    pub fn new() -> (c: ClientConfig)
        ensures
            *c.transport == default_transport(),
    {
        ClientConfig { transport: Arc::new(TransportConfig::new()) }
    }
}

impl Default for ClientConfig {
    fn default() -> (c: ClientConfig)
        ensures
            *c.transport == default_transport(),
    {
        ClientConfig::new()
    }
}

/// The default parameters of an association that is initiated.
pub fn client_config() -> (c: ClientConfig)
    ensures
        *c.transport == default_transport(),
{
    ClientConfig::new()
}

/// The default parameters of associations that are accepted.
pub fn server_config() -> (c: ServerConfig)
    ensures
        *c.transport == default_transport(),
        c.concurrent_associations == DEFAULT_CONCURRENT_ASSOCIATIONS,
{
    ServerConfig::new()
}

} // verus!
