//! What an endpoint and its associations hand to each other.

use vstd::prelude::*;
use crate::error::Error;
use crate::packet::{
    parse_header,
    parse_packet,
    CommonHeader,
    Packet,
    PacketView,
    CT_INIT,
    PACKET_HEADER_SIZE,
};
use crate::wire::{be32, generate_packet_checksum, le32, packet_checksum, read_u16, read_u32, read_u32_le};

verus! {

/// Names an association on the wire: the verification tag.
pub type AssociationId = u32;

/// Explicit congestion notification codepoints.
#[derive(Clone, Copy, Debug, PartialEq, Eq, Structural)]
pub enum EcnCodepoint {
    Ect0,
    Ect1,
    Ce,
}

impl EcnCodepoint {
    /// The codepoint that the two low bits of a traffic class say.
    pub open spec fn of_bits(x: u8) -> Option<EcnCodepoint> {
        if x % 4 == 2 {
            Some(EcnCodepoint::Ect0)
        } else if x % 4 == 1 {
            Some(EcnCodepoint::Ect1)
        } else if x % 4 == 3 {
            Some(EcnCodepoint::Ce)
        } else {
            None
        }
    }

    /// The codepoint's two bits.
    pub open spec fn bits(self) -> u8 {
        match self {
            EcnCodepoint::Ect0 => 2,
            EcnCodepoint::Ect1 => 1,
            EcnCodepoint::Ce => 3,
        }
    }

    /// The codepoint that the two low bits of a traffic class say.
    pub fn from_bits(x: u8) -> (r: Option<EcnCodepoint>)
        ensures
            r == EcnCodepoint::of_bits(x),
            r matches Some(c) ==> c.bits() == x % 4,
    {
        let low: u8 = x % 4;
        if low == 2 {
            Some(EcnCodepoint::Ect0)
        } else if low == 1 {
            Some(EcnCodepoint::Ect1)
        } else if low == 3 {
            Some(EcnCodepoint::Ce)
        } else {
            None
        }
    }

    /// The codepoint's two bits.
    pub fn to_bits(self) -> (x: u8)
        ensures
            x == self.bits(),
            EcnCodepoint::of_bits(x) == Some(self),
    {
        match self {
            EcnCodepoint::Ect0 => 2,
            EcnCodepoint::Ect1 => 1,
            EcnCodepoint::Ce => 3,
        }
    }
}

/// An IP address.
#[derive(Clone, Copy, Debug, PartialEq, Eq, Structural)]
pub enum IpAddress {
    V4(u32),
    V6(u128),
}

/// An IP address and a port.
#[derive(Clone, Copy, Debug, PartialEq, Eq, Structural)]
pub struct SocketAddress {
    pub ip: IpAddress,
    pub port: u16,
}

/// An identifier that an endpoint has issued to an association.
#[derive(Clone, Copy, Debug, PartialEq, Eq, Structural)]
pub struct IssuedAid {
    pub sequence: u64,
    pub id: AssociationId,
}

/// A datagram of which the header was read and the chunks were not yet.
#[derive(Debug)]
pub struct PartialDecode {
    common_header: CommonHeader,
    first_chunk_type: Option<u8>,
    initiate_tag: Option<u32>,
    raw: Vec<u8>,
}

/// Whether the bytes are long enough for a packet and carry the right checksum.
pub open spec fn header_readable(raw: Seq<u8>) -> bool {
    raw.len() >= PACKET_HEADER_SIZE && le32(raw, 8) == packet_checksum(raw)
}

/// The type of the first chunk of a packet, if the packet has room for a chunk header.
pub open spec fn first_chunk_type_of(raw: Seq<u8>) -> Option<u8> {
    if raw.len() >= PACKET_HEADER_SIZE + 4 {
        Some(raw[PACKET_HEADER_SIZE as int])
    } else {
        None
    }
}

/// The initiate tag of a packet that begins with an INIT chunk, if the packet has room for it.
pub open spec fn initiate_tag_of(raw: Seq<u8>) -> Option<u32> {
    if raw.len() >= PACKET_HEADER_SIZE + 8 && raw[PACKET_HEADER_SIZE as int] == CT_INIT {
        Some(be32(raw, PACKET_HEADER_SIZE + 4))
    } else {
        None
    }
}

impl PartialDecode {
    /// The datagram's bytes.
    pub closed spec fn raw(&self) -> Seq<u8> {
        self.raw@
    }

    /// The fields say what the datagram's bytes say.
    pub closed spec fn wf(&self) -> bool {
        &&& header_readable(self.raw@)
        &&& self.common_header == parse_header(self.raw@)
        &&& self.first_chunk_type == first_chunk_type_of(self.raw@)
        &&& self.initiate_tag == initiate_tag_of(self.raw@)
    }

    /// Reads the header of a datagram, the type of its first chunk, and the
    /// initiate tag if that chunk is an INIT.
    pub fn unmarshal(raw: Vec<u8>) -> (r: Result<PartialDecode, Error>)
        ensures
            match r {
                Ok(p) => header_readable(raw@) && p.wf() && p.raw() == raw@,
                Err(e) => !header_readable(raw@) && e == (if raw@.len() < PACKET_HEADER_SIZE {
                    Error::ErrPacketRawTooSmall
                } else {
                    Error::ErrChecksumMismatch
                }),
            },
    {
        if raw.len() < PACKET_HEADER_SIZE {
            return Err(Error::ErrPacketRawTooSmall);
        }
        let theirs: u32 = read_u32_le(&raw, 8);
        let ours: u32 = generate_packet_checksum(&raw);
        if theirs != ours {
            return Err(Error::ErrChecksumMismatch);
        }
        let common_header = CommonHeader {
            source_port: read_u16(&raw, 0),
            destination_port: read_u16(&raw, 2),
            verification_tag: read_u32(&raw, 4),
        };
        let first_chunk_type: Option<u8> = if raw.len() >= PACKET_HEADER_SIZE + 4 {
            Some(raw[PACKET_HEADER_SIZE])
        } else {
            None
        };
        let initiate_tag: Option<u32> = if raw.len() >= PACKET_HEADER_SIZE + 8 && raw[PACKET_HEADER_SIZE]
            == CT_INIT {
            Some(read_u32(&raw, PACKET_HEADER_SIZE + 4))
        } else {
            None
        };
        Ok(PartialDecode { common_header, first_chunk_type, initiate_tag, raw })
    }

    /// The datagram's header.
    pub fn common_header(&self) -> (h: CommonHeader)
        requires
            self.wf(),
        ensures
            h == parse_header(self.raw()),
    {
        self.common_header
    }

    /// The type of the datagram's first chunk.
    pub fn first_chunk_type(&self) -> (t: Option<u8>)
        requires
            self.wf(),
        ensures
            t == first_chunk_type_of(self.raw()),
    {
        self.first_chunk_type
    }

    /// The initiate tag, if the datagram begins with an INIT.
    pub fn initiate_tag(&self) -> (t: Option<u32>)
        requires
            self.wf(),
        ensures
            t == initiate_tag_of(self.raw()),
    {
        self.initiate_tag
    }

    /// Reads the rest of the datagram.
    pub fn finish(self) -> (r: Result<Packet, Error>)
        ensures
            match r {
                Ok(p) => parse_packet(self.raw()) == Ok::<PacketView, Error>(p@),
                Err(e) => parse_packet(self.raw()) == Err::<PacketView, Error>(e),
            },
    {
        Packet::unmarshal(&self.raw)
    }
}

/// What a datagram carries.
#[derive(Debug)]
pub enum Payload {
    /// An inbound datagram of which the header was read.
    PartialDecode(PartialDecode),
    /// Outbound packets, as bytes.
    RawEncode(Vec<Vec<u8>>),
}

/// A datagram on its way in or out.
#[derive(Debug)]
pub struct Transmit {
    /// When the datagram arrived or was made, in milliseconds.
    pub now: u64,
    /// Where the datagram came from or goes to.
    pub remote: SocketAddress,
    /// The congestion notification bits to send, or those that were received.
    pub ecn: Option<EcnCodepoint>,
    /// The local address that the datagram arrived on or leaves from.
    pub local_ip: Option<IpAddress>,
    /// What the datagram carries.
    pub payload: Payload,
}

/// What an endpoint tells an association.
#[derive(Debug)]
pub enum AssociationEventInner {
    /// A datagram for the association arrived.
    Datagram(Transmit),
    /// New identifiers were issued to the association at the given time.
    NewIdentifiers(Vec<IssuedAid>, u64),
}

/// What an endpoint tells an association.
#[derive(Debug)]
pub struct AssociationEvent(pub AssociationEventInner);

/// What an association tells its endpoint.
#[derive(Clone, Copy, Debug, PartialEq, Eq, Structural)]
pub enum EndpointEventInner {
    /// The association has ended and all of its state can be dropped.
    Drained,
    /// The association no longer uses the identifier with the given
    /// sequence; the flag says whether a new one may be issued for it.
    RetireAssociationId(u64, u64, bool),
    /// The association asks for this many more identifiers.
    NeedIdentifiers(u64, u64),
}

/// What an association tells its endpoint.
#[derive(Clone, Copy, Debug, PartialEq, Eq, Structural)]
pub struct EndpointEvent(pub EndpointEventInner);

impl EndpointEvent {
    /// The event that says that the association has ended.
    pub fn drained() -> (e: EndpointEvent)
        ensures
            e == EndpointEvent(EndpointEventInner::Drained),
    {
        EndpointEvent(EndpointEventInner::Drained)
    }

    /// Whether the event says that the association has ended.
    pub fn is_drained(&self) -> (b: bool)
        ensures
            b == (self.0 == EndpointEventInner::Drained),
    {
        match self.0 {
            EndpointEventInner::Drained => true,
            _ => false,
        }
    }
}

} // verus!
