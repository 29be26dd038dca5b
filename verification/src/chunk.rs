//! User data as it travels: the DATA chunk, and the record a sender keeps of
//! each chunk until it is acknowledged or given up.

use vstd::prelude::*;

verus! {

/// The largest payload one DATA chunk can carry: a chunk's length field has 16
/// bits and counts the headers too.
pub const MAX_CHUNK_PAYLOAD: usize = 65519;

/// Tag that tells the receiving application what a message holds. The
/// transport carries it with the user data and never looks at it.
#[derive(Clone, Copy, Debug, PartialEq, Eq, Structural)]
pub enum PayloadProtocolIdentifier {
    /// Data channel establishment messages.
    Dcep,
    /// Text.
    String,
    /// Binary data.
    Binary,
    /// Text of length zero.
    StringEmpty,
    /// Binary data of length zero.
    BinaryEmpty,
    /// Anything else.
    Unknown,
}

impl PayloadProtocolIdentifier {
    /// The identifier's number on the wire.
    pub open spec fn code(self) -> u32 {
        match self {
            PayloadProtocolIdentifier::Dcep => 50,
            PayloadProtocolIdentifier::String => 51,
            PayloadProtocolIdentifier::Binary => 53,
            PayloadProtocolIdentifier::StringEmpty => 56,
            PayloadProtocolIdentifier::BinaryEmpty => 57,
            PayloadProtocolIdentifier::Unknown => 0,
        }
    }

    /// The identifier that a number on the wire stands for.
    pub open spec fn of_code(v: u32) -> PayloadProtocolIdentifier {
        if v == 50 {
            PayloadProtocolIdentifier::Dcep
        } else if v == 51 {
            PayloadProtocolIdentifier::String
        } else if v == 53 {
            PayloadProtocolIdentifier::Binary
        } else if v == 56 {
            PayloadProtocolIdentifier::StringEmpty
        } else if v == 57 {
            PayloadProtocolIdentifier::BinaryEmpty
        } else {
            PayloadProtocolIdentifier::Unknown
        }
    }

    /// The identifier's number on the wire.
    pub fn to_u32(self) -> (v: u32)
        ensures
            v == self.code(),
    {
        match self {
            PayloadProtocolIdentifier::Dcep => 50,
            PayloadProtocolIdentifier::String => 51,
            PayloadProtocolIdentifier::Binary => 53,
            PayloadProtocolIdentifier::StringEmpty => 56,
            PayloadProtocolIdentifier::BinaryEmpty => 57,
            PayloadProtocolIdentifier::Unknown => 0,
        }
    }

    /// The identifier that a number on the wire stands for.
    pub fn from_u32(v: u32) -> (p: PayloadProtocolIdentifier)
        ensures
            p == PayloadProtocolIdentifier::of_code(v),
    {
        if v == 50 {
            PayloadProtocolIdentifier::Dcep
        } else if v == 51 {
            PayloadProtocolIdentifier::String
        } else if v == 53 {
            PayloadProtocolIdentifier::Binary
        } else if v == 56 {
            PayloadProtocolIdentifier::StringEmpty
        } else if v == 57 {
            PayloadProtocolIdentifier::BinaryEmpty
        } else {
            PayloadProtocolIdentifier::Unknown
        }
    }
}

/// Reading a known identifier's number gives the identifier back.
pub proof fn lemma_ppi_round_trip(p: PayloadProtocolIdentifier)
    requires
        p != PayloadProtocolIdentifier::Unknown,
    ensures
        PayloadProtocolIdentifier::of_code(p.code()) == p,
{
}

/// How hard a stream tries to deliver a message.
#[derive(Clone, Copy, Debug, PartialEq, Eq, Structural)]
pub enum ReliabilityType {
    /// Every message is sent again until it is acknowledged.
    Reliable,
    /// A message is given up once it has been sent again a number of times.
    Rexmit,
    /// A message is given up once a number of milliseconds has passed since it was first sent.
    Timed,
}

/// One DATA chunk: a fragment of a user message, or a whole one.
#[derive(Debug)]
pub struct DataChunk {
    /// Transmission sequence number.
    pub tsn: u32,
    /// The stream the message belongs to.
    pub stream_id: u16,
    /// The message's sequence number within its stream.
    pub ssn: u16,
    /// What the message holds.
    pub ppi: PayloadProtocolIdentifier,
    /// Set on the first fragment of a message.
    pub beginning_fragment: bool,
    /// Set on the last fragment of a message.
    pub ending_fragment: bool,
    /// Set when the message may be delivered out of order.
    pub unordered: bool,
    /// The fragment's bytes.
    pub payload: Vec<u8>,
}

/// A DATA chunk as a mathematical value.
pub struct DataView {
    pub tsn: u32,
    pub stream_id: u16,
    pub ssn: u16,
    pub ppi: PayloadProtocolIdentifier,
    pub beginning_fragment: bool,
    pub ending_fragment: bool,
    pub unordered: bool,
    pub payload: Seq<u8>,
}

impl View for DataChunk {
    type V = DataView;

    open spec fn view(&self) -> DataView {
        DataView {
            tsn: self.tsn,
            stream_id: self.stream_id,
            ssn: self.ssn,
            ppi: self.ppi,
            beginning_fragment: self.beginning_fragment,
            ending_fragment: self.ending_fragment,
            unordered: self.unordered,
            payload: self.payload@,
        }
    }
}

impl Clone for DataChunk {
    fn clone(&self) -> (c: DataChunk)
        ensures
            c@ == self@,
    {
        DataChunk {
            tsn: self.tsn,
            stream_id: self.stream_id,
            ssn: self.ssn,
            ppi: self.ppi,
            beginning_fragment: self.beginning_fragment,
            ending_fragment: self.ending_fragment,
            unordered: self.unordered,
            payload: copy_bytes(&self.payload),
        }
    }
}

/// A copy of `src`.
pub fn copy_bytes(src: &Vec<u8>) -> (dst: Vec<u8>)
    ensures
        dst@ == src@,
{
    let mut dst: Vec<u8> = Vec::with_capacity(src.len());
    let mut i: usize = 0;
    while i < src.len()
        invariant
            i <= src.len(),
            dst@ == src@.take(i as int),
        decreases src.len() - i,
    {
        dst.push(src[i]);
        assert(dst@ =~= src@.take(i + 1));
        i = i + 1;
    }
    assert(src@.take(src.len() as int) =~= src@);
    dst
}

/// What a sender remembers of a DATA chunk it has sent, until the chunk is
/// acknowledged or given up.
#[derive(Debug)]
pub struct PendingChunk {
    /// The chunk as it was sent.
    pub data: DataChunk,
    /// When the chunk was first sent, in milliseconds.
    pub send_time: u64,
    /// How often the chunk has been sent.
    pub transmit_count: u32,
    /// How often a later chunk was reported received while this one was not.
    pub miss_indicator: u8,
    /// Whether a gap block has reported the chunk received.
    pub acked: bool,
    /// Whether the sender has given the chunk up.
    pub abandoned: bool,
    /// Whether the chunk is waiting to be sent again.
    pub retransmit: bool,
    /// How hard the sender tries to deliver the chunk.
    pub reliability_type: ReliabilityType,
    /// The limit that goes with `reliability_type`.
    pub reliability_value: u32,
}

/// A sender's record of a chunk as a mathematical value.
pub struct PendingView {
    pub data: DataView,
    pub send_time: u64,
    pub transmit_count: u32,
    pub miss_indicator: u8,
    pub acked: bool,
    pub abandoned: bool,
    pub retransmit: bool,
    pub reliability_type: ReliabilityType,
    pub reliability_value: u32,
}

impl View for PendingChunk {
    type V = PendingView;

    open spec fn view(&self) -> PendingView {
        PendingView {
            data: self.data@,
            send_time: self.send_time,
            transmit_count: self.transmit_count,
            miss_indicator: self.miss_indicator,
            acked: self.acked,
            abandoned: self.abandoned,
            retransmit: self.retransmit,
            reliability_type: self.reliability_type,
            reliability_value: self.reliability_value,
        }
    }
}

/// The views of a sequence of DATA chunks.
pub open spec fn data_views(s: Seq<DataChunk>) -> Seq<DataView> {
    s.map_values(|c: DataChunk| c@)
}

/// The views of a sequence of pending chunks.
pub open spec fn pending_views(s: Seq<PendingChunk>) -> Seq<PendingView> {
    s.map_values(|c: PendingChunk| c@)
}

/// A range of sequence numbers above the cumulative acknowledgement that a
/// selective acknowledgement reports received. Both ends are offsets from the
/// cumulative acknowledgement and belong to the range.
#[derive(Clone, Copy, Debug, PartialEq, Eq, Structural)]
pub struct GapAckBlock {
    pub start: u16,
    pub end: u16,
}

} // verus!
