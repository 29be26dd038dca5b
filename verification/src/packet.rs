//! Packets and chunks, and their form on the wire.
//!
//! A packet is a common header of twelve bytes and any number of chunks. A
//! chunk is a type, flags, a 16-bit length that counts the chunk's header of
//! four bytes, and a value; chunks are padded to a multiple of four bytes.

use vstd::prelude::*;
use crate::chunk::{DataChunk, DataView, GapAckBlock, PayloadProtocolIdentifier};
use crate::error::Error;
use crate::param::{ParamHeader, ParamStateCookie, ParamType};
use crate::wire::{be16, be32, bytes16, bytes32, bytes32_le, copy_range, generate_packet_checksum, le32, packet_checksum, padded, read_u16, read_u32, read_u32_le, write_range, write_u16, write_u32, write_zeros, zeros};

verus! {

/// The size of the common header.
pub const PACKET_HEADER_SIZE: usize = 12;

/// The size of a chunk's header.
pub const CHUNK_HEADER_SIZE: usize = 4;

/// The size of the fixed part of a DATA chunk's value.
pub const DATA_HEADER_SIZE: usize = 12;

/// The size of the fixed part of an INIT chunk's value.
pub const INIT_HEADER_SIZE: usize = 16;

/// The largest value that a chunk can carry.
pub const MAX_CHUNK_VALUE: usize = 65531;

pub const CT_PAYLOAD_DATA: u8 = 0;

pub const CT_INIT: u8 = 1;

pub const CT_INIT_ACK: u8 = 2;

pub const CT_SACK: u8 = 3;

pub const CT_ABORT: u8 = 6;

pub const CT_SHUTDOWN: u8 = 7;

pub const CT_SHUTDOWN_ACK: u8 = 8;

pub const CT_ERROR: u8 = 9;

pub const CT_COOKIE_ECHO: u8 = 10;

pub const CT_COOKIE_ACK: u8 = 11;

pub const CT_SHUTDOWN_COMPLETE: u8 = 14;

pub const CT_RECONFIG: u8 = 130;

pub const CT_FORWARD_TSN: u8 = 192;

/// The parameter of a RE-CONFIG chunk that asks to reset streams.
pub const PT_RESET_REQUEST: u16 = 13;

/// The parameter of a RE-CONFIG chunk that answers a request.
pub const PT_RESET_RESPONSE: u16 = 16;

/// The size of a request to reset streams, without the streams it lists.
pub const RESET_REQUEST_SIZE: usize = 16;

/// The size of the answer to a request.
pub const RESET_RESPONSE_SIZE: usize = 12;

/// The answer to a request that needed nothing done.
pub const RESET_NOTHING_TO_DO: u32 = 0;

/// The answer to a request that was done.
pub const RESET_PERFORMED: u32 = 1;

/// The answer to a request that is refused.
pub const RESET_DENIED: u32 = 2;

/// The answer to a request whose sequence number is not the one that was expected.
pub const RESET_BAD_SEQUENCE: u32 = 5;

/// The answer to a request that cannot be done yet, and should be made again.
pub const RESET_IN_PROGRESS: u32 = 6;

/// The header that every packet begins with, but for the checksum.
#[derive(Clone, Copy, Debug, PartialEq, Eq, Structural)]
pub struct CommonHeader {
    pub source_port: u16,
    pub destination_port: u16,
    /// Names the association that the packet is for.
    pub verification_tag: u32,
}

/// An INIT or INIT ACK chunk.
#[derive(Debug)]
pub struct InitChunk {
    /// The tag that the sender wants to see in every packet it gets.
    pub initiate_tag: u32,
    /// The sender's receive window.
    pub a_rwnd: u32,
    pub num_outbound_streams: u16,
    pub num_inbound_streams: u16,
    /// The sequence number of the first DATA chunk that the sender will send.
    pub initial_tsn: u32,
    /// The state cookie; empty in an INIT.
    pub cookie: Vec<u8>,
    /// Whether the sender supports FORWARD TSN.
    pub forward_tsn_supported: bool,
}

/// An INIT or INIT ACK chunk as a mathematical value.
pub struct InitView {
    pub initiate_tag: u32,
    pub a_rwnd: u32,
    pub num_outbound_streams: u16,
    pub num_inbound_streams: u16,
    pub initial_tsn: u32,
    pub cookie: Seq<u8>,
    pub forward_tsn_supported: bool,
}

impl View for InitChunk {
    type V = InitView;

    open spec fn view(&self) -> InitView {
        InitView {
            initiate_tag: self.initiate_tag,
            a_rwnd: self.a_rwnd,
            num_outbound_streams: self.num_outbound_streams,
            num_inbound_streams: self.num_inbound_streams,
            initial_tsn: self.initial_tsn,
            cookie: self.cookie@,
            forward_tsn_supported: self.forward_tsn_supported,
        }
    }
}

/// A selective acknowledgement.
#[derive(Debug)]
pub struct SackChunk {
    /// The highest sequence number up to which everything was received.
    pub cumulative_tsn_ack: u32,
    /// The sender's receive window.
    pub a_rwnd: u32,
    /// What was received above the cumulative acknowledgement.
    pub gaps: Vec<GapAckBlock>,
    /// Sequence numbers that were received more than once.
    pub duplicate_tsns: Vec<u32>,
}

/// A selective acknowledgement as a mathematical value.
pub struct SackChunkView {
    pub cumulative_tsn_ack: u32,
    pub a_rwnd: u32,
    pub gaps: Seq<GapAckBlock>,
    pub duplicate_tsns: Seq<u32>,
}

impl View for SackChunk {
    type V = SackChunkView;

    open spec fn view(&self) -> SackChunkView {
        SackChunkView {
            cumulative_tsn_ack: self.cumulative_tsn_ack,
            a_rwnd: self.a_rwnd,
            gaps: self.gaps@,
            duplicate_tsns: self.duplicate_tsns@,
        }
    }
}

/// A stream that a FORWARD TSN chunk moves on, with the last stream sequence number skipped.
#[derive(Clone, Copy, Debug, PartialEq, Eq, Structural)]
pub struct ForwardTsnStream {
    pub stream_id: u16,
    pub ssn: u16,
}

/// A FORWARD TSN chunk: the sender has given up everything up to a sequence number.
#[derive(Debug)]
pub struct ForwardTsnChunk {
    pub new_cumulative_tsn: u32,
    pub streams: Vec<ForwardTsnStream>,
}

/// A FORWARD TSN chunk as a mathematical value.
pub struct ForwardTsnView {
    pub new_cumulative_tsn: u32,
    pub streams: Seq<ForwardTsnStream>,
}

impl View for ForwardTsnChunk {
    type V = ForwardTsnView;

    open spec fn view(&self) -> ForwardTsnView {
        ForwardTsnView { new_cumulative_tsn: self.new_cumulative_tsn, streams: self.streams@ }
    }
}

/// A request to reset streams: once the receiver has everything up to
/// `last_tsn`, the listed streams end, and begin again at stream sequence
/// number zero. A request that lists no stream asks for all of them.
#[derive(Debug)]
pub struct ResetRequest {
    /// Numbers the sender's requests.
    pub request_sequence: u32,
    /// The number of the last request of the peer that the sender has seen.
    pub response_sequence: u32,
    /// The last sequence number that the sender has given to a DATA chunk.
    pub last_tsn: u32,
    pub streams: Vec<u16>,
}

/// A request to reset streams as a mathematical value.
pub struct ResetRequestView {
    pub request_sequence: u32,
    pub response_sequence: u32,
    pub last_tsn: u32,
    pub streams: Seq<u16>,
}

impl View for ResetRequest {
    type V = ResetRequestView;

    open spec fn view(&self) -> ResetRequestView {
        ResetRequestView {
            request_sequence: self.request_sequence,
            response_sequence: self.response_sequence,
            last_tsn: self.last_tsn,
            streams: self.streams@,
        }
    }
}

/// The answer to a request to reset streams.
#[derive(Clone, Copy, Debug, PartialEq, Eq, Structural)]
pub struct ResetResponse {
    /// The number of the request that is answered.
    pub sequence: u32,
    /// What became of the request.
    pub result: u32,
}

/// A chunk, with the fields that the engine reads.
#[derive(Debug)]
pub enum Chunk {
    Data(DataChunk),
    Init(InitChunk),
    InitAck(InitChunk),
    Sack(SackChunk),
    Abort,
    /// Carries the cumulative acknowledgement of the side that shuts down.
    Shutdown(u32),
    ShutdownAck,
    Error,
    /// Carries the state cookie.
    CookieEcho(Vec<u8>),
    CookieAck,
    ShutdownComplete,
    ForwardTsn(ForwardTsnChunk),
    /// A RE-CONFIG chunk that asks to reset streams.
    ResetRequest(ResetRequest),
    /// A RE-CONFIG chunk that answers such a request.
    ResetResponse(ResetResponse),
    /// A chunk of a type that the engine does not know, or a RE-CONFIG
    /// chunk that holds anything else.
    Unknown(u8),
}

/// A chunk as a mathematical value.
pub enum ChunkView {
    Data(DataView),
    Init(InitView),
    InitAck(InitView),
    Sack(SackChunkView),
    Abort,
    Shutdown(u32),
    ShutdownAck,
    Error,
    CookieEcho(Seq<u8>),
    CookieAck,
    ShutdownComplete,
    ForwardTsn(ForwardTsnView),
    ResetRequest(ResetRequestView),
    ResetResponse(ResetResponse),
    Unknown(u8),
}

impl View for Chunk {
    type V = ChunkView;

    open spec fn view(&self) -> ChunkView {
        match self {
            Chunk::Data(d) => ChunkView::Data(d@),
            Chunk::Init(i) => ChunkView::Init(i@),
            Chunk::InitAck(i) => ChunkView::InitAck(i@),
            Chunk::Sack(s) => ChunkView::Sack(s@),
            Chunk::Abort => ChunkView::Abort,
            Chunk::Shutdown(t) => ChunkView::Shutdown(*t),
            Chunk::ShutdownAck => ChunkView::ShutdownAck,
            Chunk::Error => ChunkView::Error,
            Chunk::CookieEcho(c) => ChunkView::CookieEcho(c@),
            Chunk::CookieAck => ChunkView::CookieAck,
            Chunk::ShutdownComplete => ChunkView::ShutdownComplete,
            Chunk::ForwardTsn(f) => ChunkView::ForwardTsn(f@),
            Chunk::ResetRequest(r) => ChunkView::ResetRequest(r@),
            Chunk::ResetResponse(r) => ChunkView::ResetResponse(*r),
            Chunk::Unknown(t) => ChunkView::Unknown(*t),
        }
    }
}

/// The views of a sequence of chunks.
pub open spec fn chunk_views(s: Seq<Chunk>) -> Seq<ChunkView> {
    s.map_values(|c: Chunk| c@)
}

/// A packet.
#[derive(Debug)]
pub struct Packet {
    pub header: CommonHeader,
    pub chunks: Vec<Chunk>,
}

/// A packet as a mathematical value.
pub struct PacketView {
    pub header: CommonHeader,
    pub chunks: Seq<ChunkView>,
}

impl View for Packet {
    type V = PacketView;

    open spec fn view(&self) -> PacketView {
        PacketView { header: self.header, chunks: chunk_views(self.chunks@) }
    }
}

/// Whether a chunk of a type that the receiver does not know asks to be
/// reported to the sender: the second highest bit of the type says so.
pub open spec fn reports_unknown(typ: u8) -> bool {
    (typ / 0x40) % 2 == 1
}

/// Whether a chunk of a type that the receiver does not know lets the
/// receiver go on with the chunks after it: the highest bit of the type says so.
pub open spec fn skips_unknown(typ: u8) -> bool {
    typ / 0x80 == 1
}

/// The gap blocks that stand in `v` from `at` on, `n` of them.
pub open spec fn gaps_at(v: Seq<u8>, at: int, n: nat) -> Seq<GapAckBlock> {
    Seq::new(n, |i: int| GapAckBlock { start: be16(v, at + 4 * i), end: be16(v, at + 4 * i + 2) })
}

/// The 32-bit numbers that stand in `v` from `at` on, `n` of them.
pub open spec fn numbers_at(v: Seq<u8>, at: int, n: nat) -> Seq<u32> {
    Seq::new(n, |i: int| be32(v, at + 4 * i))
}

/// The streams of a FORWARD TSN chunk that stand in `v` from `at` on, `n` of them.
pub open spec fn streams_at(v: Seq<u8>, at: int, n: nat) -> Seq<ForwardTsnStream> {
    Seq::new(n, |i: int| ForwardTsnStream { stream_id: be16(v, at + 4 * i), ssn: be16(v, at + 4 * i + 2) })
}

/// The 16-bit numbers that stand in `v` from `at` on, `n` of them.
pub open spec fn shorts_at(v: Seq<u8>, at: int, n: nat) -> Seq<u16> {
    Seq::new(n, |i: int| be16(v, at + 2 * i))
}

/// The chunk that the value of a RE-CONFIG chunk stands for: a request to
/// reset streams or the answer to one, where the value is one such
/// parameter and nothing else. Any other value is left unread.
pub open spec fn parse_reconfig(v: Seq<u8>) -> ChunkView {
    if v.len() >= RESET_REQUEST_SIZE && be16(v, 0) == PT_RESET_REQUEST && be16(v, 2) == v.len() && v.len()
        % 2 == 0 {
        ChunkView::ResetRequest(
            ResetRequestView {
                request_sequence: be32(v, 4),
                response_sequence: be32(v, 8),
                last_tsn: be32(v, 12),
                streams: shorts_at(v, RESET_REQUEST_SIZE as int, ((v.len() - RESET_REQUEST_SIZE) / 2) as nat),
            },
        )
    } else if v.len() == RESET_RESPONSE_SIZE && be16(v, 0) == PT_RESET_RESPONSE && be16(v, 2)
        == RESET_RESPONSE_SIZE {
        ChunkView::ResetResponse(ResetResponse { sequence: be32(v, 4), result: be32(v, 8) })
    } else {
        ChunkView::Unknown(CT_RECONFIG)
    }
}

/// What the parameters of an INIT or INIT ACK chunk say, read from `at` on:
/// the state cookie and whether FORWARD TSN is supported. `cookie` and
/// `forward` are what the parameters before `at` said. `None` if a parameter
/// is cut short.
pub open spec fn parse_params(v: Seq<u8>, at: int, cookie: Seq<u8>, forward: bool) -> Option<(Seq<u8>, bool)>
    decreases v.len() - at,
{
    if at >= v.len() {
        Some((cookie, forward))
    } else if at < 0 || !ParamHeader::readable(v.skip(at)) {
        None
    } else {
        let h = ParamHeader::parsed(v.skip(at));
        let len = h.value_length + 4;
        let next_cookie = if h.typ == ParamType::StateCookie {
            v.subrange(at + 4, at + len)
        } else {
            cookie
        };
        let next_forward = forward || h.typ == ParamType::ForwardTsnSupp;
        if padded(len) >= v.len() - at {
            Some((next_cookie, next_forward))
        } else {
            parse_params(v, at + padded(len), next_cookie, next_forward)
        }
    }
}

/// The chunk that a type, flags and a value stand for, if the value has the
/// form that the type asks for.
pub open spec fn parse_value(typ: u8, flags: u8, v: Seq<u8>) -> Option<ChunkView> {
    if typ == CT_PAYLOAD_DATA {
        if v.len() < DATA_HEADER_SIZE {
            None
        } else {
            Some(
                ChunkView::Data(
                    DataView {
                        tsn: be32(v, 0),
                        stream_id: be16(v, 4),
                        ssn: be16(v, 6),
                        ppi: PayloadProtocolIdentifier::of_code(be32(v, 8)),
                        ending_fragment: flags % 2 == 1,
                        beginning_fragment: (flags / 2) % 2 == 1,
                        unordered: (flags / 4) % 2 == 1,
                        payload: v.skip(DATA_HEADER_SIZE as int),
                    },
                ),
            )
        }
    } else if typ == CT_INIT || typ == CT_INIT_ACK {
        if v.len() < INIT_HEADER_SIZE {
            None
        } else {
            match parse_params(v, INIT_HEADER_SIZE as int, Seq::<u8>::empty(), false) {
                None => None,
                Some((cookie, forward)) => {
                    let init = InitView {
                        initiate_tag: be32(v, 0),
                        a_rwnd: be32(v, 4),
                        num_outbound_streams: be16(v, 8),
                        num_inbound_streams: be16(v, 10),
                        initial_tsn: be32(v, 12),
                        cookie,
                        forward_tsn_supported: forward,
                    };
                    if typ == CT_INIT {
                        Some(ChunkView::Init(init))
                    } else {
                        Some(ChunkView::InitAck(init))
                    }
                },
            }
        }
    } else if typ == CT_SACK {
        if v.len() < 12 || v.len() != 12 + 4 * be16(v, 8) + 4 * be16(v, 10) {
            None
        } else {
            Some(
                ChunkView::Sack(
                    SackChunkView {
                        cumulative_tsn_ack: be32(v, 0),
                        a_rwnd: be32(v, 4),
                        gaps: gaps_at(v, 12, be16(v, 8) as nat),
                        duplicate_tsns: numbers_at(v, 12 + 4 * be16(v, 8), be16(v, 10) as nat),
                    },
                ),
            )
        }
    } else if typ == CT_ABORT {
        Some(ChunkView::Abort)
    } else if typ == CT_SHUTDOWN {
        if v.len() != 4 {
            None
        } else {
            Some(ChunkView::Shutdown(be32(v, 0)))
        }
    } else if typ == CT_SHUTDOWN_ACK {
        Some(ChunkView::ShutdownAck)
    } else if typ == CT_ERROR {
        Some(ChunkView::Error)
    } else if typ == CT_COOKIE_ECHO {
        Some(ChunkView::CookieEcho(v))
    } else if typ == CT_COOKIE_ACK {
        Some(ChunkView::CookieAck)
    } else if typ == CT_SHUTDOWN_COMPLETE {
        Some(ChunkView::ShutdownComplete)
    } else if typ == CT_RECONFIG {
        Some(parse_reconfig(v))
    } else if typ == CT_FORWARD_TSN {
        if v.len() < 4 || (v.len() - 4) % 4 != 0 {
            None
        } else {
            Some(
                ChunkView::ForwardTsn(
                    ForwardTsnView {
                        new_cumulative_tsn: be32(v, 0),
                        streams: streams_at(v, 4, ((v.len() - 4) / 4) as nat),
                    },
                ),
            )
        }
    } else {
        Some(ChunkView::Unknown(typ))
    }
}

/// The chunks that stand in `raw` from `at` on, after the chunks `before`;
/// the error if one of them cannot be read.
pub open spec fn parse_chunks(raw: Seq<u8>, at: int, before: Seq<ChunkView>) -> Result<Seq<ChunkView>, Error>
    decreases raw.len() - at,
{
    if at >= raw.len() {
        Ok(before)
    } else if at < 0 || raw.len() - at < CHUNK_HEADER_SIZE {
        Err(Error::ErrChunkHeaderTooSmall)
    } else {
        let len = be16(raw, at + 2);
        if len < CHUNK_HEADER_SIZE || at + len > raw.len() {
            Err(Error::ErrChunkHeaderInvalidLength)
        } else {
            match parse_value(raw[at], raw[at + 1], raw.subrange(at + 4, at + len)) {
                None => Err(Error::ErrChunkMalformed),
                Some(c) => if padded(len as int) >= raw.len() - at {
                    Ok(before.push(c))
                } else {
                    parse_chunks(raw, at + padded(len as int), before.push(c))
                },
            }
        }
    }
}

/// The header that `raw` begins with.
pub open spec fn parse_header(raw: Seq<u8>) -> CommonHeader {
    CommonHeader {
        source_port: be16(raw, 0),
        destination_port: be16(raw, 2),
        verification_tag: be32(raw, 4),
    }
}

/// The packet that `raw` holds, or the error that reading it ends in.
pub open spec fn parse_packet(raw: Seq<u8>) -> Result<PacketView, Error> {
    if raw.len() < PACKET_HEADER_SIZE {
        Err(Error::ErrPacketRawTooSmall)
    } else if le32(raw, 8) != packet_checksum(raw) {
        Err(Error::ErrChecksumMismatch)
    } else {
        match parse_chunks(raw, PACKET_HEADER_SIZE as int, Seq::<ChunkView>::empty()) {
            Err(e) => Err(e),
            Ok(chunks) => Ok(PacketView { header: parse_header(raw), chunks }),
        }
    }
}

/// Reads the parameters of an INIT or INIT ACK chunk. See `parse_params`.
fn read_params(v: &Vec<u8>) -> (r: Option<(Vec<u8>, bool)>)
    requires
        v.len() >= INIT_HEADER_SIZE,
    ensures
        match r {
            Some((cookie, forward)) => parse_params(v@, INIT_HEADER_SIZE as int, Seq::<u8>::empty(), false)
                == Some((cookie@, forward)),
            None => parse_params(v@, INIT_HEADER_SIZE as int, Seq::<u8>::empty(), false).is_none(),
        },
{
    let mut cookie: Vec<u8> = Vec::new();
    let mut forward: bool = false;
    let mut at: usize = INIT_HEADER_SIZE;
    while at < v.len()
        invariant
            INIT_HEADER_SIZE <= at,
            parse_params(v@, INIT_HEADER_SIZE as int, Seq::<u8>::empty(), false) == parse_params(
                v@,
                at as int,
                cookie@,
                forward,
            ),
        decreases v.len() - at,
    {
        let rest: Vec<u8> = copy_range(v, at, v.len());
        assert(rest@ =~= v@.skip(at as int));
        let h: ParamHeader = match ParamHeader::unmarshal(&rest) {
            Err(_) => {
                return None;
            },
            Ok(h) => h,
        };
        let len: usize = h.value_length() + 4;
        match h.typ {
            ParamType::StateCookie => {
                let param: Vec<u8> = copy_range(v, at, at + len);
                match ParamStateCookie::unmarshal(&param) {
                    Err(_) => {
                        assert(param@.len() == len);
                        assert(param@[2] == v@.skip(at as int)[2]);
                        assert(param@[3] == v@.skip(at as int)[3]);
                        assert(false);
                        return None;
                    },
                    Ok(p) => {
                        cookie = p.cookie;
                        assert(cookie@ =~= v@.subrange(at + 4, at + len));
                    },
                }
            },
            ParamType::ForwardTsnSupp => {
                forward = true;
            },
            _ => {},
        }
        let step: usize = (len + 3) / 4 * 4;
        if step >= v.len() - at {
            return Some((cookie, forward));
        }
        at = at + step;
    }
    Some((cookie, forward))
}

/// Reads the gap blocks of a selective acknowledgement.
fn read_gaps(v: &Vec<u8>, at: usize, n: usize) -> (r: Vec<GapAckBlock>)
    requires
        at + 4 * n <= v.len(),
    ensures
        r@ == gaps_at(v@, at as int, n as nat),
{
    let mut out: Vec<GapAckBlock> = Vec::new();
    let mut i: usize = 0;
    while i < n
        invariant
            i <= n,
            at + 4 * n <= v.len(),
            out@ == gaps_at(v@, at as int, i as nat),
        decreases n - i,
    {
        out.push(GapAckBlock { start: read_u16(v, at + 4 * i), end: read_u16(v, at + 4 * i + 2) });
        assert(out@ =~= gaps_at(v@, at as int, (i + 1) as nat));
        i = i + 1;
    }
    out
}

/// Reads the duplicate sequence numbers of a selective acknowledgement.
fn read_numbers(v: &Vec<u8>, at: usize, n: usize) -> (r: Vec<u32>)
    requires
        at + 4 * n <= v.len(),
    ensures
        r@ == numbers_at(v@, at as int, n as nat),
{
    let mut out: Vec<u32> = Vec::new();
    let mut i: usize = 0;
    while i < n
        invariant
            i <= n,
            at + 4 * n <= v.len(),
            out@ == numbers_at(v@, at as int, i as nat),
        decreases n - i,
    {
        out.push(read_u32(v, at + 4 * i));
        assert(out@ =~= numbers_at(v@, at as int, (i + 1) as nat));
        i = i + 1;
    }
    out
}

/// Reads the streams of a FORWARD TSN chunk.
fn read_streams(v: &Vec<u8>, at: usize, n: usize) -> (r: Vec<ForwardTsnStream>)
    requires
        at + 4 * n <= v.len(),
    ensures
        r@ == streams_at(v@, at as int, n as nat),
{
    let mut out: Vec<ForwardTsnStream> = Vec::new();
    let mut i: usize = 0;
    while i < n
        invariant
            i <= n,
            at + 4 * n <= v.len(),
            out@ == streams_at(v@, at as int, i as nat),
        decreases n - i,
    {
        out.push(
            ForwardTsnStream { stream_id: read_u16(v, at + 4 * i), ssn: read_u16(v, at + 4 * i + 2) },
        );
        assert(out@ =~= streams_at(v@, at as int, (i + 1) as nat));
        i = i + 1;
    }
    out
}

/// Reads the streams that a request to reset streams lists.
fn read_shorts(v: &Vec<u8>, at: usize, n: usize) -> (r: Vec<u16>)
    requires
        at + 2 * n <= v.len(),
    ensures
        r@ == shorts_at(v@, at as int, n as nat),
{
    let mut out: Vec<u16> = Vec::new();
    let mut i: usize = 0;
    while i < n
        invariant
            i <= n,
            at + 2 * n <= v.len(),
            out@ == shorts_at(v@, at as int, i as nat),
        decreases n - i,
    {
        out.push(read_u16(v, at + 2 * i));
        assert(out@ =~= shorts_at(v@, at as int, (i + 1) as nat));
        i = i + 1;
    }
    out
}

/// Reads the value of a RE-CONFIG chunk. See `parse_reconfig`.
fn read_reconfig(v: &Vec<u8>) -> (c: Chunk)
    ensures
        c@ == parse_reconfig(v@),
{
    if v.len() >= RESET_REQUEST_SIZE && read_u16(v, 0) == PT_RESET_REQUEST && read_u16(v, 2) as usize
        == v.len() && v.len() % 2 == 0 {
        let n: usize = (v.len() - RESET_REQUEST_SIZE) / 2;
        Chunk::ResetRequest(
            ResetRequest {
                request_sequence: read_u32(v, 4),
                response_sequence: read_u32(v, 8),
                last_tsn: read_u32(v, 12),
                streams: read_shorts(v, RESET_REQUEST_SIZE, n),
            },
        )
    } else if v.len() == RESET_RESPONSE_SIZE && read_u16(v, 0) == PT_RESET_RESPONSE && read_u16(v, 2) == 12 {
        Chunk::ResetResponse(ResetResponse { sequence: read_u32(v, 4), result: read_u32(v, 8) })
    } else {
        Chunk::Unknown(CT_RECONFIG)
    }
}

/// Reads the chunk that a type, flags and a value stand for. See `parse_value`.
pub fn unmarshal_value(typ: u8, flags: u8, v: &Vec<u8>) -> (r: Option<Chunk>)
    ensures
        match r {
            Some(c) => parse_value(typ, flags, v@) == Some(c@),
            None => parse_value(typ, flags, v@).is_none(),
        },
{
    if typ == CT_PAYLOAD_DATA {
        if v.len() < DATA_HEADER_SIZE {
            return None;
        }
        let payload: Vec<u8> = copy_range(v, DATA_HEADER_SIZE, v.len());
        assert(payload@ =~= v@.skip(DATA_HEADER_SIZE as int));
        Some(
            Chunk::Data(
                DataChunk {
                    tsn: read_u32(v, 0),
                    stream_id: read_u16(v, 4),
                    ssn: read_u16(v, 6),
                    ppi: PayloadProtocolIdentifier::from_u32(read_u32(v, 8)),
                    ending_fragment: flags % 2 == 1,
                    beginning_fragment: (flags / 2) % 2 == 1,
                    unordered: (flags / 4) % 2 == 1,
                    payload,
                },
            ),
        )
    } else if typ == CT_INIT || typ == CT_INIT_ACK {
        if v.len() < INIT_HEADER_SIZE {
            return None;
        }
        match read_params(v) {
            None => None,
            Some((cookie, forward)) => {
                let init = InitChunk {
                    initiate_tag: read_u32(v, 0),
                    a_rwnd: read_u32(v, 4),
                    num_outbound_streams: read_u16(v, 8),
                    num_inbound_streams: read_u16(v, 10),
                    initial_tsn: read_u32(v, 12),
                    cookie,
                    forward_tsn_supported: forward,
                };
                if typ == CT_INIT {
                    Some(Chunk::Init(init))
                } else {
                    Some(Chunk::InitAck(init))
                }
            },
        }
    } else if typ == CT_SACK {
        if v.len() < 12 {
            return None;
        }
        let n_gaps: usize = read_u16(v, 8) as usize;
        let n_dups: usize = read_u16(v, 10) as usize;
        if v.len() != 12 + 4 * n_gaps + 4 * n_dups {
            return None;
        }
        Some(
            Chunk::Sack(
                SackChunk {
                    cumulative_tsn_ack: read_u32(v, 0),
                    a_rwnd: read_u32(v, 4),
                    gaps: read_gaps(v, 12, n_gaps),
                    duplicate_tsns: read_numbers(v, 12 + 4 * n_gaps, n_dups),
                },
            ),
        )
    } else if typ == CT_ABORT {
        Some(Chunk::Abort)
    } else if typ == CT_SHUTDOWN {
        if v.len() != 4 {
            return None;
        }
        Some(Chunk::Shutdown(read_u32(v, 0)))
    } else if typ == CT_SHUTDOWN_ACK {
        Some(Chunk::ShutdownAck)
    } else if typ == CT_ERROR {
        Some(Chunk::Error)
    } else if typ == CT_COOKIE_ECHO {
        let cookie: Vec<u8> = copy_range(v, 0, v.len());
        assert(cookie@ =~= v@);
        Some(Chunk::CookieEcho(cookie))
    } else if typ == CT_COOKIE_ACK {
        Some(Chunk::CookieAck)
    } else if typ == CT_SHUTDOWN_COMPLETE {
        Some(Chunk::ShutdownComplete)
    } else if typ == CT_RECONFIG {
        Some(read_reconfig(v))
    } else if typ == CT_FORWARD_TSN {
        if v.len() < 4 || (v.len() - 4) % 4 != 0 {
            return None;
        }
        let n: usize = (v.len() - 4) / 4;
        Some(
            Chunk::ForwardTsn(
                ForwardTsnChunk { new_cumulative_tsn: read_u32(v, 0), streams: read_streams(v, 4, n) },
            ),
        )
    } else {
        Some(Chunk::Unknown(typ))
    }
}

/// Reads the chunks of a packet, which follow its header. See `parse_chunks`.
pub fn unmarshal_chunks(raw: &Vec<u8>) -> (r: Result<Vec<Chunk>, Error>)
    requires
        raw.len() >= PACKET_HEADER_SIZE,
    ensures
        match r {
            Ok(chunks) => parse_chunks(raw@, PACKET_HEADER_SIZE as int, Seq::<ChunkView>::empty()) == Ok::<
                Seq<ChunkView>,
                Error,
            >(chunk_views(chunks@)),
            Err(e) => parse_chunks(raw@, PACKET_HEADER_SIZE as int, Seq::<ChunkView>::empty()) == Err::<
                Seq<ChunkView>,
                Error,
            >(e),
        },
{
    let mut chunks: Vec<Chunk> = Vec::new();
    let mut at: usize = PACKET_HEADER_SIZE;
    assert(chunk_views(chunks@) =~= Seq::<ChunkView>::empty());
    while at < raw.len()
        invariant
            PACKET_HEADER_SIZE <= at,
            parse_chunks(raw@, PACKET_HEADER_SIZE as int, Seq::<ChunkView>::empty()) == parse_chunks(
                raw@,
                at as int,
                chunk_views(chunks@),
            ),
        decreases raw.len() - at,
    {
        if raw.len() - at < CHUNK_HEADER_SIZE {
            return Err(Error::ErrChunkHeaderTooSmall);
        }
        let typ: u8 = raw[at];
        let flags: u8 = raw[at + 1];
        let len: usize = read_u16(raw, at + 2) as usize;
        if len < CHUNK_HEADER_SIZE || len > raw.len() - at {
            return Err(Error::ErrChunkHeaderInvalidLength);
        }
        let value: Vec<u8> = copy_range(raw, at + 4, at + len);
        match unmarshal_value(typ, flags, &value) {
            None => {
                return Err(Error::ErrChunkMalformed);
            },
            Some(c) => {
                let ghost before = chunk_views(chunks@);
                chunks.push(c);
                assert(chunk_views(chunks@) =~= before.push(c@));
            },
        }
        let step: usize = (len + 3) / 4 * 4;
        if step >= raw.len() - at {
            return Ok(chunks);
        }
        at = at + step;
    }
    Ok(chunks)
}

impl Packet {
    /// Reads a packet. See `parse_packet`.
    pub fn unmarshal(raw: &Vec<u8>) -> (r: Result<Packet, Error>)
        ensures
            match r {
                Ok(p) => parse_packet(raw@) == Ok::<PacketView, Error>(p@),
                Err(e) => parse_packet(raw@) == Err::<PacketView, Error>(e),
            },
    {
        if raw.len() < PACKET_HEADER_SIZE {
            return Err(Error::ErrPacketRawTooSmall);
        }
        let theirs: u32 = read_u32_le(raw, 8);
        let ours: u32 = generate_packet_checksum(raw);
        if theirs != ours {
            return Err(Error::ErrChecksumMismatch);
        }
        let header = CommonHeader {
            source_port: read_u16(raw, 0),
            destination_port: read_u16(raw, 2),
            verification_tag: read_u32(raw, 4),
        };
        match unmarshal_chunks(raw) {
            Err(e) => Err(e),
            Ok(chunks) => Ok(Packet { header, chunks }),
        }
    }
}

/// The bytes of a sequence of gap blocks.
pub open spec fn gaps_bytes(gaps: Seq<GapAckBlock>) -> Seq<u8>
    decreases gaps.len(),
{
    if gaps.len() == 0 {
        Seq::<u8>::empty()
    } else {
        gaps_bytes(gaps.drop_last()) + bytes16(gaps.last().start) + bytes16(gaps.last().end)
    }
}

/// The bytes of a sequence of 32-bit numbers.
pub open spec fn numbers_bytes(numbers: Seq<u32>) -> Seq<u8>
    decreases numbers.len(),
{
    if numbers.len() == 0 {
        Seq::<u8>::empty()
    } else {
        numbers_bytes(numbers.drop_last()) + bytes32(numbers.last())
    }
}

/// The bytes of the streams of a FORWARD TSN chunk.
pub open spec fn streams_bytes(streams: Seq<ForwardTsnStream>) -> Seq<u8>
    decreases streams.len(),
{
    if streams.len() == 0 {
        Seq::<u8>::empty()
    } else {
        streams_bytes(streams.drop_last()) + bytes16(streams.last().stream_id) + bytes16(
            streams.last().ssn,
        )
    }
}

/// The bytes of a sequence of 16-bit numbers.
pub open spec fn shorts_bytes(numbers: Seq<u16>) -> Seq<u8>
    decreases numbers.len(),
{
    if numbers.len() == 0 {
        Seq::<u8>::empty()
    } else {
        shorts_bytes(numbers.drop_last()) + bytes16(numbers.last())
    }
}

/// A request to reset streams on the wire.
pub open spec fn reset_request_bytes(r: ResetRequestView) -> Seq<u8> {
    bytes16(PT_RESET_REQUEST) + bytes16((RESET_REQUEST_SIZE + 2 * r.streams.len()) as u16) + bytes32(
        r.request_sequence,
    ) + bytes32(r.response_sequence) + bytes32(r.last_tsn) + shorts_bytes(r.streams)
}

/// The answer to a request to reset streams on the wire.
pub open spec fn reset_response_bytes(r: ResetResponse) -> Seq<u8> {
    bytes16(PT_RESET_RESPONSE) + bytes16(RESET_RESPONSE_SIZE as u16) + bytes32(r.sequence) + bytes32(
        r.result,
    )
}

/// The parameters of an INIT or INIT ACK chunk on the wire: the state
/// cookie, if there is one, and the mark that FORWARD TSN is supported, if it is.
pub open spec fn params_bytes(init: InitView) -> Seq<u8> {
    let cookie = if init.cookie.len() > 0 {
        (ParamHeader { typ: ParamType::StateCookie, value_length: init.cookie.len() as u16 }).bytes()
            + init.cookie + zeros((padded(init.cookie.len() as int) - init.cookie.len()) as nat)
    } else {
        Seq::<u8>::empty()
    };
    let forward = if init.forward_tsn_supported {
        (ParamHeader { typ: ParamType::ForwardTsnSupp, value_length: 0 }).bytes()
    } else {
        Seq::<u8>::empty()
    };
    cookie + forward
}

/// The fixed part of an INIT or INIT ACK chunk on the wire.
pub open spec fn init_bytes(init: InitView) -> Seq<u8> {
    bytes32(init.initiate_tag) + bytes32(init.a_rwnd) + bytes16(init.num_outbound_streams) + bytes16(
        init.num_inbound_streams,
    ) + bytes32(init.initial_tsn)
}

/// The flags of a DATA chunk on the wire.
pub open spec fn data_flags(d: DataView) -> u8 {
    ((if d.ending_fragment { 1int } else { 0 }) + (if d.beginning_fragment { 2int } else { 0 }) + (
    if d.unordered { 4int } else { 0 })) as u8
}

/// A chunk's type on the wire.
pub open spec fn chunk_type(c: ChunkView) -> u8 {
    match c {
        ChunkView::Data(_) => CT_PAYLOAD_DATA,
        ChunkView::Init(_) => CT_INIT,
        ChunkView::InitAck(_) => CT_INIT_ACK,
        ChunkView::Sack(_) => CT_SACK,
        ChunkView::Abort => CT_ABORT,
        ChunkView::Shutdown(_) => CT_SHUTDOWN,
        ChunkView::ShutdownAck => CT_SHUTDOWN_ACK,
        ChunkView::Error => CT_ERROR,
        ChunkView::CookieEcho(_) => CT_COOKIE_ECHO,
        ChunkView::CookieAck => CT_COOKIE_ACK,
        ChunkView::ShutdownComplete => CT_SHUTDOWN_COMPLETE,
        ChunkView::ForwardTsn(_) => CT_FORWARD_TSN,
        ChunkView::ResetRequest(_) => CT_RECONFIG,
        ChunkView::ResetResponse(_) => CT_RECONFIG,
        ChunkView::Unknown(t) => t,
    }
}

/// A chunk's flags on the wire.
pub open spec fn chunk_flags(c: ChunkView) -> u8 {
    match c {
        ChunkView::Data(d) => data_flags(d),
        _ => 0,
    }
}

/// A chunk's value on the wire.
pub open spec fn chunk_value(c: ChunkView) -> Seq<u8> {
    match c {
        ChunkView::Data(d) => bytes32(d.tsn) + bytes16(d.stream_id) + bytes16(d.ssn) + bytes32(
            d.ppi.code(),
        ) + d.payload,
        ChunkView::Init(i) => init_bytes(i) + params_bytes(i),
        ChunkView::InitAck(i) => init_bytes(i) + params_bytes(i),
        ChunkView::Sack(s) => bytes32(s.cumulative_tsn_ack) + bytes32(s.a_rwnd) + bytes16(
            s.gaps.len() as u16,
        ) + bytes16(s.duplicate_tsns.len() as u16) + gaps_bytes(s.gaps) + numbers_bytes(
            s.duplicate_tsns,
        ),
        ChunkView::Shutdown(t) => bytes32(t),
        ChunkView::CookieEcho(cookie) => cookie,
        ChunkView::ForwardTsn(f) => bytes32(f.new_cumulative_tsn) + streams_bytes(f.streams),
        ChunkView::ResetRequest(r) => reset_request_bytes(r),
        ChunkView::ResetResponse(r) => reset_response_bytes(r),
        _ => Seq::<u8>::empty(),
    }
}

/// Whether a chunk can be written: its value, and each count and length in
/// it, fits the field that says it.
pub open spec fn chunk_fits(c: ChunkView) -> bool {
    &&& chunk_value(c).len() <= MAX_CHUNK_VALUE
    &&& match c {
        ChunkView::Data(d) => d.payload.len() <= MAX_CHUNK_VALUE,
        ChunkView::Init(i) => i.cookie.len() <= MAX_CHUNK_VALUE,
        ChunkView::InitAck(i) => i.cookie.len() <= MAX_CHUNK_VALUE,
        ChunkView::Sack(s) => s.gaps.len() <= 0xffff && s.duplicate_tsns.len() <= 0xffff,
        ChunkView::CookieEcho(cookie) => true,
        ChunkView::ForwardTsn(f) => f.streams.len() <= 0xffff,
        ChunkView::ResetRequest(r) => r.streams.len() <= 0x7fff,
        _ => true,
    }
}

/// A chunk on the wire: header, value, and padding to a multiple of four bytes.
pub open spec fn chunk_bytes(c: ChunkView) -> Seq<u8> {
    let value = chunk_value(c);
    seq![chunk_type(c), chunk_flags(c)] + bytes16((value.len() + CHUNK_HEADER_SIZE) as u16) + value
        + zeros((padded(value.len() as int) - value.len()) as nat)
}

/// A sequence of chunks on the wire.
pub open spec fn chunks_bytes(chunks: Seq<ChunkView>) -> Seq<u8>
    decreases chunks.len(),
{
    if chunks.len() == 0 {
        Seq::<u8>::empty()
    } else {
        chunks_bytes(chunks.drop_last()) + chunk_bytes(chunks.last())
    }
}

/// Whether each chunk of a sequence can be written.
pub open spec fn chunks_fit(chunks: Seq<ChunkView>) -> bool {
    forall|i: int| 0 <= i < chunks.len() ==> chunk_fits(#[trigger] chunks[i])
}

/// A packet on the wire with its checksum field at zero.
pub open spec fn packet_body(p: PacketView) -> Seq<u8> {
    bytes16(p.header.source_port) + bytes16(p.header.destination_port) + bytes32(
        p.header.verification_tag,
    ) + zeros(4) + chunks_bytes(p.chunks)
}

/// The bytes `s` with the four bytes at `at` replaced by the little-endian bytes of `v`.
pub open spec fn with_le32(s: Seq<u8>, at: int, v: u32) -> Seq<u8> {
    s.update(at, bytes32_le(v)[0]).update(at + 1, bytes32_le(v)[1]).update(at + 2, bytes32_le(v)[2]).update(
        at + 3,
        bytes32_le(v)[3],
    )
}

/// A packet on the wire.
pub open spec fn packet_bytes(p: PacketView) -> Seq<u8> {
    with_le32(packet_body(p), 8, packet_checksum(packet_body(p)))
}

/// Writes the value of a chunk. See `chunk_value`.
fn marshal_value(c: &Chunk, out: &mut Vec<u8>)
    requires
        chunk_fits(c@),
    ensures
        final(out)@ == old(out)@ + chunk_value(c@),
{
    let ghost start = out@;
    match c {
        Chunk::Data(d) => {
            write_u32(out, d.tsn);
            write_u16(out, d.stream_id);
            write_u16(out, d.ssn);
            write_u32(out, d.ppi.to_u32());
            write_range(out, &d.payload, 0, d.payload.len());
            assert(d.payload@.subrange(0, d.payload@.len() as int) =~= d.payload@);
            assert(out@ =~= start + chunk_value(c@));
        },
        Chunk::Init(i) => {
            marshal_init(i, out);
        },
        Chunk::InitAck(i) => {
            marshal_init(i, out);
        },
        Chunk::Sack(s) => {
            write_u32(out, s.cumulative_tsn_ack);
            write_u32(out, s.a_rwnd);
            write_u16(out, s.gaps.len() as u16);
            write_u16(out, s.duplicate_tsns.len() as u16);
            let ghost head = out@;
            let mut k: usize = 0;
            while k < s.gaps.len()
                invariant
                    k <= s.gaps.len(),
                    out@ == head + gaps_bytes(s.gaps@.take(k as int)),
                decreases s.gaps.len() - k,
            {
                let g: GapAckBlock = s.gaps[k];
                write_u16(out, g.start);
                write_u16(out, g.end);
                proof {
                    let next = s.gaps@.take(k + 1);
                    assert(next.drop_last() =~= s.gaps@.take(k as int));
                    assert(out@ =~= head + gaps_bytes(next));
                }
                k = k + 1;
            }
            assert(s.gaps@.take(s.gaps.len() as int) =~= s.gaps@);
            let ghost mid = out@;
            let mut k: usize = 0;
            while k < s.duplicate_tsns.len()
                invariant
                    k <= s.duplicate_tsns.len(),
                    out@ == mid + numbers_bytes(s.duplicate_tsns@.take(k as int)),
                decreases s.duplicate_tsns.len() - k,
            {
                write_u32(out, s.duplicate_tsns[k]);
                proof {
                    let next = s.duplicate_tsns@.take(k + 1);
                    assert(next.drop_last() =~= s.duplicate_tsns@.take(k as int));
                    assert(out@ =~= mid + numbers_bytes(next));
                }
                k = k + 1;
            }
            assert(s.duplicate_tsns@.take(s.duplicate_tsns.len() as int) =~= s.duplicate_tsns@);
            assert(out@ =~= start + chunk_value(c@));
        },
        Chunk::Shutdown(t) => {
            write_u32(out, *t);
        },
        Chunk::CookieEcho(cookie) => {
            write_range(out, cookie, 0, cookie.len());
            assert(cookie@.subrange(0, cookie@.len() as int) =~= cookie@);
        },
        Chunk::ResetRequest(r) => {
            write_u16(out, PT_RESET_REQUEST);
            write_u16(out, (RESET_REQUEST_SIZE + 2 * r.streams.len()) as u16);
            write_u32(out, r.request_sequence);
            write_u32(out, r.response_sequence);
            write_u32(out, r.last_tsn);
            let ghost head = out@;
            let mut k: usize = 0;
            while k < r.streams.len()
                invariant
                    k <= r.streams.len(),
                    out@ == head + shorts_bytes(r.streams@.take(k as int)),
                decreases r.streams.len() - k,
            {
                write_u16(out, r.streams[k]);
                proof {
                    let next = r.streams@.take(k + 1);
                    assert(next.drop_last() =~= r.streams@.take(k as int));
                    assert(out@ =~= head + shorts_bytes(next));
                }
                k = k + 1;
            }
            assert(r.streams@.take(r.streams.len() as int) =~= r.streams@);
            assert(out@ =~= start + chunk_value(c@));
        },
        Chunk::ResetResponse(r) => {
            write_u16(out, PT_RESET_RESPONSE);
            write_u16(out, RESET_RESPONSE_SIZE as u16);
            write_u32(out, r.sequence);
            write_u32(out, r.result);
            assert(out@ =~= start + chunk_value(c@));
        },
        Chunk::ForwardTsn(f) => {
            write_u32(out, f.new_cumulative_tsn);
            let ghost head = out@;
            let mut k: usize = 0;
            while k < f.streams.len()
                invariant
                    k <= f.streams.len(),
                    out@ == head + streams_bytes(f.streams@.take(k as int)),
                decreases f.streams.len() - k,
            {
                let st: ForwardTsnStream = f.streams[k];
                write_u16(out, st.stream_id);
                write_u16(out, st.ssn);
                proof {
                    let next = f.streams@.take(k + 1);
                    assert(next.drop_last() =~= f.streams@.take(k as int));
                    assert(out@ =~= head + streams_bytes(next));
                }
                k = k + 1;
            }
            assert(f.streams@.take(f.streams.len() as int) =~= f.streams@);
            assert(out@ =~= start + chunk_value(c@));
        },
        _ => {
            assert(out@ =~= start + chunk_value(c@));
        },
    }
}

/// Writes the value of an INIT or INIT ACK chunk.
fn marshal_init(i: &InitChunk, out: &mut Vec<u8>)
    requires
        i@.cookie.len() <= MAX_CHUNK_VALUE,
    ensures
        final(out)@ == old(out)@ + init_bytes(i@) + params_bytes(i@),
{
    let ghost start = out@;
    write_u32(out, i.initiate_tag);
    write_u32(out, i.a_rwnd);
    write_u16(out, i.num_outbound_streams);
    write_u16(out, i.num_inbound_streams);
    write_u32(out, i.initial_tsn);
    assert(out@ =~= start + init_bytes(i@));
    let ghost head = out@;
    if i.cookie.len() > 0 {
        let h = ParamHeader { typ: ParamType::StateCookie, value_length: i.cookie.len() as u16 };
        let _ = h.marshal_to(out);
        write_range(out, &i.cookie, 0, i.cookie.len());
        assert(i.cookie@.subrange(0, i.cookie@.len() as int) =~= i.cookie@);
        let pad: usize = (i.cookie.len() + 3) / 4 * 4 - i.cookie.len();
        write_zeros(out, pad);
    }
    let ghost mid = out@;
    if i.forward_tsn_supported {
        let h = ParamHeader { typ: ParamType::ForwardTsnSupp, value_length: 0 };
        let _ = h.marshal_to(out);
    }
    assert(out@ =~= head + params_bytes(i@));
}

/// Whether a chunk can be written. See `chunk_fits`.
pub fn fits(c: &Chunk) -> (r: bool)
    ensures
        r == chunk_fits(c@),
{
    match c {
        Chunk::Data(d) => d.payload.len() <= MAX_CHUNK_VALUE - DATA_HEADER_SIZE,
        Chunk::Init(i) => init_fits(i),
        Chunk::InitAck(i) => init_fits(i),
        Chunk::Sack(s) => {
            proof {
                lemma_gaps_bytes_len(s.gaps@);
                lemma_numbers_bytes_len(s.duplicate_tsns@);
            }
            s.gaps.len() <= 0xffff && s.duplicate_tsns.len() <= 0xffff && 12 + 4 * s.gaps.len() + 4
                * s.duplicate_tsns.len() <= MAX_CHUNK_VALUE
        },
        Chunk::CookieEcho(cookie) => cookie.len() <= MAX_CHUNK_VALUE,
        Chunk::ForwardTsn(f) => {
            proof {
                lemma_streams_bytes_len(f.streams@);
            }
            f.streams.len() <= 0xffff && 4 + 4 * f.streams.len() <= MAX_CHUNK_VALUE
        },
        Chunk::ResetRequest(r) => {
            proof {
                lemma_shorts_bytes_len(r.streams@);
            }
            r.streams.len() <= 0x7fff && RESET_REQUEST_SIZE + 2 * r.streams.len() <= MAX_CHUNK_VALUE
        },
        _ => true,
    }
}

/// Whether an INIT or INIT ACK chunk can be written.
fn init_fits(i: &InitChunk) -> (r: bool)
    ensures
        r == (i@.cookie.len() <= MAX_CHUNK_VALUE && (init_bytes(i@) + params_bytes(i@)).len()
            <= MAX_CHUNK_VALUE),
{
    if i.cookie.len() > MAX_CHUNK_VALUE {
        return false;
    }
    let cookie: usize = if i.cookie.len() > 0 { 4 + (i.cookie.len() + 3) / 4 * 4 } else { 0 };
    let forward: usize = if i.forward_tsn_supported { 4 } else { 0 };
    INIT_HEADER_SIZE + cookie + forward <= MAX_CHUNK_VALUE
}

/// The bytes of a sequence of gap blocks are four for each block.
pub proof fn lemma_gaps_bytes_len(gaps: Seq<GapAckBlock>)
    ensures
        gaps_bytes(gaps).len() == 4 * gaps.len(),
    decreases gaps.len(),
{
    if gaps.len() > 0 {
        lemma_gaps_bytes_len(gaps.drop_last());
    }
}

/// The bytes of a sequence of 32-bit numbers are four for each number.
pub proof fn lemma_numbers_bytes_len(numbers: Seq<u32>)
    ensures
        numbers_bytes(numbers).len() == 4 * numbers.len(),
    decreases numbers.len(),
{
    if numbers.len() > 0 {
        lemma_numbers_bytes_len(numbers.drop_last());
    }
}

/// The bytes of the streams of a FORWARD TSN chunk are four for each stream.
pub proof fn lemma_streams_bytes_len(streams: Seq<ForwardTsnStream>)
    ensures
        streams_bytes(streams).len() == 4 * streams.len(),
    decreases streams.len(),
{
    if streams.len() > 0 {
        lemma_streams_bytes_len(streams.drop_last());
    }
}

/// The bytes of a sequence of 16-bit numbers are two for each number.
pub proof fn lemma_shorts_bytes_len(numbers: Seq<u16>)
    ensures
        shorts_bytes(numbers).len() == 2 * numbers.len(),
    decreases numbers.len(),
{
    if numbers.len() > 0 {
        lemma_shorts_bytes_len(numbers.drop_last());
    }
}

/// The flags of a chunk on the wire.
fn flags_of(c: &Chunk) -> (f: u8)
    ensures
        f == chunk_flags(c@),
{
    match c {
        Chunk::Data(d) => {
            let e: u8 = if d.ending_fragment { 1 } else { 0 };
            let b: u8 = if d.beginning_fragment { 2 } else { 0 };
            let u: u8 = if d.unordered { 4 } else { 0 };
            e + b + u
        },
        _ => 0,
    }
}

/// The type of a chunk on the wire.
pub fn type_of(c: &Chunk) -> (t: u8)
    ensures
        t == chunk_type(c@),
{
    match c {
        Chunk::Data(_) => CT_PAYLOAD_DATA,
        Chunk::Init(_) => CT_INIT,
        Chunk::InitAck(_) => CT_INIT_ACK,
        Chunk::Sack(_) => CT_SACK,
        Chunk::Abort => CT_ABORT,
        Chunk::Shutdown(_) => CT_SHUTDOWN,
        Chunk::ShutdownAck => CT_SHUTDOWN_ACK,
        Chunk::Error => CT_ERROR,
        Chunk::CookieEcho(_) => CT_COOKIE_ECHO,
        Chunk::CookieAck => CT_COOKIE_ACK,
        Chunk::ShutdownComplete => CT_SHUTDOWN_COMPLETE,
        Chunk::ForwardTsn(_) => CT_FORWARD_TSN,
        Chunk::ResetRequest(_) => CT_RECONFIG,
        Chunk::ResetResponse(_) => CT_RECONFIG,
        Chunk::Unknown(t) => *t,
    }
}

/// Appends a chunk to `out`. A chunk that cannot be written leaves `out` as it was.
pub fn marshal_chunk(c: &Chunk, out: &mut Vec<u8>) -> (r: Result<(), Error>)
    ensures
        match r {
            Ok(_) => chunk_fits(c@) && final(out)@ == old(out)@ + chunk_bytes(c@),
            Err(e) => !chunk_fits(c@) && e == Error::ErrChunkTooLong && final(out)@ == old(out)@,
        },
{
    if !fits(c) {
        return Err(Error::ErrChunkTooLong);
    }
    let mut value: Vec<u8> = Vec::new();
    marshal_value(c, &mut value);
    assert(value@ =~= chunk_value(c@));
    let ghost start = out@;
    out.push(type_of(c));
    out.push(flags_of(c));
    write_u16(out, (value.len() + CHUNK_HEADER_SIZE) as u16);
    write_range(out, &value, 0, value.len());
    assert(value@.subrange(0, value@.len() as int) =~= value@);
    let pad: usize = (value.len() + 3) / 4 * 4 - value.len();
    write_zeros(out, pad);
    assert(out@ =~= start + chunk_bytes(c@));
    Ok(())
}

impl Packet {
    /// The packet's bytes, or an error if one of its chunks cannot be written.
    pub fn marshal(&self) -> (r: Result<Vec<u8>, Error>)
        ensures
            match r {
                Ok(raw) => chunks_fit(self@.chunks) && raw@ == packet_bytes(self@),
                Err(e) => !chunks_fit(self@.chunks) && e == Error::ErrChunkTooLong,
            },
    {
        let mut out: Vec<u8> = Vec::new();
        write_u16(&mut out, self.header.source_port);
        write_u16(&mut out, self.header.destination_port);
        write_u32(&mut out, self.header.verification_tag);
        write_zeros(&mut out, 4);
        let ghost head = out@;
        let mut k: usize = 0;
        assert(self@.chunks.take(0) =~= Seq::<ChunkView>::empty());
        while k < self.chunks.len()
            invariant
                k <= self.chunks.len(),
                chunks_fit(self@.chunks.take(k as int)),
                out@ == head + chunks_bytes(self@.chunks.take(k as int)),
                head.len() == 12,
            decreases self.chunks.len() - k,
        {
            assert(self@.chunks[k as int] == self.chunks@[k as int]@);
            match marshal_chunk(&self.chunks[k], &mut out) {
                Err(e) => {
                    return Err(e);
                },
                Ok(_) => {},
            }
            proof {
                let next = self@.chunks.take(k + 1);
                assert(next.drop_last() =~= self@.chunks.take(k as int));
                assert(next.last() == self@.chunks[k as int]);
                assert forall|i: int| 0 <= i < next.len() implies chunk_fits(#[trigger] next[i]) by {
                    if i < k {
                        assert(next[i] == self@.chunks.take(k as int)[i]);
                    }
                }
                assert(out@ =~= head + chunks_bytes(next));
            }
            k = k + 1;
        }
        assert(self@.chunks.take(self.chunks.len() as int) =~= self@.chunks);
        assert(out@ =~= packet_body(self@));
        let sum: u32 = generate_packet_checksum(&out);
        out.set(8, (sum % 0x100) as u8);
        out.set(9, ((sum / 0x100) % 0x100) as u8);
        out.set(10, ((sum / 0x1_0000) % 0x100) as u8);
        out.set(11, (sum / 0x100_0000) as u8);
        assert(out@ =~= packet_bytes(self@));
        Ok(out)
    }
}

} // verus!
