//! What is written is read back: a packet that was put into bytes and is
//! read from them again is the packet that it was.

use vstd::prelude::*;
use crate::chunk::{DataView, GapAckBlock};
use crate::error::Error;
use crate::packet::{
    chunk_bytes,
    chunk_fits,
    chunk_flags,
    chunk_type,
    chunk_value,
    chunks_bytes,
    chunks_fit,
    data_flags,
    gaps_at,
    gaps_bytes,
    init_bytes,
    lemma_gaps_bytes_len,
    lemma_numbers_bytes_len,
    lemma_shorts_bytes_len,
    lemma_streams_bytes_len,
    numbers_at,
    numbers_bytes,
    packet_body,
    packet_bytes,
    params_bytes,
    parse_chunks,
    parse_header,
    parse_packet,
    parse_params,
    parse_reconfig,
    parse_value,
    shorts_at,
    shorts_bytes,
    streams_at,
    streams_bytes,
    with_le32,
    ChunkView,
    ForwardTsnStream,
    InitView,
    PacketView,
    CT_ABORT,
    CT_COOKIE_ACK,
    CT_COOKIE_ECHO,
    CT_ERROR,
    CT_FORWARD_TSN,
    CT_INIT,
    CT_INIT_ACK,
    CT_PAYLOAD_DATA,
    CT_RECONFIG,
    CT_SACK,
    CT_SHUTDOWN,
    CT_SHUTDOWN_ACK,
    CT_SHUTDOWN_COMPLETE,
};
use crate::param::{ParamHeader, ParamType};
use crate::wire::{be16, be32, bytes16, bytes32, bytes32_le, le32, packet_checksum, padded, zeros};

verus! {

/// Whether the chunk type `t` is one that the engine knows.
pub open spec fn is_known_type(t: u8) -> bool {
    t == CT_PAYLOAD_DATA || t == CT_INIT || t == CT_INIT_ACK || t == CT_SACK || t == CT_ABORT || t
        == CT_SHUTDOWN || t == CT_SHUTDOWN_ACK || t == CT_ERROR || t == CT_COOKIE_ECHO || t
        == CT_COOKIE_ACK || t == CT_SHUTDOWN_COMPLETE || t == CT_RECONFIG || t == CT_FORWARD_TSN
}

/// Whether a chunk is what it says: one of an unknown type does not have a type that is known.
pub open spec fn plain(c: ChunkView) -> bool {
    c matches ChunkView::Unknown(t) ==> !is_known_type(t)
}

/// Whether each chunk of a sequence is what it says.
pub open spec fn all_plain(chunks: Seq<ChunkView>) -> bool {
    forall|i: int| 0 <= i < chunks.len() ==> plain(#[trigger] chunks[i])
}

/// Where the bytes of a 16-bit number stand, the number is read.
pub proof fn lemma_read16(s: Seq<u8>, at: int, x: u16)
    requires
        0 <= at,
        at + 2 <= s.len(),
        s.subrange(at, at + 2) == bytes16(x),
    ensures
        be16(s, at) == x,
{
    assert(s[at] == s.subrange(at, at + 2)[0]);
    assert(s[at + 1] == s.subrange(at, at + 2)[1]);
}

/// Where the bytes of a 32-bit number stand, the number is read.
pub proof fn lemma_read32(s: Seq<u8>, at: int, x: u32)
    requires
        0 <= at,
        at + 4 <= s.len(),
        s.subrange(at, at + 4) == bytes32(x),
    ensures
        be32(s, at) == x,
{
    assert(s[at] == s.subrange(at, at + 4)[0]);
    assert(s[at + 1] == s.subrange(at, at + 4)[1]);
    assert(s[at + 2] == s.subrange(at, at + 4)[2]);
    assert(s[at + 3] == s.subrange(at, at + 4)[3]);
}

/// The bytes of the gap block `i` stand at four times `i` in the bytes of the gap blocks.
pub proof fn lemma_gaps_bytes_at(gaps: Seq<GapAckBlock>, i: int)
    requires
        0 <= i < gaps.len(),
    ensures
        gaps_bytes(gaps).len() == 4 * gaps.len(),
        gaps_bytes(gaps).subrange(4 * i, 4 * i + 2) == bytes16(gaps[i].start),
        gaps_bytes(gaps).subrange(4 * i + 2, 4 * i + 4) == bytes16(gaps[i].end),
    decreases gaps.len(),
{
    lemma_gaps_bytes_len(gaps);
    lemma_gaps_bytes_len(gaps.drop_last());
    let front = gaps_bytes(gaps.drop_last());
    let all = gaps_bytes(gaps);
    if i == gaps.len() - 1 {
        assert(all.subrange(4 * i, 4 * i + 2) =~= bytes16(gaps[i].start));
        assert(all.subrange(4 * i + 2, 4 * i + 4) =~= bytes16(gaps[i].end));
    } else {
        lemma_gaps_bytes_at(gaps.drop_last(), i);
        assert(all.subrange(4 * i, 4 * i + 2) =~= front.subrange(4 * i, 4 * i + 2));
        assert(all.subrange(4 * i + 2, 4 * i + 4) =~= front.subrange(4 * i + 2, 4 * i + 4));
    }
}

/// The bytes of the number `i` stand at four times `i` in the bytes of the numbers.
pub proof fn lemma_numbers_bytes_at(numbers: Seq<u32>, i: int)
    requires
        0 <= i < numbers.len(),
    ensures
        numbers_bytes(numbers).len() == 4 * numbers.len(),
        numbers_bytes(numbers).subrange(4 * i, 4 * i + 4) == bytes32(numbers[i]),
    decreases numbers.len(),
{
    lemma_numbers_bytes_len(numbers);
    lemma_numbers_bytes_len(numbers.drop_last());
    let front = numbers_bytes(numbers.drop_last());
    let all = numbers_bytes(numbers);
    if i == numbers.len() - 1 {
        assert(all.subrange(4 * i, 4 * i + 4) =~= bytes32(numbers[i]));
    } else {
        lemma_numbers_bytes_at(numbers.drop_last(), i);
        assert(all.subrange(4 * i, 4 * i + 4) =~= front.subrange(4 * i, 4 * i + 4));
    }
}

/// The bytes of the stream `i` stand at four times `i` in the bytes of the streams.
pub proof fn lemma_streams_bytes_at(streams: Seq<ForwardTsnStream>, i: int)
    requires
        0 <= i < streams.len(),
    ensures
        streams_bytes(streams).len() == 4 * streams.len(),
        streams_bytes(streams).subrange(4 * i, 4 * i + 2) == bytes16(streams[i].stream_id),
        streams_bytes(streams).subrange(4 * i + 2, 4 * i + 4) == bytes16(streams[i].ssn),
    decreases streams.len(),
{
    lemma_streams_bytes_len(streams);
    lemma_streams_bytes_len(streams.drop_last());
    let front = streams_bytes(streams.drop_last());
    let all = streams_bytes(streams);
    if i == streams.len() - 1 {
        assert(all.subrange(4 * i, 4 * i + 2) =~= bytes16(streams[i].stream_id));
        assert(all.subrange(4 * i + 2, 4 * i + 4) =~= bytes16(streams[i].ssn));
    } else {
        lemma_streams_bytes_at(streams.drop_last(), i);
        assert(all.subrange(4 * i, 4 * i + 2) =~= front.subrange(4 * i, 4 * i + 2));
        assert(all.subrange(4 * i + 2, 4 * i + 4) =~= front.subrange(4 * i + 2, 4 * i + 4));
    }
}

/// A DATA chunk is read back from its value.
pub proof fn lemma_data_round_trip(d: DataView)
    ensures
        parse_value(CT_PAYLOAD_DATA, data_flags(d), chunk_value(ChunkView::Data(d))) == Some(
            ChunkView::Data(d),
        ),
{
    let v = chunk_value(ChunkView::Data(d));
    assert(v.subrange(0, 4) =~= bytes32(d.tsn));
    assert(v.subrange(4, 6) =~= bytes16(d.stream_id));
    assert(v.subrange(6, 8) =~= bytes16(d.ssn));
    assert(v.subrange(8, 12) =~= bytes32(d.ppi.code()));
    lemma_read32(v, 0, d.tsn);
    lemma_read16(v, 4, d.stream_id);
    lemma_read16(v, 6, d.ssn);
    lemma_read32(v, 8, d.ppi.code());
    assert(v.skip(12) =~= d.payload);
}

/// A selective acknowledgement is read back from its value.
pub proof fn lemma_sack_round_trip(c: ChunkView)
    requires
        c is Sack,
        chunk_fits(c),
    ensures
        parse_value(CT_SACK, 0, chunk_value(c)) == Some(c),
{
    let s = c->Sack_0;
    let v = chunk_value(c);
    let head = bytes32(s.cumulative_tsn_ack) + bytes32(s.a_rwnd) + bytes16(s.gaps.len() as u16) + bytes16(
        s.duplicate_tsns.len() as u16,
    );
    lemma_gaps_bytes_len(s.gaps);
    lemma_numbers_bytes_len(s.duplicate_tsns);
    assert(v.subrange(0, 4) =~= bytes32(s.cumulative_tsn_ack));
    assert(v.subrange(4, 8) =~= bytes32(s.a_rwnd));
    assert(v.subrange(8, 10) =~= bytes16(s.gaps.len() as u16));
    assert(v.subrange(10, 12) =~= bytes16(s.duplicate_tsns.len() as u16));
    lemma_read32(v, 0, s.cumulative_tsn_ack);
    lemma_read32(v, 4, s.a_rwnd);
    lemma_read16(v, 8, s.gaps.len() as u16);
    lemma_read16(v, 10, s.duplicate_tsns.len() as u16);
    let n = s.gaps.len();
    let m = s.duplicate_tsns.len();
    let n_int = n as int;
    assert forall|i: int| 0 <= i < n implies gaps_at(v, 12, n)[i] == s.gaps[i] by {
        lemma_gaps_bytes_at(s.gaps, i);
        assert(v.subrange(12 + 4 * i, 12 + 4 * i + 2) =~= gaps_bytes(s.gaps).subrange(4 * i, 4 * i + 2));
        assert(v.subrange(12 + 4 * i + 2, 12 + 4 * i + 4) =~= gaps_bytes(s.gaps).subrange(
            4 * i + 2,
            4 * i + 4,
        ));
        lemma_read16(v, 12 + 4 * i, s.gaps[i].start);
        lemma_read16(v, 12 + 4 * i + 2, s.gaps[i].end);
    }
    assert(gaps_at(v, 12, n) =~= s.gaps);
    assert forall|i: int| 0 <= i < m implies numbers_at(v, 12 + 4 * n_int, m)[i] == s.duplicate_tsns[i] by {
        lemma_numbers_bytes_at(s.duplicate_tsns, i);
        assert(v.subrange(12 + 4 * n_int + 4 * i, 12 + 4 * n_int + 4 * i + 4) =~= numbers_bytes(
            s.duplicate_tsns,
        ).subrange(4 * i, 4 * i + 4));
        lemma_read32(v, 12 + 4 * n_int + 4 * i, s.duplicate_tsns[i]);
    }
    assert(numbers_at(v, 12 + 4 * n_int, m) =~= s.duplicate_tsns);
}

/// A FORWARD TSN chunk is read back from its value.
pub proof fn lemma_forward_round_trip(c: ChunkView)
    requires
        c is ForwardTsn,
        chunk_fits(c),
    ensures
        parse_value(CT_FORWARD_TSN, 0, chunk_value(c)) == Some(c),
{
    let f = c->ForwardTsn_0;
    let v = chunk_value(c);
    lemma_streams_bytes_len(f.streams);
    assert(v.subrange(0, 4) =~= bytes32(f.new_cumulative_tsn));
    lemma_read32(v, 0, f.new_cumulative_tsn);
    let n = f.streams.len();
    assert forall|i: int| 0 <= i < n implies streams_at(v, 4, n)[i] == f.streams[i] by {
        lemma_streams_bytes_at(f.streams, i);
        assert(v.subrange(4 + 4 * i, 4 + 4 * i + 2) =~= streams_bytes(f.streams).subrange(4 * i, 4 * i + 2));
        assert(v.subrange(4 + 4 * i + 2, 4 + 4 * i + 4) =~= streams_bytes(f.streams).subrange(
            4 * i + 2,
            4 * i + 4,
        ));
        lemma_read16(v, 4 + 4 * i, f.streams[i].stream_id);
        lemma_read16(v, 4 + 4 * i + 2, f.streams[i].ssn);
    }
    assert(streams_at(v, 4, n) =~= f.streams);
}

/// The bytes of the number `i` stand at two times `i` in the bytes of the 16-bit numbers.
pub proof fn lemma_shorts_bytes_at(numbers: Seq<u16>, i: int)
    requires
        0 <= i < numbers.len(),
    ensures
        shorts_bytes(numbers).len() == 2 * numbers.len(),
        shorts_bytes(numbers).subrange(2 * i, 2 * i + 2) == bytes16(numbers[i]),
    decreases numbers.len(),
{
    lemma_shorts_bytes_len(numbers);
    lemma_shorts_bytes_len(numbers.drop_last());
    let front = shorts_bytes(numbers.drop_last());
    let all = shorts_bytes(numbers);
    if i == numbers.len() - 1 {
        assert(all.subrange(2 * i, 2 * i + 2) =~= bytes16(numbers[i]));
    } else {
        lemma_shorts_bytes_at(numbers.drop_last(), i);
        assert(all.subrange(2 * i, 2 * i + 2) =~= front.subrange(2 * i, 2 * i + 2));
    }
}

/// A request to reset streams is read back from its value.
pub proof fn lemma_reset_request_round_trip(c: ChunkView)
    requires
        c is ResetRequest,
        chunk_fits(c),
    ensures
        parse_reconfig(chunk_value(c)) == c,
{
    let r = c->ResetRequest_0;
    let v = chunk_value(c);
    let n = r.streams.len();
    lemma_shorts_bytes_len(r.streams);
    assert(v.len() == 16 + 2 * n);
    assert(v.subrange(0, 2) =~= bytes16(crate::packet::PT_RESET_REQUEST));
    assert(v.subrange(2, 4) =~= bytes16((16 + 2 * n) as u16));
    assert(v.subrange(4, 8) =~= bytes32(r.request_sequence));
    assert(v.subrange(8, 12) =~= bytes32(r.response_sequence));
    assert(v.subrange(12, 16) =~= bytes32(r.last_tsn));
    lemma_read16(v, 0, crate::packet::PT_RESET_REQUEST);
    lemma_read16(v, 2, (16 + 2 * n) as u16);
    lemma_read32(v, 4, r.request_sequence);
    lemma_read32(v, 8, r.response_sequence);
    lemma_read32(v, 12, r.last_tsn);
    assert forall|i: int| 0 <= i < n implies shorts_at(v, 16, n)[i] == r.streams[i] by {
        lemma_shorts_bytes_at(r.streams, i);
        assert(v.subrange(16 + 2 * i, 16 + 2 * i + 2) =~= shorts_bytes(r.streams).subrange(2 * i, 2 * i + 2));
        lemma_read16(v, 16 + 2 * i, r.streams[i]);
    }
    assert(shorts_at(v, 16, n) =~= r.streams);
    assert(((v.len() - 16) / 2) as nat == n);
}

/// The answer to a request to reset streams is read back from its value.
pub proof fn lemma_reset_response_round_trip(c: ChunkView)
    requires
        c is ResetResponse,
    ensures
        parse_reconfig(chunk_value(c)) == c,
{
    let r = c->ResetResponse_0;
    let v = chunk_value(c);
    assert(v.len() == 12);
    assert(v.subrange(0, 2) =~= bytes16(crate::packet::PT_RESET_RESPONSE));
    assert(v.subrange(2, 4) =~= bytes16(12));
    assert(v.subrange(4, 8) =~= bytes32(r.sequence));
    assert(v.subrange(8, 12) =~= bytes32(r.result));
    lemma_read16(v, 0, crate::packet::PT_RESET_RESPONSE);
    lemma_read16(v, 2, 12);
    lemma_read32(v, 4, r.sequence);
    lemma_read32(v, 8, r.result);
}

/// The header of a parameter is read back from its bytes.
pub proof fn lemma_param_header_round_trip(h: ParamHeader, rest: Seq<u8>)
    requires
        h.value_length <= crate::param::MAX_PARAM_VALUE,
        h.value_length <= rest.len(),
        !(h.typ is Unknown),
    ensures
        ParamHeader::readable(h.bytes() + rest),
        ParamHeader::parsed(h.bytes() + rest) == h,
{
    let s = h.bytes() + rest;
    assert(s.subrange(0, 2) =~= bytes16(h.typ.code()));
    assert(s.subrange(2, 4) =~= bytes16((h.value_length + 4) as u16));
    lemma_read16(s, 0, h.typ.code());
    lemma_read16(s, 2, (h.value_length + 4) as u16);
}

/// The parameters of an INIT or INIT ACK chunk are read back from its value.
pub proof fn lemma_params_round_trip(i: InitView)
    requires
        i.cookie.len() <= crate::param::MAX_PARAM_VALUE,
    ensures
        parse_params(init_bytes(i) + params_bytes(i), 16, Seq::<u8>::empty(), false) == Some(
            (i.cookie, i.forward_tsn_supported),
        ),
{
    let v = init_bytes(i) + params_bytes(i);
    let fh = ParamHeader { typ: ParamType::ForwardTsnSupp, value_length: 0 };
    assert(init_bytes(i).len() == 16);
    if i.cookie.len() > 0 {
        let ch = ParamHeader { typ: ParamType::StateCookie, value_length: i.cookie.len() as u16 };
        let pad = zeros((padded(i.cookie.len() as int) - i.cookie.len()) as nat);
        let tail = if i.forward_tsn_supported { fh.bytes() } else { Seq::<u8>::empty() };
        let rest = i.cookie + pad + tail;
        assert(v.skip(16) =~= ch.bytes() + rest);
        lemma_param_header_round_trip(ch, rest);
        let len = (i.cookie.len() + 4) as int;
        assert(v.subrange(20, 16 + len) =~= i.cookie);
        if i.forward_tsn_supported {
            let at = 16 + padded(len);
            assert(v.skip(at) =~= fh.bytes() + Seq::<u8>::empty());
            lemma_param_header_round_trip(fh, Seq::<u8>::empty());
            assert(parse_params(v, at, i.cookie, false) == Some((i.cookie, true)));
        }
    } else {
        if i.forward_tsn_supported {
            assert(v.skip(16) =~= fh.bytes() + Seq::<u8>::empty());
            lemma_param_header_round_trip(fh, Seq::<u8>::empty());
        } else {
            assert(v.len() == 16);
        }
    }
}

/// An INIT or INIT ACK chunk is read back from its value.
pub proof fn lemma_init_round_trip(c: ChunkView)
    requires
        c is Init || c is InitAck,
        chunk_fits(c),
    ensures
        parse_value(chunk_type(c), 0, chunk_value(c)) == Some(c),
{
    let i = if c is Init { c->Init_0 } else { c->InitAck_0 };
    let v = chunk_value(c);
    assert(v == init_bytes(i) + params_bytes(i));
    assert(v.subrange(0, 4) =~= bytes32(i.initiate_tag));
    assert(v.subrange(4, 8) =~= bytes32(i.a_rwnd));
    assert(v.subrange(8, 10) =~= bytes16(i.num_outbound_streams));
    assert(v.subrange(10, 12) =~= bytes16(i.num_inbound_streams));
    assert(v.subrange(12, 16) =~= bytes32(i.initial_tsn));
    lemma_read32(v, 0, i.initiate_tag);
    lemma_read32(v, 4, i.a_rwnd);
    lemma_read16(v, 8, i.num_outbound_streams);
    lemma_read16(v, 10, i.num_inbound_streams);
    lemma_read32(v, 12, i.initial_tsn);
    lemma_params_round_trip(i);
}

/// A chunk is read back from its type, its flags and its value.
pub proof fn lemma_value_round_trip(c: ChunkView)
    requires
        chunk_fits(c),
        plain(c),
    ensures
        parse_value(chunk_type(c), chunk_flags(c), chunk_value(c)) == Some(c),
{
    match c {
        ChunkView::Data(d) => {
            lemma_data_round_trip(d);
        },
        ChunkView::Init(_) => {
            lemma_init_round_trip(c);
        },
        ChunkView::InitAck(_) => {
            lemma_init_round_trip(c);
        },
        ChunkView::Sack(_) => {
            lemma_sack_round_trip(c);
        },
        ChunkView::ForwardTsn(_) => {
            lemma_forward_round_trip(c);
        },
        ChunkView::Shutdown(t) => {
            let v = chunk_value(c);
            assert(v.subrange(0, 4) =~= bytes32(t));
            lemma_read32(v, 0, t);
        },
        ChunkView::ResetRequest(_) => {
            lemma_reset_request_round_trip(c);
        },
        ChunkView::ResetResponse(_) => {
            lemma_reset_response_round_trip(c);
        },
        _ => {},
    }
}

/// How the bytes of a chunk are laid out: the type, the flags, the length
/// of header and value, the value, and the padding.
pub proof fn lemma_chunk_layout(c: ChunkView)
    requires
        chunk_fits(c),
    ensures
        chunk_bytes(c).len() == padded((chunk_value(c).len() + 4) as int),
        chunk_bytes(c).len() >= chunk_value(c).len() + 4,
        chunk_value(c).len() + 4 <= 0xffff,
        chunk_bytes(c)[0] == chunk_type(c),
        chunk_bytes(c)[1] == chunk_flags(c),
        chunk_bytes(c).subrange(2, 4) == bytes16((chunk_value(c).len() + 4) as u16),
        chunk_bytes(c).subrange(4, (chunk_value(c).len() + 4) as int) == chunk_value(c),
{
    let v = chunk_value(c);
    let b = chunk_bytes(c);
    assert(b.subrange(2, 4) =~= bytes16((v.len() + 4) as u16));
    assert(b.subrange(4, (v.len() + 4) as int) =~= v);
}

/// The bytes of chunks put one after the other begin with those of the first.
#[verifier::rlimit(50)]
pub proof fn lemma_chunks_bytes_front(first: ChunkView, rest: Seq<ChunkView>)
    ensures
        chunks_bytes(seq![first] + rest) == chunk_bytes(first) + chunks_bytes(rest),
    decreases rest.len(),
{
    let all = seq![first] + rest;
    if rest.len() == 0 {
        assert(all.drop_last() =~= Seq::<ChunkView>::empty());
        assert(all.last() == first);
        assert(chunks_bytes(all.drop_last()) =~= Seq::<u8>::empty());
        assert(chunks_bytes(rest) =~= Seq::<u8>::empty());
        assert(chunks_bytes(all) == chunks_bytes(all.drop_last()) + chunk_bytes(all.last()));
        assert(chunks_bytes(all) =~= chunk_bytes(first) + chunks_bytes(rest));
    } else {
        lemma_chunks_bytes_front(first, rest.drop_last());
        assert(all.drop_last() =~= seq![first] + rest.drop_last());
        assert(all.last() == rest.last());
        assert(chunks_bytes(all) == chunks_bytes(all.drop_last()) + chunk_bytes(all.last()));
        assert(chunks_bytes(rest) == chunks_bytes(rest.drop_last()) + chunk_bytes(rest.last()));
        assert(chunks_bytes(all) =~= chunk_bytes(first) + chunks_bytes(rest));
    }
}

/// Whether `bytes` are a type, flags, the length of header and value in 16
/// bits, the value, and something behind it.
pub open spec fn laid_out(bytes: Seq<u8>, typ: u8, flags: u8, value: Seq<u8>) -> bool {
    &&& value.len() + 4 <= 0xffff
    &&& bytes.len() >= value.len() + 4
    &&& bytes[0] == typ
    &&& bytes[1] == flags
    &&& bytes.subrange(2, 4) == bytes16((value.len() + 4) as u16)
    &&& bytes.subrange(4, (value.len() + 4) as int) == value
}

/// Where a chunk's bytes stand at the place `at`, its type, its flags, its
/// length and its value are read there, and what follows it follows there.
pub proof fn lemma_read_laid_out(
    raw: Seq<u8>,
    at: int,
    bytes: Seq<u8>,
    typ: u8,
    flags: u8,
    value: Seq<u8>,
    after: Seq<u8>,
)
    requires
        0 <= at <= raw.len(),
        raw.subrange(at, raw.len() as int) == bytes + after,
        laid_out(bytes, typ, flags, value),
    ensures
        raw.len() - at >= 4,
        at + bytes.len() <= raw.len(),
        raw[at] == typ,
        raw[at + 1] == flags,
        be16(raw, at + 2) == value.len() + 4,
        raw.subrange(at + 4, at + value.len() + 4) == value,
        raw.subrange(at + bytes.len(), raw.len() as int) == after,
{
    let len = (value.len() + 4) as int;
    let tail = raw.subrange(at, raw.len() as int);
    assert(tail.len() == bytes.len() + after.len());
    assert(raw[at] == tail[0]);
    assert(raw[at + 1] == tail[1]);
    assert(tail[0] == bytes[0]);
    assert(tail[1] == bytes[1]);
    assert(raw.subrange(at + 2, at + 4) =~= bytes.subrange(2, 4)) by {
        assert(raw[at + 2] == tail[2]);
        assert(raw[at + 3] == tail[3]);
        assert(tail[2] == bytes[2]);
        assert(tail[3] == bytes[3]);
    }
    lemma_read16(raw, at + 2, len as u16);
    let inner = raw.subrange(at + 4, at + len);
    assert(inner =~= value) by {
        assert forall|k: int| 0 <= k < value.len() implies #[trigger] inner[k] == value[k] by {
            assert(raw[at + 4 + k] == tail[4 + k]);
            assert(tail[4 + k] == bytes[4 + k]);
            assert(bytes.subrange(4, len)[k] == bytes[4 + k]);
        }
    }
    let left = raw.subrange(at + bytes.len(), raw.len() as int);
    assert(left =~= after) by {
        assert forall|k: int| 0 <= k < after.len() implies #[trigger] left[k] == after[k] by {
            assert(raw[at + bytes.len() + k] == tail[bytes.len() + k]);
        }
    }
}

/// Where a chunk was written at the place `at`, its type, flags, length and
/// value stand there.
pub proof fn lemma_chunk_found(raw: Seq<u8>, at: int, c: ChunkView, after: Seq<u8>)
    requires
        0 <= at <= raw.len(),
        raw.subrange(at, raw.len() as int) == chunk_bytes(c) + after,
        chunk_fits(c),
    ensures
        raw.len() - at >= 4,
        at + chunk_bytes(c).len() <= raw.len(),
        raw[at] == chunk_type(c),
        raw[at + 1] == chunk_flags(c),
        be16(raw, at + 2) == chunk_value(c).len() + 4,
        raw.subrange(at + 4, at + be16(raw, at + 2)) == chunk_value(c),
        padded(be16(raw, at + 2) as int) == chunk_bytes(c).len(),
        raw.subrange(at + chunk_bytes(c).len(), raw.len() as int) == after,
{
    lemma_chunk_layout(c);
    lemma_read_laid_out(raw, at, chunk_bytes(c), chunk_type(c), chunk_flags(c), chunk_value(c), after);
}

/// The first chunk of what was written from the place `at` on is read back.
pub proof fn lemma_first_chunk_read(raw: Seq<u8>, at: int, c: ChunkView, after: Seq<u8>)
    requires
        0 <= at <= raw.len(),
        raw.subrange(at, raw.len() as int) == chunk_bytes(c) + after,
        chunk_fits(c),
        plain(c),
    ensures
        raw.len() - at >= 4,
        at + chunk_bytes(c).len() <= raw.len(),
        be16(raw, at + 2) == chunk_value(c).len() + 4,
        at + be16(raw, at + 2) <= raw.len(),
        parse_value(raw[at], raw[at + 1], raw.subrange(at + 4, at + be16(raw, at + 2))) == Some(c),
        padded(be16(raw, at + 2) as int) == chunk_bytes(c).len(),
        raw.subrange(at + chunk_bytes(c).len(), raw.len() as int) == after,
{
    lemma_chunk_found(raw, at, c, after);
    lemma_value_round_trip(c);
}

/// Chunks take room: the bytes of a sequence of chunks that is not empty are at least four.
pub proof fn lemma_chunks_not_empty(chunks: Seq<ChunkView>)
    requires
        chunks.len() > 0,
        chunk_fits(chunks.last()),
    ensures
        chunks_bytes(chunks).len() >= 4,
{
    lemma_chunk_layout(chunks.last());
}

/// The chunks that were written from the place `at` on are read back.
pub proof fn lemma_chunks_round_trip(raw: Seq<u8>, at: int, before: Seq<ChunkView>, chunks: Seq<ChunkView>)
    requires
        0 <= at <= raw.len(),
        raw.subrange(at, raw.len() as int) == chunks_bytes(chunks),
        chunks_fit(chunks),
        all_plain(chunks),
    ensures
        parse_chunks(raw, at, before) == Ok::<Seq<ChunkView>, Error>(before + chunks),
    decreases chunks.len(),
{
    if chunks.len() == 0 {
        assert(before + chunks =~= before);
        assert(chunks_bytes(chunks).len() == 0);
    } else {
        let c = chunks[0];
        let rest = chunks.drop_first();
        assert(chunks =~= seq![c] + rest);
        lemma_chunks_bytes_front(c, rest);
        assert(chunk_fits(c) && plain(c));
        lemma_first_chunk_read(raw, at, c, chunks_bytes(rest));
        let len = be16(raw, at + 2) as int;
        assert forall|i: int| 0 <= i < rest.len() implies chunk_fits(#[trigger] rest[i]) && plain(rest[i]) by {
            assert(rest[i] == chunks[i + 1]);
        }
        if rest.len() == 0 {
            assert(chunks_bytes(rest).len() == 0);
            assert(before.push(c) =~= before + chunks);
        } else {
            assert(rest.last() == rest[rest.len() - 1]);
            lemma_chunks_not_empty(rest);
            let next = at + padded(len);
            assert(next == at + chunk_bytes(c).len());
            assert(next <= raw.len());
            lemma_chunks_round_trip(raw, next, before.push(c), rest);
            assert(before.push(c) + rest =~= before + chunks);
        }
    }
}

/// How the bytes of a packet are laid out before the checksum is put in.
pub proof fn lemma_body_layout(p: PacketView)
    ensures
        packet_body(p).len() == 12 + chunks_bytes(p.chunks).len(),
        packet_body(p).subrange(0, 2) == bytes16(p.header.source_port),
        packet_body(p).subrange(2, 4) == bytes16(p.header.destination_port),
        packet_body(p).subrange(4, 8) == bytes32(p.header.verification_tag),
        packet_body(p).subrange(12, packet_body(p).len() as int) == chunks_bytes(p.chunks),
{
    let body = packet_body(p);
    assert(body.subrange(0, 2) =~= bytes16(p.header.source_port));
    assert(body.subrange(2, 4) =~= bytes16(p.header.destination_port));
    assert(body.subrange(4, 8) =~= bytes32(p.header.verification_tag));
    assert(body.subrange(12, body.len() as int) =~= chunks_bytes(p.chunks));
}

/// Putting the checksum into a packet changes nothing but the four bytes
/// of the checksum, which then say the checksum of the packet.
pub proof fn lemma_checksum_in_place(body: Seq<u8>)
    requires
        body.len() >= 12,
    ensures
        ({
            let raw = with_le32(body, 8, packet_checksum(body));
            &&& raw.len() == body.len()
            &&& raw.subrange(0, 8) == body.subrange(0, 8)
            &&& raw.subrange(12, raw.len() as int) == body.subrange(12, body.len() as int)
            &&& le32(raw, 8) == packet_checksum(body)
            &&& packet_checksum(raw) == packet_checksum(body)
        }),
{
    let sum = packet_checksum(body);
    let raw = with_le32(body, 8, sum);
    assert(raw.subrange(0, 8) =~= body.subrange(0, 8));
    assert(raw.subrange(12, raw.len() as int) =~= body.subrange(12, body.len() as int));
    assert(raw[8] == bytes32_le(sum)[0]);
    assert(raw[9] == bytes32_le(sum)[1]);
    assert(raw[10] == bytes32_le(sum)[2]);
    assert(raw[11] == bytes32_le(sum)[3]);
}

/// A packet is read back from its bytes: putting a packet into bytes and
/// reading those gives the packet again, whatever the packet holds, as long
/// as each chunk can be written and is what it says.
pub proof fn lemma_packet_round_trip(p: PacketView)
    requires
        chunks_fit(p.chunks),
        all_plain(p.chunks),
    ensures
        parse_packet(packet_bytes(p)) == Ok::<PacketView, Error>(p),
{
    let body = packet_body(p);
    let raw = packet_bytes(p);
    lemma_body_layout(p);
    lemma_checksum_in_place(body);
    assert(raw.subrange(0, 2) =~= raw.subrange(0, 8).subrange(0, 2));
    assert(raw.subrange(2, 4) =~= raw.subrange(0, 8).subrange(2, 4));
    assert(raw.subrange(4, 8) =~= raw.subrange(0, 8).subrange(4, 8));
    assert(body.subrange(0, 2) =~= body.subrange(0, 8).subrange(0, 2));
    assert(body.subrange(2, 4) =~= body.subrange(0, 8).subrange(2, 4));
    assert(body.subrange(4, 8) =~= body.subrange(0, 8).subrange(4, 8));
    lemma_read16(raw, 0, p.header.source_port);
    lemma_read16(raw, 2, p.header.destination_port);
    lemma_read32(raw, 4, p.header.verification_tag);
    assert(parse_header(raw) == p.header);
    lemma_chunks_round_trip(raw, 12, Seq::<ChunkView>::empty(), p.chunks);
    assert(Seq::<ChunkView>::empty() + p.chunks =~= p.chunks);
}

} // verus!
