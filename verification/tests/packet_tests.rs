use sctp_proto::chunk::{DataChunk, GapAckBlock, PayloadProtocolIdentifier};
use sctp_proto::error::Error;
use sctp_proto::packet::{
    marshal_chunk, unmarshal_value, Chunk, CommonHeader, ForwardTsnChunk, ForwardTsnStream, InitChunk, Packet,
    ResetRequest, ResetResponse, SackChunk, CT_FORWARD_TSN, CT_INIT, CT_PAYLOAD_DATA, CT_RECONFIG, CT_SACK,
    CT_SHUTDOWN,
};
use sctp_proto::param::{
    ChunkType, ParamHeader, ParamStateCookie, ParamSupportedExtensions, ParamType, PARAM_HEADER_LENGTH,
};
use sctp_proto::shared::{EcnCodepoint, PartialDecode};
use sctp_proto::wire::{checksum_update, generate_packet_checksum, read_u16, read_u32, write_u16, write_u32};

#[test]
fn test_crc32c_check_value() {
    let data = b"123456789".to_vec();
    assert_eq!(checksum_update(0xffff_ffff, &data, 0, 9) ^ 0xffff_ffff, 0xe306_9283);
    // Piece by piece is the same as at once.
    let half = checksum_update(0xffff_ffff, &data, 0, 4);
    assert_eq!(checksum_update(half, &data, 4, 9) ^ 0xffff_ffff, 0xe306_9283);
}

#[test]
fn test_wire_integers() {
    let mut out = vec![];
    write_u16(&mut out, 0x1234);
    write_u32(&mut out, 0xdead_beef);
    assert_eq!(out, vec![0x12, 0x34, 0xde, 0xad, 0xbe, 0xef]);
    assert_eq!(read_u16(&out, 0), 0x1234);
    assert_eq!(read_u32(&out, 2), 0xdead_beef);
}

#[test]
fn test_param_header() {
    let raw = vec![0x00, 0x07, 0x00, 0x08, 1, 2, 3, 4];
    let h = ParamHeader::unmarshal(&raw).unwrap();
    assert_eq!(h, ParamHeader { typ: ParamType::StateCookie, value_length: 4 });
    assert_eq!(h.value_length(), 4);
    let mut out = vec![9u8];
    assert_eq!(h.marshal_to(&mut out), Ok(5));
    assert_eq!(out, vec![9, 0x00, 0x07, 0x00, 0x08]);
    // Shorter than a header.
    assert_eq!(ParamHeader::unmarshal(&vec![0, 7, 0]), Err(Error::ErrParamHeaderTooShort));
    // A length smaller than the header.
    assert_eq!(ParamHeader::unmarshal(&vec![0, 7, 0, 3]), Err(Error::ErrParamHeaderTooShort));
    // A length larger than what is there.
    assert_eq!(ParamHeader::unmarshal(&vec![0, 7, 0, 9, 1, 2, 3, 4]), Err(Error::ErrParamHeaderTooShort));
    let too_long = ParamHeader { typ: ParamType::StateCookie, value_length: 65532 };
    let mut out = vec![];
    assert_eq!(too_long.marshal_to(&mut out), Err(Error::ErrParamTooLong));
    assert!(out.is_empty());
    assert_eq!(ParamType::from_u16(0x8008), ParamType::SupportedExt);
    assert_eq!(ParamType::from_u16(0xc000), ParamType::ForwardTsnSupp);
    assert_eq!(ParamType::from_u16(1), ParamType::HeartbeatInfo);
    assert_eq!(ParamType::from_u16(99), ParamType::Unknown(99));
    assert_eq!(ParamType::Unknown(99).to_u16(), 99);
    assert_eq!(PARAM_HEADER_LENGTH, 4);
}

#[test]
fn test_param_supported_extensions_success() {
    let tests: Vec<(Vec<u8>, Vec<ChunkType>)> = vec![(
        vec![0x80, 0x08, 0x00, 0x06, 0xc0, 0x82],
        vec![ChunkType(192), ChunkType(130)],
    )];
    for (binary, parsed) in tests {
        let actual = ParamSupportedExtensions::unmarshal(&binary).unwrap();
        assert_eq!(actual.chunk_types, parsed);
        assert_eq!(actual.value_length(), 2);
        assert_eq!(actual.header(), Some(ParamHeader { typ: ParamType::SupportedExt, value_length: 2 }));
        let mut b = vec![];
        assert_eq!(actual.marshal_to(&mut b), Ok(6));
        assert_eq!(b, binary);
        assert_eq!(actual.clone_to().chunk_types, parsed);
    }
}

#[test]
fn test_param_supported_extensions_reads_announced_length_only() {
    // The header says two bytes of value; what follows is not read.
    let binary = vec![0x80, 0x08, 0x00, 0x06, 0xc0, 0x82, 0x01, 0x02];
    let actual = ParamSupportedExtensions::unmarshal(&binary).unwrap();
    assert_eq!(actual.chunk_types, vec![ChunkType(192), ChunkType(130)]);
}

#[test]
fn test_param_supported_extensions_failure() {
    let tests: Vec<(&str, Vec<u8>)> = vec![
        ("param too short", vec![0x0, 0xd, 0x0]),
        ("length beyond the bytes", vec![0x80, 0x08, 0x00, 0x09, 0xc0, 0x82]),
    ];
    for (name, binary) in tests {
        let result = ParamSupportedExtensions::unmarshal(&binary);
        assert!(result.is_err(), "expected unmarshal: {} to fail.", name);
        assert_eq!(result.unwrap_err(), Error::ErrParamHeaderTooShort);
    }
    assert_eq!(ParamSupportedExtensions::new().value_length(), 0);
}

#[test]
fn test_param_state_cookie() {
    let binary = vec![0x00, 0x07, 0x00, 0x07, 0xaa, 0xbb, 0xcc];
    let p = ParamStateCookie::unmarshal(&binary).unwrap();
    assert_eq!(p.cookie, vec![0xaa, 0xbb, 0xcc]);
    assert_eq!(p.value_length(), 3);
    assert_eq!(p.header(), Some(ParamHeader { typ: ParamType::StateCookie, value_length: 3 }));
    let mut b = vec![];
    assert_eq!(p.marshal_to(&mut b), Ok(7));
    assert_eq!(b, binary);
    assert_eq!(p.clone().cookie, p.cookie);
    assert_eq!(ParamStateCookie::unmarshal(&vec![0, 7]).unwrap_err(), Error::ErrParamHeaderTooShort);
    let long = ParamStateCookie::with_cookie(vec![0u8; 65532]);
    assert_eq!(long.header(), None);
    let mut b = vec![1u8];
    assert_eq!(long.marshal_to(&mut b), Err(Error::ErrParamTooLong));
    assert_eq!(b, vec![1u8]);
}

#[test]
fn test_param_state_cookie_is_drawn_by_chance() {
    let a = ParamStateCookie::new();
    let b = ParamStateCookie::new();
    assert_eq!(a.cookie.len(), 32);
    assert_eq!(b.cookie.len(), 32);
    assert_ne!(a.cookie, b.cookie);
    assert_ne!(a.cookie, vec![0u8; 32]);
}

fn header() -> CommonHeader {
    CommonHeader { source_port: 5000, destination_port: 5001, verification_tag: 0x0102_0304 }
}

fn round_trip(chunks: Vec<Chunk>) -> Vec<Chunk> {
    let packet = Packet { header: header(), chunks };
    let raw = packet.marshal().unwrap();
    assert_eq!(raw.len() % 4, 0);
    let back = Packet::unmarshal(&raw).unwrap();
    assert_eq!(back.header, header());
    back.chunks
}

#[test]
fn test_packet_data_chunk_bytes() {
    let d = DataChunk {
        tsn: 0x0a0b_0c0d,
        stream_id: 3,
        ssn: 4,
        ppi: PayloadProtocolIdentifier::Binary,
        beginning_fragment: true,
        ending_fragment: false,
        unordered: true,
        payload: vec![1, 2, 3, 4, 5],
    };
    let mut out = vec![];
    marshal_chunk(&Chunk::Data(d), &mut out).unwrap();
    assert_eq!(
        out,
        vec![0, 6, 0, 21, 0x0a, 0x0b, 0x0c, 0x0d, 0, 3, 0, 4, 0, 0, 0, 53, 1, 2, 3, 4, 5, 0, 0, 0]
    );
    match unmarshal_value(CT_PAYLOAD_DATA, 6, &out[4..21].to_vec()) {
        Some(Chunk::Data(d)) => {
            assert_eq!((d.tsn, d.stream_id, d.ssn), (0x0a0b_0c0d, 3, 4));
            assert_eq!(d.ppi, PayloadProtocolIdentifier::Binary);
            assert!(d.beginning_fragment && !d.ending_fragment && d.unordered);
            assert_eq!(d.payload, vec![1, 2, 3, 4, 5]);
        }
        _ => panic!("expected a DATA chunk"),
    }
    assert!(unmarshal_value(CT_PAYLOAD_DATA, 0, &vec![0u8; 11]).is_none());
}

#[test]
fn test_packet_round_trip_of_every_chunk() {
    let chunks = vec![
        Chunk::Sack(SackChunk {
            cumulative_tsn_ack: 77,
            a_rwnd: 1000,
            gaps: vec![GapAckBlock { start: 2, end: 3 }, GapAckBlock { start: 7, end: 7 }],
            duplicate_tsns: vec![5, 6],
        }),
        Chunk::ForwardTsn(ForwardTsnChunk {
            new_cumulative_tsn: 9,
            streams: vec![ForwardTsnStream { stream_id: 1, ssn: 2 }],
        }),
        Chunk::Shutdown(0xffff_ffff),
        Chunk::ShutdownAck,
        Chunk::ShutdownComplete,
        Chunk::CookieEcho(vec![1, 2, 3]),
        Chunk::CookieAck,
        Chunk::Abort,
        Chunk::Error,
        Chunk::Unknown(0xc1),
        Chunk::Data(DataChunk {
            tsn: 1,
            stream_id: 2,
            ssn: 3,
            ppi: PayloadProtocolIdentifier::Dcep,
            beginning_fragment: false,
            ending_fragment: true,
            unordered: false,
            payload: vec![9; 7],
        }),
    ];
    let back = round_trip(chunks);
    assert_eq!(back.len(), 11);
    match &back[0] {
        Chunk::Sack(s) => {
            assert_eq!((s.cumulative_tsn_ack, s.a_rwnd), (77, 1000));
            assert_eq!(s.gaps, vec![GapAckBlock { start: 2, end: 3 }, GapAckBlock { start: 7, end: 7 }]);
            assert_eq!(s.duplicate_tsns, vec![5, 6]);
        }
        _ => panic!("expected a SACK"),
    }
    match &back[1] {
        Chunk::ForwardTsn(f) => {
            assert_eq!(f.new_cumulative_tsn, 9);
            assert_eq!(f.streams, vec![ForwardTsnStream { stream_id: 1, ssn: 2 }]);
        }
        _ => panic!("expected a FORWARD TSN"),
    }
    assert!(matches!(back[2], Chunk::Shutdown(0xffff_ffff)));
    assert!(matches!(back[3], Chunk::ShutdownAck));
    assert!(matches!(back[4], Chunk::ShutdownComplete));
    assert!(matches!(&back[5], Chunk::CookieEcho(c) if c == &vec![1, 2, 3]));
    assert!(matches!(back[6], Chunk::CookieAck));
    assert!(matches!(back[7], Chunk::Abort));
    assert!(matches!(back[8], Chunk::Error));
    assert!(matches!(back[9], Chunk::Unknown(0xc1)));
    match &back[10] {
        Chunk::Data(d) => {
            assert_eq!((d.tsn, d.stream_id, d.ssn, d.ppi), (1, 2, 3, PayloadProtocolIdentifier::Dcep));
            assert!(!d.beginning_fragment && d.ending_fragment && !d.unordered);
            assert_eq!(d.payload, vec![9; 7]);
        }
        _ => panic!("expected a DATA chunk"),
    }
}

fn init(cookie: Vec<u8>, forward: bool) -> InitChunk {
    InitChunk {
        initiate_tag: 0x1111_2222,
        a_rwnd: 0x1_0000,
        num_outbound_streams: 10,
        num_inbound_streams: 20,
        initial_tsn: 0x3333_4444,
        cookie,
        forward_tsn_supported: forward,
    }
}

#[test]
fn test_packet_init_round_trip() {
    for (cookie, forward) in [(vec![], false), (vec![], true), (vec![1, 2, 3, 4, 5], false), (vec![7; 32], true)] {
        let back = round_trip(vec![Chunk::InitAck(init(cookie.clone(), forward))]);
        match &back[0] {
            Chunk::InitAck(i) => {
                assert_eq!(i.initiate_tag, 0x1111_2222);
                assert_eq!(i.a_rwnd, 0x1_0000);
                assert_eq!((i.num_outbound_streams, i.num_inbound_streams), (10, 20));
                assert_eq!(i.initial_tsn, 0x3333_4444);
                assert_eq!(i.cookie, cookie);
                assert_eq!(i.forward_tsn_supported, forward);
            }
            _ => panic!("expected an INIT ACK"),
        }
    }
    let back = round_trip(vec![Chunk::Init(init(vec![], true))]);
    assert!(matches!(&back[0], Chunk::Init(i) if i.forward_tsn_supported && i.cookie.is_empty()));
}

#[test]
fn test_packet_unmarshal_errors() {
    assert_eq!(Packet::unmarshal(&vec![0u8; 11]).unwrap_err(), Error::ErrPacketRawTooSmall);
    assert_eq!(Packet::unmarshal(&vec![0u8; 12]).unwrap_err(), Error::ErrChecksumMismatch);

    let with_sum = |mut raw: Vec<u8>| -> Vec<u8> {
        let sum = generate_packet_checksum(&raw);
        raw[8..12].copy_from_slice(&sum.to_le_bytes());
        raw
    };
    // A header alone is a packet without chunks.
    let empty = with_sum(vec![0x13, 0x88, 0x13, 0x89, 1, 2, 3, 4, 0, 0, 0, 0]);
    let p = Packet::unmarshal(&empty).unwrap();
    assert_eq!(p.header, header());
    assert!(p.chunks.is_empty());
    // Two bytes are not a chunk header.
    let mut raw = empty.clone();
    raw.extend_from_slice(&[3, 0]);
    assert_eq!(Packet::unmarshal(&with_sum(raw)).unwrap_err(), Error::ErrChunkHeaderTooSmall);
    // A chunk length below four.
    let mut raw = empty.clone();
    raw.extend_from_slice(&[CT_SHUTDOWN, 0, 0, 3]);
    assert_eq!(Packet::unmarshal(&with_sum(raw)).unwrap_err(), Error::ErrChunkHeaderInvalidLength);
    // A chunk length beyond the packet.
    let mut raw = empty.clone();
    raw.extend_from_slice(&[CT_SHUTDOWN, 0, 0, 8, 1, 2]);
    assert_eq!(Packet::unmarshal(&with_sum(raw)).unwrap_err(), Error::ErrChunkHeaderInvalidLength);
    // A SHUTDOWN whose value is not four bytes.
    let mut raw = empty.clone();
    raw.extend_from_slice(&[CT_SHUTDOWN, 0, 0, 6, 1, 2, 0, 0]);
    assert_eq!(Packet::unmarshal(&with_sum(raw)).unwrap_err(), Error::ErrChunkMalformed);
    // A SACK that announces more gap blocks than it holds.
    let mut raw = empty.clone();
    raw.extend_from_slice(&[CT_SACK, 0, 0, 16, 0, 0, 0, 1, 0, 0, 0, 1, 0, 1, 0, 0]);
    assert_eq!(Packet::unmarshal(&with_sum(raw)).unwrap_err(), Error::ErrChunkMalformed);
    // A FORWARD TSN with half a stream entry.
    let mut raw = empty.clone();
    raw.extend_from_slice(&[CT_FORWARD_TSN, 0, 0, 10, 0, 0, 0, 1, 0, 1, 0, 0]);
    assert_eq!(Packet::unmarshal(&with_sum(raw)).unwrap_err(), Error::ErrChunkMalformed);
    // An INIT with a parameter that is cut short.
    let mut raw = empty.clone();
    raw.extend_from_slice(&[CT_INIT, 0, 0, 24, 0, 0, 0, 1, 0, 0, 0, 1, 0, 1, 0, 1, 0, 0, 0, 1, 0, 7, 0, 9]);
    assert_eq!(Packet::unmarshal(&with_sum(raw)).unwrap_err(), Error::ErrChunkMalformed);
}

#[test]
fn test_packet_chunk_too_long() {
    let big = Chunk::CookieEcho(vec![0u8; 65532]);
    let mut out = vec![1u8];
    assert_eq!(marshal_chunk(&big, &mut out), Err(Error::ErrChunkTooLong));
    assert_eq!(out, vec![1u8]);
    let packet = Packet { header: header(), chunks: vec![Chunk::CookieAck, big] };
    assert_eq!(packet.marshal().unwrap_err(), Error::ErrChunkTooLong);
}

#[test]
fn test_partial_decode() {
    let packet = Packet { header: header(), chunks: vec![Chunk::Init(init(vec![], true))] };
    let raw = packet.marshal().unwrap();
    let p = PartialDecode::unmarshal(raw.clone()).unwrap();
    assert_eq!(p.common_header(), header());
    assert_eq!(p.first_chunk_type(), Some(CT_INIT));
    assert_eq!(p.initiate_tag(), Some(0x1111_2222));
    let full = p.finish().unwrap();
    assert_eq!(full.chunks.len(), 1);

    let packet = Packet { header: header(), chunks: vec![Chunk::CookieAck] };
    let p = PartialDecode::unmarshal(packet.marshal().unwrap()).unwrap();
    assert_eq!(p.first_chunk_type(), Some(11));
    assert_eq!(p.initiate_tag(), None);

    let packet = Packet { header: header(), chunks: vec![] };
    let p = PartialDecode::unmarshal(packet.marshal().unwrap()).unwrap();
    assert_eq!(p.first_chunk_type(), None);

    assert_eq!(PartialDecode::unmarshal(vec![0u8; 3]).unwrap_err(), Error::ErrPacketRawTooSmall);
    let mut broken = raw;
    broken[20] ^= 1;
    assert_eq!(PartialDecode::unmarshal(broken).unwrap_err(), Error::ErrChecksumMismatch);
}

#[test]
fn test_ecn_codepoint() {
    assert_eq!(EcnCodepoint::from_bits(0b10), Some(EcnCodepoint::Ect0));
    assert_eq!(EcnCodepoint::from_bits(0b01), Some(EcnCodepoint::Ect1));
    assert_eq!(EcnCodepoint::from_bits(0b11), Some(EcnCodepoint::Ce));
    assert_eq!(EcnCodepoint::from_bits(0b00), None);
    assert_eq!(EcnCodepoint::from_bits(0b1110), Some(EcnCodepoint::Ect0));
    assert_eq!(EcnCodepoint::Ce.to_bits(), 3);
    assert_eq!(EcnCodepoint::Ect0.to_bits(), 2);
    assert_eq!(EcnCodepoint::Ect1.to_bits(), 1);
}

#[test]
fn test_payload_protocol_identifier() {
    for (p, code) in [
        (PayloadProtocolIdentifier::Dcep, 50),
        (PayloadProtocolIdentifier::String, 51),
        (PayloadProtocolIdentifier::Binary, 53),
        (PayloadProtocolIdentifier::StringEmpty, 56),
        (PayloadProtocolIdentifier::BinaryEmpty, 57),
    ] {
        assert_eq!(p.to_u32(), code);
        assert_eq!(PayloadProtocolIdentifier::from_u32(code), p);
    }
    assert_eq!(PayloadProtocolIdentifier::from_u32(52), PayloadProtocolIdentifier::Unknown);
    assert_eq!(PayloadProtocolIdentifier::Unknown.to_u32(), 0);
}

#[test]
fn test_packet_reset_request_bytes() {
    let request = Chunk::ResetRequest(ResetRequest {
        request_sequence: 0x0102_0304,
        response_sequence: 0x0506_0708,
        last_tsn: 0x090a_0b0c,
        streams: vec![7, 0x0102, 9],
    });
    let mut out = vec![];
    marshal_chunk(&request, &mut out).unwrap();
    assert_eq!(
        out,
        vec![130, 0, 0, 26, 0, 13, 0, 22, 1, 2, 3, 4, 5, 6, 7, 8, 9, 10, 11, 12, 0, 7, 1, 2, 0, 9, 0, 0]
    );
    match unmarshal_value(CT_RECONFIG, 0, &out[4..26].to_vec()) {
        Some(Chunk::ResetRequest(r)) => {
            assert_eq!((r.request_sequence, r.response_sequence, r.last_tsn), (0x0102_0304, 0x0506_0708, 0x090a_0b0c));
            assert_eq!(r.streams, vec![7, 0x0102, 9]);
        }
        _ => panic!("expected a request to set streams back"),
    }
    let answer = Chunk::ResetResponse(ResetResponse { sequence: 0x0102_0304, result: 1 });
    let mut out = vec![];
    marshal_chunk(&answer, &mut out).unwrap();
    assert_eq!(out, vec![130, 0, 0, 16, 0, 16, 0, 12, 1, 2, 3, 4, 0, 0, 0, 1]);
}

#[test]
fn test_packet_reset_round_trip() {
    let back = round_trip(vec![
        Chunk::ResetRequest(ResetRequest { request_sequence: 1, response_sequence: 2, last_tsn: 3, streams: vec![] }),
        Chunk::ResetRequest(ResetRequest { request_sequence: 4, response_sequence: 5, last_tsn: 6, streams: vec![8] }),
        Chunk::ResetResponse(ResetResponse { sequence: 4, result: 6 }),
    ]);
    assert_eq!(back.len(), 3);
    assert!(matches!(&back[0], Chunk::ResetRequest(r) if r.request_sequence == 1 && r.last_tsn == 3 && r.streams.is_empty()));
    assert!(matches!(&back[1], Chunk::ResetRequest(r) if r.response_sequence == 5 && r.streams == vec![8]));
    assert!(matches!(&back[2], Chunk::ResetResponse(r) if *r == ResetResponse { sequence: 4, result: 6 }));
}

#[test]
fn test_packet_reconfig_of_another_kind_is_left_unread() {
    // A parameter of another type.
    let other = vec![0u8, 14, 0, 12, 0, 0, 0, 1, 0, 0, 0, 2];
    assert!(matches!(unmarshal_value(CT_RECONFIG, 0, &other), Some(Chunk::Unknown(130))));
    // A request whose length does not say what the value holds.
    let short = vec![0u8, 13, 0, 20, 0, 0, 0, 1, 0, 0, 0, 2, 0, 0, 0, 3];
    assert!(matches!(unmarshal_value(CT_RECONFIG, 0, &short), Some(Chunk::Unknown(130))));
    // An answer with more than the result.
    let long = vec![0u8, 16, 0, 20, 0, 0, 0, 1, 0, 0, 0, 1, 0, 0, 0, 0, 0, 0, 0, 0];
    assert!(matches!(unmarshal_value(CT_RECONFIG, 0, &long), Some(Chunk::Unknown(130))));
    assert!(matches!(unmarshal_value(CT_RECONFIG, 0, &vec![]), Some(Chunk::Unknown(130))));
    // A request with too many streams for one chunk cannot be written.
    let many = Chunk::ResetRequest(ResetRequest { request_sequence: 0, response_sequence: 0, last_tsn: 0, streams: vec![1; 40_000] });
    let mut out = vec![];
    assert_eq!(marshal_chunk(&many, &mut out).unwrap_err(), Error::ErrChunkTooLong);
    assert!(out.is_empty());
}
