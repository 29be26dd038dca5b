use sctp_proto::chunk::{DataChunk, GapAckBlock, PayloadProtocolIdentifier, ReliabilityType};
use sctp_proto::inflight::{InflightError, InflightQueue};

fn data(len: usize, ssn: u16, begin: bool, end: bool) -> DataChunk {
    DataChunk {
        tsn: 0,
        stream_id: 1,
        ssn,
        ppi: PayloadProtocolIdentifier::Binary,
        beginning_fragment: begin,
        ending_fragment: end,
        unordered: false,
        payload: vec![0u8; len],
    }
}

fn queue_of(first: u32, sizes: &[usize]) -> InflightQueue {
    let mut q = InflightQueue::new(first);
    for (i, s) in sizes.iter().enumerate() {
        let tsn = q.push(data(*s, i as u16, true, true), 10, ReliabilityType::Reliable, 0).unwrap();
        assert_eq!(tsn, first.wrapping_add(i as u32));
    }
    q
}

#[test]
fn test_inflight_push_assigns_sequence_numbers() {
    let q = queue_of(0xffff_fffe, &[10, 20, 30, 40]);
    assert_eq!(q.len(), 4);
    assert_eq!(q.get_num_bytes(), 100);
    assert_eq!(q.cumulative_tsn_ack_point(), 0xffff_fffd);
    assert_eq!(q.next_tsn(), 2);
    assert_eq!(q.highest_tsn(), 1);
    assert_eq!(q.get(0xffff_ffff).unwrap().data.payload.len(), 20);
    assert_eq!(q.get(1).unwrap().data.payload.len(), 40);
    assert!(q.get(2).is_none());
    assert!(q.get(0xffff_fffd).is_none());
    assert_eq!(q.get(0).unwrap().transmit_count, 1);
    assert_eq!(q.get(0).unwrap().send_time, 10);
}

#[test]
fn test_inflight_push_refuses_large_payload() {
    let mut q = InflightQueue::new(1);
    assert_eq!(q.push(data(65520, 0, true, true), 0, ReliabilityType::Reliable, 0), Err(InflightError::TooLarge));
    assert_eq!(q.push(data(65519, 0, true, true), 0, ReliabilityType::Reliable, 0), Ok(1));
    assert!(q.is_empty() == false);
}

#[test]
fn test_inflight_cumulative_ack() {
    let mut q = queue_of(100, &[10, 20, 30, 40]);
    let o = q.on_sack(101, &vec![], 4).unwrap();
    assert_eq!(o.bytes_acked, 30);
    assert_eq!(o.newly_covered, 2);
    assert!(o.fired.is_empty());
    assert_eq!(o.rtt_send_time, Some(10));
    assert_eq!(q.len(), 2);
    assert_eq!(q.get_num_bytes(), 70);
    assert_eq!(q.cumulative_tsn_ack_point(), 101);
    // The same acknowledgement again covers nothing new.
    let o = q.on_sack(101, &vec![], 4).unwrap();
    assert_eq!((o.bytes_acked, o.newly_covered, o.rtt_send_time), (0, 0, None));
    // A stale acknowledgement is not taken.
    assert!(q.on_sack(100, &vec![], 4).is_none());
    // Neither is one for what was never sent.
    assert!(q.on_sack(104, &vec![], 4).is_none());
    assert_eq!(q.len(), 2);
    let o = q.on_sack(103, &vec![], 4).unwrap();
    assert_eq!(o.bytes_acked, 70);
    assert!(q.is_empty());
    assert_eq!(q.get_num_bytes(), 0);
}

#[test]
fn test_inflight_gap_blocks_and_missing_reports() {
    let mut q = queue_of(100, &[10, 20, 30, 40, 50]);
    // 102 and 103 arrived, 100 and 101 did not; 104 is above the highest report.
    let gaps = vec![GapAckBlock { start: 3, end: 4 }];
    let o = q.on_sack(99, &gaps, 4).unwrap();
    assert_eq!(o.bytes_acked, 70);
    assert_eq!(o.newly_covered, 0);
    assert_eq!(q.len(), 5);
    assert_eq!(q.get_num_bytes(), 80);
    assert!(q.get(102).unwrap().acked && q.get(103).unwrap().acked);
    assert!(!q.get(100).unwrap().acked && !q.get(104).unwrap().acked);
    assert_eq!(q.get(100).unwrap().miss_indicator, 1);
    assert_eq!(q.get(101).unwrap().miss_indicator, 1);
    assert_eq!(q.get(104).unwrap().miss_indicator, 0);
    // What was marked before is not counted again.
    let o = q.on_sack(99, &gaps, 4).unwrap();
    assert_eq!(o.bytes_acked, 0);
    assert_eq!(q.get(100).unwrap().miss_indicator, 2);
}

#[test]
fn test_inflight_invalid_gap_blocks() {
    let mut q = queue_of(100, &[10, 20, 30]);
    assert!(q.on_sack(99, &vec![GapAckBlock { start: 0, end: 1 }], 4).is_none());
    assert!(q.on_sack(99, &vec![GapAckBlock { start: 3, end: 2 }], 4).is_none());
    assert!(q.on_sack(99, &vec![GapAckBlock { start: 2, end: 4 }], 4).is_none());
    assert!(q.on_sack(100, &vec![GapAckBlock { start: 2, end: 3 }], 4).is_none());
    assert_eq!(q.len(), 3);
    assert_eq!(q.get_num_bytes(), 60);
    assert!(q.on_sack(100, &vec![GapAckBlock { start: 2, end: 2 }], 4).is_some());
}

#[test]
fn test_inflight_fast_retransmit_fires_once_per_chunk() {
    let mut q = queue_of(100, &[10, 20, 30, 40]);
    let gaps = vec![GapAckBlock { start: 3, end: 3 }];
    let mut fired: Vec<u32> = vec![];
    let mut bytes = q.get_num_bytes();
    for round in 0..10 {
        let o = q.on_sack(99, &gaps, 4).unwrap();
        assert!(q.get_num_bytes() <= bytes, "bytes in flight grew");
        bytes = q.get_num_bytes();
        if round == 3 {
            assert_eq!(o.fired, vec![100, 101], "the fourth report triggers the fast retransmit");
        } else {
            assert!(o.fired.is_empty());
        }
        fired.extend(o.fired);
    }
    assert_eq!(fired, vec![100, 101]);
    assert_eq!(q.get(100).unwrap().miss_indicator, 4);
    assert!(q.get(100).unwrap().retransmit);
    assert!(!q.get(103).unwrap().retransmit);
    assert_eq!(q.get(103).unwrap().miss_indicator, 0);
    assert_eq!(bytes, 70);
}

#[test]
fn test_inflight_retransmission_after_timeout() {
    let mut q = queue_of(100, &[10, 20, 30]);
    q.on_sack(99, &vec![GapAckBlock { start: 2, end: 2 }], 4).unwrap();
    q.mark_all_to_retransmit();
    assert!(q.get(100).unwrap().retransmit);
    assert!(!q.get(101).unwrap().retransmit, "an acknowledged chunk is not sent again");
    assert!(q.get(102).unwrap().retransmit);
    // The first one does not fit: nothing is taken.
    assert!(q.take_retransmit(9, 50).is_none());
    let d = q.take_retransmit(10, 50).unwrap();
    assert_eq!((d.tsn, d.payload.len()), (100, 10));
    assert_eq!(q.get(100).unwrap().transmit_count, 2);
    assert!(!q.get(100).unwrap().retransmit);
    let d = q.take_retransmit(1000, 50).unwrap();
    assert_eq!(d.tsn, 102);
    assert!(q.take_retransmit(1000, 50).is_none());
    assert_eq!(q.get_num_bytes(), 40);
}

#[test]
fn test_inflight_partial_reliability() {
    let mut q = InflightQueue::new(1);
    q.push(data(10, 0, true, true), 100, ReliabilityType::Rexmit, 0).unwrap();
    q.push(data(20, 1, true, true), 100, ReliabilityType::Rexmit, 1).unwrap();
    q.push(data(30, 2, true, true), 100, ReliabilityType::Timed, 50).unwrap();
    q.push(data(40, 3, true, true), 100, ReliabilityType::Reliable, 0).unwrap();
    q.mark_all_to_retransmit();
    q.give_up(120);
    // No retransmission allowed: given up. One allowed: kept. Time limit not reached: kept.
    assert!(q.get(1).unwrap().abandoned);
    assert!(!q.get(2).unwrap().abandoned);
    assert!(!q.get(3).unwrap().abandoned);
    assert!(!q.get(4).unwrap().abandoned);
    let (point, streams, n) = q.forward_tsn();
    assert_eq!((point, n), (1, 1));
    assert_eq!(streams.len(), 1);
    assert_eq!((streams[0].stream_id, streams[0].ssn), (1, 0));
    assert_eq!(q.take_retransmit(1000, 120).unwrap().tsn, 2);
    // At 150 the time limit of the third chunk is reached.
    assert_eq!(q.take_retransmit(1000, 150).unwrap().tsn, 4);
    assert!(q.get(3).unwrap().abandoned);
    // The second chunk has now been sent again once, which is all it may.
    q.mark_all_to_retransmit();
    q.give_up(150);
    assert!(q.get(2).unwrap().abandoned);
    assert!(!q.get(4).unwrap().abandoned, "a reliable chunk is never given up");
    let (point, streams, n) = q.forward_tsn();
    assert_eq!((point, n), (3, 3));
    let list: Vec<(u16, u16)> = streams.iter().map(|s| (s.stream_id, s.ssn)).collect();
    assert_eq!(list, vec![(1, 0), (1, 1), (1, 2)]);
    // What is given up stays in flight until the peer acknowledges the move.
    assert_eq!(q.get_num_bytes(), 100);
    q.on_sack(3, &vec![], 4).unwrap();
    assert_eq!(q.get_num_bytes(), 40);
}
