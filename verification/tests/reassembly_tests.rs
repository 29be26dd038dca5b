use sctp_proto::chunk::{DataChunk, PayloadProtocolIdentifier};
use sctp_proto::reassembly::{ReadError, ReassemblyQueue};

fn frag(tsn: u32, ssn: u16, begin: bool, end: bool, unordered: bool, payload: &[u8]) -> DataChunk {
    DataChunk {
        tsn,
        stream_id: 0,
        ssn,
        ppi: PayloadProtocolIdentifier::Binary,
        beginning_fragment: begin,
        ending_fragment: end,
        unordered,
        payload: payload.to_vec(),
    }
}

fn split(tsn: u32, ssn: u16, unordered: bool, message: &[u8], n: usize) -> Vec<DataChunk> {
    let size = (message.len() + n - 1) / n;
    let parts: Vec<&[u8]> = message.chunks(size).collect();
    let count = parts.len();
    parts
        .iter()
        .enumerate()
        .map(|(i, p)| frag(tsn.wrapping_add(i as u32), ssn, i == 0, i == count - 1, unordered, p))
        .collect()
}

fn permutations(n: usize) -> Vec<Vec<usize>> {
    if n == 0 {
        return vec![vec![]];
    }
    let mut out = vec![];
    for p in permutations(n - 1) {
        for i in 0..n {
            let mut q = p.clone();
            q.insert(i, n - 1);
            out.push(q);
        }
    }
    out
}

#[test]
fn test_reassembly_queue_ordered_fragments() {
    let mut rq = ReassemblyQueue::new(0);
    assert!(!rq.push(frag(1, 0, true, false, false, b"ABC")), "chunk set should not be complete yet");
    assert_eq!(rq.get_num_bytes(), 3, "num bytes mismatch");
    assert!(rq.push(frag(2, 0, false, true, false, b"DEFG")), "chunk set should be complete");
    assert_eq!(rq.get_num_bytes(), 7, "num bytes mismatch");
    let m = rq.read().unwrap();
    assert_eq!(m.payload, b"ABCDEFG".to_vec());
    assert_eq!(m.ppi, PayloadProtocolIdentifier::Binary);
    assert_eq!((m.ssn, m.tsn, m.unordered, m.stream_id), (0, 1, false, 0));
    assert_eq!(rq.get_num_bytes(), 0, "num bytes mismatch");
    assert!(rq.read().is_none());
}

#[test]
fn test_reassembly_any_order_yields_exactly_one_message() {
    let message: Vec<u8> = (0..23u8).collect();
    for unordered in [false, true] {
        for n in 1..=5usize {
            let count = split(0xffff_fffe, 0, unordered, &message, n).len();
            for order in permutations(count) {
                let mut rq = ReassemblyQueue::new(0);
                let frags = split(0xffff_fffe, 0, unordered, &message, n);
                let mut slots: Vec<Option<DataChunk>> = frags.into_iter().map(Some).collect();
                for (k, i) in order.iter().enumerate() {
                    let readable = rq.push(slots[*i].take().unwrap());
                    assert_eq!(readable, k == count - 1, "readable exactly with the last fragment");
                    assert_eq!(rq.is_readable(), k == count - 1);
                }
                let m = rq.read().unwrap();
                assert_eq!(m.payload, message);
                assert_eq!(m.tsn, 0xffff_fffe);
                assert_eq!(m.unordered, unordered);
                assert!(rq.read().is_none(), "exactly one message");
                assert_eq!(rq.get_num_bytes(), 0, "no fragment is left behind");
                assert_eq!(rq.next_ssn(), if unordered { 0 } else { 1 });
            }
        }
    }
}

#[test]
fn test_reassembly_unordered_messages_interleaved_each_exactly_once() {
    let a: Vec<u8> = vec![1u8; 10];
    let b: Vec<u8> = vec![2u8; 7];
    let c: Vec<u8> = vec![3u8; 5];
    for order in permutations(6) {
        let mut frags: Vec<Option<DataChunk>> = vec![];
        frags.extend(split(10, 0, true, &a, 3).into_iter().map(Some));
        frags.extend(split(13, 0, true, &b, 2).into_iter().map(Some));
        frags.extend(split(20, 0, true, &c, 1).into_iter().map(Some));
        assert_eq!(frags.len(), 6);
        let mut rq = ReassemblyQueue::new(0);
        for i in order.iter() {
            rq.push(frags[*i].take().unwrap());
        }
        let mut got: Vec<(u32, Vec<u8>)> = vec![];
        while let Some(m) = rq.read() {
            got.push((m.tsn, m.payload));
        }
        got.sort();
        assert_eq!(got, vec![(10, a.clone()), (13, b.clone()), (20, c.clone())]);
        assert_eq!(rq.get_num_bytes(), 0);
    }
}

#[test]
fn test_reassembly_ordered_messages_wait_for_their_turn() {
    let mut rq = ReassemblyQueue::new(0);
    assert!(!rq.push(frag(12, 2, true, true, false, b"third")));
    assert!(!rq.push(frag(11, 1, true, true, false, b"second")));
    assert!(!rq.is_readable());
    assert_eq!(rq.next_len(), None);
    assert!(rq.push(frag(10, 0, true, true, false, b"first")));
    assert_eq!(rq.ready_len(), 3);
    assert_eq!(rq.next_len(), Some(5));
    assert_eq!(rq.read().unwrap().payload, b"first".to_vec());
    assert_eq!(rq.read().unwrap().payload, b"second".to_vec());
    assert_eq!(rq.read().unwrap().payload, b"third".to_vec());
    assert_eq!(rq.next_ssn(), 3);
    // A fragment of a message that the stream has moved past is dropped.
    assert!(!rq.push(frag(13, 1, true, true, false, b"late")));
    assert_eq!(rq.get_num_bytes(), 0);
}

#[test]
fn test_reassembly_drops_duplicates_and_other_streams() {
    let mut rq = ReassemblyQueue::new(0);
    assert!(!rq.push(frag(1, 0, true, false, false, b"AB")));
    assert!(!rq.push(frag(1, 0, true, false, false, b"AB")));
    assert_eq!(rq.get_num_bytes(), 2);
    let mut other = frag(2, 0, false, true, false, b"CD");
    other.stream_id = 1;
    assert!(!rq.push(other));
    assert_eq!(rq.get_num_bytes(), 2);
    assert!(rq.push(frag(2, 0, false, true, false, b"CD")));
    assert_eq!(rq.read().unwrap().payload, b"ABCD".to_vec());
    assert_eq!(rq.stream_identifier(), 0);
}

#[test]
fn test_reassembly_short_buffer_keeps_message() {
    let mut rq = ReassemblyQueue::new(0);
    assert_eq!(rq.read_within(10).unwrap_err(), ReadError::NotReadable);
    rq.push(frag(1, 0, true, true, false, b"0123456789"));
    assert_eq!(rq.read_within(9).unwrap_err(), ReadError::ShortBuffer);
    assert!(rq.is_readable());
    assert_eq!(rq.get_num_bytes(), 10);
    assert_eq!(rq.read_within(10).unwrap().payload, b"0123456789".to_vec());
    assert_eq!(rq.read_within(10).unwrap_err(), ReadError::NotReadable);
}

#[test]
fn test_reassembly_forward_tsn_for_ordered() {
    let mut rq = ReassemblyQueue::new(0);
    // The message 0 is half there, the message 1 is whole.
    rq.push(frag(10, 0, true, false, false, b"half"));
    rq.push(frag(12, 1, true, true, false, b"whole"));
    assert!(!rq.is_readable());
    rq.forward_tsn_for_ordered(0);
    assert_eq!(rq.next_ssn(), 2);
    assert_eq!(rq.read().unwrap().payload, b"whole".to_vec());
    assert!(rq.read().is_none());
    assert_eq!(rq.get_num_bytes(), 0);
    // Moving to where the stream is already changes nothing.
    rq.push(frag(13, 2, true, false, false, b"x"));
    rq.forward_tsn_for_ordered(0);
    assert_eq!(rq.next_ssn(), 2);
    assert_eq!(rq.get_num_bytes(), 1);
}

#[test]
fn test_reassembly_forward_tsn_for_unordered() {
    let mut rq = ReassemblyQueue::new(0);
    rq.push(frag(10, 0, true, false, true, b"a"));
    rq.push(frag(12, 0, false, true, true, b"b"));
    rq.push(frag(14, 0, true, false, true, b"c"));
    rq.forward_tsn_for_unordered(12);
    assert_eq!(rq.get_num_bytes(), 1);
    assert!(!rq.push(frag(15, 0, false, false, true, b"d")));
    assert!(rq.push(frag(16, 0, false, true, true, b"e")));
    assert_eq!(rq.read().unwrap().payload, b"cde".to_vec());
}
