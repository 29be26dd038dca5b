use sctp_proto::chunk::{PayloadProtocolIdentifier, ReliabilityType};
use sctp_proto::reassembly::ReassemblyQueue;
use sctp_proto::state::AssociationState::{
    Closed, CookieEchoed, CookieWait, Established, ShutdownAckSent, ShutdownPending, ShutdownSent,
};
use sctp_proto::state::{step, Action, AssociationState, Notice, Step, Trigger};
use sctp_proto::stream::{should_abandon, split_message, StreamState};
use sctp_proto::timer::{add_delay, Expiry, Timer};

#[test]
fn test_split_message() {
    let raw: Vec<u8> = (0..10u8).collect();
    assert_eq!(split_message(&raw, 4), vec![vec![0, 1, 2, 3], vec![4, 5, 6, 7], vec![8, 9]]);
    assert_eq!(split_message(&raw, 5), vec![vec![0, 1, 2, 3, 4], vec![5, 6, 7, 8, 9]]);
    assert_eq!(split_message(&raw, 10), vec![raw.clone()]);
    assert_eq!(split_message(&raw, 100), vec![raw.clone()]);
    assert_eq!(split_message(&raw, 1).len(), 10);
    assert!(split_message(&vec![], 4).is_empty());
}

#[test]
fn test_packetize_sets_flags_and_sequence_numbers() {
    let mut s = StreamState::new(7, PayloadProtocolIdentifier::Binary, true);
    let raw: Vec<u8> = (0..10u8).collect();
    let chunks = s.packetize(&raw, PayloadProtocolIdentifier::String, 4);
    assert_eq!(chunks.len(), 3);
    let flags: Vec<(bool, bool)> = chunks.iter().map(|c| (c.beginning_fragment, c.ending_fragment)).collect();
    assert_eq!(flags, vec![(true, false), (false, false), (false, true)]);
    for c in chunks.iter() {
        assert_eq!((c.stream_id, c.ssn, c.ppi, c.unordered), (7, 0, PayloadProtocolIdentifier::String, false));
    }
    assert_eq!(s.sequence_number, 1);
    let one = s.packetize(&raw, PayloadProtocolIdentifier::String, 100);
    assert_eq!(one.len(), 1);
    assert!(one[0].beginning_fragment && one[0].ending_fragment);
    assert_eq!(one[0].ssn, 1);
    assert_eq!(s.sequence_number, 2);

    // An unordered message does not move the stream's sequence number on,
    s.set_reliability_params(true, ReliabilityType::Rexmit, 3);
    let u = s.packetize(&raw, PayloadProtocolIdentifier::Binary, 100);
    assert!(u[0].unordered);
    assert_eq!(s.sequence_number, 2);
    // but a message that establishes a data channel is always ordered.
    let d = s.packetize(&raw, PayloadProtocolIdentifier::Dcep, 100);
    assert!(!d[0].unordered);
    assert_eq!(s.sequence_number, 3);
    // A message without bytes has no chunk.
    assert!(s.packetize(&vec![], PayloadProtocolIdentifier::Binary, 100).is_empty());
    assert_eq!(s.sequence_number, 3);
}

#[test]
fn test_packetized_message_is_reassembled() {
    let mut s = StreamState::new(0, PayloadProtocolIdentifier::Binary, true);
    let raw: Vec<u8> = (0..=255u8).collect();
    let mut chunks = s.packetize(&raw, PayloadProtocolIdentifier::Binary, 7);
    for (i, c) in chunks.iter_mut().enumerate() {
        c.tsn = 1000 + i as u32;
    }
    chunks.reverse();
    let mut rq = ReassemblyQueue::new(0);
    for c in chunks {
        rq.push(c);
    }
    assert_eq!(rq.read().unwrap().payload, raw);
    assert!(rq.read().is_none());
}

#[test]
fn test_should_abandon() {
    assert!(!should_abandon(ReliabilityType::Reliable, 0, 100, 0, u64::MAX));
    // No retransmission allowed: given up at the first attempt to send again.
    assert!(should_abandon(ReliabilityType::Rexmit, 0, 1, 0, 0));
    // Two allowed: sent three times in all.
    assert!(!should_abandon(ReliabilityType::Rexmit, 2, 1, 0, 0));
    assert!(!should_abandon(ReliabilityType::Rexmit, 2, 2, 0, 0));
    assert!(should_abandon(ReliabilityType::Rexmit, 2, 3, 0, 0));
    assert!(!should_abandon(ReliabilityType::Rexmit, u32::MAX, u32::MAX, 0, 0));
    assert!(!should_abandon(ReliabilityType::Timed, 100, 1, 1000, 1099));
    assert!(should_abandon(ReliabilityType::Timed, 100, 1, 1000, 1100));
    assert!(!should_abandon(ReliabilityType::Timed, 100, 1, 1000, 900));
    assert!(should_abandon(ReliabilityType::Timed, 0, 1, 1000, 1000));
}

fn expect(state: AssociationState, trigger: Trigger, next: AssociationState, action: Action, notice: Notice) {
    assert_eq!(step(state, trigger), Step { state: next, action, notice }, "{:?} + {:?}", state, trigger);
}

#[test]
fn test_state_machine_handshake() {
    expect(Closed, Trigger::Connect, CookieWait, Action::SendInit, Notice::Nothing);
    expect(CookieWait, Trigger::InitAck, CookieEchoed, Action::SendCookieEcho, Notice::Nothing);
    expect(CookieEchoed, Trigger::CookieAck, Established, Action::Nothing, Notice::Connected);
    expect(Closed, Trigger::Init, Closed, Action::SendInitAck, Notice::Nothing);
    expect(Closed, Trigger::CookieEcho, Established, Action::SendCookieAck, Notice::Connected);
    expect(Established, Trigger::CookieEcho, Established, Action::SendCookieAck, Notice::Nothing);
    expect(CookieWait, Trigger::RetriesExceeded, Closed, Action::Nothing, Notice::HandshakeFailed);
    expect(CookieEchoed, Trigger::RetriesExceeded, Closed, Action::Nothing, Notice::HandshakeFailed);
}

#[test]
fn test_state_machine_shutdown_and_abort() {
    expect(Established, Trigger::Close, ShutdownPending, Action::Nothing, Notice::Nothing);
    expect(ShutdownPending, Trigger::AllAcked, ShutdownSent, Action::SendShutdown, Notice::Nothing);
    expect(ShutdownSent, Trigger::ShutdownAck, Closed, Action::SendShutdownComplete, Notice::Closed);
    expect(Established, Trigger::Shutdown, ShutdownAckSent, Action::SendShutdownAck, Notice::Nothing);
    expect(ShutdownAckSent, Trigger::ShutdownComplete, Closed, Action::Nothing, Notice::Closed);
    for s in [CookieWait, CookieEchoed, Established, ShutdownPending, ShutdownSent, ShutdownAckSent] {
        expect(s, Trigger::Abort, Closed, Action::Nothing, Notice::Aborted);
        expect(s, Trigger::LocalAbort, Closed, Action::SendAbort, Notice::Closed);
    }
    expect(Closed, Trigger::Abort, Closed, Action::Nothing, Notice::Nothing);
}

#[test]
fn test_state_machine_ignores_what_is_out_of_place() {
    let stay = |s: AssociationState, t: Trigger| expect(s, t, s, Action::Nothing, Notice::Nothing);
    stay(Established, Trigger::Connect);
    stay(Established, Trigger::Init);
    stay(Established, Trigger::InitAck);
    stay(Established, Trigger::CookieAck);
    stay(CookieWait, Trigger::CookieAck);
    stay(CookieWait, Trigger::Close);
    stay(Closed, Trigger::Close);
    stay(Established, Trigger::AllAcked);
    stay(Established, Trigger::ShutdownAck);
    stay(Established, Trigger::ShutdownComplete);
    stay(Closed, Trigger::Shutdown);
    stay(Established, Trigger::RetriesExceeded);
}

#[test]
fn test_timer() {
    let mut t = Timer::new(Some(2));
    assert!(!t.is_running());
    assert_eq!(t.check(100, 1000, 60000), Expiry::NotYet);
    t.start(100, 1000);
    assert!(t.is_running());
    assert_eq!(t.deadline, Some(1100));
    t.start_if_idle(500, 1000);
    assert_eq!(t.deadline, Some(1100), "a running timer is not started again");
    assert_eq!(t.check(1099, 1000, 60000), Expiry::NotYet);
    assert_eq!(t.check(1100, 1000, 60000), Expiry::Retransmit);
    assert_eq!((t.deadline, t.n_rtos), (Some(1100 + 2000), 1));
    assert_eq!(t.check(3100, 1000, 60000), Expiry::Retransmit);
    assert_eq!((t.deadline, t.n_rtos), (Some(3100 + 4000), 2));
    assert_eq!(t.check(7100, 1000, 60000), Expiry::Failure);
    assert_eq!(t.deadline, None);
    t.start(0, 5);
    t.stop();
    assert_eq!((t.deadline, t.n_rtos), (None, 0));
    assert_eq!(add_delay(u64::MAX - 1, 5), u64::MAX);
    assert_eq!(add_delay(7, 5), 12);
    let mut forever = Timer::new(None);
    forever.start(0, 1);
    for _ in 0..100 {
        let d = forever.deadline.unwrap();
        assert_eq!(forever.check(d, 1, 8), Expiry::Retransmit);
    }
}
