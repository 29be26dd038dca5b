use sctp_proto::congestion::{CongestionController, CongestionEvent, CongestionState};

fn state(cwnd: u32, ssthresh: u32, partial: u32, recovering: bool, point: u32) -> CongestionState {
    CongestionState {
        cwnd,
        ssthresh,
        partial_bytes_acked: partial,
        in_fast_recovery: recovering,
        recovery_point_tsn: point,
    }
}

#[test]
fn test_congestion_initial_window() {
    assert_eq!(CongestionController::new(1228, 4, 100_000).state(), state(4380, 100_000, 0, false, 0));
    // Four MTUs where they are less than 4380 bytes.
    assert_eq!(CongestionController::new(1000, 4, 1).state().cwnd, 4000);
    // Two MTUs where they are more than 4380 bytes.
    assert_eq!(CongestionController::new(3000, 4, 1).state().cwnd, 6000);
    assert_eq!(CongestionController::new(1228, 4, 1).get_mtu(), 1228);
    assert_eq!(CongestionController::new(1228, 7, 1).get_threshold(), 7);
}

#[test]
fn test_congestion_slow_start_grows_by_bytes_acked_at_most_one_mtu() {
    let mut c = CongestionController::new(1228, 4, 100_000);
    c.on_sack(500, 1);
    assert_eq!(c.state().cwnd, 4880);
    c.on_sack(5000, 2);
    assert_eq!(c.state().cwnd, 4880 + 1228);
    c.on_sack(0, 2);
    assert_eq!(c.state().cwnd, 4880 + 1228);
    assert_eq!(c.state().partial_bytes_acked, 0);
}

#[test]
fn test_congestion_avoidance_grows_by_one_mtu_per_window() {
    // The window is at the threshold: congestion avoidance.
    let mut c = CongestionController::new(1228, 4, 4380);
    c.on_sack(2000, 1);
    assert_eq!(c.state(), state(4380, 4380, 2000, false, 0));
    c.on_sack(2000, 2);
    assert_eq!(c.state(), state(4380, 4380, 4000, false, 0));
    c.on_sack(2000, 3);
    // 6000 bytes were acknowledged: one window's worth is used up, and the window grows.
    assert_eq!(c.state(), state(4380 + 1228, 4380, 6000 - 4380, false, 0));
}

#[test]
fn test_congestion_fast_retransmit_and_recovery() {
    let mut c = CongestionController::new(1228, 4, 100_000);
    for _ in 0..10 {
        c.on_sack(1228, 0);
    }
    assert_eq!(c.state().cwnd, 4380 + 12280);
    assert!(c.on_fast_retransmit(20));
    // ssthresh = max(16660 / 2, 2 * 1228) = 8330, cwnd = ssthresh + 4 * 1228
    assert_eq!(c.state(), state(8330 + 4912, 8330, 0, true, 20));
    // A second trigger inside fast recovery changes nothing.
    assert!(!c.on_fast_retransmit(30));
    assert_eq!(c.state(), state(8330 + 4912, 8330, 0, true, 20));
    // The window does not grow inside fast recovery.
    c.on_sack(1228, 19);
    assert_eq!(c.state(), state(8330 + 4912, 8330, 0, true, 20));
    // Fast recovery ends once the cumulative acknowledgement reaches the recovery point.
    c.on_sack(1000, 20);
    assert_eq!(c.state(), state(8330, 8330, 1000, false, 20));
}

#[test]
fn test_congestion_small_window_reduces_to_two_mtus() {
    let mut c = CongestionController::new(1228, 4, 100_000);
    assert!(c.on_fast_retransmit(1));
    assert_eq!(c.state().ssthresh, 2 * 1228);
    assert_eq!(c.state().cwnd, 6 * 1228);
}

#[test]
fn test_congestion_timeout_collapses_window() {
    let mut c = CongestionController::new(1228, 4, 100_000);
    for _ in 0..10 {
        c.on_sack(1228, 0);
    }
    c.on_timeout();
    assert_eq!(c.state(), state(1228, 8330, 0, false, 0));
    c.on_timeout();
    assert_eq!(c.state(), state(1228, 2456, 0, false, 0));
    // Slow start begins again.
    c.on_sack(1228, 0);
    assert_eq!(c.state().cwnd, 2456);
}

#[test]
fn test_congestion_window_never_below_one_mtu() {
    let events = [
        CongestionEvent::Timeout,
        CongestionEvent::FastRetransmit { highest_tsn: 5 },
        CongestionEvent::Sack { bytes_acked: 0, cum_ack: 5 },
        CongestionEvent::Timeout,
        CongestionEvent::Sack { bytes_acked: u32::MAX, cum_ack: 6 },
        CongestionEvent::FastRetransmit { highest_tsn: 0xffff_fff0 },
        CongestionEvent::Timeout,
        CongestionEvent::Sack { bytes_acked: 1, cum_ack: 0xffff_fff0 },
        CongestionEvent::Timeout,
        CongestionEvent::Timeout,
    ];
    for mtu in [1u16, 576, 1228, 65535] {
        for rwnd in [0u32, 1, 70_000, u32::MAX] {
            let mut c = CongestionController::new(mtu, 4, rwnd);
            assert!(c.state().cwnd >= mtu as u32);
            for e in events.iter() {
                c.apply(*e);
                assert!(c.state().cwnd >= mtu as u32, "cwnd fell below one MTU");
            }
        }
    }
}

#[test]
fn test_congestion_window_saturates() {
    let mut c = CongestionController::new(65535, 4, u32::MAX);
    for i in 0..70_000u32 {
        c.on_sack(65535, i);
    }
    assert_eq!(c.state().cwnd, u32::MAX);
}

#[test]
fn test_send_budget() {
    let c = CongestionController::new(1228, 4, 100_000);
    // cwnd is 4380
    assert_eq!(c.send_budget(0, 100_000), 4380);
    assert_eq!(c.send_budget(1000, 100_000), 3380);
    assert_eq!(c.send_budget(4380, 100_000), 0);
    assert_eq!(c.send_budget(5000, 100_000), 0);
    // The peer's window is the smaller one.
    assert_eq!(c.send_budget(1000, 3000), 2000);
    assert_eq!(c.send_budget(1000, 500), 0);
    assert_eq!(c.send_budget(0, 0), 0);
}

#[test]
fn test_congestion_without_loss_the_window_only_grows() {
    let mut c = CongestionController::new(1228, 4, 20_000);
    let mut last = c.state().cwnd;
    for i in 0..2000u32 {
        c.on_sack(1000, i);
        let s = c.state();
        assert!(s.cwnd >= last);
        assert_eq!(s.ssthresh, 20_000);
        assert!(!s.in_fast_recovery);
        // Slow start: a thousand bytes for each acknowledgement until the threshold is reached.
        assert!(u64::from(s.cwnd) >= std::cmp::min(4380 + 1000 * (u64::from(i) + 1), 20_000));
        last = s.cwnd;
    }
    assert!(c.state().cwnd > c.state().ssthresh);
}
