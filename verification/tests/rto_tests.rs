use sctp_proto::rto::{calculate_next_timeout, RtoManager, RTO_INITIAL, RTO_MAX, RTO_MIN};

#[test]
fn test_rto_manager_initial_values() {
    let m = RtoManager::with_defaults();
    assert_eq!(m.get_rto(), RTO_INITIAL);
    assert_eq!(m.state().srtt, 0);
    assert_eq!(m.state().rto_min, RTO_MIN);
    assert_eq!(m.state().rto_max, RTO_MAX);
}

#[test]
fn test_rto_manager_rejects_unordered_bounds() {
    assert!(RtoManager::new(3000, 5000, 1000).is_none());
    assert!(RtoManager::new(500, 1000, 60000).is_none());
    assert!(RtoManager::new(3000, 1000, 60000).is_some());
}

#[test]
fn test_rto_manager_first_sample() {
    let mut m = RtoManager::with_defaults();
    let srtt = m.set_new_rtt(600);
    assert_eq!(srtt, 600);
    assert_eq!(m.state().rttvar, 300);
    // 600 + 4 * 300 = 1800
    assert_eq!(m.get_rto(), 1800);
}

#[test]
fn test_rto_manager_later_samples() {
    let mut m = RtoManager::with_defaults();
    m.set_new_rtt(600);
    let srtt = m.set_new_rtt(1000);
    // srtt = (7 * 600 + 1000) / 8 = 650, rttvar = (3 * 300 + 400) / 4 = 325
    assert_eq!(srtt, 650);
    assert_eq!(m.state().rttvar, 325);
    assert_eq!(m.get_rto(), 650 + 4 * 325);
}

#[test]
fn test_rto_manager_bounds() {
    let mut m = RtoManager::with_defaults();
    m.set_new_rtt(1);
    assert_eq!(m.get_rto(), RTO_MIN);
    m.set_new_rtt(1_000_000);
    assert_eq!(m.get_rto(), RTO_MAX);
}

#[test]
fn test_rto_expiry_doubles_up_to_max() {
    let mut m = RtoManager::with_defaults();
    assert_eq!(m.on_expiry(), 6000);
    assert_eq!(m.on_expiry(), 12000);
    assert_eq!(m.on_expiry(), 24000);
    assert_eq!(m.on_expiry(), 48000);
    assert_eq!(m.on_expiry(), 60000);
    assert_eq!(m.on_expiry(), 60000);
}

#[test]
fn test_rto_no_update() {
    let mut m = RtoManager::with_defaults();
    m.set_rto(2000, true);
    assert_eq!(m.set_new_rtt(100), 0);
    assert_eq!(m.get_rto(), 2000);
    m.reset(3000);
    assert_eq!(m.get_rto(), 3000);
}

#[test]
fn test_calculate_next_timeout() {
    assert_eq!(calculate_next_timeout(1, 0, RTO_MAX), 1);
    assert_eq!(calculate_next_timeout(1, 1, RTO_MAX), 2);
    assert_eq!(calculate_next_timeout(1, 2, RTO_MAX), 4);
    assert_eq!(calculate_next_timeout(1, 30, RTO_MAX), 60000);
    assert_eq!(calculate_next_timeout(1, 63, RTO_MAX), 60000);
    assert_eq!(calculate_next_timeout(1, 64, RTO_MAX), 60000);
    assert_eq!(calculate_next_timeout(3000, 4, RTO_MAX), 48000);
    assert_eq!(calculate_next_timeout(3000, 5, RTO_MAX), 60000);
    assert_eq!(calculate_next_timeout(0, 5, RTO_MAX), 0);
}
