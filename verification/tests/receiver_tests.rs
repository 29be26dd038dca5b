use sctp_proto::receiver::TsnTracker;

fn blocks(t: &TsnTracker) -> Vec<(u16, u16)> {
    t.gap_ack_blocks().iter().map(|g| (g.start, g.end)).collect()
}

#[test]
fn test_tracker_in_order() {
    let mut t = TsnTracker::new(9);
    assert!(t.push(10));
    assert!(t.push(11));
    assert_eq!(t.cumulative_tsn(), 11);
    assert_eq!(t.window_len(), 0);
    assert!(blocks(&t).is_empty());
    assert!(!t.push(11), "a duplicate is not new");
    assert!(!t.push(5), "an old one is not new");
    assert!(t.has(11) && t.has(5) && !t.has(12));
}

#[test]
fn test_tracker_gap_blocks() {
    let mut t = TsnTracker::new(0xffff_fffe);
    assert!(t.push(1));
    assert!(t.push(2));
    assert!(t.push(4));
    assert!(t.push(7));
    assert!(!t.push(4));
    assert_eq!(t.cumulative_tsn(), 0xffff_fffe);
    // Relative to the cumulative point: 1 is at 3, 2 at 4, 4 at 6, 7 at 9.
    assert_eq!(blocks(&t), vec![(3, 4), (6, 6), (9, 9)]);
    assert!(t.push(0xffff_ffff));
    assert_eq!(blocks(&t), vec![(2, 3), (5, 5), (8, 8)]);
    assert!(t.push(0));
    // The cumulative point moves on over what was received.
    assert_eq!(t.cumulative_tsn(), 2);
    assert_eq!(blocks(&t), vec![(2, 2), (5, 5)]);
    assert!(t.has(4) && !t.has(3) && t.has(7) && !t.has(8));
}

#[test]
fn test_tracker_window_limit() {
    let mut t = TsnTracker::new(0);
    assert!(!t.push(65536), "beyond what a gap block can say");
    assert!(t.push(65535));
    assert_eq!(t.window_len(), 65535);
    assert_eq!(blocks(&t), vec![(65535, 65535)]);
}

#[test]
fn test_tracker_forward() {
    let mut t = TsnTracker::new(10);
    t.push(13);
    t.push(14);
    t.push(17);
    t.forward(12);
    // 13 and 14 were received, so the cumulative point moves on to 14.
    assert_eq!(t.cumulative_tsn(), 14);
    assert_eq!(blocks(&t), vec![(3, 3)]);
    t.forward(14);
    assert_eq!(t.cumulative_tsn(), 14);
    t.forward(5);
    assert_eq!(t.cumulative_tsn(), 14);
    t.forward(30);
    assert_eq!(t.cumulative_tsn(), 30);
    assert!(blocks(&t).is_empty());
}

#[test]
fn test_tracker_takes_each_number_once() {
    let mut t = TsnTracker::new(u32::MAX - 2);
    // 0xffff_ffff arrives out of turn, then others, over the wrap of the numbers.
    assert!(t.push(u32::MAX));
    for tsn in [1u32, 3, 0, u32::MAX - 1, 2, 7] {
        assert!(t.push(tsn));
        assert!(!t.push(u32::MAX), "marked in the window or behind the cumulative point");
        assert!(!t.push(tsn));
    }
    assert_eq!(t.cumulative_tsn(), 3);
    assert_eq!(blocks(&t), vec![(4, 4)]);
}
