use sctp_proto::serial::{
    advance32, distance32, next16, sna16eq, sna16gt, sna16gte, sna16lt, sna16lte, sna32eq, sna32gt, sna32gte,
    sna32lt, sna32lte,
};

#[test]
fn test_serial_number_arithmetic32bit() {
    const DIV: u32 = 16;
    const SERIAL_BITS: u64 = 32;
    const INTERVAL: u32 = ((1u64 << SERIAL_BITS) / DIV as u64) as u32;
    const MAX_FORWARD_DISTANCE: u32 = 1 << ((SERIAL_BITS - 1) - 1);
    const MAX_BACKWARD_DISTANCE: u32 = 1 << (SERIAL_BITS - 1);

    for i in 0..DIV {
        let s1 = i.wrapping_mul(INTERVAL);
        let s2f = s1.wrapping_add(MAX_FORWARD_DISTANCE);
        let s2b = s1.wrapping_add(MAX_BACKWARD_DISTANCE);

        assert!(sna32lt(s1, s2f), "s1 < s2 should be true: s1={} s2={}", s1, s2f);
        assert!(!sna32lt(s1, s2b), "s1 < s2 should be false: s1={} s2={}", s1, s2b);

        assert!(!sna32gt(s1, s2f), "s1 > s2 should be false: s1={} s2={}", s1, s2f);
        assert!(sna32gt(s1, s2b), "s1 > s2 should be true: s1={} s2={}", s1, s2b);

        assert!(sna32lte(s1, s2f), "s1 <= s2 should be true: s1={} s2={}", s1, s2f);
        assert!(!sna32lte(s1, s2b), "s1 <= s2 should be false: s1={} s2={}", s1, s2b);

        assert!(!sna32gte(s1, s2f), "s1 >= s2 should be fales: s1={} s2={}", s1, s2f);
        assert!(sna32gte(s1, s2b), "s1 >= s2 should be true: s1={} s2={}", s1, s2b);

        assert!(sna32eq(s2b, s2b), "s2 == s2 should be true: s2={}", s2b);
        assert!(sna32lte(s2b, s2b), "s2 == s2 should be true: s2={}", s2b);
        assert!(sna32gte(s2b, s2b), "s2 == s2 should be true: s2={}", s2b);

        assert!(!sna32eq(s1.wrapping_add(1), s1), "s1+1 == s1 should be false: s1={}", s1);
        assert!(sna32gt(s1.wrapping_add(1), s1), "s1+1 > s1 should be true: s1={}", s1);
        assert!(sna32lt(s1.wrapping_sub(1), s1), "s1-1 < s1 should be true: s1={}", s1);
    }
}

#[test]
fn test_serial_number_arithmetic16bit() {
    const DIV: u16 = 16;
    const SERIAL_BITS: u32 = 16;
    const INTERVAL: u16 = ((1u32 << SERIAL_BITS) / DIV as u32) as u16;
    const MAX_FORWARD_DISTANCE: u16 = 1 << ((SERIAL_BITS - 1) - 1);
    const MAX_BACKWARD_DISTANCE: u16 = 1 << (SERIAL_BITS - 1);

    for i in 0..DIV {
        let s1 = i.wrapping_mul(INTERVAL);
        let s2f = s1.wrapping_add(MAX_FORWARD_DISTANCE);
        let s2b = s1.wrapping_add(MAX_BACKWARD_DISTANCE);

        assert!(sna16lt(s1, s2f));
        assert!(!sna16lt(s1, s2b));
        assert!(!sna16gt(s1, s2f));
        assert!(sna16gt(s1, s2b));
        assert!(sna16lte(s1, s2f));
        assert!(!sna16lte(s1, s2b));
        assert!(!sna16gte(s1, s2f));
        assert!(sna16gte(s1, s2b));
        assert!(sna16eq(s2b, s2b));
        assert!(sna16lte(s2b, s2b));
        assert!(sna16gte(s2b, s2b));
        assert!(!sna16eq(s1.wrapping_add(1), s1));
        assert!(sna16gt(s1.wrapping_add(1), s1));
        assert!(sna16lt(s1.wrapping_sub(1), s1));
    }
}

#[test]
fn test_serial_wraps_around() {
    assert!(sna32lt(0xffff_ffff, 0));
    assert!(sna32gt(0, 0xffff_ffff));
    assert!(!sna32lt(5, 5));
    assert_eq!(distance32(0xffff_fffe, 3), 5);
    assert_eq!(distance32(3, 0xffff_fffe), 0xffff_fffb);
    assert_eq!(advance32(0xffff_fffe, 5), 3);
    assert_eq!(next16(0xffff), 0);
    assert_eq!(next16(7), 8);
}
