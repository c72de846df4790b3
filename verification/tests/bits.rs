use miniutils::{floor_log2_u128, mask_u128};

#[test]
fn masks_have_the_top_bits_set() {
    assert_eq!(mask_u128(32, 24), 0xFFFF_FF00);
    assert_eq!(mask_u128(32, 1), 0x8000_0000);
    assert_eq!(mask_u128(32, 31), 0xFFFF_FFFE);
    assert_eq!(mask_u128(128, 1), 1 << 127);
    assert_eq!(mask_u128(128, 64), u128::MAX << 64);
    assert_eq!(mask_u128(128, 127), u128::MAX - 1);
    assert_eq!(mask_u128(8, 3), 0xE0);
}

#[test]
fn masks_at_the_two_boundaries() {
    assert_eq!(mask_u128(32, 0), 0);
    assert_eq!(mask_u128(128, 0), 0);
    // a prefix of the full width or more sets all 128 bits
    assert_eq!(mask_u128(32, 32), u128::MAX);
    assert_eq!(mask_u128(128, 128), u128::MAX);
    assert_eq!(mask_u128(32, 200), u128::MAX);
    assert_eq!(mask_u128(0, 0), 0);
}

#[test]
fn floor_log2_values() {
    assert_eq!(floor_log2_u128(0), 0);
    assert_eq!(floor_log2_u128(1), 0);
    assert_eq!(floor_log2_u128(2), 1);
    assert_eq!(floor_log2_u128(3), 1);
    assert_eq!(floor_log2_u128(4), 2);
    assert_eq!(floor_log2_u128(1023), 9);
    assert_eq!(floor_log2_u128(1024), 10);
    assert_eq!(floor_log2_u128(1 << 127), 127);
    assert_eq!(floor_log2_u128(u128::MAX), 127);
    assert_eq!(floor_log2_u128((1 << 64) - 1), 63);
}
