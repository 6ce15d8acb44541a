use killer_sudoku::util::{onehot, popcnt64};

#[test]
fn test_popcnt() {
    assert_eq!(popcnt64(0x0123456789abcdef), 32);
    assert_eq!(popcnt64(0xfedcba9876543210), 32);
}

#[test]
fn test_onehot() {
    assert_eq!(onehot(0x3), None);
    for i in 0..64 {
        assert_eq!(onehot(1 << i), Some(i));
    }
}

#[test]
fn popcount_of_edge_words() {
    assert_eq!(popcnt64(0), 0);
    assert_eq!(popcnt64(u64::MAX), 64);
    assert_eq!(popcnt64(1 << 63), 1);
    assert_eq!(popcnt64(0x3fe), 9);
}

#[test]
fn onehot_of_zero_is_nothing() {
    assert_eq!(onehot(0), None);
    assert_eq!(onehot(u64::MAX), None);
}

#[test]
fn onehot_gives_back_the_word() {
    for x in [1u64, 2, 8, 0x200, 1 << 40, 1 << 63] {
        let i = onehot(x).unwrap();
        assert_eq!(x, 1u64 << i);
    }
}
