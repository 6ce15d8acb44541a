use killer_sudoku::cell::Cell;
use killer_sudoku::combinations::PossibleValues;
use killer_sudoku::error::SolveError;

#[test]
fn test_cell() {
    let mut c = Cell::default();
    assert_eq!(c.get_solution(), None);
    assert!(c.allows(1));
    assert!(c.allows(3));
    c.restrict_to(1 << 3).unwrap();
    assert_eq!(c.get_solution(), Some(3));
    assert!(!c.allows(1));
    assert!(c.allows(3));
}

#[test]
fn test_possible_values_iterator() {
    let possible_values = PossibleValues::new(0x108f);
    assert_eq!(possible_values.collect(), vec![0, 1, 2, 3, 7, 12]);
}

#[test]
fn default_cell_holds_every_digit() {
    let c = Cell::default();
    assert_eq!(c.get_bits(), 0x3fe);
    assert_eq!(c.num_possible_solutions(), 9);
    assert_eq!(c.possible_values().collect(), vec![1, 2, 3, 4, 5, 6, 7, 8, 9]);
}

#[test]
fn restrict_to_nothing_is_a_contradiction() {
    let mut c = Cell::default();
    assert_eq!(c.restrict_to(0), Err(SolveError::Contradiction));
    assert_eq!(c.get_bits(), 0);
    let mut c = Cell::default();
    c.restrict_to(0b110).unwrap();
    assert_eq!(c.restrict_to(0b1000), Err(SolveError::Contradiction));
    assert_eq!(c.get_bits(), 0);
    for mask in [0u64, 0b10, 0b1_0000_0001, 0x3fe, 0xffff, 1 << 63] {
        let mut c = Cell::default();
        c.restrict_to(0b1111_0110).unwrap();
        let before = c.get_bits();
        let r = c.restrict_to(mask);
        assert_eq!(c.get_bits(), before & mask);
        assert_eq!(c.get_bits() & !before, 0);
        assert_eq!(c.get_bits() & !mask, 0);
        assert_eq!(r.is_err(), before & mask == 0);
    }
}

#[test]
fn restrict_never_adds_a_digit() {
    let mut c = Cell::default();
    c.restrict_to(0b1111_0000).unwrap();
    assert_eq!(c.get_bits(), 0b1111_0000);
    c.restrict_to(0b0011_1111_1111).unwrap();
    assert_eq!(c.get_bits(), 0b1111_0000);
    c.restrict_to(0b0110_0000).unwrap();
    assert_eq!(c.get_bits(), 0b0110_0000);
    assert_eq!(c.num_possible_solutions(), 2);
}

#[test]
fn possible_values_one_by_one() {
    let mut it = PossibleValues::new(0b1010_0100);
    assert_eq!(it.next(), Some(2));
    assert_eq!(it.next(), Some(5));
    assert_eq!(it.next(), Some(7));
    assert_eq!(it.next(), None);
    assert_eq!(it.next(), None);
    let mut top = PossibleValues::new(1 << 63);
    assert_eq!(top.next(), Some(63));
    assert_eq!(top.next(), None);
}

#[test]
fn complement_to_a_sum() {
    let mut cell = Cell::default();
    cell.restrict_to(0b1110).unwrap();
    assert_eq!(cell.complement_to_sum(10), 0b11_1000_0000);
    assert_eq!(cell.complement_to_sum(5), 0b1_1100);
    assert_eq!(cell.complement_to_sum(2), 0b10);
    assert_eq!(cell.complement_to_sum(1), 0);
    assert_eq!(cell.complement_to_sum(0), 0);
    assert_eq!(cell.complement_to_sum(13), 0);
    assert_eq!(cell.complement_to_sum(64), 0);
    assert_eq!(Cell::default().complement_to_sum(10), 0b11_1111_1110);
    assert_eq!(Cell::default().complement_to_sum(18), 0b10_0000_0000);
}

#[test]
fn pairwise_restriction_keeps_digits_with_a_partner() {
    let mut own = Cell::default();
    own.restrict_to(0b11_1110).unwrap();
    let mut peer = Cell::default();
    peer.restrict_to(0b1111_0000).unwrap();
    let narrowed = own.pairwise_restriction(peer, 1 << 10).unwrap();
    assert_eq!(narrowed.get_bits(), 0b1_1000);
    let even = own.pairwise_restriction(own, 1 << 6).unwrap();
    assert_eq!(even.get_bits(), 0b11_0110);
    assert_eq!(own.pairwise_restriction(peer, 1 << 3), Err(SolveError::Contradiction));
    let either = own.pairwise_restriction(peer, (1 << 5) | (1 << 12)).unwrap();
    assert_eq!(either.get_bits(), 0b10_0010);
}

#[test]
fn fold_sums_of_one_cell() {
    let mut cell = Cell::default();
    cell.restrict_to(0b1_0010).unwrap();
    assert_eq!(cell.fold_possible_sums(1), 0b1_0010);
    assert_eq!(cell.fold_possible_sums(0b1_0010), (1 << 2) | (1 << 5) | (1 << 8));
    assert_eq!(cell.fold_possible_sums(0), 0);
    assert_eq!(cell.fold_possible_sums(1 << 63), 0);
    assert_eq!(cell.fold_possible_sums(1 << 60), 1 << 61);
}
