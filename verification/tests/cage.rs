use killer_sudoku::cage::Cage;
use killer_sudoku::cell::Cell;
use killer_sudoku::error::SolveError;

fn board() -> [Cell; 81] {
    [Cell::default(); 81]
}

fn set(board: &mut [Cell; 81], index: usize, mask: u64) {
    board[index].restrict_to(mask).unwrap();
}

#[test]
fn new_sorts_the_cells() {
    let cage = Cage::new(vec![10, 2, 1], 15, false);
    assert_eq!(cage.cells, vec![1, 2, 10]);
    assert_eq!(cage.sum, 15);
    assert!(!cage.uniqueness);
    assert!(cage.is_well_formed());
}

#[test]
fn uniqueness_comes_with_a_shared_line() {
    assert!(Cage::new(vec![2, 0, 1], 6, false).uniqueness);
    assert!(Cage::new(vec![4, 13, 76], 6, false).uniqueness);
    assert!(Cage::new(vec![0, 10], 6, true).uniqueness);
    assert!(!Cage::new(vec![0, 10], 6, false).uniqueness);
    assert!(!Cage::new(vec![], 0, false).uniqueness);
}

#[test]
fn malformed_cells_are_told() {
    assert!(!Cage::new(vec![3, 3], 6, true).is_well_formed());
    assert!(!Cage::new(vec![3, 81], 6, true).is_well_formed());
    assert!(Cage::new(vec![80, 0], 6, true).is_well_formed());
    assert!(Cage::empty().is_well_formed());
}

#[test]
fn empty_is_neutral_for_merge() {
    let cage = Cage::new(vec![5, 14, 23], 12, true);
    let merged = Cage::empty().merge(&cage);
    assert_eq!(merged.cells, cage.cells);
    assert_eq!(merged.sum, cage.sum);
    let merged = cage.merge(&Cage::empty());
    assert_eq!(merged.cells, cage.cells);
    assert_eq!(merged.sum, cage.sum);
    assert_eq!(Cage::empty().cells, Vec::<usize>::new());
    assert_eq!(Cage::empty().sum, 0);
}

#[test]
fn merge_adds_sums_and_sorts() {
    let a = Cage::new(vec![0, 9, 20], 10, true);
    let b = Cage::new(vec![1, 10, 19], 11, true);
    let merged = a.merge(&b);
    assert_eq!(merged.cells, vec![0, 1, 9, 10, 19, 20]);
    assert_eq!(merged.sum, 21);
    assert!(!merged.uniqueness);
    let row = Cage::new(vec![0, 1], 3, true).merge(&Cage::new(vec![2, 3], 7, true));
    assert_eq!(row.cells, vec![0, 1, 2, 3]);
    assert!(row.uniqueness);
}

#[test]
fn intersection_and_difference() {
    let a = Cage::new(vec![1, 2, 3, 5, 8], 0, false);
    let b = Cage::new(vec![2, 4, 5, 9], 0, false);
    let (both, only_a, only_b) = a.get_intersection_and_difference(&b);
    assert_eq!(both, vec![2, 5]);
    assert_eq!(only_a, vec![1, 3, 8]);
    assert_eq!(only_b, vec![4, 9]);
}

#[test]
fn intersection_and_difference_round_trip() {
    let lists: Vec<Vec<usize>> = vec![
        vec![],
        vec![0],
        vec![80],
        vec![0, 1, 2, 3],
        vec![2, 3, 4, 40],
        vec![1, 3, 5, 7, 9, 11],
        vec![0, 9, 18, 27, 36, 45, 54, 63, 72],
    ];
    for x in &lists {
        for y in &lists {
            let a = Cage::new(x.clone(), 1, false);
            let b = Cage::new(y.clone(), 2, false);
            let (both, only_a, only_b) = a.get_intersection_and_difference(&b);
            let back_a = Cage::new(both.clone(), 0, false).merge(&Cage::new(only_a.clone(), 0,
                false));
            let back_b = Cage::new(both.clone(), 0, false).merge(&Cage::new(only_b.clone(), 0,
                false));
            assert_eq!(back_a.cells, a.cells);
            assert_eq!(back_b.cells, b.cells);
            for list in [&both, &only_a, &only_b] {
                assert!(list.windows(2).all(|w| w[0] < w[1]));
            }
            assert!(only_a.iter().all(|c| !both.contains(c) && !only_b.contains(c)));
            assert!(only_b.iter().all(|c| !both.contains(c)));
        }
    }
}

#[test]
fn fold_sums() {
    let mut b = board();
    set(&mut b, 0, 0b1_1110);
    set(&mut b, 1, 0b1_1110_0000);
    let cage = Cage::new(vec![0, 1], 9, true);
    assert_eq!(cage.get_possible_sums(&b), 0x1fc0);
}

#[test]
fn possible_sums_of_small_cages() {
    let b = board();
    assert_eq!(Cage::empty().get_possible_sums(&b), 1);
    assert_eq!(Cage::new(vec![7], 3, true).get_possible_sums(&b), 0x3fe);
    assert_eq!(Cage::new(vec![7, 8], 3, true).get_possible_sums(&b), 0x7fffc);
    let mut c = board();
    set(&mut c, 3, 1 << 9);
    set(&mut c, 4, 1 << 9);
    assert_eq!(Cage::new(vec![3, 4], 18, false).get_possible_sums(&c), 1 << 18);
}

#[test]
fn possible_sums_drop_what_does_not_fit() {
    let mut b = board();
    for i in 0..8 {
        set(&mut b, i, 1 << 9);
    }
    let seven = Cage::new((0..7).collect(), 63, true);
    assert_eq!(seven.get_possible_sums(&b), 1 << 63);
    let eight = Cage::new((0..8).collect(), 72, true);
    assert_eq!(eight.get_possible_sums(&b), 0);
}

#[test]
fn remaining_sum_and_numbers() {
    let mut b = board();
    set(&mut b, 0, 1 << 4);
    set(&mut b, 1, 1 << 7);
    let cage = Cage::new(vec![0, 1, 2], 15, true);
    assert_eq!(cage.get_remaining_sum(&b), Some(4));
    assert_eq!(cage.get_remaining_numbers(&b), 0x3fe & !(1 << 4) & !(1 << 7));
    assert_eq!(cage.get_degrees_of_freedom(&b), 11);
    assert_eq!(cage.unsolved_cells(&b), vec![2]);
    let small = Cage::new(vec![0, 1, 2], 10, true);
    assert_eq!(small.get_remaining_sum(&b), None);
}

#[test]
fn uniform_combination_narrows() {
    let mut b = board();
    let cage = Cage::new(vec![0, 1], 4, true);
    assert_eq!(cage.restrict_by_uniform_combination(&mut b), Ok(true));
    assert_eq!(b[0].get_bits(), 0b1010);
    assert_eq!(b[1].get_bits(), 0b1010);
    assert_eq!(b[2].get_bits(), 0x3fe);
    assert_eq!(cage.restrict_by_uniform_combination(&mut b), Ok(false));
}

#[test]
fn uniform_combination_contradiction() {
    let mut b = board();
    let cage = Cage::new(vec![0, 1], 18, true);
    assert_eq!(cage.restrict_by_uniform_combination(&mut b), Err(SolveError::Contradiction));
    let mut c = board();
    set(&mut c, 1, 0b0110_0000);
    let low = Cage::new(vec![0, 1], 4, true);
    assert_eq!(low.restrict_by_uniform_combination(&mut c), Err(SolveError::Contradiction));
    assert_eq!(c[1].get_bits(), 0b0110_0000);
    let nothing = Cage::new(vec![], 5, true);
    assert_eq!(nothing.restrict_by_uniform_combination(&mut c), Err(SolveError::Contradiction));
    assert_eq!(Cage::new(vec![], 0, true).restrict_by_uniform_combination(&mut c), Ok(false));
}

#[test]
fn uniform_combination_passes_over_loose_cages() {
    let mut b = board();
    let cage = Cage::new(vec![0, 10], 4, false);
    assert_eq!(cage.restrict_by_uniform_combination(&mut b), Ok(false));
    assert_eq!(b[0].get_bits(), 0x3fe);
}

#[test]
fn combination_of_two_cells() {
    let mut b = board();
    set(&mut b, 0, 0b0011_1110);
    set(&mut b, 1, 0b1_1000_0000);
    let cage = Cage::new(vec![0, 1], 10, true);
    assert_eq!(cage.restrict_by_combination(&mut b), Ok(true));
    assert_eq!(b[0].get_bits(), 0b1100);
    assert_eq!(b[1].get_bits(), 0b1_1000_0000);
    assert_eq!(cage.restrict_by_combination(&mut b), Ok(false));
}

#[test]
fn combination_narrows_the_second_by_the_first() {
    let mut b = board();
    set(&mut b, 9, 0b0000_1110);
    set(&mut b, 18, 0b11_1111_0000);
    let cage = Cage::new(vec![9, 18], 10, true);
    assert_eq!(cage.restrict_by_combination(&mut b), Ok(true));
    assert_eq!(b[9].get_bits(), 0b0000_1110);
    assert_eq!(b[18].get_bits(), 0b11_1000_0000);
}

#[test]
fn combination_contradiction_and_passing_over() {
    let mut b = board();
    set(&mut b, 0, 0b0110);
    set(&mut b, 1, 0b0110);
    let cage = Cage::new(vec![0, 1], 17, true);
    assert_eq!(cage.restrict_by_combination(&mut b), Err(SolveError::Contradiction));
    let three = Cage::new(vec![0, 1, 2], 6, true);
    assert_eq!(three.restrict_by_combination(&mut b), Ok(false));
    let loose = Cage::new(vec![0, 10], 3, false);
    let before = b;
    assert_eq!(loose.restrict_by_combination(&mut b), Ok(false));
    assert!(b == before);
}

#[test]
fn partition() {
    let mut b = board();
    set(&mut b, 0, 0b0110);
    set(&mut b, 1, 0b0110);
    let cage = Cage::new(vec![0, 1, 2, 3], 10, true);
    let (first, second) = cage.check_for_partitions(&mut b).unwrap().unwrap();
    assert_eq!(first.cells, vec![0, 1]);
    assert_eq!(first.sum, 3);
    assert!(first.uniqueness);
    assert_eq!(second.cells, vec![2, 3]);
    assert_eq!(second.sum, 7);
    assert!(second.uniqueness);
    assert_eq!(b[0].get_bits(), 0b0110);
    assert_eq!(b[1].get_bits(), 0b0110);
    assert_eq!(b[2].get_bits(), 0b0111_1000);
    assert_eq!(b[3].get_bits(), 0b0111_1000);
}

#[test]
fn partition_of_a_settled_cell() {
    let mut b = board();
    set(&mut b, 40, 1 << 5);
    let cage = Cage::new(vec![39, 40, 41], 12, true);
    let (first, second) = cage.check_for_partitions(&mut b).unwrap().unwrap();
    assert_eq!(first.cells, vec![40]);
    assert_eq!(first.sum, 5);
    assert_eq!(second.cells, vec![39, 41]);
    assert_eq!(second.sum, 7);
    assert_eq!(b[39].get_bits(), 0b0101_1110);
    assert_eq!(b[41].get_bits(), 0b0101_1110);
}

#[test]
fn no_partition_without_a_hidden_set() {
    let mut b = board();
    let cage = Cage::new(vec![0, 1, 2], 12, true);
    assert_eq!(cage.check_for_partitions(&mut b), Ok(None));
    assert!(b == board());
    let loose = Cage::new(vec![0, 10, 20], 12, false);
    set(&mut b, 0, 1 << 5);
    assert_eq!(loose.check_for_partitions(&mut b), Ok(None));
    assert_eq!(Cage::new(vec![0], 5, true).check_for_partitions(&mut b), Ok(None));
}

#[test]
fn partition_contradiction() {
    let mut b = board();
    set(&mut b, 0, 1 << 5);
    set(&mut b, 1, 1 << 5);
    let cage = Cage::new(vec![0, 1, 2], 12, true);
    assert_eq!(cage.check_for_partitions(&mut b), Err(SolveError::Contradiction));
    let mut c = board();
    set(&mut c, 0, 1 << 9);
    let small = Cage::new(vec![0, 1], 5, true);
    assert_eq!(small.check_for_partitions(&mut c), Err(SolveError::Contradiction));
    let mut d = board();
    let big = Cage::new((0..10).collect(), 45, true);
    assert_eq!(big.check_for_partitions(&mut d), Err(SolveError::Contradiction));
}

#[test]
fn partition_finds_the_smaller_set_first() {
    let mut b = board();
    set(&mut b, 0, 0b0000_1110);
    set(&mut b, 1, 0b0000_1110);
    set(&mut b, 2, 0b0000_1110);
    set(&mut b, 3, 0b1_1000_0000);
    set(&mut b, 4, 0b1_1000_0000);
    let cage = Cage::new(vec![0, 1, 2, 3, 4, 5], 30, true);
    let (first, second) = cage.check_for_partitions(&mut b).unwrap().unwrap();
    assert_eq!(first.cells, vec![3, 4]);
    assert_eq!(first.sum, 15);
    assert_eq!(second.cells, vec![0, 1, 2, 5]);
    assert_eq!(second.sum, 15);
}

#[test]
fn partition_takes_the_cells_of_fewer_digits_first() {
    let mut b = board();
    set(&mut b, 0, 0b0000_1110);
    set(&mut b, 1, 0b0000_1110);
    set(&mut b, 2, 0b0000_1110);
    set(&mut b, 3, 0b0011_0000);
    set(&mut b, 4, 0b0110_0000);
    set(&mut b, 5, 0b0101_0000);
    let cage = Cage::new(vec![0, 1, 2, 3, 4, 5], 21, true);
    let (first, second) = cage.check_for_partitions(&mut b).unwrap().unwrap();
    assert_eq!(first.cells, vec![3, 4, 5]);
    assert_eq!(first.sum, 15);
    assert_eq!(second.cells, vec![0, 1, 2]);
    assert_eq!(second.sum, 6);
}

#[test]
fn partition_takes_the_first_of_two_sets() {
    let mut b = board();
    set(&mut b, 10, 0b0000_0110);
    set(&mut b, 11, 0b0000_0110);
    set(&mut b, 12, 0b11_0000_0000);
    set(&mut b, 13, 0b11_0000_0000);
    let cage = Cage::new(vec![10, 11, 12, 13], 20, true);
    let (first, second) = cage.check_for_partitions(&mut b).unwrap().unwrap();
    assert_eq!(first.cells, vec![10, 11]);
    assert_eq!(first.sum, 3);
    assert_eq!(second.cells, vec![12, 13]);
    assert_eq!(second.sum, 17);
    let again = cage.check_for_partitions(&mut b);
    assert!(again.is_ok());
}

#[test]
fn restrict_last_cell() {
    let mut b = board();
    set(&mut b, 0, 1 << 4);
    set(&mut b, 1, 1 << 7);
    let cage = Cage::new(vec![0, 1, 2], 14, true);
    assert_eq!(cage.restrict(&mut b), Ok(true));
    assert_eq!(b[2].get_bits(), 1 << 3);
    assert_eq!(cage.restrict(&mut b), Ok(false));
    let mut c = board();
    set(&mut c, 0, 1 << 4);
    set(&mut c, 1, 1 << 7);
    let taken = Cage::new(vec![0, 1, 2], 15, true);
    assert_eq!(taken.restrict(&mut c), Err(SolveError::Contradiction));
    assert_eq!(c[2].get_bits(), 0x3fe);
}

#[test]
fn restrict_last_two_cells() {
    let mut b = board();
    set(&mut b, 0, 1 << 9);
    set(&mut b, 1, 0b0011_1110);
    set(&mut b, 2, 0b11_0111_0000);
    let cage = Cage::new(vec![0, 1, 2], 19, true);
    assert_eq!(cage.restrict(&mut b), Ok(true));
    assert_eq!(b[1].get_bits(), 0b0001_0110);
    assert_eq!(b[2].get_bits(), 0b11_0100_0000);
    assert_eq!(cage.restrict(&mut b), Ok(false));
}

#[test]
fn restrict_leaves_the_rest() {
    let mut b = board();
    let cage = Cage::new(vec![0, 1, 2], 19, true);
    assert_eq!(cage.restrict(&mut b), Ok(false));
    assert!(b == board());
    set(&mut b, 0, 1 << 9);
    let loose = Cage::new(vec![0, 10], 12, false);
    assert_eq!(loose.restrict(&mut b), Ok(false));
    let over = Cage::new(vec![0, 1], 5, true);
    assert_eq!(over.restrict(&mut b), Err(SolveError::Contradiction));
    let mut c = board();
    set(&mut c, 0, 1 << 2);
    set(&mut c, 1, 1 << 3);
    assert_eq!(Cage::new(vec![0, 1], 5, true).restrict(&mut c), Ok(false));
    assert_eq!(Cage::new(vec![0, 1], 6, true).restrict(&mut c), Err(SolveError::Contradiction));
}

#[test]
fn order_of_cages() {
    let a = Cage::new(vec![0, 1], 3, true);
    let b = Cage::new(vec![0, 1, 2], 3, true);
    let c = Cage::new(vec![0, 2], 3, true);
    let d = Cage::new(vec![0, 2], 4, true);
    assert!(a.precedes(&b));
    assert!(b.precedes(&c));
    assert!(c.precedes(&d));
    assert!(!d.precedes(&c));
    assert!(!a.precedes(&a));
    assert!(a.same(&a.duplicate()));
    assert!(!a.same(&b));
    assert_eq!(a < b, a.precedes(&b));
    assert_eq!(c < d, c.precedes(&d));
    let e = Cage::new(vec![0, 10], 4, false);
    let f = Cage::new(vec![0, 10], 4, true);
    assert!(e.precedes(&f));
    assert!(e < f);
}
