use killer_sudoku::combinations::{
    cage_can_have_uniqueness, get_combinations, get_combinations_union, PossibleValues,
};
use killer_sudoku::util::popcnt64;

#[test]
fn test_single_cell() {
    let c = get_combinations(1, 5).unwrap();
    assert_eq!(c.len(), 1);
    assert_eq!(PossibleValues::new(c[0]).collect(), vec![5]);
}

#[test]
fn test_double_cell_odd() {
    let c = get_combinations(2, 13).unwrap();
    assert_eq!(c.len(), 3);
    assert_eq!(PossibleValues::new(c[0]).collect(), vec![4, 9]);
    assert_eq!(PossibleValues::new(c[1]).collect(), vec![5, 8]);
    assert_eq!(PossibleValues::new(c[2]).collect(), vec![6, 7]);
}

#[test]
fn test_double_cell_even() {
    let c = get_combinations(2, 14).unwrap();
    assert_eq!(c.len(), 2);
    assert_eq!(PossibleValues::new(c[0]).collect(), vec![5, 9]);
    assert_eq!(PossibleValues::new(c[1]).collect(), vec![6, 8]);
}

#[test]
fn test_multiple_cells() {
    assert_eq!(get_combinations(3, 15).unwrap().len(), 8);
    assert_eq!(get_combinations(4, 15).unwrap().len(), 6);
    assert_eq!(get_combinations(5, 15).unwrap().len(), 1);
    assert_eq!(get_combinations(5, 25).unwrap().len(), 12);
    assert_eq!(get_combinations(6, 25).unwrap().len(), 4);
    assert_eq!(get_combinations(7, 33).unwrap().len(), 3);
    assert_eq!(get_combinations(8, 40).unwrap().len(), 1);
    assert_eq!(get_combinations(9, 45).unwrap().len(), 1);
}

#[test]
fn test_union() {
    assert_eq!(
        PossibleValues::new(get_combinations_union(2, 13).unwrap()).collect(),
        vec![4, 5, 6, 7, 8, 9]
    );
}

#[test]
fn smallest_and_largest_sets() {
    assert_eq!(get_combinations(5, 15).unwrap(), vec![0b11_1110]);
    assert_eq!(get_combinations(9, 45).unwrap(), vec![0x3fe]);
    assert_eq!(get_combinations(1, 9).unwrap(), vec![1 << 9]);
    assert_eq!(get_combinations(2, 17).unwrap(), vec![(1 << 8) | (1 << 9)]);
    assert_eq!(get_combinations(2, 3).unwrap(), vec![0b110]);
}

#[test]
fn no_set_where_the_sum_cannot_be_had() {
    assert_eq!(get_combinations(1, 0).unwrap(), Vec::<u64>::new());
    assert_eq!(get_combinations(1, 10).unwrap(), Vec::<u64>::new());
    assert_eq!(get_combinations(2, 2).unwrap(), Vec::<u64>::new());
    assert_eq!(get_combinations(2, 18).unwrap(), Vec::<u64>::new());
    assert_eq!(get_combinations(2, 20).unwrap(), Vec::<u64>::new());
    assert_eq!(get_combinations(9, 44).unwrap(), Vec::<u64>::new());
    assert_eq!(get_combinations(10, 45).unwrap(), Vec::<u64>::new());
    assert_eq!(get_combinations(0, 3).unwrap(), Vec::<u64>::new());
    assert_eq!(get_combinations(0, 0).unwrap(), vec![0]);
    assert_eq!(get_combinations_union(2, 18), Ok(0));
    assert_eq!(get_combinations_union(1, 10), Ok(0));
    assert_eq!(get_combinations_union(0, 0), Ok(0));
    assert_eq!(get_combinations_union(2, 17), Ok(0b11_0000_0000));
}

#[test]
fn every_set_has_the_size_and_the_sum() {
    for k in 1..=9usize {
        for s in 1..=45usize {
            let list = get_combinations(k, s).unwrap();
            let mut union = 0u64;
            for (i, m) in list.iter().enumerate() {
                assert_eq!(popcnt64(*m), k);
                assert_eq!(*m & !0x3fe, 0);
                assert_eq!(PossibleValues::new(*m).collect().iter().sum::<usize>(), s);
                assert!(!list[..i].contains(m));
                union |= *m;
            }
            assert_eq!(get_combinations_union(k, s), Ok(union));
            if list.is_empty() {
                assert_eq!(get_combinations_union(k, s), Ok(0));
            }
        }
    }
}

#[test]
fn the_sets_are_all_there() {
    let mut total = 0;
    for k in 0..=9usize {
        for s in 0..=45usize {
            total += get_combinations(k, s).unwrap().len();
        }
    }
    assert_eq!(total, 512);
}

#[test]
fn uniqueness_by_line() {
    assert!(cage_can_have_uniqueness(&vec![0, 1, 2]));
    assert!(cage_can_have_uniqueness(&vec![3, 12, 75]));
    assert!(cage_can_have_uniqueness(&vec![40]));
    assert!(!cage_can_have_uniqueness(&vec![0, 10]));
    assert!(!cage_can_have_uniqueness(&vec![8, 9]));
    assert!(!cage_can_have_uniqueness(&vec![]));
}
