use killer_sudoku::cage::Cage;
use killer_sudoku::derive::{count_occurrences, derive_cages, derive_from_parent, unbalanced_cells};
use killer_sudoku::index_set::{set_contains, set_insert, set_remove};

fn row(r: usize) -> Cage {
    Cage::new((0..9).map(|c| r * 9 + c).collect(), 45, true)
}

#[test]
fn what_is_left_of_a_row() {
    let list = vec![
        Cage::new(vec![0, 1], 3, true),
        row(0),
        Cage::new(vec![2, 3, 4], 12, true),
        Cage::new(vec![5, 6, 7, 8, 17], 39, true),
    ];
    let derived = derive_from_parent(&list, 1);
    assert_eq!(derived.len(), 2);
    assert_eq!(derived[0].cells, vec![17]);
    assert_eq!(derived[0].sum, 39 - 30);
    assert!(!derived[0].uniqueness);
    assert_eq!(derived[1].cells, vec![5, 6, 7, 8]);
    assert_eq!(derived[1].sum, 45 - 3 - 12);
    assert!(derived[1].uniqueness);
}

#[test]
fn nothing_is_left_of_a_covered_row() {
    let list = vec![
        Cage::new(vec![0, 1, 2, 3], 10, true),
        row(0),
        Cage::new(vec![4, 5, 6, 7, 8], 35, true),
    ];
    assert_eq!(derive_from_parent(&list, 1).len(), 0);
    assert_eq!(derive_cages(&list).len(), 0);
}

#[test]
fn what_reaches_too_far_is_left_out() {
    let list = vec![
        row(0),
        Cage::new(vec![0, 9, 18, 27, 36, 45], 21, true),
        Cage::new(vec![1, 2, 3, 4, 5, 6, 7, 8], 44, true),
    ];
    let derived = derive_from_parent(&list, 0);
    assert_eq!(derived.len(), 1);
    assert_eq!(derived[0].cells, vec![0]);
    assert_eq!(derived[0].sum, 1);
    assert!(derived[0].uniqueness);
}

#[test]
fn no_cage_from_sums_that_do_not_fit() {
    let list = vec![row(0), Cage::new(vec![0, 1], 50, true)];
    assert_eq!(derive_from_parent(&list, 0).len(), 0);
    let loose = vec![Cage::new((0..9).collect(), 45, false), Cage::new(vec![0, 1], 3, true)];
    assert!(!loose[0].uniqueness || derive_from_parent(&loose, 0).len() == 1);
}

#[test]
fn every_nine_is_a_parent() {
    let list = vec![
        Cage::new(vec![0, 1], 3, true),
        row(0),
        Cage::new(vec![9, 10, 11], 15, true),
        row(1),
    ];
    let derived = derive_cages(&list);
    assert_eq!(derived.len(), 2);
    assert_eq!(derived[0].cells, vec![2, 3, 4, 5, 6, 7, 8]);
    assert_eq!(derived[0].sum, 42);
    assert_eq!(derived[1].cells, vec![12, 13, 14, 15, 16, 17]);
    assert_eq!(derived[1].sum, 30);
}

#[test]
fn occurrences_of_cells() {
    let list = vec![Cage::new(vec![0, 1], 3, true), row(0), Cage::new(vec![1, 10], 9, true)];
    let counts = count_occurrences(&list);
    assert_eq!(counts.len(), 81);
    assert_eq!(counts[0], 2);
    assert_eq!(counts[1], 3);
    assert_eq!(counts[8], 1);
    assert_eq!(counts[10], 1);
    assert_eq!(counts[11], 0);
    let off = unbalanced_cells(&list, 1);
    assert_eq!(off[0], (0, 2));
    assert_eq!(off[1], (1, 3));
    assert_eq!(off[2], (9, 0));
    assert_eq!(off.len(), 2 + 72 - 1);
    assert!(unbalanced_cells(&vec![], 0).is_empty());
}

#[test]
fn sets_of_indices() {
    let mut list = vec![2, 5, 9];
    set_insert(&mut list, 7);
    assert_eq!(list, vec![2, 5, 7, 9]);
    set_insert(&mut list, 7);
    assert_eq!(list, vec![2, 5, 7, 9]);
    set_insert(&mut list, 0);
    set_insert(&mut list, 11);
    assert_eq!(list, vec![0, 2, 5, 7, 9, 11]);
    assert!(set_contains(&list, 9));
    assert!(!set_contains(&list, 8));
    assert!(set_remove(&mut list, 5));
    assert!(!set_remove(&mut list, 5));
    assert!(set_remove(&mut list, 0));
    assert!(set_remove(&mut list, 11));
    assert_eq!(list, vec![2, 7, 9]);
    let mut none: Vec<usize> = vec![];
    assert!(!set_remove(&mut none, 1));
    set_insert(&mut none, 1);
    assert_eq!(none, vec![1]);
}
