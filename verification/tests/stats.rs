use killer_sudoku::puzzle::Puzzle;
use killer_sudoku::util::get_population_distribution;
use std::collections::BTreeMap;

#[test]
fn population_distribution() {
    let found = get_population_distribution(&vec![3, 1, 3, 9, 3, 1]);
    assert_eq!(found, BTreeMap::from([(1, 2), (3, 3), (9, 1)]));
    assert_eq!(get_population_distribution(&vec![]), BTreeMap::new());
}

#[test]
fn cage_sizes_of_a_puzzle() {
    let mut puzzle = Puzzle::new();
    assert_eq!(puzzle.get_cage_size_distribution(), BTreeMap::from([(9, 27)]));
    assert_eq!(puzzle.get_cell_solvability_distribution(), BTreeMap::from([(9, 81)]));
    puzzle.init_cages(vec![(3, vec![0, 1]), (9, vec![40]), (12, vec![2, 3, 4])], false).unwrap();
    assert_eq!(puzzle.get_cage_size_distribution(), BTreeMap::from([(1, 1), (2, 1), (3, 1), (9,
        27)]));
    assert_eq!(
        puzzle.get_cell_solvability_distribution(),
        BTreeMap::from([(1, 1), (2, 2), (3, 3), (9, 75)])
    );
}
