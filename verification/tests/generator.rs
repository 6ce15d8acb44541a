use killer_sudoku::generator::{select_merge, total_weight, Generator, Merge};
use killer_sudoku::puzzle::Puzzle;

fn canonical() -> Vec<usize> {
    let mut grid = vec![0; 81];
    for row in 0..9 {
        for col in 0..9 {
            grid[row * 9 + col] = (col + row * 3 + row / 3) % 9 + 1;
        }
    }
    grid
}

fn is_sudoku(grid: &[usize]) -> bool {
    let mut units: Vec<Vec<usize>> = vec![];
    for i in 0..9 {
        units.push((0..9).map(|j| i * 9 + j).collect());
        units.push((0..9).map(|j| j * 9 + i).collect());
        units.push((0..9).map(|j| ((i / 3) * 3 + j / 3) * 9 + (i % 3) * 3 + j % 3).collect());
    }
    units.iter().all(|unit| {
        let mut digits: Vec<usize> = unit.iter().map(|c| grid[*c]).collect();
        digits.sort();
        digits == vec![1, 2, 3, 4, 5, 6, 7, 8, 9]
    })
}

fn cages_with_cells(gen: &Generator, size: usize) -> usize {
    (0..81).filter(|i| gen.contains_cage(*i) && gen.cage_cells(*i).len() == size).count()
}

#[test]
fn merge_cages() {
    let mut gen = Generator::new_canonical();
    assert!(gen.try_merge_cages(0, 1));
    assert!(!gen.contains_cage(1));
    assert_eq!(gen.cage_cells(0), vec![0, 1]);
    assert_eq!(gen.cage_adjacent(0), vec![2, 9, 10]);
    assert_eq!(gen.cage_adjacent(2), vec![0, 3, 11]);
    assert_eq!(gen.cage_adjacent(9), vec![0, 10, 18]);
    assert_eq!(gen.cage_adjacent(10), vec![0, 9, 11, 19]);
}

#[test]
fn merge_cages_unsuccessful() {
    let mut gen = Generator::new_canonical();
    assert!(gen.try_merge_cages(0, 1));
    assert!(gen.try_merge_cages(0, 2));
    assert!(gen.try_merge_cages(0, 3));
    assert!(!gen.try_merge_cages(0, 9));
}

#[test]
fn merge_random_cages() {
    let mut gen = Generator::new_canonical();
    assert_eq!(gen.try_merge_random_cages(), Ok(true));
    assert_eq!(gen.get_num_cages(), 80);
    assert_eq!(cages_with_cells(&gen, 2), 1);
}

#[test]
fn merge_random_cages_loop() {
    let mut gen = Generator::new_canonical();
    assert_eq!(gen.merge_random_cages(), true);
    assert_eq!(gen.get_num_cages(), 80);
    assert_eq!(cages_with_cells(&gen, 2), 1);
}

#[test]
fn canonical_grid_and_cages() {
    let gen = Generator::new_canonical();
    assert_eq!(gen.get_numbers(), canonical());
    assert!(is_sudoku(&gen.get_numbers()));
    assert_eq!(gen.get_num_cages(), 81);
    assert_eq!(gen.cage_cells(40), vec![40]);
    assert_eq!(gen.cage_adjacent(40), vec![31, 39, 41, 49]);
    assert_eq!(gen.cage_adjacent(0), vec![1, 9]);
    assert_eq!(gen.cage_adjacent(8), vec![7, 17]);
    assert_eq!(gen.cage_adjacent(80), vec![71, 79]);
    assert_eq!(gen.cage_adjacent(9), vec![0, 10, 18]);
}

#[test]
fn equal_digits_cannot_be_merged() {
    let mut gen = Generator::new_canonical();
    let numbers = gen.get_numbers();
    assert_eq!(numbers[0], numbers[15]);
    assert!(!gen.try_merge_cages(0, 15));
    assert_eq!(gen.get_num_cages(), 81);
    assert_eq!(gen.cage_cells(0), vec![0]);
    assert_eq!(gen.cage_cells(15), vec![15]);
    assert_eq!(numbers[9], numbers[3]);
    assert!(!gen.try_merge_cages(3, 9));
}

#[test]
fn a_cage_is_not_merged_with_itself() {
    let mut gen = Generator::new_canonical();
    assert!(!gen.try_merge_cages(40, 40));
    assert_eq!(gen.get_num_cages(), 81);
    assert_eq!(gen.cage_cells(40), vec![40]);
    assert_eq!(gen.cage_adjacent(40), vec![31, 39, 41, 49]);
    assert!(gen.try_merge_cages(40, 41));
    assert!(!gen.try_merge_cages(40, 40));
    assert_eq!(gen.cage_cells(40), vec![40, 41]);
    assert_eq!(gen.cage_adjacent(40), vec![31, 32, 39, 42, 49, 50]);
}

#[test]
fn failed_merge_strikes_the_pair() {
    let mut gen = Generator::new_canonical();
    assert!(gen.try_merge_cages(0, 1));
    assert!(gen.try_merge_cages(0, 2));
    assert!(gen.try_merge_cages(0, 3));
    assert_eq!(gen.cage_adjacent(0), vec![4, 9, 10, 11, 12]);
    assert_eq!(gen.cage_adjacent(9), vec![0, 10, 18]);
    assert!(!gen.try_merge_cages(0, 9));
    assert_eq!(gen.cage_adjacent(0), vec![4, 10, 11, 12]);
    assert_eq!(gen.cage_adjacent(9), vec![10, 18]);
    assert_eq!(gen.cage_cells(0), vec![0, 1, 2, 3]);
    assert!(gen.contains_cage(9));
}

#[test]
fn cages_stay_below_eight_cells() {
    let mut gen = Generator::new_canonical();
    for other in 1..7 {
        assert!(gen.try_merge_cages(0, other));
    }
    assert_eq!(gen.cage_cells(0), vec![0, 1, 2, 3, 4, 5, 6]);
    assert!(!gen.try_merge_cages(0, 7));
    assert_eq!(gen.cage_cells(0), vec![0, 1, 2, 3, 4, 5, 6]);
    assert!(gen.contains_cage(7));
}

#[test]
fn merge_into_the_greater_number() {
    let mut gen = Generator::new_canonical();
    assert!(gen.try_merge_cages(10, 1));
    assert!(!gen.contains_cage(1));
    assert_eq!(gen.cage_cells(10), vec![1, 10]);
    assert_eq!(gen.cage_adjacent(10), vec![0, 2, 9, 11, 19]);
    assert_eq!(gen.cage_adjacent(0), vec![9, 10]);
    assert_eq!(gen.cage_adjacent(2), vec![3, 10, 11]);
}

#[test]
fn serialize_canonical() {
    let mut gen = Generator::new_canonical();
    assert!(gen.try_merge_cages(0, 1));
    assert!(gen.try_merge_cages(0, 10));
    let written = gen.serialize();
    assert_eq!(written.cell_values, canonical());
    assert_eq!(written.cages.len(), 79);
    assert_eq!(written.cages[0].cell_indices, vec![0, 1, 10]);
    assert_eq!(written.cages[0].sum, 1 + 2 + 5);
    assert_eq!(written.cages[1].cell_indices, vec![2]);
    assert_eq!(written.cages[1].sum, 3);
    assert_eq!(written.cages[78].cell_indices, vec![80]);
    let puzzle = Puzzle::from_serializable(written).unwrap();
    let solutions = puzzle.solve().unwrap();
    assert_eq!(solutions.len(), 1);
}

#[test]
fn shuffle_rows_moves_whole_rows() {
    let mut gen = Generator::new_canonical();
    let before = gen.get_numbers();
    gen.shuffle_rows();
    let after = gen.get_numbers();
    let order = [3, 5, 4, 6, 7, 8, 0, 2, 1];
    for row in 0..9 {
        assert_eq!(after[row * 9..row * 9 + 9], before[order[row] * 9..order[row] * 9 + 9]);
    }
    assert!(is_sudoku(&after));
    assert_eq!(gen.get_num_cages(), 81);
}

#[test]
fn renumber_keeps_which_cells_are_equal() {
    let mut gen = Generator::new_canonical();
    let before = gen.get_numbers();
    gen.renumber();
    let after = gen.get_numbers();
    assert!(is_sudoku(&after));
    for i in 0..81 {
        for j in 0..81 {
            assert_eq!(before[i] == before[j], after[i] == after[j]);
        }
    }
}

#[test]
fn renumber_changes_the_grid_sooner_or_later() {
    let mut gen = Generator::new_canonical();
    let mut changed = false;
    for _ in 0..8 {
        let before = gen.get_numbers();
        gen.renumber();
        changed = changed || gen.get_numbers() != before;
    }
    assert!(changed);
}

#[test]
fn renumbering_by_a_given_sequence() {
    let mut gen = Generator::new_canonical();
    gen.apply_renumbering(&vec![9, 8, 7, 6, 5, 4, 3, 2, 1]);
    let expected: Vec<usize> = canonical().iter().map(|d| 10 - d).collect();
    assert_eq!(gen.get_numbers(), expected);
}

#[test]
fn partial_resolution_gives_a_sudoku() {
    let mut gen = Generator::new_canonical();
    gen.partial_resolution();
    let after = gen.get_numbers();
    assert!(is_sudoku(&after));
    assert_eq!(after[..27], canonical()[..27]);
    assert_eq!(gen.get_num_cages(), 81);
    let before = canonical();
    let mut let_go: Vec<usize> =
        (0..81).filter(|i| after[*i] != before[*i]).map(|i| before[i]).collect();
    let_go.sort();
    let_go.dedup();
    assert!(let_go.len() <= 4);
}

#[test]
fn kept_entries_of_the_canonical_grid() {
    let gen = Generator::new_canonical();
    let entries = gen.kept_entries(&vec![1, 2, 3, 4]);
    assert_eq!(entries.len(), 27 + 30);
    assert_eq!(entries[0], (1, vec![0]));
    assert_eq!(entries[26], (6, vec![26]));
    assert_eq!(entries[27], (5, vec![30]));
    assert!(entries.iter().all(|(value, cells)| cells[0] < 27 || *value > 4));
}

#[test]
fn eliminate_cage_keeps_one_solution() {
    let mut gen = Generator::new_canonical();
    for round in 0..6 {
        assert!(gen.eliminate_cage());
        assert_eq!(gen.get_num_cages(), 80 - round);
        assert!(gen.has_unique_solution());
    }
    let puzzle = Puzzle::from_serializable(gen.serialize()).unwrap();
    let found = puzzle.search().unwrap();
    assert!(found.complete);
    assert_eq!(found.solutions.len(), 1);
    let grid: Vec<usize> =
        (0..81).map(|i| found.solutions[0].get_cell(i).get_solution().unwrap()).collect();
    assert_eq!(grid, canonical());
}

#[test]
fn try_eliminate_cage_merges_one_pair() {
    let mut gen = Generator::new_canonical();
    assert_eq!(gen.try_eliminate_cage(), Ok(true));
    assert_eq!(gen.get_num_cages(), 80);
    assert_eq!(cages_with_cells(&gen, 2), 1);
}

#[test]
fn nothing_to_merge_without_neighbours() {
    let mut gen = Generator::new_canonical();
    for a in 0..81 {
        for b in gen.cage_adjacent(a) {
            gen.discard_pair(a, b);
        }
    }
    assert!(gen.possible_merges().is_empty());
    assert_eq!(gen.try_merge_random_cages(), Err(()));
    assert!(!gen.merge_random_cages());
    assert_eq!(gen.try_eliminate_cage(), Err(()));
    assert!(!gen.eliminate_cage());
    assert_eq!(gen.get_num_cages(), 81);
}

#[test]
fn possible_merges_of_the_canonical_grid() {
    let gen = Generator::new_canonical();
    let list = gen.possible_merges();
    assert_eq!(list.len(), 144);
    assert_eq!(list[0], Merge { first: 0, second: 1, weight: 2048 });
    assert_eq!(list[1], Merge { first: 0, second: 9, weight: 2048 });
    assert_eq!(list[143], Merge { first: 79, second: 80, weight: 2048 });
    assert_eq!(total_weight(&list), 144 * 2048);
    let mut merged = Generator::new_canonical();
    assert!(merged.try_merge_cages(0, 1));
    let list = merged.possible_merges();
    assert_eq!(list[0], Merge { first: 0, second: 2, weight: 2 * (1024 / 2) });
}

#[test]
fn select_by_cumulative_weight() {
    let list = vec![
        Merge { first: 0, second: 1, weight: 10 },
        Merge { first: 0, second: 9, weight: 20 },
        Merge { first: 1, second: 2, weight: 5 },
    ];
    assert_eq!(total_weight(&list), 35);
    assert_eq!(select_merge(&list, 0), 0);
    assert_eq!(select_merge(&list, 9), 0);
    assert_eq!(select_merge(&list, 10), 1);
    assert_eq!(select_merge(&list, 29), 1);
    assert_eq!(select_merge(&list, 30), 2);
    assert_eq!(select_merge(&list, 34), 2);
}

#[test]
fn new_random_is_a_sudoku_of_single_cells() {
    let gen = Generator::new_random();
    assert!(is_sudoku(&gen.get_numbers()));
    assert_eq!(gen.get_num_cages(), 81);
    assert_eq!(gen.cage_adjacent(40), vec![31, 39, 41, 49]);
    let copy = gen.duplicate();
    assert_eq!(copy.get_numbers(), gen.get_numbers());
}
