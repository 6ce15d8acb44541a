use killer_sudoku::error::SolveError;
use killer_sudoku::io::{SerializableCage, SerializablePuzzle};
use killer_sudoku::puzzle::Puzzle;

fn easy() -> Vec<(usize, Vec<usize>)> {
    vec![
        (1, vec![0]), (2, vec![1]), (7, vec![2, 3]), (5, vec![4]), (15, vec![5, 14]),
        (8, vec![6, 15]), (21, vec![7, 16, 25, 26]), (9, vec![8]), (9, vec![9, 10]),
        (13, vec![11, 12]), (8, vec![13]), (3, vec![17]), (24, vec![18, 19, 27, 28, 29]),
        (9, vec![20]), (1, vec![21]), (2, vec![22]), (15, vec![23, 24, 33]), (13, vec![30, 39]),
        (6, vec![31]), (7, vec![32]), (18, vec![34, 42, 43, 44]), (1, vec![35]), (5, vec![36]),
        (6, vec![37]), (7, vec![38]), (9, vec![40]), (1, vec![41]), (8, vec![45]),
        (20, vec![46, 55, 64]), (8, vec![47, 48, 56]), (10, vec![49, 58]), (4, vec![50]),
        (29, vec![51, 52, 53, 60, 62]), (3, vec![54]), (6, vec![57]), (8, vec![59]), (1, vec![61]),
        (6, vec![63]), (17, vec![65, 66]), (3, vec![67, 68]), (13, vec![69, 70, 78]),
        (20, vec![71, 79, 80]), (9, vec![72]), (6, vec![73, 74, 75]), (9, vec![76, 77]),
    ]
}

fn hard() -> Vec<(usize, Vec<usize>)> {
    vec![
        (17, vec![0, 1, 2, 3, 12]), (5, vec![4]), (30, vec![5, 6, 7, 8]), (4, vec![9]),
        (35, vec![10, 11, 18, 19, 20]), (20, vec![13, 14, 21, 22]), (1, vec![15]), (2, vec![16]),
        (3, vec![17]), (19, vec![23, 24, 25, 26, 35]), (7, vec![27, 36]), (3, vec![28]),
        (4, vec![29]), (22, vec![30, 39, 47, 48, 57]), (22, vec![31, 32, 33, 41]),
        (16, vec![34, 43, 44]), (31, vec![37, 38, 46, 55, 56]), (9, vec![40]), (2, vec![42]),
        (11, vec![45, 54]), (20, vec![49, 58, 59, 68]), (4, vec![50]), (5, vec![51]),
        (24, vec![52, 53, 62, 70, 71]), (18, vec![60, 69, 78]), (1, vec![61]), (15, vec![63, 72]),
        (10, vec![64, 73, 74]), (8, vec![65]), (9, vec![66]), (13, vec![67, 75, 76, 77]),
        (15, vec![79, 80]),
    ]
}

fn twofold() -> Vec<(usize, Vec<usize>)> {
    vec![
        (10, vec![0, 9, 10]), (2, vec![1]), (20, vec![2, 3, 11, 12]), (5, vec![4]),
        (23, vec![5, 13, 14]), (8, vec![6, 15]), (21, vec![7, 16, 25, 26]), (9, vec![8]),
        (3, vec![17]), (24, vec![18, 19, 27, 28, 29]), (9, vec![20]), (1, vec![21]), (2, vec![22]),
        (15, vec![23, 24, 33]), (13, vec![30, 39]), (6, vec![31]), (8, vec![32, 41]),
        (18, vec![34, 42, 43, 44]), (1, vec![35]), (19, vec![36, 37, 45]), (7, vec![38]),
        (19, vec![40, 49, 58]), (20, vec![46, 55, 64]), (8, vec![47, 48, 56]), (12, vec![50, 59]),
        (29, vec![51, 52, 53, 60, 62]), (3, vec![54]), (6, vec![57]), (14, vec![61, 69, 70, 78]),
        (6, vec![63]), (17, vec![65, 66]), (3, vec![67, 68]), (20, vec![71, 79, 80]), (9, vec![72]),
        (6, vec![73, 74, 75]), (9, vec![76, 77]),
    ]
}

fn canonical() -> Vec<usize> {
    let mut grid = vec![0; 81];
    for row in 0..9 {
        for col in 0..9 {
            grid[row * 9 + col] = (col + row * 3 + row / 3) % 9 + 1;
        }
    }
    grid
}

fn grid_of(puzzle: &Puzzle) -> Vec<usize> {
    (0..81).map(|i| puzzle.get_cell(i).get_solution().unwrap()).collect()
}

fn units() -> Vec<Vec<usize>> {
    let mut all = vec![];
    for i in 0..9 {
        all.push((0..9).map(|j| i * 9 + j).collect());
        all.push((0..9).map(|j| j * 9 + i).collect());
        all.push((0..9).map(|j| ((i / 3) * 3 + j / 3) * 9 + (i % 3) * 3 + j % 3).collect());
    }
    all
}

fn check_solution(grid: &[usize], cages: &[(usize, Vec<usize>)]) {
    for unit in units() {
        let mut digits: Vec<usize> = unit.iter().map(|c| grid[*c]).collect();
        digits.sort();
        assert_eq!(digits, vec![1, 2, 3, 4, 5, 6, 7, 8, 9]);
    }
    for (sum, cells) in cages {
        assert_eq!(cells.iter().map(|c| grid[*c]).sum::<usize>(), *sum);
        let mut digits: Vec<usize> = cells.iter().map(|c| grid[*c]).collect();
        digits.sort();
        digits.dedup();
        assert_eq!(digits.len(), cells.len());
    }
}

fn puzzle_of(cages: Vec<(usize, Vec<usize>)>) -> Puzzle {
    let mut puzzle = Puzzle::new();
    puzzle.init_cages(cages, true).unwrap();
    puzzle
}

#[test]
fn new_puzzle_has_the_rules_of_sudoku() {
    let puzzle = Puzzle::new();
    assert_eq!(puzzle.get_num_cages(), 27);
    for i in 0..81 {
        assert_eq!(puzzle.get_cell(i).get_bits(), 0x3fe);
    }
    let mut found = vec![];
    for i in 0..27 {
        let cage = puzzle.get_cage(i);
        assert_eq!(cage.sum, 45);
        assert!(cage.uniqueness);
        assert_eq!(cage.cells.len(), 9);
        found.push(cage.cells);
    }
    for unit in units() {
        assert!(found.contains(&unit));
    }
    for pair in found.windows(2) {
        assert!(pair[0] < pair[1]);
    }
    let check = puzzle.check_cages(3);
    assert!(check.is_empty());
    let check = puzzle.check_cages(4);
    assert_eq!(check.len(), 81);
    assert_eq!(check[0], (0, 3));
    assert_eq!(check[80], (80, 3));
}

#[test]
fn solve_singletons() {
    let solution = canonical();
    let cages: Vec<(usize, Vec<usize>)> = (0..81).map(|i| (solution[i], vec![i])).collect();
    let puzzle = puzzle_of(cages.clone());
    let solutions = puzzle.solve().unwrap();
    assert_eq!(solutions.len(), 1);
    assert_eq!(grid_of(&solutions[0]), solution);
    check_solution(&grid_of(&solutions[0]), &cages);
}

#[test]
fn solve_easy_puzzle() {
    let puzzle = puzzle_of(easy());
    let solutions = puzzle.solve().unwrap();
    assert_eq!(solutions.len(), 1);
    assert_eq!(grid_of(&solutions[0]), canonical());
    check_solution(&grid_of(&solutions[0]), &easy());
}

#[test]
fn solve_from_file() {
    let written = SerializablePuzzle {
        cell_values: vec![0; 81],
        cages: hard()
            .into_iter()
            .map(|(sum, cell_indices)| SerializableCage { sum, cell_indices })
            .collect(),
    };
    let puzzle = Puzzle::from_serializable(written).unwrap();
    let solutions = puzzle.solve();
    assert!(solutions.is_ok());
    if let Ok(solutions) = solutions {
        assert_eq!(solutions.len(), 1);
        assert_eq!(grid_of(&solutions[0]), canonical());
        check_solution(&grid_of(&solutions[0]), &hard());
    }
}

#[test]
fn search_finds_both_solutions() {
    let puzzle = puzzle_of(twofold());
    let found = puzzle.search().unwrap();
    assert!(found.complete);
    assert_eq!(found.solutions.len(), 2);
    let mut grids: Vec<Vec<usize>> = found.solutions.iter().map(grid_of).collect();
    for grid in &grids {
        check_solution(grid, &twofold());
    }
    grids.sort();
    let mut other = canonical();
    for (cell, digit) in [(0, 4), (3, 7), (6, 1), (9, 1), (12, 4), (15, 7)] {
        other[cell] = digit;
    }
    assert_eq!(grids, vec![canonical(), other]);
}

#[test]
fn solve_is_the_same_each_time() {
    let puzzle = puzzle_of(twofold());
    let first: Vec<Vec<usize>> = puzzle.solve().unwrap().iter().map(grid_of).collect();
    let second: Vec<Vec<usize>> = puzzle.solve().unwrap().iter().map(grid_of).collect();
    assert_eq!(first, second);
    let again = puzzle_of(twofold());
    let third: Vec<Vec<usize>> = again.solve().unwrap().iter().map(grid_of).collect();
    assert_eq!(first, third);
}

#[test]
fn solve_leaves_the_puzzle_as_it_was() {
    let puzzle = puzzle_of(easy());
    let cages = puzzle.get_num_cages();
    puzzle.solve().unwrap();
    assert_eq!(puzzle.get_num_cages(), cages);
    for i in 0..81 {
        assert_eq!(puzzle.get_cell(i).get_bits(), 0x3fe);
    }
}

#[test]
fn contradiction_at_the_top() {
    let mut cages = easy();
    cages[0] = (2, vec![0]);
    let puzzle = puzzle_of(cages);
    assert!(matches!(puzzle.solve(), Err(SolveError::Contradiction)));
    let mut wrong = easy();
    wrong[2] = (18, vec![2, 3]);
    assert!(matches!(puzzle_of(wrong).search(), Err(SolveError::Contradiction)));
}

#[test]
fn written_puzzle_is_taken_where_its_cages_share_out_the_board() {
    let solution = canonical();
    let single = |i: usize| SerializableCage { sum: solution[i], cell_indices: vec![i] };
    let whole = SerializablePuzzle {
        cell_values: vec![],
        cages: (0..81).map(single).collect(),
    };
    let puzzle = Puzzle::from_serializable(whole).unwrap();
    assert_eq!(puzzle.get_num_cages(), 27 + 81);
    let short = SerializablePuzzle { cell_values: vec![], cages: (0..80).map(single).collect() };
    assert!(matches!(Puzzle::from_serializable(short), Err(SolveError::MalformedPuzzle)));
    let mut twice: Vec<SerializableCage> = (0..81).map(single).collect();
    twice.push(SerializableCage { sum: 3, cell_indices: vec![0, 1] });
    let twice = SerializablePuzzle { cell_values: vec![], cages: twice };
    assert!(matches!(Puzzle::from_serializable(twice), Err(SolveError::MalformedPuzzle)));
    let mut again: Vec<SerializableCage> = (0..81).map(single).collect();
    again.push(single(40));
    let again = SerializablePuzzle { cell_values: vec![], cages: again };
    assert_eq!(Puzzle::from_serializable(again).unwrap().get_num_cages(), 27 + 81);
    let mut off: Vec<SerializableCage> = (0..80).map(single).collect();
    off.push(SerializableCage { sum: 9, cell_indices: vec![80, 81] });
    let off = SerializablePuzzle { cell_values: vec![], cages: off };
    assert!(matches!(Puzzle::from_serializable(off), Err(SolveError::MalformedPuzzle)));
    let mut row: Vec<SerializableCage> = (9..81).map(single).collect();
    row.push(SerializableCage { sum: 45, cell_indices: (0..9).collect() });
    let row = SerializablePuzzle { cell_values: vec![], cages: row };
    assert!(matches!(Puzzle::from_serializable(row), Err(SolveError::MalformedPuzzle)));
}

#[test]
fn malformed_puzzles() {
    let mut missing = easy();
    missing.pop();
    let mut puzzle = Puzzle::new();
    assert_eq!(puzzle.init_cages(missing.clone(), true), Err(SolveError::MalformedPuzzle));
    assert_eq!(puzzle.get_num_cages(), 27);
    assert_eq!(puzzle.init_cages(missing, false), Ok(()));
    assert_eq!(puzzle.get_num_cages(), 27 + 44);

    let mut twice = easy();
    twice.push((1, vec![0]));
    twice.push((3, vec![0, 1]));
    assert_eq!(Puzzle::new().init_cages(twice, true), Err(SolveError::MalformedPuzzle));

    let mut outside = easy();
    outside[0] = (1, vec![81]);
    assert_eq!(Puzzle::new().init_cages(outside.clone(), true), Err(SolveError::MalformedPuzzle));
    assert_eq!(Puzzle::new().init_cages(outside, false), Err(SolveError::MalformedPuzzle));

    let mut repeated = easy();
    repeated[2] = (7, vec![2, 3, 2]);
    assert_eq!(Puzzle::new().init_cages(repeated, false), Err(SolveError::MalformedPuzzle));

    let written = SerializablePuzzle { cell_values: vec![], cages: vec![] };
    assert!(matches!(Puzzle::from_serializable(written), Err(SolveError::MalformedPuzzle)));
}

#[test]
fn cages_are_a_set() {
    let mut puzzle = Puzzle::new();
    puzzle.init_cages(vec![(3, vec![1, 0]), (3, vec![0, 1]), (4, vec![0, 1])], false).unwrap();
    assert_eq!(puzzle.get_num_cages(), 29);
    let first = puzzle.get_cage(0);
    assert_eq!(first.cells, vec![0, 1]);
    assert_eq!(first.sum, 3);
    let second = puzzle.get_cage(1);
    assert_eq!(second.cells, vec![0, 1]);
    assert_eq!(second.sum, 4);
    assert_eq!(puzzle.get_cage(2).cells, vec![0, 1, 2, 3, 4, 5, 6, 7, 8]);
}

#[test]
fn derived_cages() {
    let solution = canonical();
    let mut cages: Vec<(usize, Vec<usize>)> = (9..81)
        .filter(|i| *i != 9 && *i != 10)
        .map(|i| (solution[i], vec![i]))
        .collect();
    cages.push((solution[0] + solution[1] + solution[2], vec![0, 1, 2]));
    cages.push((solution[3] + solution[4], vec![3, 4]));
    cages.push((solution[5] + solution[6] + solution[7], vec![5, 6, 7]));
    cages.push((solution[8] + solution[9] + solution[10], vec![8, 9, 10]));
    let puzzle = puzzle_of(cages);
    let all: Vec<(Vec<usize>, usize, bool)> = (0..puzzle.get_num_cages())
        .map(|i| {
            let cage = puzzle.get_cage(i);
            (cage.cells, cage.sum, cage.uniqueness)
        })
        .collect();
    let d = |cells: &[usize]| cells.iter().map(|c| solution[*c]).sum::<usize>();
    let expected: Vec<(Vec<usize>, bool)> = vec![
        (vec![9, 10], false),
        (vec![8], true),
        (vec![8], false),
        (vec![9, 10], true),
        (vec![1, 2, 8, 10], false),
        (vec![0, 9], true),
        (vec![0, 2, 8, 9], false),
        (vec![1, 10], true),
        (vec![0, 1], false),
        (vec![2], true),
        (vec![4], false),
        (vec![3], true),
        (vec![3], false),
        (vec![4], true),
        (vec![6, 7], false),
        (vec![5], true),
        (vec![5, 7], false),
        (vec![6], true),
        (vec![5, 6], false),
        (vec![7], true),
        (vec![5, 9, 10], false),
        (vec![6, 7, 8], true),
    ];
    for (cells, uniqueness) in &expected {
        assert!(all.contains(&(cells.clone(), d(cells), *uniqueness)));
    }
    assert_eq!(all.len(), 27 + 74 + expected.len());
    for pair in all.windows(2) {
        assert!(pair[0] < pair[1]);
    }
    let solutions = puzzle.solve().unwrap();
    assert_eq!(solutions.len(), 1);
    assert_eq!(grid_of(&solutions[0]), solution);
}

#[test]
fn propagation_steps() {
    let mut puzzle = puzzle_of(easy());
    assert!(!puzzle.is_solved());
    let guess = puzzle.choose_guess();
    assert!(guess < 81);
    assert_eq!(puzzle.solve_until_stuck(), Ok(true));
    assert!(puzzle.is_solved());
    assert_eq!(grid_of(&puzzle), canonical());
    assert_eq!(puzzle.reduce_by_combination(), Ok(false));
    assert_eq!(puzzle.reduce_by_partition(), Ok(false));
    let copy = puzzle.duplicate();
    assert_eq!(grid_of(&copy), canonical());
    assert_eq!(copy.get_num_cages(), puzzle.get_num_cages());
}

#[test]
fn uniform_pass_settles_the_cages_of_one_cell() {
    let solution = canonical();
    let mut cages: Vec<(usize, Vec<usize>)> =
        (2..81).map(|i| (solution[i], vec![i])).collect();
    cages.push((solution[0] + solution[1], vec![0, 1]));
    let mut puzzle = Puzzle::new();
    puzzle.init_cages(cages, false).unwrap();
    assert_eq!(puzzle.reduce_by_uniform_combination(), Ok(true));
    for i in 2..81 {
        assert_eq!(puzzle.get_cell(i).get_solution(), Some(solution[i]));
    }
    assert_eq!(puzzle.get_cell(0).get_bits(), 0b0110);
    assert_eq!(puzzle.get_cell(1).get_bits(), 0b0110);
    assert_eq!(puzzle.reduce_by_uniform_combination(), Ok(false));
    assert!(puzzle.reduce_by_partition().is_ok());
    let mut wrong = Puzzle::new();
    wrong.init_cages(vec![(10, vec![40])], false).unwrap();
    assert_eq!(wrong.reduce_by_uniform_combination(), Err(SolveError::Contradiction));
    let mut none = Puzzle::new();
    none.init_cages(vec![(18, vec![3, 4])], false).unwrap();
    assert_eq!(none.reduce_by_uniform_combination(), Err(SolveError::Contradiction));
}

#[test]
fn search_beyond_the_limit_is_not_complete() {
    let puzzle = Puzzle::new();
    let mut copy = puzzle.duplicate();
    assert!(matches!(
        copy.solve_until_stuck_then_guess_and_fork(11),
        Err(SolveError::RecursionExhausted)
    ));
    let mut deep = puzzle.duplicate();
    assert!(matches!(
        deep.solve_until_stuck_then_guess_and_fork(usize::MAX),
        Err(SolveError::RecursionExhausted)
    ));
    let mut solved = puzzle_of(easy());
    let found = solved.solve_until_stuck_then_guess_and_fork(1000).unwrap();
    assert!(found.complete);
    assert_eq!(found.solutions.len(), 1);
}

#[test]
fn search_is_complete_with_few_open_cells() {
    let solution = canonical();
    let cages: Vec<(usize, Vec<usize>)> =
        (0..81).filter(|i| *i >= 8).map(|i| (solution[i], vec![i])).collect();
    let mut puzzle = Puzzle::new();
    puzzle.init_cages(cages, false).unwrap();
    assert_eq!(puzzle.solve_until_stuck(), Ok(true));
    let found = puzzle.search().unwrap();
    assert!(found.complete);
    assert_eq!(found.solutions.len(), 1);
    assert_eq!(grid_of(&found.solutions[0]), solution);
}

#[test]
fn stuck_board_has_no_settled_cell_in_a_larger_cage() {
    let mut puzzle = puzzle_of(twofold());
    assert_eq!(puzzle.solve_until_stuck(), Ok(false));
    for i in 0..puzzle.get_num_cages() {
        let cage = puzzle.get_cage(i);
        if cage.uniqueness && cage.cells.len() >= 2 {
            for cell in &cage.cells {
                assert_eq!(puzzle.get_cell(*cell).get_solution(), None);
            }
        }
        if cage.uniqueness && cage.cells.len() == 1 {
            assert_eq!(puzzle.get_cell(cage.cells[0]).get_solution(), Some(cage.sum));
        }
        if cage.uniqueness && cage.cells.len() == 2 {
            let first = puzzle.get_cell(cage.cells[0]);
            let second = puzzle.get_cell(cage.cells[1]);
            for d in 1..=9usize {
                if first.allows(d) {
                    assert!(cage.sum > d && cage.sum - d <= 9 && second.allows(cage.sum - d));
                }
            }
        }
    }
    let guess = puzzle.choose_guess();
    assert_eq!(puzzle.get_cell(guess).get_solution(), None);
    assert_eq!(puzzle.solve_until_stuck(), Ok(false));
}

#[test]
fn narrowing_never_adds_a_digit() {
    let mut puzzle = puzzle_of(hard());
    let before: Vec<u64> = (0..81).map(|i| puzzle.get_cell(i).get_bits()).collect();
    puzzle.solve_until_stuck().unwrap();
    for i in 0..81 {
        let after = puzzle.get_cell(i).get_bits();
        assert_eq!(after & !before[i], 0);
        assert_ne!(after, 0);
    }
}
