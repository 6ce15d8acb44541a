use killer_sudoku::error::SolveError;
use killer_sudoku::io::{SerializableCage, SerializablePuzzle};
use killer_sudoku::render::{
    cage_of_cells, color_cages, draw, interference, is_drawable, is_king_move, label_cell, palette,
    plan, Label, RenderPlan,
};

fn written(cages: Vec<(usize, Vec<usize>)>) -> SerializablePuzzle {
    SerializablePuzzle {
        cell_values: vec![0; 81],
        cages: cages
            .into_iter()
            .map(|(sum, cell_indices)| SerializableCage { sum, cell_indices })
            .collect(),
    }
}

fn rows() -> Vec<(usize, Vec<usize>)> {
    (0..9).map(|r| (45, (0..9).map(|c| r * 9 + c).collect())).collect()
}

fn singles() -> Vec<(usize, Vec<usize>)> {
    (0..81).map(|i| (i % 9 + 1, vec![i])).collect()
}

fn dominoes() -> Vec<(usize, Vec<usize>)> {
    let mut cages = vec![];
    for row in 0..9 {
        for pair in 0..4 {
            cages.push((10, vec![row * 9 + 2 * pair + 1, row * 9 + 2 * pair]));
        }
        cages.push((5, vec![row * 9 + 8]));
    }
    cages
}

fn check_plan(puzzle: &SerializablePuzzle, plan: &RenderPlan) {
    let mut owner = vec![0; 81];
    for (k, cage) in puzzle.cages.iter().enumerate() {
        for cell in &cage.cell_indices {
            owner[*cell] = k;
        }
    }
    assert_eq!(plan.fills.len(), 81);
    for a in 0..81 {
        for b in 0..81 {
            if owner[a] == owner[b] {
                assert_eq!(plan.fills[a], plan.fills[b]);
            } else if is_king_move(a, b) {
                assert_ne!(plan.fills[a], plan.fills[b]);
            }
        }
    }
    assert_eq!(plan.labels.len(), puzzle.cages.len());
    for (k, cage) in puzzle.cages.iter().enumerate() {
        assert_eq!(plan.labels[k].sum, cage.sum);
        let best = cage.cell_indices.iter().map(|c| (c % 9, c / 9)).min().unwrap();
        assert_eq!(plan.labels[k].cell, best.1 * 9 + best.0);
    }
}

#[test]
fn king_moves() {
    assert!(is_king_move(0, 1));
    assert!(is_king_move(0, 9));
    assert!(is_king_move(0, 10));
    assert!(is_king_move(40, 30));
    assert!(is_king_move(40, 32));
    assert!(!is_king_move(0, 0));
    assert!(!is_king_move(8, 9));
    assert!(!is_king_move(0, 2));
    assert!(!is_king_move(0, 18));
    assert!(!is_king_move(17, 9));
}

#[test]
fn owners_of_a_partition() {
    let puzzle = written(rows());
    let owner = cage_of_cells(&puzzle.cages).unwrap();
    for cell in 0..81 {
        assert_eq!(owner[cell], cell / 9);
    }
}

#[test]
fn what_is_no_partition() {
    let mut missing = rows();
    missing[3].1.pop();
    assert_eq!(cage_of_cells(&written(missing).cages), None);
    let mut twice = rows();
    twice[3].1.push(0);
    assert_eq!(cage_of_cells(&written(twice).cages), None);
    let mut inside = rows();
    inside[3].1[4] = 27;
    assert_eq!(cage_of_cells(&written(inside).cages), None);
    let mut outside = rows();
    outside[8].1[8] = 81;
    assert_eq!(cage_of_cells(&written(outside).cages), None);
    let mut empty = rows();
    empty.push((0, vec![]));
    assert_eq!(cage_of_cells(&written(empty).cages), None);
    assert_eq!(cage_of_cells(&vec![]), None);
    assert_eq!(plan(&written(vec![])), Err(SolveError::MalformedPuzzle));
}

#[test]
fn interference_of_rows() {
    let puzzle = written(rows());
    let owner = cage_of_cells(&puzzle.cages).unwrap();
    let near = interference(&owner, 9);
    assert_eq!(near[0], vec![1]);
    assert_eq!(near[4], vec![3, 5]);
    assert_eq!(near[8], vec![7]);
}

#[test]
fn colours_of_rows() {
    let puzzle = written(rows());
    let laid = plan(&puzzle).unwrap();
    check_plan(&puzzle, &laid);
    assert!(is_drawable(&laid));
    assert!(laid.fills.iter().all(|f| *f < 9));
    assert_eq!(laid.labels[0], Label { cell: 0, sum: 45 });
    assert_eq!(laid.labels[8], Label { cell: 72, sum: 45 });
}

#[test]
fn colours_of_single_cells() {
    let puzzle = written(singles());
    let laid = plan(&puzzle).unwrap();
    check_plan(&puzzle, &laid);
    assert_eq!(is_drawable(&laid), laid.fills.iter().all(|f| *f < 9));
    assert_eq!(draw(&laid, "", "", "").is_some(), is_drawable(&laid));
}

#[test]
fn colours_of_dominoes_in_any_order() {
    let puzzle = written(dominoes());
    let laid = plan(&puzzle).unwrap();
    check_plan(&puzzle, &laid);
    assert!(is_drawable(&laid));
    assert_eq!(laid.labels[0], Label { cell: 0, sum: 10 });
}

#[test]
fn colours_spare_what_they_can() {
    let near = vec![vec![1], vec![0], vec![]];
    let shade = color_cages(&near, &vec![1, 1, 1]);
    assert_eq!(shade.len(), 3);
    assert_ne!(shade[0], shade[1]);
    assert!(shade.iter().all(|c| *c < 3));
    let none: Vec<Vec<usize>> = vec![];
    assert_eq!(color_cages(&none, &vec![]), Vec::<usize>::new());
}

#[test]
fn label_in_the_leftmost_column_from_the_top() {
    assert_eq!(label_cell(&vec![40]), 40);
    assert_eq!(label_cell(&vec![10, 18, 19]), 18);
    assert_eq!(label_cell(&vec![19, 10, 1]), 1);
    assert_eq!(label_cell(&vec![8, 16, 17]), 16);
    assert_eq!(label_cell(&vec![27, 9, 18]), 9);
}

#[test]
fn palette_has_nine_colours() {
    let colours: Vec<&str> = (0..9).map(palette).collect();
    assert_eq!(colours[0], "#d0d0ff");
    assert_eq!(colours[8], "#d0e0e0");
    for a in 0..9 {
        for b in 0..a {
            assert_ne!(colours[a], colours[b]);
        }
    }
}

#[test]
fn picture_of_a_plan() {
    let puzzle = written(dominoes());
    let laid = plan(&puzzle).unwrap();
    let document = draw(&laid, "demo", "January 1, 2022", "credit").unwrap();
    let text = document.to_string();
    assert!(text.starts_with("<svg"));
    assert!(text.contains("viewBox=\"0 0 1060 1140\""));
    assert!(text.contains("demo"));
    assert!(text.contains("45 Cages"));
    assert!(text.contains("January 1, 2022"));
    assert!(text.contains("credit"));
    assert_eq!(text.matches("<rect").count(), 82);
    assert_eq!(text.matches("<line").count(), 20);
    assert_eq!(text.matches("<text").count(), 45 + 4);
    assert_eq!(text.matches("stroke-width=\"4\"").count(), 8);
    assert_eq!(text.matches("<g>").count(), 4);
    assert!(text.contains("fill=\"white\""));
    assert!(text.contains("text-anchor=\"middle\""));
    assert!(text.contains("text-anchor=\"end\""));
    assert_eq!(text.matches("text-anchor=").count(), 3);
    assert_eq!(text.matches("font-size=\"60\"").count(), 1);
    assert_eq!(text.matches("font-size=\"24\"").count(), 45 + 1);
    assert_eq!(text.matches("font-size=\"20\"").count(), 2);
    assert_eq!(text.matches("stroke=\"black\"").count(), 20);
    assert_eq!(text.matches("stroke=\"none\"").count(), 82);
    assert_eq!(text.matches("x1=\"78\"").count(), 10);
    assert_eq!(text.matches("x2=\"982\"").count(), 10);
    assert_eq!(text.matches("y1=\"158\"").count(), 10);
    assert_eq!(text.matches("y2=\"1062\"").count(), 10);
    assert_eq!(text.matches("width=\"100\"").count(), 81);
    assert_eq!(text.matches("stroke-width=\"1\"").count(), 12);
    assert!(text.contains("10"));
}

#[test]
fn what_cannot_be_drawn() {
    let short = RenderPlan { fills: vec![0; 80], labels: vec![] };
    assert!(!is_drawable(&short));
    assert!(draw(&short, "", "", "").is_none());
    let mut pale = RenderPlan { fills: vec![0; 81], labels: vec![] };
    assert!(is_drawable(&pale));
    assert!(draw(&pale, "", "", "").is_some());
    pale.fills[80] = 9;
    assert!(!is_drawable(&pale));
    let astray = RenderPlan { fills: vec![0; 81], labels: vec![Label { cell: 81, sum: 1 }] };
    assert!(!is_drawable(&astray));
    assert!(draw(&astray, "", "", "").is_none());
}
