use sudoku_rs::candidate::Candidate;
use sudoku_rs::grid::Grid;
use sudoku_rs::solver::step::Step;
use sudoku_rs::solver::step_accumulator::{AllStepAccumulator, SingleStepAccumulator};
use sudoku_rs::solver::wings::WingsFinder;
use sudoku_rs::solver::wwing::WWingFinder;
use sudoku_rs::solver::xywing::XYWingFinder;
use sudoku_rs::solver::xyzwing::XYZWingFinder;

fn retain_candidates(grid: &mut Grid, cell: u8, values: &[u8]) {
    for value in grid.get_cell_candidate(cell).values() {
        if !values.contains(&value) {
            assert!(grid.remove_candidate(&Candidate::new(cell, value)));
        }
    }
}

#[test]
fn test_wings_finder_prefers_xy_wing() {
    let mut grid = Grid::default();
    retain_candidates(&mut grid, 0, &[1, 2]);
    retain_candidates(&mut grid, 1, &[1, 3]);
    retain_candidates(&mut grid, 9, &[2, 3]);

    let mut acc = SingleStepAccumulator::default();
    WingsFinder::default().find_step(&grid, &mut acc);
    assert!(matches!(acc.get_step(), Step::XYWing(_)));
}

#[test]
fn test_xywing() {
    let s = r#".--------------.-----------.-------------.
| 8    145  57 | 3   6  25 | 9   147  12 |
| 27   45   9  | 47  1  25 | 8   6    3  |
| 127  6    3  | 47  8  9  | 24  147  5  |
:--------------+-----------+-------------:
| 9    2    4  | 6   7  3  | 1   5    8  |
| 3    8    6  | 9   5  1  | 7   2    4  |
| 5    7    1  | 8   2  4  | 3   9    6  |
:--------------+-----------+-------------:
| 4    3    2  | 1   9  6  | 5   8    7  |
| 6    9    8  | 5   3  7  | 24  14   12 |
| 17   15   57 | 2   4  8  | 6   3    9  |
'--------------'-----------'-------------'"#;
    let grid = Grid::new_from_matrix_str(s).unwrap();
    let solver = XYWingFinder::default();
    let mut acc = AllStepAccumulator::default();
    solver.find_hint(&grid, &mut acc);
    assert_eq!(acc.get_steps().len(), 3);
}

#[test]
fn test_xyzwing() {
    let mut grid = Grid::default();
    retain_candidates(&mut grid, 0, &[1, 2, 3]);
    retain_candidates(&mut grid, 1, &[1, 3]);
    retain_candidates(&mut grid, 9, &[2, 3]);

    let mut acc = AllStepAccumulator::default();
    XYZWingFinder::default().find_hint(&grid, &mut acc);
    let step = acc.get_steps().iter().find(|step| {
        matches!(step, Step::XYZWing(wing) if wing.remove_candidates.contains(&Candidate::new(10, 3)))
    });
    assert!(step.is_some());
    step.unwrap().apply(&mut grid);
    assert!(!grid.cell_has_candidate(10, 3));
}

#[test]
fn test_xyzwing_requires_all_three_cells_to_see_elimination() {
    let mut grid = Grid::default();
    retain_candidates(&mut grid, 0, &[1, 2, 3]);
    retain_candidates(&mut grid, 1, &[1, 3]);
    retain_candidates(&mut grid, 9, &[2, 3]);
    let mut acc = AllStepAccumulator::default();
    XYZWingFinder::default().find_hint(&grid, &mut acc);
    assert!(!acc.get_steps().iter().any(|step| {
        matches!(step, Step::XYZWing(wing) if wing.remove_candidates.contains(&Candidate::new(3, 3)))
    }));
}

#[test]
fn test_wwing() {
    let s = r#".------------.------------.--------------.
| 9  2   5   | 1   3  4   | 6    8   7   |
| 8  17  17  | 6   5  9   | 4    3   2   |
| 4  3   6   | 7   2  8   | 9    5   1   |
:------------+------------+--------------:
| 6  4   279 | 59  1  237 | 8    79  359 |
| 1  5   279 | 4   8  237 | 27   6   39  |
| 3  79  8   | 59  6  27  | 257  1   4   |
:------------+------------+--------------:
| 5  19  19  | 2   7  6   | 3    4   8   |
| 2  6   3   | 8   4  1   | 57   79  59  |
| 7  8   4   | 3   9  5   | 1    2   6   |
'------------'------------'--------------'"#;
    let grid = Grid::new_from_matrix_str(s).unwrap();
    let solver = WWingFinder::default();
    let mut acc = AllStepAccumulator::default();
    solver.find_hint(&grid, &mut acc);
    assert_eq!(acc.get_steps().len(), 2);
    for step in acc.get_steps() {
        let Step::WWing(wing) = step else {
            panic!("expected W-Wing step");
        };
        for candidate in wing.remove_candidates.iter() {
            assert!(grid.cell_has_candidate(candidate.cell(), candidate.value()));
        }
    }
}

#[test]
fn xy_wing_removes_the_shared_digit() {
    let mut grid = Grid::default();
    retain_candidates(&mut grid, 0, &[1, 2]);
    retain_candidates(&mut grid, 1, &[1, 3]);
    retain_candidates(&mut grid, 9, &[2, 3]);
    let mut acc = SingleStepAccumulator::default();
    XYWingFinder::default().find_hint(&grid, &mut acc);
    let Step::XYWing(wing) = acc.get_step() else { panic!("expected XY-Wing") };
    assert!(wing.remove_candidates.iter().all(|c| c.value() == 3));
    assert_eq!(acc.get_step().difficulty(), 160);
    assert_eq!(acc.get_step().name(), "XY-Wing");
}
