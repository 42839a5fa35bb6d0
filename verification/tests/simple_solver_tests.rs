use sudoku_rs::solver::brute_force::BruteForceSolver;
use sudoku_rs::grid::Grid;
use sudoku_rs::solver::step::Step;
use sudoku_rs::solver::SimpleSolver;

#[test]
fn test_simple_solver() {
    let s = r#". -------------------- . ------------------ . ----------------- .
| 46    8       45679  | 2      49    45    | 1     67    3     |
| 1346  123459  124569 | 34589  7     13458 | 2689  268   258   |
| 13    12359   12579  | 3589   6     1358  | 289   4     2578  |
: -------------------- | ------------------ | ----------------- |
| 3468  349     4689   | 1      348   7     | 248   5     248   |
| 7     14      148    | 6      5     2     | 3     9     48    |
| 2     345     458    | 348    348   9     | 7     1     6     |
: -------------------- | ------------------ | ----------------- |
| 5     6       3      | 4789   1489  48    | 248   278   12478 |
| 148   124     1248   | 34578  1348  34568 | 468   3678  9     |
| 9     7       148    | 348    2     3468  | 5     368   148   |
. -------------------- . ------------------ . ----------------- ."#;
    let grid = Grid::new_from_matrix_str(s).unwrap();
    let solver = SimpleSolver::new();
    let step = solver.hint(&grid);
    println!("Step:{:?}\n", step);
}

#[test]
fn simple_solver_solves_an_easy_puzzle() {
    let digits = "530070000600195000098000060800060003400803001700020006060000280000419005000080079";
    let mut grid = Grid::new_from_singline_digit(digits).unwrap();
    let path = SimpleSolver::new().solve(&mut grid);
    assert!(path.is_solved());
    assert!(grid.is_solved());
    assert_eq!(
        grid.to_digit_line(),
        "534678912672195348198342567859761423426853791713924856961537284287419635345286179"
    );
    assert!(path.hardest_technique_rank() <= 14);
    assert_eq!(path.score(), sudoku_rs::solver::step::difficulty_score(path.steps()));
}

#[test]
fn simple_solver_stops_above_max_difficulty() {
    let digits = "530070000600195000098000060800060003400803001700020006060000280000419005000080079";
    let mut grid = Grid::new_from_singline_digit(digits).unwrap();
    let path = SimpleSolver::new().solve_with_max_difficulty(&mut grid, 3);
    assert!(!path.is_solved());
    assert!(path.steps().is_empty());
    assert_eq!(path.hardest_technique(), None);
}

#[test]
fn hint_on_solved_grid_is_nothing() {
    let digits = "534678912672195348198342567859761423426853791713924856961537284287419635345286179";
    let grid = Grid::new_from_singline_digit(digits).unwrap();
    assert_eq!(SimpleSolver::new().hint(&grid), Step::Nothing);
}

#[test]
fn every_step_keeps_the_solution() {
    let digits = "890000020600250030005000000020030000003100047000090000000805009004020010000940006";
    let mut grid = Grid::new_from_singline_digit(digits).unwrap();
    let solution = *BruteForceSolver::new().solve(&grid).values();
    let solver = SimpleSolver::new();
    for _ in 0..200 {
        let step = solver.hint(&grid);
        if matches!(step, Step::Nothing) {
            break;
        }
        step.apply(&mut grid);
        assert!(grid.check_grid_valid(&solution));
    }
    if grid.values().iter().all(|v| *v != 0) {
        assert_eq!(grid.values().as_slice(), &solution[..]);
    }
}

#[test]
fn stepping_through_an_easy_puzzle_reaches_its_solution() {
    let digits = "530070000600195000098000060800060003400803001700020006060000280000419005000080079";
    let mut grid = Grid::new_from_singline_digit(digits).unwrap();
    let solution = *BruteForceSolver::new().solve(&grid).values();
    let solver = SimpleSolver::new();
    for _ in 0..100 {
        let step = solver.hint(&grid);
        if matches!(step, Step::Nothing) {
            break;
        }
        step.apply(&mut grid);
        assert!(grid.check_grid_valid(&solution));
    }
    assert_eq!(grid.values().as_slice(), &solution[..]);
}

#[test]
fn a_step_rated_above_the_limit_is_left_undone() {
    let mut g = Grid::new_from_singline_digit(
        "149275836687391254235648971351982467726453189498167325874529613563814792912736540",
    )
    .unwrap();
    let p = SimpleSolver::new().solve_with_max_difficulty(&mut g, 3);
    assert!(p.steps().is_empty());
    assert_eq!(p.score(), 0);
    assert!(!p.is_solved());
    assert_eq!(p.hardest_technique(), None);
    assert_eq!(g.get_value(80), 0);
    let p = SimpleSolver::new().solve_with_max_difficulty(&mut g, 4);
    assert_eq!(p.steps().len(), 1);
    assert!(p.is_solved());
    assert_eq!(g.get_value(80), 8);
}
