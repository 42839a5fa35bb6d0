use rand::rngs::StdRng;
use rand::SeedableRng;
use sudoku_rs::error::SudokuError;
use sudoku_rs::generator::generate::{
    generate_sudoku_with_rng_and_deadline, grid_from_digits, restore_digits, returns_first_matching_puzzle,
};
use sudoku_rs::solution::SolutionState;
use sudoku_rs::solver::brute_force::BruteForceSolver;
use sudoku_rs::solver::SimpleSolver;
use web_time::{Duration, Instant};
use sudoku_rs::generator::symmetry::rotational_180_orbits;
use sudoku_rs::grid::Difficulty;

#[test]
fn rotational_180_pairs_cells_and_keeps_center_single() {
    let orbits = rotational_180_orbits();
    assert_eq!(orbits.len(), 41);
    assert_eq!(orbits[0], vec![0, 80]);
    assert_eq!(orbits[40], vec![40]);
    assert_eq!(orbits.iter().map(Vec::len).sum::<usize>(), 81);
}

#[test]
fn high_difficulties_return_the_first_matching_puzzle() {
    assert!(!returns_first_matching_puzzle(Difficulty::Easy));
    assert!(!returns_first_matching_puzzle(Difficulty::Medium));
    assert!(returns_first_matching_puzzle(Difficulty::Hard));
    assert!(returns_first_matching_puzzle(Difficulty::UnFair));
    assert!(returns_first_matching_puzzle(Difficulty::Extreme));
}

#[test]
fn restoring_digits_writes_them_back() {
    let mut digits = [0u8; 81];
    restore_digits(&mut digits, &vec![(0, 5), (80, 7), (0, 6)]);
    assert_eq!(digits[0], 6);
    assert_eq!(digits[80], 7);
    assert_eq!(digits[1], 0);
}

#[test]
fn generated_easy_puzzle_is_symmetric_unique_and_logically_solved() {
    let mut rng = StdRng::seed_from_u64(7);
    let generated = generate_sudoku_with_rng_and_deadline(
        Difficulty::Easy,
        &mut rng,
        Instant::now() + Duration::from_secs(5),
    )
    .unwrap();
    let values = generated.grid.values();
    for cell in 0..81 {
        assert_eq!(values[cell] == 0, values[80 - cell] == 0);
        assert_eq!(generated.grid.cell_is_given(cell as u8), values[cell] != 0);
    }
    assert_eq!(
        BruteForceSolver::new().get_solution_state(&generated.grid),
        SolutionState::Unique
    );
    let digits: [u8; 81] = values.as_slice().try_into().unwrap();
    let mut grid = grid_from_digits(&digits).unwrap();
    let path = SimpleSolver::new().solve(&mut grid);
    assert!(path.is_solved());
    assert!(Difficulty::Easy.accepts_hardest_technique_rank(path.hardest_technique_rank()));
}

#[test]
fn expired_deadline_returns_generate_failed() {
    let mut rng = StdRng::seed_from_u64(7);
    assert!(matches!(
        generate_sudoku_with_rng_and_deadline(Difficulty::Easy, &mut rng, Instant::now()),
        Err(SudokuError::GenerateFailed)
    ));
}

#[test]
fn digits_become_a_grid_of_givens() {
    let mut digits = [0u8; 81];
    digits[0] = 5;
    digits[80] = 3;
    let grid = grid_from_digits(&digits).unwrap();
    assert_eq!(grid.get_value(0), 5);
    assert!(grid.cell_is_given(0));
    assert!(!grid.cell_is_given(1));
    digits[1] = 5;
    assert!(grid_from_digits(&digits).is_err());
}
