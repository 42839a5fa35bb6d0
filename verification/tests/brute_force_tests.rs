use rand::rngs::StdRng;
use rand::SeedableRng;
use sudoku_rs::grid::Grid;
use web_time::Instant;
use sudoku_rs::solution::SolutionState;
use sudoku_rs::solver::brute_force::BruteForceSolver;

#[test]
fn test_solution_state() {
    let brute_force = BruteForceSolver::new();
    let grid = Grid::new_from_singline_digit(
        "040000200070205849285409300031000920000070000052000470007908632328501090004000010",
    )
    .unwrap();
    let solution_count = brute_force.get_solution_state(&grid);
    assert_eq!(solution_count, SolutionState::Unique);
    let grid = Grid::new_from_singline_digit(
        "536020900008000000000000000600285009000903000800761004000000000004000000201000007",
    )
    .unwrap();
    let solution_count = brute_force.get_solution_state(&grid);
    assert_eq!(solution_count, SolutionState::MoreThanOne);
}

#[test]
fn test_get_solution_state() {
    let s = "056070831000836400800000067000008090000320004003540608109083046204050389000604100";
    let grid = Grid::new_from_singline_digit(s).unwrap();
    let brute_force = BruteForceSolver::new();
    let state = brute_force.get_solution_state(&grid);
    assert_eq!(state, SolutionState::MoreThanOne);
}

#[test]
fn test_sudoku_solve() {
    let test_data: [(&str, SolutionState); 4] = [
        ("890000020600250030005000000020030000003100047000090000000805009004020010000940006", SolutionState::Unique),
        ("890000020600250030005000000020030000003100047000090000000805009004020010000940006", SolutionState::Unique),
        ("536020900008000000000000000600285009000903000800761004000000000004000000201000007", SolutionState::MoreThanOne),
        ("040000200070205849285409300031000920000070000052000470007908632328501090004000010", SolutionState::Unique),
    ];
    for data in test_data.iter() {
        let expected_state = &data.1;
        let sudoku_state = Grid::new_from_singline_digit(data.0).unwrap();
        let solver = BruteForceSolver::new();
        let solution = solver.solve(&sudoku_state);
        assert_eq!(solution.state(), expected_state);
    }
}

#[test]
fn test_empty_grid_has_more_than_one_solution() {
    let solver = BruteForceSolver::new();
    let solution = solver.solve(&Grid::default());
    assert_eq!(solution.state(), &SolutionState::MoreThanOne);
}

#[test]
fn test_grid_with_no_solution() {
    let grid = Grid::new_from_singline_digit(
        "123456780000000009000000000000000000000000000000000000000000000000000000000000000",
    )
    .unwrap();
    let solver = BruteForceSolver::new();
    let solution = solver.solve(&grid);
    assert_eq!(solution.state(), &SolutionState::NoSolution);
    assert!(solution.values().iter().all(|v| *v == 0));
}

#[test]
fn test_solved_grid_is_unique() {
    let digits = "149275836687391254235648971351982467726453189498167325874529613563814792912736548";
    let grid = Grid::new_from_singline_digit(digits).unwrap();
    let solver = BruteForceSolver::new();
    let solution = solver.solve(&grid);
    assert_eq!(solution.state(), &SolutionState::Unique);
    assert_eq!(&solution.values()[..], &grid.values()[..]);
}

#[test]
fn unique_solution_keeps_the_givens() {
    let s = "890000020600250030005000000020030000003100047000090000000805009004020010000940006";
    let grid = Grid::new_from_singline_digit(s).unwrap();
    let solution = BruteForceSolver::new().solve(&grid);
    for (i, d) in s.bytes().enumerate() {
        if d != b'0' {
            assert_eq!(solution.values()[i], d - b'0');
        } else {
            assert_ne!(solution.values()[i], 0);
        }
    }
}

#[test]
fn test_solution_generation() {
    let brute_force = BruteForceSolver::new();
    let solution = brute_force.generate_solution().unwrap();
    println!("{:?}", solution.to_digit_line())
}

#[test]
fn test_generated_solutions_are_consistent() {
    let solver = BruteForceSolver::new();
    for _ in 0..5 {
        let solution = solver.generate_solution().unwrap();
        assert!(solution.is_solved());
        assert!(solution.is_consistent());
    }
}

#[test]
fn test_deadline_interrupts_search() {
    let solver = BruteForceSolver::new();
    let grid = Grid::default();
    assert_eq!(
        solver.get_solution_state_with_deadline(&grid, Instant::now()),
        None
    );
    let mut rng = StdRng::seed_from_u64(7);
    assert!(solver
        .generate_solution_with_rng_and_deadline(&mut rng, Instant::now())
        .is_none());
}

#[test]
fn seeded_generation_repeats_its_solution() {
    let solver = BruteForceSolver::new();
    let first = solver
        .generate_solution_with_rng(&mut StdRng::seed_from_u64(11))
        .unwrap();
    let second = solver
        .generate_solution_with_rng(&mut StdRng::seed_from_u64(11))
        .unwrap();
    assert_eq!(first.values(), second.values());
    assert!(first.is_solved());
}

#[test]
fn distant_deadline_leaves_the_state_known() {
    let solver = BruteForceSolver::new();
    let grid = Grid::new_from_singline_digit(
        "040000200070205849285409300031000920000070000052000470007908632328501090004000010",
    )
    .unwrap();
    let deadline = Instant::now() + web_time::Duration::from_secs(30);
    assert_eq!(
        solver.get_solution_state_with_deadline(&grid, deadline),
        Some(SolutionState::Unique)
    );
}
