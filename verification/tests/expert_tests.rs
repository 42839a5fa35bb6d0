use sudoku_rs::grid::Grid;
use sudoku_rs::solver::expert::{find_expert_hint, SearchLimits};
use sudoku_rs::solver::step::Step;
use web_time::{Duration, Instant};

#[test]
fn reports_truncated_search() {
    let outcome = find_expert_hint(
        &Grid::default(),
        &SearchLimits {
            deadline: Instant::now(),
            max_depth: 1,
            max_nodes: 1,
        },
    );
    assert!(outcome.truncated);
}

#[test]
fn generous_limits_on_an_empty_grid_find_nothing_to_remove() {
    let outcome = find_expert_hint(
        &Grid::default(),
        &SearchLimits {
            deadline: Instant::now() + Duration::from_secs(30),
            max_depth: 2,
            max_nodes: 10,
        },
    );
    assert!(matches!(outcome.step, Step::Nothing));
}

#[test]
fn web_limits_are_small() {
    let limits = SearchLimits::web_expert();
    assert_eq!(limits.max_depth, 8);
    assert_eq!(limits.max_nodes, 2000);
}
