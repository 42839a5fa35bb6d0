use sudoku_rs::candidate::Candidate;
use sudoku_rs::grid::Grid;
use sudoku_rs::grid_constant::get_house_cell_set;
use sudoku_rs::solver::coloring::{ColoringFinder, ColoringStep, ColoringType};
use sudoku_rs::solver::step::Step;
use sudoku_rs::solver::step_accumulator::{AllStepAccumulator, SingleStepAccumulator};
use sudoku_rs::solver::SolverStrategy;

fn trap_grid() -> Grid {
    let mut grid = Grid::default();
    for (house, keep) in [(0, vec![0, 1]), (10, vec![1, 10]), (1, vec![10, 11])] {
        for cell in get_house_cell_set(house).values() {
            if !keep.contains(&cell) && grid.cell_has_candidate(cell, 1) {
                grid.remove_candidate(&Candidate::new(cell, 1));
            }
        }
    }
    grid
}

#[test]
fn finds_color_trap() {
    let grid = trap_grid();
    let mut acc = SingleStepAccumulator::default();
    ColoringFinder.find_step(&grid, &mut acc);
    assert!(matches!(acc.get_step(), Step::Coloring(_)));
}

#[test]
fn colour_seeing_itself_is_wrapped() {
    let grid = trap_grid();
    let mut acc = AllStepAccumulator::default();
    ColoringFinder.find_step(&grid, &mut acc);
    let first = acc.get_steps().iter().find_map(|step| match step {
        Step::Coloring(c) => Some(c.clone()),
        _ => None,
    });
    let step: ColoringStep = first.unwrap();
    // Cells 0 and 10 share a block, so their colour cannot be true.
    assert_eq!(step.coloring_type, ColoringType::Wrap);
    assert_eq!(step.color_a, vec![Candidate::new(0, 1), Candidate::new(10, 1)]);
    assert_eq!(step.color_b, vec![Candidate::new(1, 1), Candidate::new(11, 1)]);
    assert_eq!(step.remove_candidates, vec![Candidate::new(0, 1), Candidate::new(10, 1)]);
    assert_eq!(step.name(), "Color Wrap");
    assert_eq!(step.difficulty(), 280);
}
