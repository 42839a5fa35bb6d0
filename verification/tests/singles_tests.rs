use sudoku_rs::candidate::Candidate;
use sudoku_rs::grid::Grid;
use sudoku_rs::grid_constant::get_cell_buddies;
use sudoku_rs::solver::full_house::{FullHouse, FullHouseFinder};
use sudoku_rs::solver::hidden_single::{HiddenSingle, HiddenSingleFinder};
use sudoku_rs::solver::naked_single::{NakedSingle, NakedSingleFinder};
use sudoku_rs::solver::step::Step;
use sudoku_rs::solver::step_accumulator::{AllStepAccumulator, SingleStepAccumulator, StepAccumulator};

#[test]
fn test_full_house() {
    let s = "149275836687391254235648971351982467726453189498167325874529613563814792912736540";
    let mut grid = Grid::new_from_singline_digit(s).unwrap();
    let mut acc = AllStepAccumulator::default();
    let finder = FullHouseFinder::default();
    finder.find_step(&grid, &mut acc);
    let steps = acc.get_steps();
    assert_eq!(steps.len(), 1);
    assert_eq!(steps.iter().next(), Some(&Step::FullHouse(FullHouse::new(80, 8, 8))));
    steps.iter().next().unwrap().apply(&mut grid);
    assert!(grid.is_solved());
    assert_eq!(grid.get_value(80), 8);
}

#[test]
fn test_naked_single() {
    let mut grid = Grid::default();
    for value in 1..=9 {
        if value != 6 {
            assert!(grid.remove_candidate(&Candidate::new(40, value)));
        }
    }
    let solver = NakedSingleFinder::default();
    let mut acc = AllStepAccumulator::default();
    solver.find_step(&grid, &mut acc);
    let steps = acc.get_steps();
    assert_eq!(steps.len(), 1);
    let step = steps.iter().next().unwrap();
    assert_eq!(step, &Step::NakedSingle(NakedSingle::new(40, 6)))
}

#[test]
fn test_naked_single_skips_full_house() {
    let grid = Grid::new_from_singline_digit(
        "149275836687391254235648971351982467726453189498167325874529613563814792912736540",
    )
    .unwrap();
    let solver = NakedSingleFinder::default();
    let mut acc = AllStepAccumulator::default();
    solver.find_step(&grid, &mut acc);
    assert!(acc.get_steps().is_empty());
}

#[test]
fn test_hidden_single() {
    let finder = HiddenSingleFinder::default();
    let mut grid = Grid::default();
    for cell in 1..9 {
        assert!(grid.remove_candidate(&Candidate::new(cell, 1)));
    }
    let mut acc = AllStepAccumulator::default();
    finder.find_step(&grid, &mut acc);
    let steps = acc.get_steps();
    assert_eq!(steps.len(), 1);
    assert_eq!(steps.iter().next(), Some(&Step::HiddenSingle(HiddenSingle::new(0, 0, 1))));
}

#[test]
fn test_hidden_single_is_deduplicated_across_houses() {
    let finder = HiddenSingleFinder::default();
    let mut grid = Grid::default();
    for cell in get_cell_buddies(0).values() {
        assert!(grid.remove_candidate(&Candidate::new(cell, 1)));
    }
    let mut acc = AllStepAccumulator::default();
    finder.find_step(&grid, &mut acc);
    let steps = acc.get_steps();
    assert_eq!(steps.len(), 1);
    assert_eq!(steps.iter().next(), Some(&Step::HiddenSingle(HiddenSingle::new(0, 0, 1))));
}

#[test]
fn test_hidden_single_skips_naked_single() {
    let finder = HiddenSingleFinder::default();
    let mut grid = Grid::default();
    for value in 2..=9 {
        assert!(grid.remove_candidate(&Candidate::new(0, value)));
    }
    for cell in 1..9 {
        assert!(grid.remove_candidate(&Candidate::new(cell, 1)));
    }
    let mut acc = AllStepAccumulator::default();
    finder.find_step(&grid, &mut acc);
    assert!(acc.get_steps().is_empty());
}

#[test]
fn single_accumulator_keeps_first_step() {
    let mut grid = Grid::default();
    for value in 2..=9 {
        assert!(grid.remove_candidate(&Candidate::new(0, value)));
        assert!(grid.remove_candidate(&Candidate::new(10, value)));
    }
    let mut acc = SingleStepAccumulator::default();
    NakedSingleFinder::default().find_step(&grid, &mut acc);
    assert!(acc.is_finish());
    assert_eq!(acc.get_step(), &Step::NakedSingle(NakedSingle::new(0, 1)));
}

#[test]
fn single_texts_and_ratings() {
    let step = Step::FullHouse(FullHouse::new(80, 8, 8));
    assert_eq!(step.difficulty(), 4);
    assert_eq!(step.name(), "Full House");
    assert_eq!(
        FullHouse::new(80, 8, 8).explain(),
        "<h3>Full House</h3> <p>cell <b>r9c9</b> is last empty of house <b>8</b>  and only missing digit is <b>8</b> </p>"
    );
    assert_eq!(Step::HiddenSingle(HiddenSingle::new(0, 0, 1)).difficulty(), 14);
    assert_eq!(NakedSingle::new(40, 6).explain(), "<h3>Naked Single</h3> <p>cell <b>r5c5</b> last possible candidate is <b>6</b></p>");
    assert_eq!(Step::Nothing.difficulty(), 0);
}
