use sudoku_rs::grid::Grid;
use sudoku_rs::solver::skyscraper::SkyscraperFinder;
use sudoku_rs::solver::step::Step;
use sudoku_rs::solver::step_accumulator::AllStepAccumulator;

#[test]
fn test_skyscraper() {
    let s = ":0400:1:+6+9+7.....+2..19+72.6+3..+3..679.9+12...6.+737+4+2+6.95.+8+65+7.+9.+2414+8+6+93+2+757.9.24..+6..+68.+7..+9::117 118 134 135:";
    let grid = Grid::new_from_hodoku_line(s).unwrap();
    let solver = SkyscraperFinder::default();
    let mut acc = AllStepAccumulator::default();
    solver.find_step(&grid, &mut acc);
    let steps = acc.get_steps();
    assert_eq!(steps.len(), 1);
}

#[test]
fn test_skyscraper_2() {
    let s = ":0400:4:..1.+2+8+7+59.8+79.+5+132+9+52173+4+8+6.2.+7..+3+4....+5..27.+7148+3+26+9+5....9.+8+1+7.+7+8.5+1+96319..+87+5+2+4::414:";
    let grid = Grid::new_from_hodoku_line(s).unwrap();
    let solver = SkyscraperFinder::default();
    let mut acc = AllStepAccumulator::default();
    solver.find_step(&grid, &mut acc);
    let steps = acc.get_steps();
    assert_eq!(steps.len(), 1);
}

#[test]
fn skyscraper_removes_what_the_puzzle_expects() {
    let s = ":0400:1:+6+9+7.....+2..19+72.6+3..+3..679.9+12...6.+737+4+2+6.95.+8+65+7.+9.+2414+8+6+93+2+757.9.24..+6..+68.+7..+9::117 118 134 135:";
    let mut grid = Grid::new_from_hodoku_line(s).unwrap();
    let mut acc = AllStepAccumulator::default();
    SkyscraperFinder::default().find_step(&grid, &mut acc);
    let Step::Skyscraper(sky) = &acc.get_steps()[0] else { panic!("expected a skyscraper") };
    let removed: Vec<(u8, u8)> = sky.remove_candidates.iter().map(|c| (c.cell(), c.value())).collect();
    assert_eq!(removed, vec![(6, 1), (7, 1), (21, 1), (22, 1)]);
    acc.get_steps()[0].apply(&mut grid);
    assert!(!grid.cell_has_candidate(6, 1));
}

#[test]
fn skyscraper_lists_two_fins_and_two_bases_in_cell_order() {
    let s = ":0400:1:+6+9+7.....+2..19+72.6+3..+3..679.9+12...6.+737+4+2+6.95.+8+65+7.+9.+2414+8+6+93+2+757.9.24..+6..+68.+7..+9::117 118 134 135:";
    let grid = Grid::new_from_hodoku_line(s).unwrap();
    let mut acc = AllStepAccumulator::default();
    SkyscraperFinder::default().find_step(&grid, &mut acc);
    let Step::Skyscraper(sky) = &acc.get_steps()[0] else { panic!("expected a skyscraper") };
    assert_eq!(sky.fin_candidates.len(), 2);
    assert_eq!(sky.highlight_candidates.len(), 2);
    assert!(sky.fin_candidates[0].cell() < sky.fin_candidates[1].cell());
    assert!(sky.highlight_candidates[0].cell() < sky.highlight_candidates[1].cell());
    for c in sky.fin_candidates.iter().chain(sky.highlight_candidates.iter()) {
        assert_eq!(c.value(), 1);
        assert!(grid.cell_has_candidate(c.cell(), 1));
    }
}
