use sudoku_rs::candidate::Candidate;
use sudoku_rs::grid::Grid;
use sudoku_rs::grid_constant::get_house_cell_set;
use sudoku_rs::solver::hidden_set::{HiddenSet, HiddenSetFinder};
use sudoku_rs::solver::locked_candidate::{LockedCandidate, LockedCandidateFinder, LockedCandidateType};
use sudoku_rs::solver::naked_set::{NakedSet, NakedSetFinder};
use sudoku_rs::solver::step::Step;
use sudoku_rs::solver::step_accumulator::AllStepAccumulator;

fn grid_with_candidates_in_house(house: u8, value: u8, cells: &[u8]) -> Grid {
    let mut grid = Grid::default();
    for cell in get_house_cell_set(house).values() {
        if !cells.contains(&cell) {
            assert!(grid.remove_candidate(&Candidate::new(cell, value)));
        }
    }
    grid
}

fn locked_steps(grid: &Grid, candidate_type: LockedCandidateType) -> Vec<Step> {
    let finder = LockedCandidateFinder::new(candidate_type);
    let mut acc = AllStepAccumulator::default();
    finder.find_step(grid, &mut acc);
    acc.get_steps().iter().cloned().collect()
}

#[test]
fn test_pointing_row() {
    let mut grid = grid_with_candidates_in_house(18, 1, &[0, 1]);
    let steps = locked_steps(&grid, LockedCandidateType::Pointing);
    assert_eq!(
        steps,
        vec![Step::LockedCandidate(LockedCandidate::new(
            (3..=8).map(|cell| Candidate::new(cell, 1)).collect(),
            vec![Candidate::new(0, 1), Candidate::new(1, 1)],
            LockedCandidateType::Pointing,
            0,
            18
        ))]
    );
    let Step::LockedCandidate(step) = &steps[0] else { unreachable!() };
    step.apply(&mut grid);
    grid.check_state_valid().unwrap();
}

#[test]
fn test_pointing_column() {
    let grid = grid_with_candidates_in_house(18, 2, &[0, 9]);
    assert_eq!(
        locked_steps(&grid, LockedCandidateType::Pointing),
        vec![Step::LockedCandidate(LockedCandidate::new(
            [27, 36, 45, 54, 63, 72].map(|cell| Candidate::new(cell, 2)).to_vec(),
            vec![Candidate::new(0, 2), Candidate::new(9, 2)],
            LockedCandidateType::Pointing,
            9,
            18,
        ))]
    );
}

#[test]
fn test_claiming_row() {
    let grid = grid_with_candidates_in_house(0, 3, &[0, 1]);
    assert_eq!(
        locked_steps(&grid, LockedCandidateType::Claiming),
        vec![Step::LockedCandidate(LockedCandidate::new(
            [9, 10, 11, 18, 19, 20].map(|cell| Candidate::new(cell, 3)).to_vec(),
            vec![Candidate::new(0, 3), Candidate::new(1, 3)],
            LockedCandidateType::Claiming,
            18,
            0,
        ))]
    );
}

#[test]
fn test_claiming_column() {
    let grid = grid_with_candidates_in_house(9, 4, &[0, 9]);
    assert_eq!(
        locked_steps(&grid, LockedCandidateType::Claiming),
        vec![Step::LockedCandidate(LockedCandidate::new(
            [1, 2, 10, 11, 19, 20].map(|cell| Candidate::new(cell, 4)).to_vec(),
            vec![Candidate::new(0, 4), Candidate::new(9, 4)],
            LockedCandidateType::Claiming,
            18,
            9,
        ))]
    );
}

#[test]
fn test_single_candidate_is_not_an_intersection_step() {
    let grid = grid_with_candidates_in_house(18, 5, &[0]);
    assert!(locked_steps(&grid, LockedCandidateType::Pointing).is_empty());
}

fn retain_candidates(grid: &mut Grid, cells: &[u8], values: &[u8]) {
    for cell in cells {
        let candidates = grid.get_cell_candidate(*cell);
        for value in candidates.values() {
            if !values.contains(&value) {
                assert!(grid.remove_candidate(&Candidate::new(*cell, value)));
            }
        }
    }
}

fn naked_steps(grid: &Grid, degree: u8) -> Vec<Step> {
    let finder = NakedSetFinder::new(degree);
    let mut acc = AllStepAccumulator::default();
    finder.find_step(grid, &mut acc);
    acc.get_steps().iter().cloned().collect()
}

#[test]
fn test_find_naked_pair() {
    let mut grid = Grid::default();
    retain_candidates(&mut grid, &[0, 4], &[1, 2]);

    let steps = naked_steps(&grid, 2);
    assert_eq!(
        steps,
        vec![Step::NakedSet(NakedSet {
            degree: 2,
            remove_candidates: (1..=8)
                .filter(|cell| *cell != 4)
                .flat_map(|cell| [1, 2].map(|value| Candidate::new(cell, value)))
                .collect(),
            highlight_candidates: vec![
                Candidate::new(0, 1),
                Candidate::new(0, 2),
                Candidate::new(4, 1),
                Candidate::new(4, 2),
            ],
            house: 0,
            locked_house: None,
        })]
    );

    let Step::NakedSet(step) = &steps[0] else { unreachable!() };
    step.apply(&mut grid);
    grid.check_state_valid().unwrap();
}

#[test]
fn test_find_naked_triple() {
    let mut grid = Grid::default();
    retain_candidates(&mut grid, &[0], &[1, 2]);
    retain_candidates(&mut grid, &[4], &[2, 3]);
    retain_candidates(&mut grid, &[8], &[1, 3]);

    let steps = naked_steps(&grid, 3);
    assert_eq!(steps.len(), 1);
    let Step::NakedSet(step) = &steps[0] else { unreachable!() };
    assert_eq!(step.degree, 3);
    assert_eq!(step.house, 0);
    assert_eq!(step.locked_house, None);
}

#[test]
fn test_find_naked_quadruple() {
    let mut grid = Grid::default();
    retain_candidates(&mut grid, &[0], &[1, 2]);
    retain_candidates(&mut grid, &[3], &[2, 3]);
    retain_candidates(&mut grid, &[6], &[3, 4]);
    retain_candidates(&mut grid, &[8], &[1, 4]);

    let steps = naked_steps(&grid, 4);
    assert_eq!(steps.len(), 1);
    let Step::NakedSet(step) = &steps[0] else { unreachable!() };
    assert_eq!(step.degree, 4);
    assert_eq!(step.house, 0);
    assert_eq!(step.locked_house, None);
}

#[test]
fn test_locked_pair_removes_candidates_from_both_houses_without_duplicates() {
    let mut grid = Grid::default();
    retain_candidates(&mut grid, &[0, 1], &[1, 2]);

    let steps = naked_steps(&grid, 2);
    assert_eq!(steps.len(), 1);
    let Step::NakedSet(step) = &steps[0] else { unreachable!() };
    assert_eq!(step.name(), "Locked Pair");
    assert_eq!(step.house, 0);
    assert_eq!(step.locked_house, Some(18));
    assert_eq!(
        step.remove_candidates,
        [2, 3, 4, 5, 6, 7, 8, 9, 10, 11, 18, 19, 20]
            .into_iter()
            .flat_map(|cell| [1, 2].map(|value| Candidate::new(cell, value)))
            .collect::<Vec<_>>()
    );
}

#[test]
fn test_locked_triple_removes_candidates_from_both_houses_without_duplicates() {
    let mut grid = Grid::default();
    retain_candidates(&mut grid, &[0], &[1, 2]);
    retain_candidates(&mut grid, &[1], &[2, 3]);
    retain_candidates(&mut grid, &[2], &[1, 3]);

    let steps = naked_steps(&grid, 3);
    assert_eq!(steps.len(), 1);
    let Step::NakedSet(step) = &steps[0] else { unreachable!() };
    assert_eq!(step.name(), "Locked Triple");
    assert_eq!(step.locked_house, Some(18));
    assert_eq!(
        step.remove_candidates,
        [3, 4, 5, 6, 7, 8, 9, 10, 11, 18, 19, 20]
            .into_iter()
            .flat_map(|cell| [1, 2, 3].map(|value| Candidate::new(cell, value)))
            .collect::<Vec<_>>()
    );
}

#[test]
fn naked_set_test_triple_skips_actionable_pair() {
    let mut grid = Grid::default();
    retain_candidates(&mut grid, &[0, 4], &[1, 2]);
    retain_candidates(&mut grid, &[8], &[1, 2, 3]);

    assert!(naked_steps(&grid, 3).is_empty());
}

#[test]
fn naked_set_test_quadruple_skips_actionable_triple() {
    let mut grid = Grid::default();
    retain_candidates(&mut grid, &[0], &[1, 2]);
    retain_candidates(&mut grid, &[3], &[2, 3]);
    retain_candidates(&mut grid, &[6], &[1, 3]);
    retain_candidates(&mut grid, &[8], &[1, 2, 3, 4]);

    assert!(naked_steps(&grid, 4).is_empty());
}

#[test]
fn naked_set_test_equivalent_house_eliminations_are_deduplicated() {
    let mut grid = Grid::default();
    retain_candidates(&mut grid, &[0, 1], &[1, 2]);
    let house0 = get_house_cell_set(0);
    for cell in house0.union(&get_house_cell_set(18)).values() {
        if [0, 1].contains(&cell) {
            continue;
        }
        for value in [1, 2] {
            if !house0.contains(cell) && grid.cell_has_candidate(cell, value) {
                assert!(grid.remove_candidate(&Candidate::new(cell, value)));
            }
        }
    }

    let steps = naked_steps(&grid, 2);
    assert_eq!(steps.len(), 1);
    let Step::NakedSet(step) = &steps[0] else { unreachable!() };
    assert_eq!(step.house, 0);
}

#[test]
fn naked_set_test_hodoku_samples() {
    let samples = [
        (
            2,
            ":0200:3:7..+8+49.3.+9+2+81+35..64..26+7.+89+6+42+783951+3+97+4+5+1+6+2+8+8+156+9+2+3..+2.+4+5+1+6.+931....+8.6.+5....4.1.::382:",
        ),
        (3, "007481356300005197100370084700003060006500003000796008000030502000057000070000809"),
        (
            4,
            ":0202:389:.+1.+7+2.+56+3.+5+6.3.+247+7325+4+6+1+8+96+9+3+2+87+4+152+47+61+59+38+581+3+94........2...........1..587....::387 887 988:",
        ),
    ];
    for (degree, sample) in samples {
        let grid = if degree == 3 {
            Grid::new_from_singline_digit(sample).unwrap()
        } else {
            Grid::new_from_hodoku_line(sample).unwrap()
        };
        assert!(!naked_steps(&grid, degree).is_empty());
    }
}

fn retain_candidates_in_house(grid: &mut Grid, house: u8, values: &[u8], cells: &[u8]) {
    for cell in get_house_cell_set(house).values() {
        if cells.contains(&cell) {
            continue;
        }
        for value in values {
            if grid.cell_has_candidate(cell, *value) {
                assert!(grid.remove_candidate(&Candidate::new(cell, *value)));
            }
        }
    }
}

fn hidden_steps(grid: &Grid, degree: u8) -> Vec<Step> {
    let finder = HiddenSetFinder::new(degree);
    let mut acc = AllStepAccumulator::default();
    finder.find_step(grid, &mut acc);
    acc.get_steps().iter().cloned().collect()
}

fn expected_hidden_set(degree: u8) -> HiddenSet {
    let cells: Vec<u8> = (0..degree).collect();
    let values: Vec<u8> = (1..=degree).collect();
    HiddenSet {
        degree,
        remove_candidates: cells
            .iter()
            .flat_map(|cell| ((degree + 1)..=9).map(move |value| Candidate::new(*cell, value)))
            .collect(),
        highlight_candidates: cells
            .iter()
            .flat_map(|cell| values.iter().map(move |value| Candidate::new(*cell, *value)))
            .collect(),
        house: 0,
    }
}

fn assert_hidden_set(degree: u8) {
    let mut grid = Grid::default();
    let cells: Vec<u8> = (0..degree).collect();
    let values: Vec<u8> = (1..=degree).collect();
    retain_candidates_in_house(&mut grid, 0, values.as_slice(), cells.as_slice());

    let steps = hidden_steps(&grid, degree);
    assert_eq!(steps, vec![Step::HiddenSet(expected_hidden_set(degree))]);

    let Step::HiddenSet(step) = &steps[0] else { unreachable!() };
    step.apply(&mut grid);
    grid.check_state_valid().unwrap();
}

#[test]
fn test_find_hidden_pair() {
    assert_hidden_set(2);
}

#[test]
fn test_find_hidden_triple() {
    assert_hidden_set(3);
}

#[test]
fn test_find_hidden_quadruple() {
    assert_hidden_set(4);
}

#[test]
fn test_highlights_only_existing_candidates() {
    let mut grid = Grid::default();
    retain_candidates_in_house(&mut grid, 0, &[1, 2], &[0, 1]);
    assert!(grid.remove_candidate(&Candidate::new(1, 1)));

    let steps = hidden_steps(&grid, 2);
    let Step::HiddenSet(step) = &steps[0] else { unreachable!() };
    assert_eq!(
        step.highlight_candidates,
        vec![Candidate::new(0, 1), Candidate::new(0, 2), Candidate::new(1, 2)]
    );
}

#[test]
fn hidden_set_test_triple_skips_actionable_pair() {
    let mut grid = Grid::default();
    retain_candidates_in_house(&mut grid, 0, &[1, 2], &[0, 1]);
    retain_candidates_in_house(&mut grid, 0, &[3], &[2]);

    assert!(hidden_steps(&grid, 3).is_empty());
}

#[test]
fn hidden_set_test_quadruple_skips_actionable_triple() {
    let mut grid = Grid::default();
    retain_candidates_in_house(&mut grid, 0, &[1, 2, 3], &[0, 1, 2]);
    retain_candidates_in_house(&mut grid, 0, &[4], &[3]);

    assert!(hidden_steps(&grid, 4).is_empty());
}

#[test]
fn hidden_set_test_equivalent_house_eliminations_are_deduplicated() {
    let mut grid = Grid::default();
    retain_candidates_in_house(&mut grid, 0, &[1, 2], &[0, 1]);
    retain_candidates_in_house(&mut grid, 18, &[1, 2], &[0, 1]);

    let steps = hidden_steps(&grid, 2);
    assert_eq!(steps.len(), 1);
    let Step::HiddenSet(step) = &steps[0] else { unreachable!() };
    assert_eq!(step.house, 0);
}

#[test]
fn hidden_set_test_hodoku_samples() {
    let samples = [
        (2, "720408030080000047401076802810739000000851000000264080209680413340000008168943275"),
        (
            3,
            ":0211:16:2+8....4+7+35+3+4+8+2+7+1+96.+71.34.8.+3..5...4....+3+4..+6.+46.79.+3+1..9.2.+36+5+4..3..9+8+21....8.+937::192 693:",
        ),
        (
            4,
            ":0212:36:8+1+657+329+439+2......+4+5+72.+9..+6+9+41...5+68+7+8+5496+1+2+3+6+2+38...+4.2+79.....1+1+38....7.56+4....82:766 377 987:375 675 685:",
        ),
    ];
    for (degree, sample) in samples {
        let grid = if degree == 2 {
            Grid::new_from_singline_digit(sample).unwrap()
        } else {
            Grid::new_from_hodoku_line(sample).unwrap()
        };
        assert!(!hidden_steps(&grid, degree).is_empty());
    }
}
