use sudoku_rs::candidate::Candidate;
use sudoku_rs::grid::Grid;
use sudoku_rs::solver::als::{
    find_almost_locked_sets, restricted_common_candidates, AlmostLockedSet, AlsChainFinder, AlsStep, AlsType,
    AlsXYWingFinder, AlsXzFinder, DeathBlossomFinder, DEFAULT_MAX_ALS_SIZE,
};
use sudoku_rs::solver::step::Step;
use sudoku_rs::solver::step_accumulator::AllStepAccumulator;
use sudoku_rs::util::digitset::DigitSet;
use sudoku_rs::util::indexset::IndexSet;

#[test]
fn enumerates_only_bounded_almost_locked_sets() {
    let grid = Grid::new_from_singline_digit(&".".repeat(81)).unwrap();
    let sets = find_almost_locked_sets(&grid, DEFAULT_MAX_ALS_SIZE);
    assert!(sets.is_empty());
}

#[test]
fn enumerates_als_and_restricted_common_candidate() {
    let mut pms = vec![vec![9]; 81];
    pms[0] = vec![1, 2];
    pms[1] = vec![2, 3];
    let grid = Grid::new_from_digit_and_pms(&[0; 81], pms, vec![false; 81]).unwrap();
    let sets = find_almost_locked_sets(&grid, DEFAULT_MAX_ALS_SIZE);
    let left = sets.iter().find(|set| set.cells.values() == vec![0]).unwrap();
    let right = sets.iter().find(|set| set.cells.values() == vec![1]).unwrap();
    assert_eq!(
        restricted_common_candidates(&grid, left, right)
            .iter()
            .map(|rcc| rcc.value)
            .collect::<Vec<_>>(),
        vec![2]
    );
}

#[test]
fn rejects_rcc_in_overlapping_cells() {
    let mut pms = vec![vec![9]; 81];
    pms[0] = vec![2];
    pms[1] = vec![1, 3];
    pms[2] = vec![3, 4];
    let grid = Grid::new_from_digit_and_pms(&[0; 81], pms, vec![false; 81]).unwrap();
    let left = AlmostLockedSet {
        house: 0,
        cells: IndexSet::new_from_values(&[0, 1]),
        values: DigitSet::new_from_values(&[1, 2, 3]),
    };
    let right = AlmostLockedSet {
        house: 0,
        cells: IndexSet::new_from_values(&[0, 2]),
        values: DigitSet::new_from_values(&[2, 3, 4]),
    };
    assert!(restricted_common_candidates(&grid, &left, &right)
        .iter()
        .all(|rcc| rcc.value != 2));
}

#[test]
fn almost_locked_sets_come_sorted_with_first_house() {
    let mut pms = vec![vec![9]; 81];
    pms[0] = vec![1, 2];
    pms[1] = vec![2, 3];
    let grid = Grid::new_from_digit_and_pms(&[0; 81], pms, vec![false; 81]).unwrap();
    let sets = find_almost_locked_sets(&grid, DEFAULT_MAX_ALS_SIZE);
    let cells: Vec<Vec<u8>> = sets.iter().map(|set| set.cells.values()).collect();
    assert!(cells.windows(2).all(|pair| pair[0] < pair[1]));
    assert_eq!(cells[0], vec![0]);
    assert_eq!(cells[1], vec![0, 1]);
    assert_eq!(cells[2], vec![0, 1, 2]);
    assert_eq!(sets[0].house, 0);
    assert_eq!(sets[0].values.values(), vec![1, 2]);
    assert_eq!(sets[1].values.values(), vec![1, 2, 3]);
    assert_eq!(sets[2].values.values(), vec![1, 2, 3, 9]);
    let column = sets.iter().find(|set| set.cells.values() == vec![0, 9]).unwrap();
    assert_eq!(column.house, 9);
    let block = sets.iter().find(|set| set.cells.values() == vec![1, 9]).unwrap();
    assert_eq!(block.house, 18);
}

#[test]
fn size_bound_limits_almost_locked_sets() {
    let mut pms = vec![vec![9]; 81];
    pms[0] = vec![1, 2];
    pms[1] = vec![2, 3];
    let grid = Grid::new_from_digit_and_pms(&[0; 81], pms, vec![false; 81]).unwrap();
    let sets = find_almost_locked_sets(&grid, 1);
    assert_eq!(sets.len(), 2);
    assert!(find_almost_locked_sets(&grid, 0).is_empty());
}

#[test]
fn candidate_cells_keep_cells_with_the_digit() {
    let mut pms = vec![vec![9]; 81];
    pms[0] = vec![1, 2];
    pms[1] = vec![2, 3];
    let grid = Grid::new_from_digit_and_pms(&[0; 81], pms, vec![false; 81]).unwrap();
    let set = AlmostLockedSet {
        house: 0,
        cells: IndexSet::new_from_values(&[0, 1]),
        values: DigitSet::new_from_values(&[1, 2, 3]),
    };
    assert_eq!(set.candidate_cells(&grid, 2).values(), vec![0, 1]);
    assert_eq!(set.candidate_cells(&grid, 3).values(), vec![1]);
    assert!(set.candidate_cells(&grid, 5).values().is_empty());
}

fn grid_with_marks(marks: &[(usize, Vec<u8>)]) -> Grid {
    let mut pms = vec![vec![9]; 81];
    for (cell, values) in marks {
        pms[*cell] = values.clone();
    }
    Grid::new_from_digit_and_pms(&[0; 81], pms, vec![false; 81]).unwrap()
}

fn als_steps(grid: &Grid, finder: &dyn Fn(&Grid, &mut AllStepAccumulator)) -> Vec<AlsStep> {
    let mut acc = AllStepAccumulator::default();
    finder(grid, &mut acc);
    acc.get_steps()
        .iter()
        .filter_map(|step| match step {
            Step::Als(als) => Some(als.clone()),
            _ => None,
        })
        .collect()
}

#[test]
fn als_xz_removes_the_other_shared_digit() {
    let grid = grid_with_marks(&[(0, vec![1, 2]), (1, vec![1, 2]), (2, vec![2, 9])]);
    let steps = als_steps(&grid, &|g, acc| AlsXzFinder.find_step(g, acc));
    let step = steps
        .iter()
        .find(|step| step.remove_candidates == vec![Candidate::new(2, 2)])
        .unwrap();
    assert_eq!(step.als_type, AlsType::Xz);
    assert_eq!(step.name(), "ALS-XZ");
    assert_eq!(step.difficulty(), 360);
    assert_eq!(step.sets.len(), 2);
    assert_eq!(step.rccs.len(), 1);
    assert_eq!(step.rccs[0].value, 1);
    assert_eq!(step.highlight_candidates.len(), 2);
    assert!(steps.iter().all(|step| !step.remove_candidates.is_empty()));
}

#[test]
fn als_xz_steps_remove_each_list_once() {
    let grid = grid_with_marks(&[(0, vec![1, 2]), (1, vec![1, 2]), (2, vec![2, 9])]);
    let steps = als_steps(&grid, &|g, acc| AlsXzFinder.find_step(g, acc));
    for (i, left) in steps.iter().enumerate() {
        for right in steps.iter().skip(i + 1) {
            assert_ne!(left.remove_candidates, right.remove_candidates);
        }
    }
}

#[test]
fn death_blossom_removes_digit_seen_by_all_petals() {
    let grid = grid_with_marks(&[(40, vec![1, 2]), (36, vec![1, 3]), (4, vec![2, 3]), (0, vec![3, 9])]);
    let steps = als_steps(&grid, &|g, acc| DeathBlossomFinder.find_step(g, acc));
    let step = steps
        .iter()
        .find(|step| step.remove_candidates == vec![Candidate::new(0, 3)])
        .unwrap();
    assert_eq!(step.als_type, AlsType::DeathBlossom);
    assert_eq!(step.name(), "Death Blossom");
    assert_eq!(step.difficulty(), 460);
    assert_eq!(step.sets.len(), 2);
    assert!(step.rccs.is_empty());
}

#[test]
fn applying_an_als_step_removes_its_candidates() {
    let grid = grid_with_marks(&[(0, vec![1, 2]), (1, vec![1, 2]), (2, vec![2, 9])]);
    let steps = als_steps(&grid, &|g, acc| AlsXzFinder.find_step(g, acc));
    let step = steps
        .iter()
        .find(|step| step.remove_candidates == vec![Candidate::new(2, 2)])
        .unwrap();
    let mut after = grid.clone();
    step.apply(&mut after);
    assert!(!after.cell_has_candidate(2, 2));
    assert!(after.cell_has_candidate(2, 9));
}

#[test]
fn als_finders_report_nothing_on_an_empty_grid() {
    let grid = Grid::new_from_singline_digit(&".".repeat(81)).unwrap();
    assert!(als_steps(&grid, &|g, acc| AlsXzFinder.find_step(g, acc)).is_empty());
    assert!(als_steps(&grid, &|g, acc| AlsXYWingFinder.find_step(g, acc)).is_empty());
    assert!(als_steps(&grid, &|g, acc| AlsChainFinder.find_step(g, acc)).is_empty());
    assert!(als_steps(&grid, &|g, acc| DeathBlossomFinder.find_step(g, acc)).is_empty());
}
