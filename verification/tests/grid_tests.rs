use sudoku_rs::candidate::Candidate;
use sudoku_rs::grid::{Difficulty, Grid};
use sudoku_rs::grid_constant::{get_cell_buddies, get_cell_house};
use sudoku_rs::util::digitset::DigitSet;

fn counts(grid: &Grid, house: u8) -> [u8; 10] {
    let mut r = [0u8; 10];
    for v in 0..10u8 {
        r[v as usize] = grid.get_house_candidate_count(house, v);
    }
    r
}

#[test]
fn test_difficulty_uses_hardest_technique_rank_boundaries() {
    assert_eq!(Difficulty::from_hardest_technique_rank(14), Difficulty::Easy);
    assert_eq!(Difficulty::from_hardest_technique_rank(15), Difficulty::Medium);
    assert_eq!(Difficulty::from_hardest_technique_rank(80), Difficulty::Medium);
    assert_eq!(Difficulty::from_hardest_technique_rank(81), Difficulty::Hard);
    assert_eq!(Difficulty::from_hardest_technique_rank(190), Difficulty::Hard);
    assert_eq!(Difficulty::from_hardest_technique_rank(191), Difficulty::UnFair);
    assert_eq!(Difficulty::from_hardest_technique_rank(340), Difficulty::UnFair);
    assert_eq!(Difficulty::from_hardest_technique_rank(341), Difficulty::Extreme);
}

#[test]
fn test_difficulty_generation_budgets() {
    assert_eq!(Difficulty::Easy.generation_budget().as_secs(), 5);
    assert_eq!(Difficulty::Medium.generation_budget().as_secs(), 10);
    assert_eq!(Difficulty::Hard.generation_budget().as_secs(), 20);
    assert_eq!(Difficulty::UnFair.generation_budget().as_secs(), 40);
    assert_eq!(Difficulty::Extreme.generation_budget().as_secs(), 60);
}

#[test]
fn difficulty_names_and_limits() {
    assert_eq!(Difficulty::UnFair.name(), "Unfair");
    assert_eq!(Difficulty::Easy.max_hardest_technique_rank(), 14);
    assert_eq!(Difficulty::Extreme.max_hardest_technique_rank(), u32::MAX);
    assert!(Difficulty::Hard.accepts_hardest_technique_rank(100));
    assert!(!Difficulty::Hard.accepts_hardest_technique_rank(14));
}

#[test]
fn test_grid_set_value() {
    let mut grid = Grid::default();
    assert!(!grid.set_value(81, 1, false));
    assert!(!grid.set_value(0, 10, false));

    let res = grid.set_value(0, 1, false);
    assert!(res);
    assert_eq!(1, grid.get_value(0));
    let mut buddy_candidates = DigitSet::new_full();
    buddy_candidates.remove(1);
    for buddy in get_cell_buddies(0).values() {
        assert_eq!(grid.get_cell_candidate(buddy), buddy_candidates);
        let res = grid.set_value(buddy, 1, false);
        assert!(!res);
    }
    for h in get_cell_house(0) {
        assert_eq!(counts(&grid, h), [9, 0, 8, 8, 8, 8, 8, 8, 8, 8]);
    }
    assert_eq!(counts(&grid, 1), [9, 6, 9, 9, 9, 9, 9, 9, 9, 9]);
    assert_eq!(counts(&grid, 2), [9, 6, 9, 9, 9, 9, 9, 9, 9, 9]);
    for h in [3, 4, 5, 6, 7, 8] {
        assert_eq!(counts(&grid, h), [9, 8, 9, 9, 9, 9, 9, 9, 9, 9]);
    }
    assert_eq!(counts(&grid, 10), [9, 6, 9, 9, 9, 9, 9, 9, 9, 9]);
    assert_eq!(counts(&grid, 11), [9, 6, 9, 9, 9, 9, 9, 9, 9, 9]);
    for h in [12, 13, 14, 15, 16, 17] {
        assert_eq!(counts(&grid, h), [9, 8, 9, 9, 9, 9, 9, 9, 9, 9]);
    }
    for h in [19, 20, 21, 24] {
        assert_eq!(counts(&grid, h), [9, 6, 9, 9, 9, 9, 9, 9, 9, 9]);
    }
    for h in [22, 23, 25, 26] {
        assert_eq!(counts(&grid, h), [9, 9, 9, 9, 9, 9, 9, 9, 9, 9]);
    }

    let res = grid.set_value(0, 2, false);
    assert!(res);
    assert_eq!(2, grid.get_value(0));
    let mut buddy_candidates = DigitSet::new_full();
    buddy_candidates.remove(2);
    for buddy in get_cell_buddies(0).values() {
        assert_eq!(grid.get_cell_candidate(buddy), buddy_candidates);
    }
    for h in get_cell_house(0) {
        assert_eq!(counts(&grid, h), [9, 8, 0, 8, 8, 8, 8, 8, 8, 8]);
    }
    assert_eq!(counts(&grid, 1), [9, 9, 6, 9, 9, 9, 9, 9, 9, 9]);
    assert_eq!(counts(&grid, 3), [9, 9, 8, 9, 9, 9, 9, 9, 9, 9]);
    assert_eq!(counts(&grid, 19), [9, 9, 6, 9, 9, 9, 9, 9, 9, 9]);

    let res = grid.set_value(0, 0, false);
    assert!(res);
    assert_eq!(0, grid.get_value(0));
    let buddy_candidates = DigitSet::new_full();
    for buddy in get_cell_buddies(0).values() {
        assert_eq!(grid.get_cell_candidate(buddy), buddy_candidates);
    }
    for h in get_cell_house(0) {
        assert_eq!(counts(&grid, h), [9, 9, 9, 9, 9, 9, 9, 9, 9, 9]);
    }
}

#[test]
fn test_from_single_digit() {
    let digits = "149275836687391254235648971351982467726453189498167325874529613563814792912736548";
    let grid = Grid::new_from_singline_digit(digits).unwrap();
    assert_eq!(grid.to_digit_line(), digits);
}

#[test]
fn test_new_from_hodoku_line() {
    let s = ":0100:5:984........+25...4...+1+9.+4..2..6.972+3...3+6.2...+2.+9.+3+5+61.+1+95+76+8+4+234+27+35189+6+63+8..97+5+1::537:";
    let grid = Grid::new_from_hodoku_line(s).unwrap();
    assert_eq!(grid.get_value(0), 9);
    assert_eq!(grid.get_value(80), 1);
}

#[test]
fn test_new_from_matrix() {
    let s = r#".-------------.--------------.----------.
| 149  5  2   | 6    7    19 | 3  49  8 |
| 149  3  189 | 148  489  5  | 6  2   7 |
| 6    7  89  | 48   3    2  | 5  49  1 |
:-------------+--------------+----------:
| 2    8  39  | 47   49   6  | 1  37  5 |
| 59   6  359 | 178  89   19 | 2  37  4 |
| 7    1  4   | 5    2    3  | 8  6   9 |
:-------------+--------------+----------:
| 8    2  7   | 3    1    4  | 9  5   6 |
| 15   9  15  | 2    6    7  | 4  8   3 |
| 3    4  6   | 9    5    8  | 7  1   2 |
'-------------'--------------'----------'"#;
    let grid = Grid::new_from_matrix_str(s).unwrap();
    assert_eq!(grid.values()[51], 8);
    assert_eq!(grid.get_cell_candidate(0).values(), vec![1, 4, 9]);
}

#[test]
fn test_check_state_valid() {
    let s = ":0100:5:984........+25...4...+1+9.+4..2..6.972+3...3+6.2...+2.+9.+3+5+61.+1+95+76+8+4+234+27+35189+6+63+8..97+5+1::537:";
    let grid = Grid::new_from_hodoku_line(s).unwrap();
    grid.check_state_valid().unwrap();
}

#[test]
fn test_reject_conflicting_single_line_givens() {
    let digits = "110000000000000000000000000000000000000000000000000000000000000000000000000000000";
    assert!(Grid::new_from_singline_digit(digits).is_err());
}

#[test]
fn test_reject_malformed_hodoku_line() {
    assert!(Grid::new_from_hodoku_line(":0000::+").is_err());
    assert!(Grid::new_from_hodoku_line(":0000::...").is_err());
}

#[test]
fn test_new_from_digit_and_pms_rebuilds_all_candidate_counts() {
    let digits = [0; 81];
    let pms = vec![vec![1]; 81];
    let is_given = vec![false; 81];
    let grid = Grid::new_from_digit_and_pms(&digits, pms, is_given).unwrap();

    assert_eq!(grid.unsolved_count(), 81);
    assert_eq!(grid.get_house_candidate_count(26, 1), 9);
    assert_eq!(grid.get_house_candidate_count(26, 9), 0);
}

#[test]
fn test_new_from_digit_and_pms_rejects_invalid_input() {
    let mut digits = [0; 81];
    digits[0] = 10;
    assert!(Grid::new_from_digit_and_pms(&digits, vec![vec![]; 81], vec![false; 81]).is_err());

    assert!(Grid::new_from_digit_and_pms(&[0; 81], vec![vec![]; 81], vec![false; 80]).is_err());

    let mut pms = vec![vec![]; 81];
    pms[0] = vec![10];
    assert!(Grid::new_from_digit_and_pms(&[0; 81], pms, vec![false; 81]).is_err());
}

#[test]
fn test_reject_malformed_matrix() {
    assert!(Grid::new_from_matrix_str("| 1 2 3 |").is_err());
}

#[test]
fn test_remove_candidate_updates_house_counts() {
    let mut grid = Grid::default();
    let candidate = Candidate::new(0, 1);

    assert!(grid.remove_candidate(&candidate));
    assert!(!grid.get_cell_candidate(0).contains(1));
    for house in get_cell_house(0) {
        assert_eq!(grid.get_house_candidate_count(house, 1), 8);
    }
    assert!(!grid.remove_candidate(&candidate));
    grid.check_state_valid().unwrap();
}

#[test]
fn test_given_cell_cannot_be_changed() {
    let digits = "100000000000000000000000000000000000000000000000000000000000000000000000000000000";
    let mut grid = Grid::new_from_singline_digit(digits).unwrap();

    assert!(grid.set_value(0, 1, false));
    assert!(!grid.set_value(0, 2, false));
    assert!(!grid.set_value(0, 0, false));
    assert_eq!(grid.get_value(0), 1);
}

#[test]
fn test_grid_is_inconsistent_when_house_has_no_position_for_digit() {
    let mut grid = Grid::default();
    for cell in 0..9 {
        assert!(grid.remove_candidate(&Candidate::new(cell, 1)));
    }

    assert!(!grid.is_consistent());
}

#[test]
fn set_then_clear_restores_candidates() {
    let mut grid = Grid::default();
    let before: Vec<u16> = (0..81u8).map(|c| grid.get_cell_candidate(c).values().len() as u16).collect();
    assert!(grid.set_value(40, 5, false));
    assert_eq!(grid.unsolved_count(), 80);
    assert!(grid.set_value(40, 0, false));
    let after: Vec<u16> = (0..81u8).map(|c| grid.get_cell_candidate(c).values().len() as u16).collect();
    assert_eq!(before, after);
    assert_eq!(grid.unsolved_count(), 81);
}

#[test]
fn matrix_with_too_few_rows_is_rejected() {
    let s = "| 1 2 3 4 5 6 7 8 9 |";
    assert!(Grid::new_from_matrix_str(s).is_err());
}

#[test]
fn clue_counts_and_min_cell() {
    let digits = "100000000000000000000000000000000000000000000000000000000000000000000000000000002";
    let grid = Grid::new_from_singline_digit(digits).unwrap();
    assert_eq!(grid.clue_count(), 2);
    assert!(grid.cell_is_given(0));
    assert!(!grid.cell_is_given(1));
    assert!(grid.get_min_candidate_cell().is_some());
}

#[test]
fn removing_a_candidate_keeps_a_valid_grid_valid() {
    let mut grid = Grid::default();
    assert!(grid.check_state_valid().is_ok());
    assert!(grid.remove_candidate(&Candidate::new(40, 5)));
    assert!(grid.check_state_valid().is_ok());
    assert!(!grid.remove_candidate(&Candidate::new(40, 5)));
    assert!(grid.check_state_valid().is_ok());
}
