use sudoku_rs::front::{
    calc_pms, create_grid_from_str, grid_from_trimmed, difficulty_from_name, generation_budget_seconds, get_next_step,
    import_sudoku, parse_digits, solve_backtracing, HintMode, HintRequest, Hint, SudokuError,
    GREEN_CANDADITE_COLOR,
};
use sudoku_rs::grid::Difficulty;
use sudoku_rs::solver::full_house::FullHouse;
use sudoku_rs::solver::step::Step;

#[test]
fn test_parse_digits_rejects_invalid_characters() {
    assert_eq!(parse_digits("019").unwrap(), vec![0, 1, 9]);
    assert!(parse_digits("01x").is_err());
}

#[test]
fn hint_contains_structured_single_presentation() {
    let hint = Hint::new_from_step(&Step::FullHouse(FullHouse::new(0, 0, 1)));

    assert_eq!(hint.technique_group, "Singles");
    assert_eq!(hint.technique_url, "/techniques/singles");
    assert_eq!(hint.actions.len(), 1);
    assert_eq!(hint.actions[0].kind, "set_value");
    assert_eq!(hint.actions[0].candidate.color, GREEN_CANDADITE_COLOR);
    assert_eq!(hint.house_overlays.len(), 1);
    assert!(!hint.reasoning.is_empty());
}

#[test]
fn generation_budget_uses_rust_difficulty_configuration() {
    assert_eq!(generation_budget_seconds("Easy"), 5);
    assert_eq!(generation_budget_seconds("Medium"), 10);
    assert_eq!(generation_budget_seconds("Hard"), 20);
    assert_eq!(generation_budget_seconds("Unfair"), 40);
    assert_eq!(generation_budget_seconds("Extreme"), 60);
    assert_eq!(difficulty_from_name("unknown"), Difficulty::Easy);
}

const PUZZLE: &str =
    "040000200070205849285409300031000920000070000052000470007908632328501090004000010";

#[test]
fn text_formats_are_told_apart() {
    assert!(create_grid_from_str(PUZZLE).is_ok());
    assert!(create_grid_from_str(&format!("  {PUZZLE}\n")).is_ok());
    assert_eq!(
        create_grid_from_str("1\n2\n3").unwrap_err(),
        SudokuError::InvalidInput
    );
    assert_eq!(create_grid_from_str("").unwrap_err(), SudokuError::InvalidInput);
    let hodoku = ":0600:89:+5.+2..896+71..7..+4+5+2.675..3+8+121+3+6+578+4+9+6+5489+1+2+737....4+6+15+8219...+34+3.+6....+9+8..+5.+8+3.26::822 922:";
    assert!(create_grid_from_str(hodoku).is_ok());
}

#[test]
fn pencil_marks_list_candidates_of_empty_cells() {
    let pms = calc_pms(PUZZLE);
    assert_eq!(pms.len(), 81);
    assert_eq!(pms[1], "");
    assert!(pms[0].chars().all(|c| c.is_ascii_digit()));
    assert!(calc_pms("garbage").is_empty());
}

#[test]
fn import_and_backtracking_report_the_solution() {
    let imported = import_sudoku(PUZZLE).unwrap();
    assert_eq!(imported.digits[1], 4);
    assert!(imported.is_given[1]);
    assert!(!imported.is_given[0]);
    assert!(imported.solutions.iter().all(|v| *v != 0));
    let solved = solve_backtracing(PUZZLE).unwrap();
    assert_eq!(solved.count, 1);
    assert_eq!(solved.solutions, imported.solutions);
    let open = "536020900008000000000000000600285009000903000800761004000000000004000000201000007";
    assert_eq!(import_sudoku(open).unwrap_err(), SudokuError::NotUniqueSolution);
    assert_eq!(solve_backtracing("x").unwrap_err(), SudokuError::InvalidInput);
}

#[test]
fn next_step_of_a_request_is_a_hint() {
    let request = HintRequest {
        digits: PUZZLE.to_string(),
        pms: vec![String::new(); 81],
        is_given: PUZZLE.chars().map(|c| c != '0').collect(),
        hint_mode: HintMode::Normal,
    };
    let hint = get_next_step(&request).unwrap();
    assert_eq!(hint.search_mode, "normal");
    assert!(!hint.search_truncated);
    assert!(!hint.name.is_empty());
    let bad = HintRequest {
        digits: "12x".to_string(),
        pms: Vec::new(),
        is_given: Vec::new(),
        hint_mode: HintMode::Expert,
    };
    assert_eq!(get_next_step(&bad).unwrap_err(), SudokuError::InvalidInput);
}

#[test]
fn grid_text_is_trimmed_of_unicode_whitespace_before_its_shape_is_read() {
    assert!(create_grid_from_str(&format!("\u{3000}\t{PUZZLE}\u{a0}\n")).is_ok());
    assert!(grid_from_trimmed(PUZZLE).is_ok());
    assert_eq!(grid_from_trimmed("1\n2\n3").unwrap_err(), SudokuError::InvalidInput);
    assert_eq!(grid_from_trimmed("").unwrap_err(), SudokuError::InvalidInput);
}
