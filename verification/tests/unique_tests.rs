use sudoku_rs::candidate::Candidate;
use sudoku_rs::grid::Grid;
use sudoku_rs::solver::step::Step;
use sudoku_rs::solver::step_accumulator::AllStepAccumulator;
use sudoku_rs::solver::unique::{
    find_unique, find_unique_rectangles, find_unique_rectangles_with_missing_candidates, UniqueRectangle,
    UniqueStep, UniqueType, UniquenessFinder,
};
use sudoku_rs::solver::unique_1::Unique1Finder;
use sudoku_rs::solver::unique_3::Unique3Finder;
use sudoku_rs::solver::unique_4::Unique4Finder;
use sudoku_rs::solver::unique_6::Unique6Finder;
use sudoku_rs::solver::SolverStrategy;

#[test]
fn test_unique_rectangle_requires_exactly_two_blocks() {
    let grid = Grid::default();
    let rectangles = find_unique(&grid, 1, 2);
    assert!(!rectangles
        .iter()
        .any(|rectangle| rectangle.cells() == [0, 3, 27, 30]));
}

#[test]
fn test_unique_type1() {
    let s = ":0600:89:+5.+2..896+71..7..+4+5+2.675..3+8+121+3+6+578+4+9+6+5489+1+2+737....4+6+15+8219...+34+3.+6....+9+8..+5.+8+3.26::822 922:";
    let solver = Unique1Finder::default();
    let grid = Grid::new_from_hodoku_line(s).unwrap();
    let mut acc = AllStepAccumulator::default();
    solver.find_step(&grid, &mut acc);
    let steps = acc.get_steps();
    assert_eq!(steps.len(), 1);
}

#[test]
fn test_unique_type4() {
    let s = ":0603:7:+3..76..9+8.+86.3+54.1....8..3....+6+5+2+3.+9...47+3..22351+9+8.4.493+826...82+1+5+4+7+9+63..+7+3+1+9..+4:748 657 597 598:737 739:";
    let solver = Unique4Finder::default();
    let grid = Grid::new_from_hodoku_line(s).unwrap();
    let mut acc = AllStepAccumulator::default();
    solver.find_step(&grid, &mut acc);
    let steps = acc.get_steps();
    assert_eq!(steps.len(), 1);
}

#[test]
fn test_unique_type4_symmetric_branch() {
    let mut grid = Grid::default();
    for cell in [0, 1, 27, 28] {
        for value in grid.get_cell_candidate(cell).values() {
            let allowed = if [0, 1].contains(&cell) {
                &[1, 2, 3][..]
            } else {
                &[1, 2][..]
            };
            if !allowed.contains(&value) {
                assert!(grid.remove_candidate(&Candidate::new(cell, value)));
            }
        }
    }
    for cell in 2..=8 {
        assert!(grid.remove_candidate(&Candidate::new(cell, 2)));
    }

    let solver = Unique4Finder::default();
    let mut acc = AllStepAccumulator::default();
    solver.check_unique_type4(
        &grid,
        vec![UniqueRectangle::new([0, 1, 27, 28], 1, 2)],
        &mut acc,
        1,
        2,
    );
    assert!(acc.get_steps().iter().any(|step| {
        step == &Step::UniqueStep(UniqueStep {
            unique_type: UniqueType::Type4,
            remove_candidates: vec![Candidate::new(0, 1), Candidate::new(1, 1)],
            highlight_candidates: vec![
                Candidate::new(0, 2),
                Candidate::new(1, 2),
                Candidate::new(27, 1),
                Candidate::new(27, 2),
                Candidate::new(28, 1),
                Candidate::new(28, 2),
            ],
            fin_candidates: Vec::new(),
        })
    }));
}

#[test]
fn test_unique_type6() {
    let s = ".--------------.-------------.----------.
| 5   4    1   | 26   3  28  | 7  68  9 |
| 89  39   36  | 16   7  18  | 2  4   5 |
| 78  27   26  | 9    4  5   | 1  68  3 |
:--------------+-------------+----------:
| 47  237  235 | 25   6  24  | 8  9   1 |
| 49  29   25  | 125  8  124 | 3  7   6 |
| 6   1    8   | 3    9  7   | 4  5   2 |
:--------------+-------------+----------:
| 2   6    7   | 4    1  9   | 5  3   8 |
| 1   8    9   | 7    5  3   | 6  2   4 |
| 3   5    4   | 8    2  6   | 9  1   7 |
'--------------'-------------'----------'
";
    let solver = Unique6Finder::default();
    let grid = Grid::new_from_matrix_str(s).unwrap();
    let mut acc = AllStepAccumulator::default();
    solver.find_step(&grid, &mut acc);
    let steps = acc.get_steps();
    assert_eq!(steps.len(), 1);
}

#[test]
fn unique_rectangle_candidates_list_both_digits_per_corner() {
    let ur = UniqueRectangle::new([0, 1, 27, 28], 4, 7);
    assert_eq!(ur.values(), (4, 7));
    assert_eq!(
        ur.candidates(),
        vec![
            Candidate::new(0, 4),
            Candidate::new(0, 7),
            Candidate::new(1, 4),
            Candidate::new(1, 7),
            Candidate::new(27, 4),
            Candidate::new(27, 7),
            Candidate::new(28, 4),
            Candidate::new(28, 7),
        ]
    );
}

#[test]
fn unique_step_names_its_type() {
    let step = UniqueStep {
        unique_type: UniqueType::Type6,
        highlight_candidates: Vec::new(),
        remove_candidates: vec![Candidate::new(0, 1)],
        fin_candidates: Vec::new(),
    };
    assert_eq!(step.name(), "Unique Rectangle Type 6");
    assert_eq!(step.explain(), "<h3>Unique Rectangle Type 6</h3>");
}

#[test]
fn empty_grid_has_rectangles_only_over_two_blocks() {
    let grid = Grid::default();
    let rectangles = find_unique_rectangles(&grid);
    // Two blocks: rows in one band with columns in two stacks, or the other way round.
    assert_eq!(rectangles.len(), 36 * (9 * 27 + 27 * 9));
    assert!(find_unique_rectangles_with_missing_candidates(&grid).is_empty());
}

#[test]
fn uniqueness_finder_reports_type1_of_the_hodoku_grid() {
    let s = ":0600:89:+5.+2..896+71..7..+4+5+2.675..3+8+121+3+6+578+4+9+6+5489+1+2+737....4+6+15+8219...+34+3.+6....+9+8..+5.+8+3.26::822 922:";
    let grid = Grid::new_from_hodoku_line(s).unwrap();
    let mut acc = AllStepAccumulator::default();
    UniquenessFinder::default().find_step(&grid, &mut acc);
    let steps = acc.get_steps();
    assert!(!steps.is_empty());
    match &steps[0] {
        Step::UniqueStep(u) => {
            assert_eq!(u.unique_type, UniqueType::Type1);
            assert_eq!(
                u.remove_candidates,
                vec![Candidate::new(10, 8), Candidate::new(10, 9)]
            );
        }
        other => panic!("unexpected step {other:?}"),
    }
}

#[test]
fn test_unique_type3() {
    let s = ":0602:469:.8+2+73+51...+7+5.+623.+8.+364..+2753.9+82....+62+45.1.8+3+8.7.4...27+9.6...+2.+2+6....8..54.+2....7::488 698 988 998:";
    let solver = Unique3Finder::default();
    let grid = Grid::new_from_hodoku_line(s).unwrap();
    let mut acc = AllStepAccumulator::default();
    solver.find_step(&grid, &mut acc);
    let steps = acc.get_steps();
    assert_eq!(steps.len(), 1);
}

#[test]
fn unique_type3_removes_the_naked_set_digits() {
    let s = ":0602:469:.8+2+73+51...+7+5.+623.+8.+364..+2753.9+82....+62+45.1.8+3+8.7.4...27+9.6...+2.+2+6....8..54.+2....7::488 698 988 998:";
    let grid = Grid::new_from_hodoku_line(s).unwrap();
    let mut acc = AllStepAccumulator::default();
    Unique3Finder::default().find_step(&grid, &mut acc);
    match &acc.get_steps()[0] {
        Step::UniqueStep(u) => {
            assert_eq!(u.unique_type, UniqueType::Type3);
            assert_eq!(
                u.remove_candidates,
                vec![
                    Candidate::new(70, 4),
                    Candidate::new(70, 9),
                    Candidate::new(79, 6),
                    Candidate::new(79, 9),
                ]
            );
        }
        other => panic!("unexpected step {other:?}"),
    }
}
