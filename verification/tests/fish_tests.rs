use sudoku_rs::candidate::Candidate;
use sudoku_rs::grid::Grid;
use sudoku_rs::grid_constant::get_house_cell_set;
use sudoku_rs::solver::fish::{Fish, FishFinder, FishSize, FishType, FishVariant};
use sudoku_rs::solver::step::Step;
use sudoku_rs::solver::step_accumulator::AllStepAccumulator;

fn retain_value_in_house(grid: &mut Grid, house: u8, value: u8, cells: &[u8]) {
    for cell in get_house_cell_set(house).values() {
        if !cells.contains(&cell) && grid.cell_has_candidate(cell, value) {
            assert!(grid.remove_candidate(&Candidate::new(cell, value)));
        }
    }
}

fn find_steps(grid: &Grid, fish_type: FishType) -> Vec<Step> {
    let finder = FishFinder::new(fish_type);
    let mut acc = AllStepAccumulator::default();
    finder.find_step(grid, &mut acc);
    acc.get_steps().iter().cloned().collect()
}

#[test]
fn test_basic_x_wing() {
    let mut grid = Grid::default();
    retain_value_in_house(&mut grid, 0, 1, &[0, 1]);
    retain_value_in_house(&mut grid, 1, 1, &[9, 10]);

    let steps = find_steps(&grid, FishType::basic(FishSize::XWing));
    assert_eq!(steps.len(), 1);
    let Step::Fish(fish) = &steps[0] else { unreachable!() };
    assert_eq!(
        fish.remove_candidates,
        [18, 19, 27, 28, 36, 37, 45, 46, 54, 55, 63, 64, 72, 73].map(|cell| Candidate::new(cell, 1))
    );
    let mut applied = grid;
    fish.apply(&mut applied);
    applied.check_state_valid().unwrap();
}

#[test]
fn test_basic_sizes_two_to_seven() {
    let sizes = [
        FishSize::XWing,
        FishSize::Swordfish,
        FishSize::Jellyfish,
        FishSize::Squirmbag,
        FishSize::Whale,
        FishSize::Leviathan,
    ];
    for size in sizes {
        let mut grid = Grid::default();
        for house in 0..size.degree() {
            let cells = [house * 9 + house, house * 9 + ((house + 1) % size.degree())];
            retain_value_in_house(&mut grid, house, 1, cells.as_slice());
        }
        assert_eq!(find_steps(&grid, FishType::basic(size)).len(), 1);
    }
}

#[test]
fn test_basic_fish_filters_degenerate_cover_single() {
    let mut grid = Grid::default();
    retain_value_in_house(&mut grid, 0, 1, &[0, 1]);
    retain_value_in_house(&mut grid, 1, 1, &[10, 11]);
    retain_value_in_house(&mut grid, 2, 1, &[18, 19]);

    assert!(find_steps(&grid, FishType::basic(FishSize::Swordfish)).is_empty());
}

#[test]
fn test_finned_x_wing() {
    let grid = Grid::new_from_hodoku_line(
        ":0310:9:.+52+6+7.3.+8.3...+5+6+2767..+3+2+5.+1+2+8...61.+5.+6....+2.47+1+452+3+86+9+82+73+149+5+6.9.+2+67+48+3+3+469+58+71+2::933:r24 c35 fr2c1",
    )
    .unwrap();
    assert_eq!(find_steps(&grid, FishType::finned(FishSize::XWing)).len(), 1);
}

#[test]
fn test_fins_can_span_multiple_basic_houses() {
    let mut grid = Grid::default();
    retain_value_in_house(&mut grid, 0, 1, &[0, 1, 3]);
    retain_value_in_house(&mut grid, 1, 1, &[9, 11, 12]);

    let steps = find_steps(&grid, FishType::finned(FishSize::XWing));
    let fish = steps.iter().find_map(|step| match step {
        Step::Fish(fish) if fish.fins == vec![Candidate::new(1, 1), Candidate::new(11, 1)] => Some(fish),
        _ => None,
    });
    assert_eq!(
        fish.map(|fish| fish.remove_candidates.as_slice()),
        Some([Candidate::new(18, 1)].as_slice())
    );
}

#[test]
fn test_sashimi_x_wing() {
    let grid = Grid::new_from_hodoku_line(
        ":0320:3:......3+8+99.4..2+561....9.72+4+4619+2+78+53+8+5+93+64+17+2..2...+4+9+6.97.1..4+85....8+9.+7.....+9..+5::371:c36 r37 fr8c3 fr9c3",
    )
    .unwrap();
    assert_eq!(find_steps(&grid, FishType::sashimi(FishSize::XWing)).len(), 1);
    assert!(find_steps(&grid, FishType::finned(FishSize::XWing)).is_empty());
}

#[test]
fn fish_test_hodoku_samples() {
    let samples = [
        (
            FishType::basic(FishSize::Swordfish),
            ":0301:2:16.54+3.7..+78+6.1+43+5+43+58.+7+6.+17+2.+45+8.696..9+12.57...+3+7+6..+4.+1+6.3..4.+3...+8..16..+71645.+3::268 271:r239 c158",
        ),
        (
            FishType::basic(FishSize::Jellyfish),
            ":0302:7:2.......3.8..3..5...34.21....12.54......9......93.86....25.69...9..2..7.4.......1::712 715 721 729 751 752 759 792 795:r3467 c1259",
        ),
        (
            FishType::finned(FishSize::Swordfish),
            ":0311:7:+2.3.+186+5.41+6+75+39+8+2.+5+8.+26.1.84.3+6+2.9+5+62.+8.543.5+3.1+4.+8+2+6.+6+52...+4+83.+4+58.26..+8+2+6.45+7.::737:c159 r357 fr1c9",
        ),
        (
            FishType::sashimi(FishSize::Swordfish),
            ":0321:2:2.7+89+5+6.+15..7.+4+9.8.9+8..6......+4.+9......6.+8.938.9.5+3764...+3+62......54+7...+7.3+9+814.6::245 255:r269 c258 fr6c4",
        ),
        (
            FishType::finned(FishSize::Jellyfish),
            "...16.87..1.875..38.73..651.5.62173...17..5.473.5..1...7........8.256917.62..7...",
        ),
        (
            FishType::sashimi(FishSize::Jellyfish),
            "..34162..26...31.41.4....36.463715.2.2184......762.41...5.3..41..21.4...41.56732.",
        ),
    ];
    for (fish_type, sample) in samples {
        let grid = if sample.starts_with(':') {
            Grid::new_from_hodoku_line(sample).unwrap()
        } else {
            Grid::new_from_singline_digit(sample).unwrap()
        };
        assert!(!find_steps(&grid, fish_type).is_empty());
    }
}

#[test]
fn test_names_and_scores() {
    let fish = Fish {
        remove_candidates: vec![Candidate::new(0, 1)],
        highlight_candidates: vec![],
        fins: vec![],
        basics: vec![],
        covers: vec![],
        value: 1,
        fish_type: FishType::basic(FishSize::Leviathan),
    };
    assert_eq!(fish.name(), "Leviathan");
    assert_eq!(fish.difficulty(), 190);
    assert_eq!(fish.fish_type.variant, FishVariant::Basic);
    assert_eq!(fish.explain(), "<h3>Leviathan</h3>");
}
