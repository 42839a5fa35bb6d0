use sudoku_rs::grid::Grid;
use sudoku_rs::solver::als::{AlsChainFinder, AlsXYWingFinder, AlsXzFinder, DeathBlossomFinder};
use sudoku_rs::solver::coloring::ColoringFinder;
use sudoku_rs::solver::complex_fish::ComplexFishFinder;
use sudoku_rs::solver::fish::{FishFinder, FishSize, FishType};
use sudoku_rs::solver::full_house::FullHouseFinder;
use sudoku_rs::solver::hidden_set::HiddenSetFinder;
use sudoku_rs::solver::hidden_single::HiddenSingleFinder;
use sudoku_rs::solver::locked_candidate::{LockedCandidateFinder, LockedCandidateType};
use sudoku_rs::solver::naked_set::NakedSetFinder;
use sudoku_rs::solver::naked_single::NakedSingleFinder;
use sudoku_rs::solver::skyscraper::SkyscraperFinder;
use sudoku_rs::solver::step::Step;
use sudoku_rs::solver::step_accumulator::SingleStepAccumulator;
use sudoku_rs::solver::unique::{MissingCandidatesUniquenessFinder, UniquenessFinder};
use sudoku_rs::solver::wings::WingsFinder;
use sudoku_rs::solver::{SolverStrategy, Strategy};

#[test]
fn test_all_finder() {
    let s = ":0800:2:+8..+36.+9....+9.1.863.+63.+89..+59+24+6+7+3+1+5+83+8+6+9+5+17+2457+182+4+3+9+6+4+3+2+1+9658+769+8+5+37......+24+8+63+9::226:";
    let expected_solution = "857362941249715863163489275924673158386951724571824396432196587698537412715248639";
    let solution: Vec<u8> = expected_solution.chars().map(|c| c.to_digit(10).unwrap() as u8).collect();
    let strategies: Vec<Strategy> = vec![
        Strategy::FullHouse(FullHouseFinder::default()),
        Strategy::NakedSingle(NakedSingleFinder::default()),
        Strategy::HiddenSingle(HiddenSingleFinder::default()),
        Strategy::NakedSet(NakedSetFinder::new(2)),
        Strategy::NakedSet(NakedSetFinder::new(3)),
        Strategy::NakedSet(NakedSetFinder::new(4)),
        Strategy::HiddenSet(HiddenSetFinder::new(2)),
        Strategy::HiddenSet(HiddenSetFinder::new(3)),
        Strategy::HiddenSet(HiddenSetFinder::new(4)),
        Strategy::LockedCandidate(LockedCandidateFinder::new(LockedCandidateType::Pointing)),
        Strategy::LockedCandidate(LockedCandidateFinder::new(LockedCandidateType::Claiming)),
        Strategy::Uniqueness(UniquenessFinder::default()),
        Strategy::MissingUniqueness(MissingCandidatesUniquenessFinder),
        Strategy::Fish(FishFinder::new(FishType::basic(FishSize::XWing))),
        Strategy::Skyscraper(SkyscraperFinder::default()),
        Strategy::Fish(FishFinder::new(FishType::basic(FishSize::Swordfish))),
        Strategy::Fish(FishFinder::new(FishType::basic(FishSize::Jellyfish))),
        Strategy::Wings(WingsFinder::default()),
        Strategy::Fish(FishFinder::new(FishType::finned(FishSize::XWing))),
        Strategy::Fish(FishFinder::new(FishType::sashimi(FishSize::XWing))),
        Strategy::Fish(FishFinder::new(FishType::basic(FishSize::Squirmbag))),
        Strategy::Fish(FishFinder::new(FishType::basic(FishSize::Whale))),
        Strategy::Fish(FishFinder::new(FishType::basic(FishSize::Leviathan))),
        Strategy::Fish(FishFinder::new(FishType::finned(FishSize::Swordfish))),
        Strategy::Fish(FishFinder::new(FishType::sashimi(FishSize::Swordfish))),
        Strategy::Fish(FishFinder::new(FishType::finned(FishSize::Jellyfish))),
        Strategy::Fish(FishFinder::new(FishType::sashimi(FishSize::Jellyfish))),
        Strategy::Coloring(ColoringFinder),
        Strategy::AlsXz(AlsXzFinder),
        Strategy::AlsXYWing(AlsXYWingFinder),
        Strategy::AlsChain(AlsChainFinder),
        Strategy::DeathBlossom(DeathBlossomFinder),
        Strategy::ComplexFish(ComplexFishFinder),
    ];
    let mut grid = Grid::new_from_hodoku_line(s).unwrap();
    loop {
        if grid.is_solved() {
            break;
        }
        let mut changed = false;
        for finder in strategies.iter() {
            let mut acc = SingleStepAccumulator::default();
            finder.find_step(&grid, &mut acc);
            let step = acc.get_step().clone();
            match step {
                Step::Nothing => {
                    continue;
                }
                _ => {
                    step.apply(&mut grid);
                    changed = true;
                    if !grid.check_grid_valid(solution.as_slice()) {
                        println!("invalid step:{:?}", step);
                        println!("{}", grid.to_digit_line());
                        return;
                    }
                    break;
                }
            }
        }
        if !changed {
            println!("no step");
            break;
        }
    }
    println!("{:?}", grid.is_solved());
    println!("{:?}", grid.to_digit_line());
    assert!(grid.is_solved());
    assert_eq!(grid.to_digit_line(), expected_solution);
}
