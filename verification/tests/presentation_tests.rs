use sudoku_rs::candidate::Candidate;
use sudoku_rs::solver::full_house::FullHouse;
use sudoku_rs::solver::naked_single::NakedSingle;
use sudoku_rs::solver::presentation::{
    CellOverlay, HouseOverlay, PresentationActionKind, PresentationRole, StepPresentation,
};
use sudoku_rs::solver::step::Step;
use sudoku_rs::solver::xywing::XYWing;

#[test]
fn presents_single_with_action_and_house() {
    let presentation = StepPresentation::from_step(&Step::FullHouse(FullHouse::new(0, 0, 1)));
    assert_eq!(
        presentation.actions[0].kind,
        PresentationActionKind::SetValue
    );
    assert_eq!(presentation.technique_url, "/techniques/singles");
    assert_eq!(presentation.house_overlays[0].house, 0);
    assert!(!presentation.reasoning.is_empty());
}

#[test]
fn presents_wing_with_relevant_legend() {
    let presentation = StepPresentation::from_step(&Step::XYWing(XYWing {
        remove_candidates: vec![Candidate::new(20, 3)],
        highlight_candidates: vec![Candidate::new(0, 1)],
        fin_candidates: vec![Candidate::new(1, 3)],
    }));
    assert!(presentation.legend.contains(&PresentationRole::Pattern));
    assert!(presentation.legend.contains(&PresentationRole::Fin));
    assert!(presentation.legend.contains(&PresentationRole::Elimination));
    assert_eq!(presentation.actions.len(), 1);
}

#[test]
fn full_house_texts_name_house_cell_and_digit() {
    let presentation = StepPresentation::from_step(&Step::FullHouse(FullHouse::new(10, 1, 7)));
    assert_eq!(presentation.actions[0].text, "Set r2c2 = 7.");
    assert_eq!(
        presentation.summary,
        "Full House identifies the next logical move. Set r2c2 = 7."
    );
    assert_eq!(
        presentation.reasoning,
        vec!["row 2 has one empty cell, so r2c2 must contain 7.".to_string()]
    );
    assert_eq!(presentation.technique_group, "Singles");
    assert_eq!(presentation.difficulty_rank, 4);
    assert_eq!(presentation.difficulty_label, "Easy");
    assert!(presentation.cell_overlays.is_empty());
    assert_eq!(
        presentation.house_overlays,
        vec![HouseOverlay { house: 1, role: PresentationRole::Pattern }]
    );
}

#[test]
fn overlays_are_sorted_and_deduplicated() {
    let presentation = StepPresentation::from_step(&Step::XYWing(XYWing {
        remove_candidates: vec![Candidate::new(20, 3), Candidate::new(20, 4)],
        highlight_candidates: vec![Candidate::new(5, 1), Candidate::new(0, 1), Candidate::new(5, 2)],
        fin_candidates: vec![Candidate::new(5, 3)],
    }));
    assert_eq!(
        presentation.cell_overlays,
        vec![
            CellOverlay { cell: 0, role: PresentationRole::Pattern },
            CellOverlay { cell: 5, role: PresentationRole::Fin },
            CellOverlay { cell: 5, role: PresentationRole::Pattern },
            CellOverlay { cell: 20, role: PresentationRole::Elimination },
        ]
    );
    assert_eq!(
        presentation.legend,
        vec![
            PresentationRole::Elimination,
            PresentationRole::Fin,
            PresentationRole::Pattern,
        ]
    );
    assert_eq!(presentation.actions.len(), 2);
    assert_eq!(presentation.actions[1].text, "Remove candidate 4 from r3c3.");
    assert_eq!(
        presentation.summary,
        "XY-Wing identifies the next logical move. Apply 2 candidate updates."
    );
}

#[test]
fn nothing_has_a_fixed_summary() {
    let presentation = StepPresentation::from_step(&Step::Nothing);
    assert_eq!(
        presentation.summary,
        "No logical next step was found within the current search budget."
    );
    assert!(presentation.actions.is_empty());
    assert_eq!(presentation.technique_group, "Hint");
    assert_eq!(presentation.technique_url, "");
}

#[test]
fn naked_single_reasoning_names_the_candidate() {
    let presentation =
        StepPresentation::from_step(&Step::NakedSingle(NakedSingle { candidate: Candidate::new(80, 9) }));
    assert_eq!(presentation.reasoning[0], "r9c9 has only candidate 9 remaining.");
}

#[test]
fn role_names_and_labels() {
    assert_eq!(PresentationRole::AlsGroup.name(), "als_group");
    assert_eq!(PresentationRole::Fin.label(), "Fin or alternate candidate");
}
