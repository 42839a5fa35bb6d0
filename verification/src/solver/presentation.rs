use vstd::prelude::*;
use vstd::string::StringExecFns;
use crate::candidate::Candidate;
use crate::difficulty::{Difficulty, difficulty_of_rank};
use crate::solver::step::Step;
use crate::solver::als::AlmostLockedSet;
use crate::solver::naked_set::{clone_cand_list, vec_has};
use crate::util::format_step::{
    cell_text, house_text, number_text, decimal_text, push_cell, push_number, push_house, push_decimal,
};

verus! {

/// What a highlighted cell or house stands for.
#[derive(Debug, Clone, Copy, PartialEq, Eq, Hash, Structural)]
pub enum PresentationRole {
    Pattern,
    Secondary,
    Fin,
    Elimination,
    AlsGroup,
    ChainNode,
}

/// Position of the role's name in alphabetical order.
pub open spec fn role_rank(r: PresentationRole) -> int {
    match r {
        PresentationRole::AlsGroup => 0,
        PresentationRole::ChainNode => 1,
        PresentationRole::Elimination => 2,
        PresentationRole::Fin => 3,
        PresentationRole::Pattern => 4,
        PresentationRole::Secondary => 5,
    }
}

impl PresentationRole {
    pub open spec fn name_text(self) -> Seq<char> {
        match self {
            PresentationRole::Pattern => "pattern"@,
            PresentationRole::Secondary => "secondary"@,
            PresentationRole::Fin => "fin"@,
            PresentationRole::Elimination => "elimination"@,
            PresentationRole::AlsGroup => "als_group"@,
            PresentationRole::ChainNode => "chain_node"@,
        }
    }

    pub open spec fn label_text(self) -> Seq<char> {
        match self {
            PresentationRole::Pattern => "Pattern candidate"@,
            PresentationRole::Secondary => "Secondary pattern"@,
            PresentationRole::Fin => "Fin or alternate candidate"@,
            PresentationRole::Elimination => "Eliminate candidate"@,
            PresentationRole::AlsGroup => "Almost Locked Set"@,
            PresentationRole::ChainNode => "Chain node"@,
        }
    }

    /// The role's key.
    pub fn name(self) -> (r: &'static str)
        ensures
            r@ == self.name_text(),
    {
        match self {
            PresentationRole::Pattern => "pattern",
            PresentationRole::Secondary => "secondary",
            PresentationRole::Fin => "fin",
            PresentationRole::Elimination => "elimination",
            PresentationRole::AlsGroup => "als_group",
            PresentationRole::ChainNode => "chain_node",
        }
    }

    /// The role's caption for a legend.
    pub fn label(self) -> (r: &'static str)
        ensures
            r@ == self.label_text(),
    {
        match self {
            PresentationRole::Pattern => "Pattern candidate",
            PresentationRole::Secondary => "Secondary pattern",
            PresentationRole::Fin => "Fin or alternate candidate",
            PresentationRole::Elimination => "Eliminate candidate",
            PresentationRole::AlsGroup => "Almost Locked Set",
            PresentationRole::ChainNode => "Chain node",
        }
    }
}

/// The roles in alphabetical order of their names.
fn roles_in_order() -> (r: [PresentationRole; 6])
    ensures
        forall|i: int| 0 <= i < 6 ==> role_rank(#[trigger] r@[i]) == i,
{
    [
        PresentationRole::AlsGroup,
        PresentationRole::ChainNode,
        PresentationRole::Elimination,
        PresentationRole::Fin,
        PresentationRole::Pattern,
        PresentationRole::Secondary,
    ]
}

/// Whether an action writes a digit or removes a candidate.
#[derive(Debug, Clone, Copy, PartialEq, Eq, Structural)]
pub enum PresentationActionKind {
    SetValue,
    RemoveCandidate,
}

/// One change a step makes, with its description.
#[derive(Debug, Clone, PartialEq, Eq)]
pub struct PresentationAction {
    pub kind: PresentationActionKind,
    pub candidate: Candidate,
    pub text: String,
}

/// A cell to highlight, and why.
#[derive(Debug, Clone, Copy, PartialEq, Eq, Hash, Structural)]
pub struct CellOverlay {
    pub cell: u8,
    pub role: PresentationRole,
}

/// A house to highlight, and why.
#[derive(Debug, Clone, Copy, PartialEq, Eq, Hash, Structural)]
pub struct HouseOverlay {
    pub house: u8,
    pub role: PresentationRole,
}

/// Everything a user interface shows of a step.
#[derive(Debug, Clone, PartialEq, Eq)]
pub struct StepPresentation {
    pub difficulty_rank: u32,
    pub difficulty_label: &'static str,
    pub technique_group: &'static str,
    pub technique_url: &'static str,
    pub summary: String,
    pub reasoning: Vec<String>,
    pub actions: Vec<PresentationAction>,
    pub legend: Vec<PresentationRole>,
    pub cell_overlays: Vec<CellOverlay>,
    pub house_overlays: Vec<HouseOverlay>,
}

/// Every candidate of `l` names a cell of the grid and a digit.
pub open spec fn on_board(l: Seq<Candidate>) -> bool {
    forall|i: int| 0 <= i < l.len() ==> (#[trigger] l[i]).0 < 81 && l[i].1 < 10
}

/// The candidates a step shows as its pattern.
pub open spec fn pattern_list(step: Step) -> Seq<Candidate> {
    match step {
        Step::LockedCandidate(s) => s.highlight_candidates@,
        Step::HiddenSet(s) => s.highlight_candidates@,
        Step::NakedSet(s) => s.highlight_candidates@,
        Step::Fish(s) => s.highlight_candidates@,
        Step::Skyscraper(s) => s.highlight_candidates@,
        Step::UniqueStep(s) => s.highlight_candidates@,
        Step::XYWing(s) => s.highlight_candidates@,
        Step::XYZWing(s) => s.highlight_candidates@,
        Step::WWing(s) => s.highlight_candidates@,
        Step::ComplexFish(s) => s.highlight_candidates@,
        Step::Expert(s) => s.highlight_candidates@,
        Step::Coloring(s) => s.color_a@,
        _ => Seq::empty(),
    }
}

/// The candidates a step shows as a second pattern.
pub open spec fn secondary_list(step: Step) -> Seq<Candidate> {
    match step {
        Step::Coloring(s) => s.color_b@,
        _ => Seq::empty(),
    }
}

/// The candidates a step shows as fins or alternatives.
pub open spec fn fin_list(step: Step) -> Seq<Candidate> {
    match step {
        Step::Fish(s) => s.fins@,
        Step::Skyscraper(s) => s.fin_candidates@,
        Step::UniqueStep(s) => s.fin_candidates@,
        Step::XYWing(s) => s.fin_candidates@,
        Step::XYZWing(s) => s.fin_candidates@,
        Step::WWing(s) => s.fin_candidates@,
        Step::ComplexFish(s) => s.fins@,
        _ => Seq::empty(),
    }
}

/// Every entry names a house.
pub open spec fn houses_on_board(l: Seq<u8>) -> bool {
    forall|i: int| 0 <= i < l.len() ==> #[trigger] l[i] < 27
}

/// The step's data name cells, digits and houses of the grid.
pub open spec fn presentable(step: Step) -> bool {
    &&& step.well_formed()
    &&& on_board(step.removals())
    &&& on_board(pattern_list(step))
    &&& on_board(secondary_list(step))
    &&& on_board(fin_list(step))
    &&& match step.placement() {
        Some(c) => c.0 < 81 && c.1 < 10,
        None => true,
    }
    &&& match step {
        Step::FullHouse(s) => s.house < 27,
        Step::HiddenSingle(s) => s.house < 27,
        Step::LockedCandidate(s) => s.house < 27 && s.common_house < 27,
        Step::HiddenSet(s) => s.house < 27,
        Step::NakedSet(s) => s.house < 27 && (s.locked_house matches Some(h) ==> h < 27),
        Step::Fish(s) => houses_on_board(s.basics@) && houses_on_board(s.covers@),
        Step::ComplexFish(s) => houses_on_board(s.basics@) && houses_on_board(s.covers@),
        Step::Als(s) => (forall|k: int| 0 <= k < s.sets@.len() ==> (#[trigger] s.sets@[k]).house < 27) && (forall|k: int|
            0 <= k < s.highlight_candidates@.len() ==> on_board((#[trigger] s.highlight_candidates@[k])@)),
        _ => true,
    }
}

/// The text of an action that writes candidate `c`.
pub open spec fn set_text(c: Candidate) -> Seq<char> {
    "Set "@ + cell_text(c.0 as int) + " = "@ + number_text(c.1 as int) + "."@
}

/// The text of an action that removes candidate `c`.
pub open spec fn remove_text(c: Candidate) -> Seq<char> {
    "Remove candidate "@ + number_text(c.1 as int) + " from "@ + cell_text(c.0 as int) + "."@
}

/// The changes the step makes: the digit it writes, if any, then each removal in order.
pub open spec fn actions_of(step: Step, acts: Seq<PresentationAction>) -> bool {
    let sets: int = if step.placement() is Some { 1 } else { 0 };
    &&& acts.len() == sets + step.removals().len()
    &&& step.placement() matches Some(c) ==> acts[0].kind == PresentationActionKind::SetValue && acts[0].candidate == c
        && acts[0].text@ == set_text(c)
    &&& forall|k: int|
        0 <= k < step.removals().len() ==> (#[trigger] acts[sets + k]).kind == PresentationActionKind::RemoveCandidate
            && acts[sets + k].candidate == step.removals()[k] && acts[sets + k].text@ == remove_text(step.removals()[k])
}

/// The one-line summary of a step with the given actions.
pub open spec fn summary_text(step: Step, acts: Seq<PresentationAction>) -> Seq<char> {
    if step is Nothing {
        "No logical next step was found within the current search budget."@
    } else {
        step.title() + " identifies the next logical move. "@ + if acts.len() == 1 {
            acts[0].text@
        } else {
            "Apply "@ + decimal_text(acts.len()) + " candidate updates."@
        }
    }
}

/// The sentence that explains a step.
pub open spec fn reasoning_text(step: Step) -> Seq<char> {
    match step {
        Step::Nothing => "Try adding pencil marks or request another hint after updating the grid."@,
        Step::FullHouse(s) => house_text(s.house as int) + " has one empty cell, so "@ + cell_text(s.cell as int)
            + " must contain "@ + number_text(s.value as int) + "."@,
        Step::NakedSingle(s) => cell_text(s.candidate.0 as int) + " has only candidate "@ + number_text(s.candidate.1 as int)
            + " remaining."@,
        Step::HiddenSingle(s) => "Candidate "@ + number_text(s.candidate.1 as int) + " appears only once in "@ + house_text(
            s.house as int,
        ) + ": "@ + cell_text(s.candidate.0 as int) + "."@,
        _ => fixed_reasoning(step),
    }
}

/// The fixed explanation of the techniques that do not name cells.
pub open spec fn fixed_reasoning(step: Step) -> Seq<char> {
    match step {
        Step::LockedCandidate(_) => "The highlighted digit is restricted to an intersection, so it can be removed from the rest of the overlapping house."@,
        Step::HiddenSet(_) => "The highlighted digits can occur only in the highlighted cells of one house. Other candidates in those cells are impossible."@,
        Step::NakedSet(_) => "The highlighted cells contain exactly the highlighted digits. Those digits can be removed from the remaining cells of the house."@,
        Step::Fish(_) | Step::ComplexFish(_) => "The highlighted base and cover sectors constrain one digit. Cover candidates outside the pattern can be eliminated."@,
        Step::Skyscraper(_) => "Two strong links share one aligned endpoint. Any candidate that sees both opposite endpoints can be eliminated."@,
        Step::UniqueStep(_) => "The highlighted rectangle cannot resolve into two interchangeable solutions. Remove the candidate that would create that ambiguity."@,
        Step::XYWing(_) => "The pivot and two pincers force one pincer to contain the elimination digit. Remove that digit from cells seeing both pincers."@,
        Step::XYZWing(_) => "The pivot and pincers always place the elimination digit in one highlighted cell. Remove it from cells seeing every source."@,
        Step::WWing(_) => "Two bivalue cells are connected by a strong link on one digit. Their other shared digit can be removed from common peers."@,
        Step::Expert(_) => "Bounded fallback search checks the highlighted assumptions and keeps only conclusions shared by every valid branch."@,
        Step::Coloring(_) => "Conjugate pairs alternate between two colors. The contradiction or shared visibility removes the highlighted candidate."@,
        Step::Als(_) => "Each highlighted ALS has one more digit than cells. Restricted common candidates connect the sets and force the elimination."@,
        _ => ""@,
    }
}

/// The family the step's technique belongs to.
pub open spec fn group_text(step: Step) -> Seq<char> {
    match step {
        Step::FullHouse(_) | Step::NakedSingle(_) | Step::HiddenSingle(_) => "Singles"@,
        Step::LockedCandidate(_) => "Intersections"@,
        Step::HiddenSet(_) => "Hidden Subsets"@,
        Step::NakedSet(_) => "Naked Subsets"@,
        Step::Fish(_) | Step::ComplexFish(_) => "Fish"@,
        Step::Skyscraper(_) => "Single Digit Patterns"@,
        Step::UniqueStep(_) => "Uniqueness"@,
        Step::XYWing(_) | Step::XYZWing(_) | Step::WWing(_) => "Wings"@,
        Step::Expert(_) => "Expert Techniques"@,
        Step::Coloring(_) => "Coloring"@,
        Step::Als(_) => "Almost Locked Sets"@,
        Step::Nothing => "Hint"@,
    }
}

/// The page that describes the step's technique.
pub open spec fn url_text(step: Step) -> Seq<char> {
    match step {
        Step::FullHouse(_) | Step::NakedSingle(_) | Step::HiddenSingle(_) => "/techniques/singles"@,
        Step::LockedCandidate(_) => "/techniques/intersections"@,
        Step::HiddenSet(_) => "/techniques/hidden-subsets"@,
        Step::NakedSet(_) => "/techniques/naked-subsets"@,
        Step::Fish(_) | Step::ComplexFish(_) => "/techniques/fish"@,
        Step::Skyscraper(_) => "/techniques/single-digit-patterns"@,
        Step::UniqueStep(_) => "/techniques/uniqueness"@,
        Step::XYWing(_) | Step::XYZWing(_) | Step::WWing(_) => "/techniques/wings"@,
        Step::Expert(_) => "/techniques/expert"@,
        Step::Coloring(_) => "/techniques/coloring"@,
        Step::Als(_) => "/techniques/als"@,
        Step::Nothing => ""@,
    }
}

/// Cell `c` is shown with role `r`: as a pattern, fin or elimination candidate of the step.
pub open spec fn cell_shown(step: Step, c: u8, r: PresentationRole) -> bool {
    ||| r == PresentationRole::Pattern && exists|i: int| 0 <= i < pattern_list(step).len() && (#[trigger] pattern_list(step)[i]).0 == c
    ||| r == PresentationRole::Secondary && exists|i: int|
        0 <= i < secondary_list(step).len() && (#[trigger] secondary_list(step)[i]).0 == c
    ||| r == PresentationRole::Fin && exists|i: int| 0 <= i < fin_list(step).len() && (#[trigger] fin_list(step)[i]).0 == c
    ||| r == PresentationRole::Elimination && exists|i: int|
        0 <= i < step.removals().len() && (#[trigger] step.removals()[i]).0 == c
}

/// The legend lists role `r`.
pub open spec fn role_shown(step: Step, r: PresentationRole) -> bool {
    ||| r == PresentationRole::Pattern && pattern_list(step).len() > 0
    ||| r == PresentationRole::Secondary && secondary_list(step).len() > 0
    ||| r == PresentationRole::Fin && fin_list(step).len() > 0
    ||| r == PresentationRole::Elimination && step.removals().len() > 0
    ||| r == PresentationRole::AlsGroup && step is Als
}

/// House `h` is shown with role `r`.
pub open spec fn house_shown(step: Step, h: u8, r: PresentationRole) -> bool {
    match step {
        Step::FullHouse(s) => r == PresentationRole::Pattern && h == s.house,
        Step::HiddenSingle(s) => r == PresentationRole::Pattern && h == s.house,
        Step::LockedCandidate(s) => (r == PresentationRole::Pattern && h == s.house) || (r == PresentationRole::Secondary
            && h == s.common_house),
        Step::HiddenSet(s) => r == PresentationRole::Pattern && h == s.house,
        Step::NakedSet(s) => (r == PresentationRole::Pattern && h == s.house) || (r == PresentationRole::Secondary
            && s.locked_house == Some(h)),
        Step::Fish(s) => (r == PresentationRole::Pattern && s.basics@.contains(h)) || (r == PresentationRole::Secondary
            && s.covers@.contains(h)),
        Step::ComplexFish(s) => (r == PresentationRole::Pattern && s.basics@.contains(h)) || (r
            == PresentationRole::Secondary && s.covers@.contains(h)),
        Step::Als(s) => r == PresentationRole::Pattern && exists|k: int| 0 <= k < s.sets@.len() && (#[trigger] s.sets@[k]).house == h,
        _ => false,
    }
}

/// Ordered by cell, then by role name, each once.
pub open spec fn cells_ordered(l: Seq<CellOverlay>) -> bool {
    forall|i: int, j: int|
        0 <= i < j < l.len() ==> (#[trigger] l[i]).cell < (#[trigger] l[j]).cell || (l[i].cell == l[j].cell && role_rank(
            l[i].role,
        ) < role_rank(l[j].role))
}

/// Ordered by house, then by role name, each once.
pub open spec fn houses_ordered(l: Seq<HouseOverlay>) -> bool {
    forall|i: int, j: int|
        0 <= i < j < l.len() ==> (#[trigger] l[i]).house < (#[trigger] l[j]).house || (l[i].house == l[j].house && role_rank(
            l[i].role,
        ) < role_rank(l[j].role))
}

/// Ordered by name, each once.
pub open spec fn roles_ordered(l: Seq<PresentationRole>) -> bool {
    forall|i: int, j: int| 0 <= i < j < l.len() ==> role_rank(#[trigger] l[i]) < role_rank(#[trigger] l[j])
}

/// The candidates the step removes.
fn remove_candidates(step: &Step) -> (r: Vec<Candidate>)
    ensures
        r@ == step.removals(),
{
    match step {
        Step::LockedCandidate(s) => clone_cand_list(&s.remove_candidates),
        Step::HiddenSet(s) => clone_cand_list(&s.remove_candidates),
        Step::NakedSet(s) => clone_cand_list(&s.remove_candidates),
        Step::Fish(s) => clone_cand_list(&s.remove_candidates),
        Step::Skyscraper(s) => clone_cand_list(&s.remove_candidates),
        Step::UniqueStep(s) => clone_cand_list(&s.remove_candidates),
        Step::XYWing(s) => clone_cand_list(&s.remove_candidates),
        Step::XYZWing(s) => clone_cand_list(&s.remove_candidates),
        Step::WWing(s) => clone_cand_list(&s.remove_candidates),
        Step::ComplexFish(s) => clone_cand_list(&s.remove_candidates),
        Step::Expert(s) => clone_cand_list(&s.remove_candidates),
        Step::Coloring(s) => clone_cand_list(&s.remove_candidates),
        Step::Als(s) => clone_cand_list(&s.remove_candidates),
        _ => Vec::new(),
    }
}

/// The candidates the step shows as its pattern.
fn pattern_candidates(step: &Step) -> (r: Vec<Candidate>)
    ensures
        r@ == pattern_list(*step),
{
    match step {
        Step::LockedCandidate(s) => clone_cand_list(&s.highlight_candidates),
        Step::HiddenSet(s) => clone_cand_list(&s.highlight_candidates),
        Step::NakedSet(s) => clone_cand_list(&s.highlight_candidates),
        Step::Fish(s) => clone_cand_list(&s.highlight_candidates),
        Step::Skyscraper(s) => clone_cand_list(&s.highlight_candidates),
        Step::UniqueStep(s) => clone_cand_list(&s.highlight_candidates),
        Step::XYWing(s) => clone_cand_list(&s.highlight_candidates),
        Step::XYZWing(s) => clone_cand_list(&s.highlight_candidates),
        Step::WWing(s) => clone_cand_list(&s.highlight_candidates),
        Step::ComplexFish(s) => clone_cand_list(&s.highlight_candidates),
        Step::Expert(s) => clone_cand_list(&s.highlight_candidates),
        Step::Coloring(s) => clone_cand_list(&s.color_a),
        _ => Vec::new(),
    }
}

/// The candidates the step shows as a second pattern.
fn secondary_candidates(step: &Step) -> (r: Vec<Candidate>)
    ensures
        r@ == secondary_list(*step),
{
    match step {
        Step::Coloring(s) => clone_cand_list(&s.color_b),
        _ => Vec::new(),
    }
}

/// The candidates the step shows as fins or alternatives.
fn fin_candidates(step: &Step) -> (r: Vec<Candidate>)
    ensures
        r@ == fin_list(*step),
{
    match step {
        Step::Fish(s) => clone_cand_list(&s.fins),
        Step::Skyscraper(s) => clone_cand_list(&s.fin_candidates),
        Step::UniqueStep(s) => clone_cand_list(&s.fin_candidates),
        Step::XYWing(s) => clone_cand_list(&s.fin_candidates),
        Step::XYZWing(s) => clone_cand_list(&s.fin_candidates),
        Step::WWing(s) => clone_cand_list(&s.fin_candidates),
        Step::ComplexFish(s) => clone_cand_list(&s.fins),
        _ => Vec::new(),
    }
}

/// The description of an action that writes `c`.
fn set_action(c: Candidate) -> (r: PresentationAction)
    requires
        c.0 < 81,
        c.1 < 10,
    ensures
        r.kind == PresentationActionKind::SetValue,
        r.candidate == c,
        r.text@ == set_text(c),
{
    let mut text = String::from_str("Set ");
    push_cell(&mut text, c.0);
    text.append(" = ");
    push_number(&mut text, c.1);
    text.append(".");
    assert(text@ =~= set_text(c));
    PresentationAction { kind: PresentationActionKind::SetValue, candidate: c, text }
}

/// The description of an action that removes `c`.
fn remove_action(c: Candidate) -> (r: PresentationAction)
    requires
        c.0 < 81,
        c.1 < 10,
    ensures
        r.kind == PresentationActionKind::RemoveCandidate,
        r.candidate == c,
        r.text@ == remove_text(c),
{
    let mut text = String::from_str("Remove candidate ");
    push_number(&mut text, c.1);
    text.append(" from ");
    push_cell(&mut text, c.0);
    text.append(".");
    assert(text@ =~= remove_text(c));
    PresentationAction { kind: PresentationActionKind::RemoveCandidate, candidate: c, text }
}

/// The changes the step makes, each with its description.
fn actions(step: &Step) -> (r: Vec<PresentationAction>)
    requires
        presentable(*step),
    ensures
        actions_of(*step, r@),
{
    let mut r: Vec<PresentationAction> = Vec::new();
    match step {
        Step::FullHouse(s) => r.push(set_action(Candidate::new(s.cell, s.value))),
        Step::NakedSingle(s) => r.push(set_action(s.candidate)),
        Step::HiddenSingle(s) => r.push(set_action(s.candidate)),
        _ => {},
    }
    let ghost sets: int = if step.placement() is Some { 1 } else { 0 };
    assert(r@.len() == sets);
    let removals = remove_candidates(step);
    let mut k: usize = 0;
    while k < removals.len()
        invariant
            k <= removals@.len(),
            removals@ == step.removals(),
            on_board(step.removals()),
            r@.len() == sets + k,
            sets == (if step.placement() is Some { 1int } else { 0int }),
            step.placement() matches Some(c) ==> r@[0].kind == PresentationActionKind::SetValue && r@[0].candidate == c
                && r@[0].text@ == set_text(c),
            forall|j: int|
                0 <= j < k ==> (#[trigger] r@[sets + j]).kind == PresentationActionKind::RemoveCandidate && r@[sets
                    + j].candidate == step.removals()[j] && r@[sets + j].text@ == remove_text(step.removals()[j]),
        decreases removals@.len() - k,
    {
        let ghost before = r@;
        r.push(remove_action(removals[k]));
        proof {
            assert forall|j: int| 0 <= j < k + 1 implies (#[trigger] r@[sets + j]).kind == PresentationActionKind::RemoveCandidate
                && r@[sets + j].candidate == step.removals()[j] && r@[sets + j].text@ == remove_text(step.removals()[j]) by {
                if j < k {
                    assert(r@[sets + j] == before[sets + j]);
                }
            }
            if step.placement() is Some {
                assert(r@[0] == before[0]);
            }
        }
        k = k + 1;
    }
    r
}

/// The one-line summary of the step.
fn summary(step: &Step, actions: &Vec<PresentationAction>) -> (r: String)
    requires
        step.well_formed(),
    ensures
        r@ == summary_text(*step, actions@),
{
    if matches!(step, Step::Nothing) {
        return String::from_str("No logical next step was found within the current search budget.");
    }
    let mut text = String::from_str(step.name());
    text.append(" identifies the next logical move. ");
    if actions.len() == 1 {
        text.append(actions[0].text.as_str());
    } else {
        text.append("Apply ");
        push_decimal(&mut text, actions.len());
        text.append(" candidate updates.");
    }
    assert(text@ =~= summary_text(*step, actions@));
    text
}

/// The fixed explanation of a technique that does not name cells.
fn fixed_reasoning_text(step: &Step) -> (r: &'static str)
    ensures
        r@ == fixed_reasoning(*step),
{
    match step {
        Step::LockedCandidate(_) => "The highlighted digit is restricted to an intersection, so it can be removed from the rest of the overlapping house.",
        Step::HiddenSet(_) => "The highlighted digits can occur only in the highlighted cells of one house. Other candidates in those cells are impossible.",
        Step::NakedSet(_) => "The highlighted cells contain exactly the highlighted digits. Those digits can be removed from the remaining cells of the house.",
        Step::Fish(_) | Step::ComplexFish(_) => "The highlighted base and cover sectors constrain one digit. Cover candidates outside the pattern can be eliminated.",
        Step::Skyscraper(_) => "Two strong links share one aligned endpoint. Any candidate that sees both opposite endpoints can be eliminated.",
        Step::UniqueStep(_) => "The highlighted rectangle cannot resolve into two interchangeable solutions. Remove the candidate that would create that ambiguity.",
        Step::XYWing(_) => "The pivot and two pincers force one pincer to contain the elimination digit. Remove that digit from cells seeing both pincers.",
        Step::XYZWing(_) => "The pivot and pincers always place the elimination digit in one highlighted cell. Remove it from cells seeing every source.",
        Step::WWing(_) => "Two bivalue cells are connected by a strong link on one digit. Their other shared digit can be removed from common peers.",
        Step::Expert(_) => "Bounded fallback search checks the highlighted assumptions and keeps only conclusions shared by every valid branch.",
        Step::Coloring(_) => "Conjugate pairs alternate between two colors. The contradiction or shared visibility removes the highlighted candidate.",
        Step::Als(_) => "Each highlighted ALS has one more digit than cells. Restricted common candidates connect the sets and force the elimination.",
        _ => "",
    }
}

/// The sentences that explain the step (one).
fn reasoning(step: &Step) -> (r: Vec<String>)
    requires
        presentable(*step),
    ensures
        r@.len() == 1,
        r@[0]@ == reasoning_text(*step),
{
    let text = match step {
        Step::Nothing => String::from_str("Try adding pencil marks or request another hint after updating the grid."),
        Step::FullHouse(s) => {
            let mut t = String::new();
            push_house(&mut t, s.house);
            t.append(" has one empty cell, so ");
            push_cell(&mut t, s.cell);
            t.append(" must contain ");
            push_number(&mut t, s.value);
            t.append(".");
            assert(t@ =~= reasoning_text(*step));
            t
        },
        Step::NakedSingle(s) => {
            let mut t = String::new();
            push_cell(&mut t, s.candidate.0);
            t.append(" has only candidate ");
            push_number(&mut t, s.candidate.1);
            t.append(" remaining.");
            assert(t@ =~= reasoning_text(*step));
            t
        },
        Step::HiddenSingle(s) => {
            let mut t = String::from_str("Candidate ");
            push_number(&mut t, s.candidate.1);
            t.append(" appears only once in ");
            push_house(&mut t, s.house);
            t.append(": ");
            push_cell(&mut t, s.candidate.0);
            t.append(".");
            assert(t@ =~= reasoning_text(*step));
            t
        },
        _ => String::from_str(fixed_reasoning_text(step)),
    };
    let mut r: Vec<String> = Vec::new();
    r.push(text);
    r
}

/// The family of the step's technique.
fn technique_group(step: &Step) -> (r: &'static str)
    ensures
        r@ == group_text(*step),
{
    match step {
        Step::FullHouse(_) | Step::NakedSingle(_) | Step::HiddenSingle(_) => "Singles",
        Step::LockedCandidate(_) => "Intersections",
        Step::HiddenSet(_) => "Hidden Subsets",
        Step::NakedSet(_) => "Naked Subsets",
        Step::Fish(_) | Step::ComplexFish(_) => "Fish",
        Step::Skyscraper(_) => "Single Digit Patterns",
        Step::UniqueStep(_) => "Uniqueness",
        Step::XYWing(_) | Step::XYZWing(_) | Step::WWing(_) => "Wings",
        Step::Expert(_) => "Expert Techniques",
        Step::Coloring(_) => "Coloring",
        Step::Als(_) => "Almost Locked Sets",
        Step::Nothing => "Hint",
    }
}

/// The page on the step's technique.
fn technique_url(step: &Step) -> (r: &'static str)
    ensures
        r@ == url_text(*step),
{
    match step {
        Step::FullHouse(_) | Step::NakedSingle(_) | Step::HiddenSingle(_) => "/techniques/singles",
        Step::LockedCandidate(_) => "/techniques/intersections",
        Step::HiddenSet(_) => "/techniques/hidden-subsets",
        Step::NakedSet(_) => "/techniques/naked-subsets",
        Step::Fish(_) | Step::ComplexFish(_) => "/techniques/fish",
        Step::Skyscraper(_) => "/techniques/single-digit-patterns",
        Step::UniqueStep(_) => "/techniques/uniqueness",
        Step::XYWing(_) | Step::XYZWing(_) | Step::WWing(_) => "/techniques/wings",
        Step::Expert(_) => "/techniques/expert",
        Step::Coloring(_) => "/techniques/coloring",
        Step::Als(_) => "/techniques/als",
        Step::Nothing => "",
    }
}

/// Whether some candidate of `l` sits in cell `c`.
fn names_cell(l: &Vec<Candidate>, c: u8) -> (r: bool)
    ensures
        r == exists|i: int| 0 <= i < l@.len() && (#[trigger] l@[i]).0 == c,
{
    let mut i: usize = 0;
    while i < l.len()
        invariant
            i <= l@.len(),
            forall|k: int| 0 <= k < i ==> (#[trigger] l@[k]).0 != c,
        decreases l@.len() - i,
    {
        if l[i].0 == c {
            return true;
        }
        i = i + 1;
    }
    false
}

/// The highlighted cells, ordered by cell and then by role name.
fn cell_overlays(step: &Step) -> (r: Vec<CellOverlay>)
    requires
        presentable(*step),
    ensures
        cells_ordered(r@),
        forall|o: CellOverlay| r@.contains(o) <==> cell_shown(*step, o.cell, o.role),
{
    let pattern = pattern_candidates(step);
    let secondary = secondary_candidates(step);
    let fins = fin_candidates(step);
    let removals = remove_candidates(step);
    let roles = roles_in_order();
    let mut r: Vec<CellOverlay> = Vec::new();
    let mut cell: u8 = 0;
    while cell < 81
        invariant
            cell <= 81,
            pattern@ == pattern_list(*step),
            secondary@ == secondary_list(*step),
            fins@ == fin_list(*step),
            removals@ == step.removals(),
            forall|x: int| 0 <= x < 6 ==> role_rank(#[trigger] roles@[x]) == x,
            cells_ordered(r@),
            forall|k: int| 0 <= k < r@.len() ==> (#[trigger] r@[k]).cell < cell,
            forall|o: CellOverlay| r@.contains(o) <==> o.cell < cell && cell_shown(*step, o.cell, o.role),
        decreases 81 - cell,
    {
        let mut i: usize = 0;
        while i < 6
            invariant
                i <= 6,
                cell < 81,
                pattern@ == pattern_list(*step),
                secondary@ == secondary_list(*step),
                fins@ == fin_list(*step),
                removals@ == step.removals(),
                forall|x: int| 0 <= x < 6 ==> role_rank(#[trigger] roles@[x]) == x,
                cells_ordered(r@),
                forall|k: int| 0 <= k < r@.len() ==> (#[trigger] r@[k]).cell < cell || (r@[k].cell == cell && role_rank(r@[k].role) < i),
                forall|o: CellOverlay|
                    r@.contains(o) <==> (o.cell < cell || (o.cell == cell && role_rank(o.role) < i)) && cell_shown(*step, o.cell, o.role),
            decreases 6 - i,
        {
            let role = roles[i];
            assert(role_rank(role) == i as int);
            let shown = match role {
                PresentationRole::Pattern => names_cell(&pattern, cell),
                PresentationRole::Secondary => names_cell(&secondary, cell),
                PresentationRole::Fin => names_cell(&fins, cell),
                PresentationRole::Elimination => names_cell(&removals, cell),
                _ => false,
            };
            assert(shown == cell_shown(*step, cell, role));
            let ghost before = r@;
            if shown {
                r.push(CellOverlay { cell, role });
                proof {
                    assert forall|o: CellOverlay|
                        r@.contains(o) <==> (o.cell < cell || (o.cell == cell && role_rank(o.role) < i + 1)) && cell_shown(*step, o.cell, o.role) by {
                        if r@.contains(o) {
                            let k = choose|k: int| 0 <= k < r@.len() && r@[k] == o;
                            if k < before.len() {
                                assert(before[k] == o);
                                assert(before.contains(o));
                            }
                        }
                        if (o.cell < cell || (o.cell == cell && role_rank(o.role) < i + 1)) && cell_shown(*step, o.cell, o.role) {
                            if o.cell == cell && role_rank(o.role) == i {
                                assert(o == CellOverlay { cell, role });
                                assert(r@[before.len() as int] == o);
                            } else {
                                assert(before.contains(o));
                                let k = choose|k: int| 0 <= k < before.len() && before[k] == o;
                                assert(r@[k] == o);
                            }
                        }
                    }
                }
            } else {
                proof {
                    assert forall|o: CellOverlay|
                        r@.contains(o) <==> (o.cell < cell || (o.cell == cell && role_rank(o.role) < i + 1)) && cell_shown(*step, o.cell, o.role) by {
                        if o.cell == cell && role_rank(o.role) == i {
                            assert(o.role == role);
                            assert(o == CellOverlay { cell, role });
                            assert(!cell_shown(*step, cell, role));
                        }
                    }
                }
            }
            i = i + 1;
        }
        cell = cell + 1;
    }
    proof {
        assert forall|o: CellOverlay| cell_shown(*step, o.cell, o.role) implies o.cell < 81 by {}
    }
    r
}

/// Whether some set lies in house `h`.
fn set_in_house(sets: &Vec<AlmostLockedSet>, h: u8) -> (r: bool)
    ensures
        r == exists|k: int| 0 <= k < sets@.len() && (#[trigger] sets@[k]).house == h,
{
    let mut i: usize = 0;
    while i < sets.len()
        invariant
            i <= sets@.len(),
            forall|k: int| 0 <= k < i ==> (#[trigger] sets@[k]).house != h,
        decreases sets@.len() - i,
    {
        if sets[i].house == h {
            return true;
        }
        i = i + 1;
    }
    false
}

/// Whether house `h` is shown with role `role`.
fn house_is_shown(step: &Step, h: u8, role: PresentationRole) -> (r: bool)
    ensures
        r == house_shown(*step, h, role),
{
    match step {
        Step::FullHouse(s) => role == PresentationRole::Pattern && h == s.house,
        Step::HiddenSingle(s) => role == PresentationRole::Pattern && h == s.house,
        Step::LockedCandidate(s) => (role == PresentationRole::Pattern && h == s.house) || (role == PresentationRole::Secondary
            && h == s.common_house),
        Step::HiddenSet(s) => role == PresentationRole::Pattern && h == s.house,
        Step::NakedSet(s) => (role == PresentationRole::Pattern && h == s.house) || (role == PresentationRole::Secondary
            && s.locked_house == Some(h)),
        Step::Fish(s) => (role == PresentationRole::Pattern && vec_has(&s.basics, h)) || (role == PresentationRole::Secondary
            && vec_has(&s.covers, h)),
        Step::ComplexFish(s) => (role == PresentationRole::Pattern && vec_has(&s.basics, h)) || (role
            == PresentationRole::Secondary && vec_has(&s.covers, h)),
        Step::Als(s) => role == PresentationRole::Pattern && set_in_house(&s.sets, h),
        _ => false,
    }
}

/// The highlighted houses, ordered by house and then by role name.
fn house_overlays(step: &Step) -> (r: Vec<HouseOverlay>)
    requires
        presentable(*step),
    ensures
        houses_ordered(r@),
        forall|o: HouseOverlay| r@.contains(o) <==> house_shown(*step, o.house, o.role),
{
    let roles = roles_in_order();
    let mut r: Vec<HouseOverlay> = Vec::new();
    let mut house: u8 = 0;
    while house < 27
        invariant
            house <= 27,
            forall|x: int| 0 <= x < 6 ==> role_rank(#[trigger] roles@[x]) == x,
            houses_ordered(r@),
            forall|k: int| 0 <= k < r@.len() ==> (#[trigger] r@[k]).house < house,
            forall|o: HouseOverlay| r@.contains(o) <==> o.house < house && house_shown(*step, o.house, o.role),
        decreases 27 - house,
    {
        let mut i: usize = 0;
        while i < 6
            invariant
                i <= 6,
                house < 27,
                forall|x: int| 0 <= x < 6 ==> role_rank(#[trigger] roles@[x]) == x,
                houses_ordered(r@),
                forall|k: int|
                    0 <= k < r@.len() ==> (#[trigger] r@[k]).house < house || (r@[k].house == house && role_rank(r@[k].role) < i),
                forall|o: HouseOverlay|
                    r@.contains(o) <==> (o.house < house || (o.house == house && role_rank(o.role) < i)) && house_shown(
                        *step,
                        o.house,
                        o.role,
                    ),
            decreases 6 - i,
        {
            let role = roles[i];
            assert(role_rank(role) == i as int);
            let shown = house_is_shown(step, house, role);
            let ghost before = r@;
            if shown {
                r.push(HouseOverlay { house, role });
                proof {
                    assert forall|o: HouseOverlay|
                        r@.contains(o) <==> (o.house < house || (o.house == house && role_rank(o.role) < i + 1)) && house_shown(
                            *step,
                            o.house,
                            o.role,
                        ) by {
                        if r@.contains(o) {
                            let k = choose|k: int| 0 <= k < r@.len() && r@[k] == o;
                            if k < before.len() {
                                assert(before[k] == o);
                                assert(before.contains(o));
                            }
                        }
                        if (o.house < house || (o.house == house && role_rank(o.role) < i + 1)) && house_shown(*step, o.house, o.role) {
                            if o.house == house && role_rank(o.role) == i {
                                assert(o == HouseOverlay { house, role });
                                assert(r@[before.len() as int] == o);
                            } else {
                                assert(before.contains(o));
                                let k = choose|k: int| 0 <= k < before.len() && before[k] == o;
                                assert(r@[k] == o);
                            }
                        }
                    }
                }
            } else {
                proof {
                    assert forall|o: HouseOverlay|
                        r@.contains(o) <==> (o.house < house || (o.house == house && role_rank(o.role) < i + 1)) && house_shown(
                            *step,
                            o.house,
                            o.role,
                        ) by {
                        if o.house == house && role_rank(o.role) == i {
                            assert(o.role == role);
                            assert(o == HouseOverlay { house, role });
                            assert(!house_shown(*step, house, role));
                        }
                    }
                }
            }
            i = i + 1;
        }
        house = house + 1;
    }
    r
}

/// The roles the legend explains, ordered by name.
fn legend(step: &Step) -> (r: Vec<PresentationRole>)
    ensures
        roles_ordered(r@),
        forall|role: PresentationRole| r@.contains(role) <==> role_shown(*step, role),
{
    let pattern = pattern_candidates(step);
    let secondary = secondary_candidates(step);
    let fins = fin_candidates(step);
    let removals = remove_candidates(step);
    let roles = roles_in_order();
    let mut r: Vec<PresentationRole> = Vec::new();
    let mut i: usize = 0;
    while i < 6
        invariant
            i <= 6,
            pattern@ == pattern_list(*step),
            secondary@ == secondary_list(*step),
            fins@ == fin_list(*step),
            removals@ == step.removals(),
            forall|x: int| 0 <= x < 6 ==> role_rank(#[trigger] roles@[x]) == x,
            roles_ordered(r@),
            forall|k: int| 0 <= k < r@.len() ==> role_rank(#[trigger] r@[k]) < i,
            forall|role: PresentationRole| r@.contains(role) <==> role_rank(role) < i && role_shown(*step, role),
        decreases 6 - i,
    {
        let role = roles[i];
        let shown = match role {
            PresentationRole::Pattern => pattern.len() > 0,
            PresentationRole::Secondary => secondary.len() > 0,
            PresentationRole::Fin => fins.len() > 0,
            PresentationRole::Elimination => removals.len() > 0,
            PresentationRole::AlsGroup => matches!(step, Step::Als(_)),
            _ => false,
        };
        let ghost before = r@;
        if shown {
            r.push(role);
            proof {
                assert forall|x: PresentationRole| r@.contains(x) <==> role_rank(x) < i + 1 && role_shown(*step, x) by {
                    if r@.contains(x) {
                        let k = choose|k: int| 0 <= k < r@.len() && r@[k] == x;
                        if k < before.len() {
                            assert(before[k] == x);
                        }
                    }
                    if role_rank(x) < i + 1 && role_shown(*step, x) {
                        if role_rank(x) == i {
                            assert(x == role);
                            assert(r@[before.len() as int] == x);
                        } else {
                            let k = choose|k: int| 0 <= k < before.len() && before[k] == x;
                            assert(r@[k] == x);
                        }
                    }
                }
            }
        } else {
            proof {
                assert forall|x: PresentationRole| r@.contains(x) <==> role_rank(x) < i + 1 && role_shown(*step, x) by {
                    if role_rank(x) == i {
                        assert(x == role);
                    }
                }
            }
        }
        i = i + 1;
    }
    r
}

impl StepPresentation {
    /// Everything to show of a step: its rating and difficulty, its family and page, a
    /// summary, the reasoning, the changes it makes, and what to highlight (cells by cell
    /// and role name, houses by house and role name, legend by role name, each once).
    pub fn from_step(step: &Step) -> (r: Self)
        requires
            presentable(*step),
        ensures
            r.difficulty_rank == step.rating(),
            r.difficulty_label@ == difficulty_of_rank(step.rating()).title(),
            r.technique_group@ == group_text(*step),
            r.technique_url@ == url_text(*step),
            r.summary@ == summary_text(*step, r.actions@),
            r.reasoning@.len() == 1,
            r.reasoning@[0]@ == reasoning_text(*step),
            actions_of(*step, r.actions@),
            roles_ordered(r.legend@),
            forall|role: PresentationRole| r.legend@.contains(role) <==> role_shown(*step, role),
            cells_ordered(r.cell_overlays@),
            forall|o: CellOverlay| r.cell_overlays@.contains(o) <==> cell_shown(*step, o.cell, o.role),
            houses_ordered(r.house_overlays@),
            forall|o: HouseOverlay| r.house_overlays@.contains(o) <==> house_shown(*step, o.house, o.role),
    {
        let difficulty_rank = step.difficulty();
        let acts = actions(step);
        let summary = summary(step, &acts);
        StepPresentation {
            difficulty_rank,
            difficulty_label: Difficulty::from_hardest_technique_rank(difficulty_rank).name(),
            technique_group: technique_group(step),
            technique_url: technique_url(step),
            summary,
            reasoning: reasoning(step),
            actions: acts,
            legend: legend(step),
            cell_overlays: cell_overlays(step),
            house_overlays: house_overlays(step),
        }
    }
}

} // verus!
