use vstd::prelude::*;
use crate::candidate::Candidate;
use crate::grid::{Grid, no_peer_has, cands_after_place};
use crate::grid_constant::sees;
use crate::solver::full_house::FullHouse;
use crate::solver::naked_single::NakedSingle;
use crate::solver::hidden_single::HiddenSingle;
use crate::solver::locked_candidate::LockedCandidate;
use crate::solver::als::AlsStep;
use crate::solver::coloring::ColoringStep;
use crate::solver::expert::ExpertStep;
use crate::solver::unique::UniqueStep;
use crate::solver::complex_fish::ComplexFish;
use crate::solver::fish::Fish;
use crate::solver::skyscraper::Skyscraper;
use crate::solver::wwing::WWing;
use crate::solver::xyzwing::XYZWing;
use crate::solver::xywing::XYWing;
use crate::solver::hidden_set::HiddenSet;
use crate::solver::naked_set::NakedSet;
use crate::solver::presentation::presentable;
use crate::solver::als::AlsType;
use crate::solver::coloring::ColoringType;
use crate::solver::complex_fish::ComplexFishType;
use crate::solver::fish::{FishSize, FishVariant};
use vstd::string::StringExecFns;

verus! {

/// The rating of each technique: singles 4 (full house, naked single) and 14 (hidden
/// single), locked candidates 50, naked pairs, triples and quads 60, 80 and 120 (40, 60
/// and 100 when locked), hidden ones 70, 100 and 120, unique rectangles 100, skyscrapers
/// 130, W-Wings 150, XY-Wings 160, XYZ-Wings 180, fish from 140 (X-Wing) to 260 (sashimi
/// jellyfish), colourings 270 to 300, complex fish 300 to 380, ALS steps 300 to 460 and
/// expert steps 600.
pub proof fn lemma_rating_table(s: Step)
    ensures
        s is Nothing ==> s.rating() == 0,
        s is FullHouse ==> s.rating() == 4,
        s is NakedSingle ==> s.rating() == 4,
        s is HiddenSingle ==> s.rating() == 14,
        s is LockedCandidate ==> s.rating() == 50,
        s is UniqueStep ==> s.rating() == 100,
        s is Skyscraper ==> s.rating() == 130,
        s is WWing ==> s.rating() == 150,
        s is XYWing ==> s.rating() == 160,
        s is XYZWing ==> s.rating() == 180,
        s is Expert ==> s.rating() == 600,
        s matches Step::NakedSet(n) ==> s.rating() == (if n.locked_house is Some {
            if n.degree == 2 { 40u32 } else if n.degree == 3 { 60u32 } else if n.degree == 4 { 100u32 } else { 0u32 }
        } else {
            if n.degree == 2 { 60u32 } else if n.degree == 3 { 80u32 } else if n.degree == 4 { 120u32 } else { 0u32 }
        }),
        s matches Step::HiddenSet(h) ==> s.rating() == (if h.degree == 2 { 70u32 } else if h.degree == 3 { 100u32 } else if h.degree == 4 {
            120u32
        } else {
            0u32
        }),
        s matches Step::Fish(f) ==> s.rating() == match (f.fish_type.variant, f.fish_type.size) {
            (FishVariant::Basic, FishSize::XWing) => 140u32,
            (FishVariant::Basic, FishSize::Swordfish) => 150u32,
            (FishVariant::Basic, FishSize::Jellyfish) => 160u32,
            (FishVariant::Basic, FishSize::Squirmbag) => 170u32,
            (FishVariant::Basic, FishSize::Whale) => 180u32,
            (FishVariant::Basic, FishSize::Leviathan) => 190u32,
            (FishVariant::Finned, FishSize::XWing) => 150u32,
            (FishVariant::Finned, FishSize::Swordfish) => 200u32,
            (FishVariant::Finned, FishSize::Jellyfish) => 250u32,
            (FishVariant::Sashimi, FishSize::XWing) => 150u32,
            (FishVariant::Sashimi, FishSize::Swordfish) => 240u32,
            (FishVariant::Sashimi, FishSize::Jellyfish) => 260u32,
            _ => 0u32,
        },
        s matches Step::ComplexFish(f) ==> s.rating() == match f.fish_type {
            ComplexFishType::Franken => 300u32,
            ComplexFishType::Mutant => 340u32,
            ComplexFishType::Cannibalistic => 380u32,
        },
        s matches Step::Coloring(c) ==> s.rating() == match c.coloring_type {
            ColoringType::Trap => 270u32,
            ColoringType::Wrap => 280u32,
            ColoringType::Multi => 300u32,
        },
        s matches Step::Als(a) ==> s.rating() == match a.als_type {
            AlsType::Xz => 360u32,
            AlsType::XYWing => 380u32,
            AlsType::Chain => 420u32,
            AlsType::DeathBlossom => 460u32,
            AlsType::WxyzWing => 300u32,
        },
{
}

/// The names of the techniques with a single name.
pub proof fn lemma_title_table(s: Step)
    ensures
        s is FullHouse ==> s.title() == "Full House"@,
        s is NakedSingle ==> s.title() == "Naked Single"@,
        s is HiddenSingle ==> s.title() == "Hidden Single"@,
        s is LockedCandidate ==> s.title() == "Locked Candidate"@,
        s is Skyscraper ==> s.title() == "Skyscraper"@,
        s is WWing ==> s.title() == "W-Wing"@,
        s is XYZWing ==> s.title() == "XYZ-Wing"@,
        s is XYWing ==> s.title() == "XY-Wing"@,
{
}

/// Candidates `cs` once every listed candidate is gone.
pub open spec fn without(cs: Seq<Set<u8>>, rm: Seq<Candidate>) -> Seq<Set<u8>> {
    Seq::new(cs.len(), |c: int| cs[c].filter(|v: u8| !rm.contains(Candidate(c as u8, v))))
}

/// Every listed candidate is in the grid, and none is listed twice.
pub open spec fn removable(g: Grid, rm: Seq<Candidate>) -> bool {
    &&& rm.no_duplicates()
    &&& forall|i: int| 0 <= i < rm.len() ==> (#[trigger] rm[i]).0 < 81 && g.cands(rm[i].0 as int).contains(rm[i].1)
}

/// A digit can be written into an empty, non-given cell that no peer's value blocks.
pub open spec fn placeable(g: Grid, c: Candidate) -> bool {
    &&& c.0 < 81
    &&& 1 <= c.1 <= 9
    &&& g.value(c.0 as int) == 0
    &&& !g.given(c.0 as int)
    &&& no_peer_has(g.value_seq(), c.0 as int, c.1)
}

/// `new` is `old` with the digit of `c` written into its cell.
pub open spec fn placed(old: Grid, new: Grid, c: Candidate) -> bool {
    &&& new.value_seq() == old.value_seq().update(c.0 as int, c.1)
    &&& new.given_seq() == old.given_seq().update(c.0 as int, false)
    &&& new.cand_seq() == cands_after_place(old.cand_seq(), c.0 as int, c.1)
}

/// `new` is `old` without the listed candidates.
pub open spec fn removed(old: Grid, new: Grid, rm: Seq<Candidate>) -> bool {
    &&& new.value_seq() == old.value_seq()
    &&& new.given_seq() == old.given_seq()
    &&& new.cand_seq() == without(old.cand_seq(), rm)
}

/// What a grid holds: its digits, which of them are given, and its candidates.
pub type GridState = (Seq<u8>, Seq<bool>, Seq<Set<u8>>);

/// The state of `g`.
pub open spec fn state_of(g: Grid) -> GridState {
    (g.value_seq(), g.given_seq(), g.cand_seq())
}

/// The state after carrying out `step` on `st`.
pub open spec fn step_state(step: Step, st: GridState) -> GridState {
    if step is Nothing {
        st
    } else {
        match step.placement() {
            Some(c) => (st.0.update(c.0 as int, c.1), st.1.update(c.0 as int, false), cands_after_place(st.2, c.0 as int, c.1)),
            None => (st.0, st.1, without(st.2, step.removals())),
        }
    }
}

/// The state after carrying out `steps` in order on `st`.
pub open spec fn run_steps(st: GridState, steps: Seq<Step>) -> GridState
    decreases steps.len(),
{
    if steps.len() == 0 {
        st
    } else {
        step_state(steps.last(), run_steps(st, steps.drop_last()))
    }
}

/// Carrying out a step gives the state that `step_state` names.
pub proof fn lemma_outcome_state(step: Step, old: Grid, new: Grid)
    requires
        step.outcome(old, new),
    ensures
        state_of(new) == step_state(step, state_of(old)),
{
}

/// One more step carries the run one step further.
pub proof fn lemma_run_push(st: GridState, steps: Seq<Step>, step: Step)
    ensures
        run_steps(st, steps.push(step)) == step_state(step, run_steps(st, steps)),
{
    assert(steps.push(step).drop_last() =~= steps);
}

/// Removes every listed candidate from the grid.
pub fn remove_all(grid: &mut Grid, rm: &Vec<Candidate>)
    requires
        old(grid).wf(),
        removable(*old(grid), rm@),
    ensures
        final(grid).wf(),
        removed(*old(grid), *final(grid), rm@),
{
    proof {
        old(grid).lemma_wf();
        let e = rm@.subrange(0, 0);
        assert forall|c: int| 0 <= c < 81 implies #[trigger] without(old(grid).cand_seq(), e)[c] =~= old(
            grid,
        ).cand_seq()[c] by {
            assert forall|v: u8| !#[trigger] e.contains(Candidate(c as u8, v)) by {}
        }
        assert(old(grid).cand_seq() =~= without(old(grid).cand_seq(), e));
    }
    let mut i: usize = 0;
    while i < rm.len()
        invariant
            i <= rm@.len(),
            grid.wf(),
            old(grid).wf(),
            removable(*old(grid), rm@),
            old(grid).cand_seq().len() == 81,
            grid.value_seq() == old(grid).value_seq(),
            grid.given_seq() == old(grid).given_seq(),
            grid.cand_seq() == without(old(grid).cand_seq(), rm@.subrange(0, i as int)),
        decreases rm@.len() - i,
    {
        let cand = rm[i];
        proof {
            grid.lemma_wf();
            old(grid).lemma_wf();
            assert(rm@[i as int] == cand);
            assert(!rm@.subrange(0, i as int).contains(cand)) by {
                if rm@.subrange(0, i as int).contains(cand) {
                    let j = choose|j: int| 0 <= j < i && #[trigger] rm@.subrange(0, i as int)[j] == cand;
                    assert(rm@[j] == rm@[i as int]);
                }
            }
            assert(grid.cand_seq()[cand.0 as int] == old(grid).cand_seq()[cand.0 as int].filter(
                |v: u8| !rm@.subrange(0, i as int).contains(Candidate(cand.0, v)),
            ));
            assert(grid.cands(cand.0 as int).contains(cand.1));
        }
        let ok = grid.remove_candidate(&cand);
        proof {
            grid.lemma_wf();
            let pre = rm@.subrange(0, i as int);
            let post = rm@.subrange(0, i + 1);
            assert(post =~= pre.push(cand));
            assert forall|c: int| 0 <= c < 81 implies #[trigger] grid.cand_seq()[c] =~= without(
                old(grid).cand_seq(),
                post,
            )[c] by {
                assert forall|v: u8| #[trigger] post.contains(Candidate(c as u8, v)) <==> pre.contains(Candidate(c as u8, v))
                    || Candidate(c as u8, v) == cand by {
                    if post.contains(Candidate(c as u8, v)) {
                        let j = choose|j: int| 0 <= j < post.len() && #[trigger] post[j] == Candidate(c as u8, v);
                        if j < pre.len() {
                            assert(pre[j] == post[j]);
                        }
                    }
                    if pre.contains(Candidate(c as u8, v)) {
                        let j = choose|j: int| 0 <= j < pre.len() && #[trigger] pre[j] == Candidate(c as u8, v);
                        assert(post[j] == pre[j]);
                    }
                    if Candidate(c as u8, v) == cand {
                        assert(post[i as int] == cand);
                    }
                }
            }
            assert(grid.cand_seq() =~= without(old(grid).cand_seq(), post));
        }
        i = i + 1;
    }
    proof {
        assert(rm@.subrange(0, rm@.len() as int) =~= rm@);
    }
}

/// A solving step: a digit placed, or candidates removed, with what justifies it.
#[derive(Debug, PartialEq, Clone, Eq, Hash)]
pub enum Step {
    Nothing,
    FullHouse(FullHouse),
    NakedSingle(NakedSingle),
    HiddenSingle(HiddenSingle),
    LockedCandidate(LockedCandidate),
    Als(AlsStep),
    Coloring(ColoringStep),
    Expert(ExpertStep),
    UniqueStep(UniqueStep),
    ComplexFish(ComplexFish),
    Fish(Fish),
    Skyscraper(Skyscraper),
    WWing(WWing),
    XYZWing(XYZWing),
    XYWing(XYWing),
    NakedSet(NakedSet),
    HiddenSet(HiddenSet),
}

impl Step {
    /// The digit the step writes, if it writes one.
    pub open spec fn placement(self) -> Option<Candidate> {
        match self {
            Step::FullHouse(s) => Some(Candidate(s.cell, s.value)),
            Step::NakedSingle(s) => Some(s.candidate),
            Step::HiddenSingle(s) => Some(s.candidate),
            _ => None,
        }
    }

    /// The candidates the step removes.
    pub open spec fn removals(self) -> Seq<Candidate> {
        match self {
            Step::LockedCandidate(s) => s.remove_candidates@,
            Step::Als(s) => s.remove_candidates@,
            Step::Coloring(s) => s.remove_candidates@,
            Step::Expert(s) => s.remove_candidates@,
            Step::UniqueStep(s) => s.remove_candidates@,
            Step::ComplexFish(s) => s.remove_candidates@,
            Step::Fish(s) => s.remove_candidates@,
            Step::Skyscraper(s) => s.remove_candidates@,
            Step::WWing(s) => s.remove_candidates@,
            Step::XYZWing(s) => s.remove_candidates@,
            Step::XYWing(s) => s.remove_candidates@,
            Step::HiddenSet(s) => s.remove_candidates@,
            Step::NakedSet(s) => s.remove_candidates@,
            _ => Seq::empty(),
        }
    }

    /// The step can be carried out on `g`.
    pub open spec fn applicable(self, g: Grid) -> bool {
        match self {
            Step::Nothing => true,
            _ => match self.placement() {
                Some(c) => placeable(g, c),
                None => self.removals().len() > 0 && removable(g, self.removals()),
            },
        }
    }

    /// `new` is what carrying out the step turns `old` into.
    pub open spec fn outcome(self, old: Grid, new: Grid) -> bool {
        match self {
            Step::Nothing => new.value_seq() == old.value_seq() && new.given_seq() == old.given_seq()
                && new.cand_seq() == old.cand_seq(),
            _ => match self.placement() {
                Some(c) => placed(old, new, c),
                None => removed(old, new, self.removals()),
            },
        }
    }

    /// The step's own justification holds in `g`.
    pub open spec fn pattern(self, g: Grid) -> bool {
        match self {
            Step::Nothing => true,
            Step::FullHouse(s) => s.pattern(g),
            Step::NakedSingle(s) => s.pattern(g),
            Step::HiddenSingle(s) => s.pattern(g),
            Step::LockedCandidate(s) => s.pattern(g),
            Step::Als(s) => s.pattern(g),
            Step::Coloring(s) => s.pattern(g),
            Step::Expert(s) => s.pattern(g),
            Step::UniqueStep(s) => s.pattern(g),
            Step::ComplexFish(s) => s.pattern(g),
            Step::Fish(s) => s.pattern(g),
            Step::Skyscraper(s) => s.pattern(g),
            Step::WWing(s) => s.pattern(g),
            Step::XYZWing(s) => s.pattern(g),
            Step::XYWing(s) => s.pattern(g),
            Step::HiddenSet(s) => s.pattern(g),
            Step::NakedSet(s) => s.pattern(g),
        }
    }

    /// Carries out the step.
    pub fn apply(&self, grid: &mut Grid)
        requires
            old(grid).wf(),
            self.applicable(*old(grid)),
        ensures
            final(grid).wf(),
            self.outcome(*old(grid), *final(grid)),
    {
        match self {
            Step::Nothing => {},
            Step::FullHouse(s) => s.apply(grid),
            Step::NakedSingle(s) => s.apply(grid),
            Step::HiddenSingle(s) => s.apply(grid),
            Step::LockedCandidate(s) => s.apply(grid),
            Step::Als(s) => s.apply(grid),
            Step::Coloring(s) => s.apply(grid),
            Step::Expert(s) => s.apply(grid),
            Step::UniqueStep(s) => s.apply(grid),
            Step::ComplexFish(s) => s.apply(grid),
            Step::Fish(s) => s.apply(grid),
            Step::Skyscraper(s) => s.apply(grid),
            Step::WWing(s) => s.apply(grid),
            Step::XYZWing(s) => s.apply(grid),
            Step::XYWing(s) => s.apply(grid),
            Step::HiddenSet(s) => s.apply(grid),
            Step::NakedSet(s) => s.apply(grid),
        }
    }

    /// The step's own data are consistent (a finned or sashimi fish spans at most four
    /// lines).
    pub open spec fn well_formed(self) -> bool {
        match self {
            Step::Fish(f) => f.fish_type.valid(),
            _ => true,
        }
    }

    /// The step's rating.
    pub fn difficulty(&self) -> (r: u32)
        requires
            self.well_formed(),
        ensures
            r == self.rating(),
    {
        match self {
            Step::Nothing => 0,
            Step::FullHouse(_) => 4,
            Step::NakedSingle(_) => 4,
            Step::HiddenSingle(_) => 14,
            Step::LockedCandidate(_) => 50,
            Step::Als(s) => s.difficulty(),
            Step::Coloring(s) => s.difficulty(),
            Step::Expert(s) => 600,
            Step::UniqueStep(s) => 100,
            Step::ComplexFish(s) => s.difficulty(),
            Step::Fish(s) => s.difficulty(),
            Step::Skyscraper(s) => 130,
            Step::WWing(s) => 150,
            Step::XYZWing(s) => 180,
            Step::XYWing(s) => 160,
            Step::HiddenSet(s) => s.difficulty(),
            Step::NakedSet(s) => s.difficulty(),
        }
    }

    /// The step's rating.
    pub open spec fn rating(self) -> u32 {
        match self {
            Step::Nothing => 0,
            Step::FullHouse(_) => 4,
            Step::NakedSingle(_) => 4,
            Step::HiddenSingle(_) => 14,
            Step::LockedCandidate(_) => 50,
            Step::Als(s) => s.rating(),
            Step::Coloring(s) => s.rating(),
            Step::Expert(s) => 600,
            Step::UniqueStep(s) => 100,
            Step::ComplexFish(s) => s.rating(),
            Step::Fish(s) => s.rating(),
            Step::Skyscraper(s) => 130,
            Step::WWing(s) => 150,
            Step::XYZWing(s) => 180,
            Step::XYWing(s) => 160,
            Step::HiddenSet(s) => s.rating(),
            Step::NakedSet(s) => s.rating(),
        }
    }

    /// The technique's name.
    pub fn name(&self) -> (r: &'static str)
        requires
            self.well_formed(),
        ensures
            r@ == self.title(),
    {
        match self {
            Step::Nothing => "Nothing",
            Step::FullHouse(_) => "Full House",
            Step::NakedSingle(_) => "Naked Single",
            Step::HiddenSingle(_) => "Hidden Single",
            Step::LockedCandidate(_) => "Locked Candidate",
            Step::Als(s) => s.name(),
            Step::Coloring(s) => s.name(),
            Step::Expert(s) => s.name(),
            Step::UniqueStep(s) => s.name(),
            Step::ComplexFish(s) => s.name(),
            Step::Fish(s) => s.name(),
            Step::Skyscraper(s) => "Skyscraper",
            Step::WWing(s) => "W-Wing",
            Step::XYZWing(s) => "XYZ-Wing",
            Step::XYWing(s) => "XY-Wing",
            Step::HiddenSet(s) => s.name(),
            Step::NakedSet(s) => s.name(),
        }
    }

    /// The step's description.
    pub open spec fn explanation(self) -> Seq<char> {
        match self {
            Step::Nothing => "Nothing"@,
            Step::Expert(s) => s.title(),
            Step::Coloring(s) => s.title(),
            Step::Als(s) => s.title(),
            Step::FullHouse(s) => s.text(),
            Step::NakedSingle(s) => s.text(),
            Step::HiddenSingle(s) => s.text(),
            Step::LockedCandidate(s) => s.text(),
            Step::UniqueStep(s) => "<h3>"@ + s.title() + "</h3>"@,
            Step::ComplexFish(s) => s.title(),
            Step::Fish(s) => "<h3>"@ + s.title() + "</h3>"@,
            Step::Skyscraper(s) => "<h3>Skyscraper</h3>"@,
            Step::WWing(s) => "<h3>W-Wing</h3>"@,
            Step::XYZWing(s) => "<h3>XYZ-Wing</h3>"@,
            Step::XYWing(s) => "<h3>XY-Wing</h3>"@,
            Step::HiddenSet(s) => s.text(),
            Step::NakedSet(s) => s.text(),
        }
    }

    /// Describes the step.
    pub fn explain(&self) -> (r: String)
        requires
            presentable(*self),
            self matches Step::LockedCandidate(l) ==> l.highlight_candidates@.len() > 0,
        ensures
            r@ == self.explanation(),
    {
        match self {
            Step::Nothing => String::from_str("Nothing"),
            Step::Expert(s) => String::from_str(s.name()),
            Step::Coloring(s) => String::from_str(s.name()),
            Step::Als(s) => String::from_str(s.name()),
            Step::FullHouse(s) => s.explain(),
            Step::NakedSingle(s) => s.explain(),
            Step::HiddenSingle(s) => s.explain(),
            Step::LockedCandidate(s) => s.explain(),
            Step::UniqueStep(s) => s.explain(),
            Step::ComplexFish(s) => String::from_str(s.name()),
            Step::Fish(s) => s.explain(),
            Step::Skyscraper(s) => s.explain(),
            Step::WWing(s) => s.explain(),
            Step::XYZWing(s) => s.explain(),
            Step::XYWing(s) => s.explain(),
            Step::HiddenSet(s) => s.explain(),
            Step::NakedSet(s) => s.explain(),
        }
    }

    /// The technique's name.
    pub open spec fn title(self) -> Seq<char> {
        match self {
            Step::Nothing => "Nothing"@,
            Step::FullHouse(_) => "Full House"@,
            Step::NakedSingle(_) => "Naked Single"@,
            Step::HiddenSingle(_) => "Hidden Single"@,
            Step::LockedCandidate(_) => "Locked Candidate"@,
            Step::Als(s) => s.title(),
            Step::Coloring(s) => s.title(),
            Step::Expert(s) => s.title(),
            Step::UniqueStep(s) => s.title(),
            Step::ComplexFish(s) => s.title(),
            Step::Fish(s) => s.title(),
            Step::Skyscraper(s) => "Skyscraper"@,
            Step::WWing(s) => "W-Wing"@,
            Step::XYZWing(s) => "XYZ-Wing"@,
            Step::XYWing(s) => "XY-Wing"@,
            Step::HiddenSet(s) => s.title(),
            Step::NakedSet(s) => s.title(),
        }
    }
}

/// Sum of the ratings of `steps`.
pub open spec fn score_of(steps: Seq<Step>) -> int
    decreases steps.len(),
{
    if steps.len() == 0 {
        0
    } else {
        score_of(steps.drop_last()) + steps.last().rating()
    }
}

/// The score of one step is its rating, and the score of two paths one after the other
/// is the sum of their scores.
pub proof fn lemma_score_additive(a: Seq<Step>, b: Seq<Step>, x: Step)
    ensures
        score_of(seq![x]) == x.rating(),
        score_of(a + b) == score_of(a) + score_of(b),
    decreases b.len(),
{
    assert(seq![x].drop_last() =~= Seq::<Step>::empty());
    assert(score_of(Seq::<Step>::empty()) == 0);
    assert(seq![x].last() == x);
    assert(score_of(seq![x]) == score_of(seq![x].drop_last()) + seq![x].last().rating());
    if b.len() == 0 {
        assert(a + b =~= a);
    } else {
        lemma_score_additive(a, b.drop_last(), x);
        assert((a + b).drop_last() =~= a + b.drop_last());
        assert((a + b).last() == b.last());
    }
}

/// A score never shrinks as steps are added.
pub proof fn lemma_score_prefix(steps: Seq<Step>, i: int)
    requires
        0 <= i <= steps.len(),
    ensures
        0 <= score_of(steps.subrange(0, i)) <= score_of(steps),
    decreases steps.len(),
{
    if i == steps.len() {
        assert(steps.subrange(0, i) =~= steps);
        lemma_score_nonneg(steps);
    } else {
        lemma_score_prefix(steps.drop_last(), i);
        assert(steps.drop_last().subrange(0, i) =~= steps.subrange(0, i));
    }
}

/// Sum of the ratings of the steps.
pub fn difficulty_score(steps: &[Step]) -> (r: u32)
    requires
        score_of(steps@) <= u32::MAX,
        forall|i: int| 0 <= i < steps@.len() ==> (#[trigger] steps@[i]).well_formed(),
    ensures
        r == score_of(steps@),
{
    let mut score: u32 = 0;
    let mut i: usize = 0;
    while i < steps.len()
        invariant
            i <= steps@.len(),
            score_of(steps@) <= u32::MAX,
            score == score_of(steps@.subrange(0, i as int)),
            forall|k: int| 0 <= k < steps@.len() ==> (#[trigger] steps@[k]).well_formed(),
        decreases steps@.len() - i,
    {
        proof {
            assert(steps@.subrange(0, i + 1).drop_last() =~= steps@.subrange(0, i as int));
            lemma_score_prefix(steps@, i + 1);
        }
        score = score + steps[i].difficulty();
        i = i + 1;
    }
    assert(steps@.subrange(0, steps@.len() as int) =~= steps@);
    score
}

proof fn lemma_score_nonneg(steps: Seq<Step>)
    ensures
        score_of(steps) >= 0,
    decreases steps.len(),
{
    if steps.len() > 0 {
        lemma_score_nonneg(steps.drop_last());
    }
}

/// Every given cell holds a digit.
pub open spec fn givens_filled(g: Grid) -> bool {
    forall|c: int| 0 <= c < 81 && #[trigger] g.given(c) ==> g.value(c) != 0
}

/// Number of candidates over the first `n` cells.
pub open spec fn cand_total(cs: Seq<Set<u8>>, n: int) -> int
    decreases n,
{
    if n <= 0 {
        0
    } else {
        cand_total(cs, n - 1) + cs[n - 1].len()
    }
}

proof fn lemma_total_shrinks(a: Seq<Set<u8>>, b: Seq<Set<u8>>, n: int, k: int)
    requires
        0 <= n <= a.len(),
        n <= b.len(),
        forall|c: int| 0 <= c < n ==> (#[trigger] b[c]).subset_of(a[c]) && a[c].finite(),
    ensures
        cand_total(b, n) <= cand_total(a, n),
        0 <= k < n && b[k].len() < a[k].len() ==> cand_total(b, n) < cand_total(a, n),
    decreases n,
{
    if n > 0 {
        lemma_total_shrinks(a, b, n - 1, k);
        vstd::set_lib::lemma_len_subset(b[n - 1], a[n - 1]);
    }
}

/// Candidate totals are bounded.
pub proof fn lemma_total_bounds(g: Grid, n: int)
    requires
        g.wf(),
        0 <= n <= 81,
    ensures
        0 <= cand_total(g.cand_seq(), n) <= 9 * n,
    decreases n,
{
    if n > 0 {
        lemma_total_bounds(g, n - 1);
        g.lemma_wf();
        g.lemma_cands_finite(n - 1);
    }
}

/// A set that lost one of its elements is smaller.
proof fn lemma_lost_one(a: Set<u8>, b: Set<u8>, x: u8)
    requires
        a.finite(),
        b.subset_of(a),
        a.contains(x),
        !b.contains(x),
    ensures
        b.len() < a.len(),
{
    assert(b.subset_of(a.remove(x)));
    vstd::set_lib::lemma_len_subset(b, a.remove(x));
}

impl Step {
    /// Carrying out a step that removes something or writes a candidate shrinks the
    /// number of candidates of the grid.
    pub proof fn lemma_progress(self, old: Grid, new: Grid)
        requires
            old.wf(),
            new.wf(),
            !(self is Nothing),
            self.pattern(old),
            self.applicable(old),
            self.outcome(old, new),
        ensures
            cand_total(new.cand_seq(), 81) < cand_total(old.cand_seq(), 81),
    {
        old.lemma_wf();
        new.lemma_wf();
        let a = old.cand_seq();
        let b = new.cand_seq();
        assert forall|c: int| 0 <= c < 81 implies (#[trigger] b[c]).subset_of(a[c]) && a[c].finite() by {
            old.lemma_cands_finite(c);
        }
        match self.placement() {
            Some(p) => {
                let v = p.1;
                assert(old.has_cand(p.0 as int, v));
                lemma_lost_one(a[p.0 as int], b[p.0 as int], v);
                lemma_total_shrinks(a, b, 81, p.0 as int);
            },
            None => {
                let rm = self.removals();
                let r0 = rm[0];
                assert(rm.contains(r0));
                assert(!b[r0.0 as int].contains(r0.1));
                old.lemma_cands_finite(r0.0 as int);
                lemma_lost_one(a[r0.0 as int], b[r0.0 as int], r0.1);
                lemma_total_shrinks(a, b, 81, r0.0 as int);
            },
        }
    }
}

/// A list ordered by cell, then digit, has no repeats.
pub proof fn lemma_sorted_distinct(l: Seq<Candidate>)
    requires
        crate::solver::naked_set::sorted_cands(l),
    ensures
        l.no_duplicates(),
{
    assert forall|i: int, j: int| 0 <= i < l.len() && 0 <= j < l.len() && i != j implies l[i] != l[j] by {
        if i < j {
            assert(crate::solver::naked_set::cand_before(l[i], l[j]));
        } else {
            assert(crate::solver::naked_set::cand_before(l[j], l[i]));
        }
    }
}

impl Step {
    /// A step whose justification holds can be carried out on a grid whose candidates
    /// agree with its values and whose given cells are filled.
    pub proof fn lemma_applicable(self, g: Grid)
        requires
            g.wf(),
            g.state_valid(),
            givens_filled(g),
            self.pattern(g),
        ensures
            self.applicable(g),
    {
        g.lemma_wf();
        match self.placement() {
            Some(p) => {
                if !(self is Nothing) {
                    let c = p.0 as int;
                    let v = p.1;
                    assert(g.has_cand(c, v)) by {
                        match self {
                            Step::NakedSingle(n) => {
                                assert(g.cands(c).contains(v));
                            },
                            _ => {},
                        }
                    }
                    assert forall|b: int| 0 <= b < 81 && sees(c, b) implies g.value_seq()[b] != v by {
                        assert(g.value_seq()[b] == g.value(b));
                        if g.value(b) != 0 {
                            assert(!g.cands(c).contains(g.value(b)));
                        }
                    }
                }
            },
            None => {
                match self {
                    Step::LockedCandidate(l) => {
                        let v = l.digit();
                        crate::solver::common::lemma_cand_list_distinct(l.remove_candidates@, v,
                            crate::solver::locked_candidate::cand_cells_outside(g, l.common_house as int, l.house as int, v));
                    },
                    Step::NakedSet(n) => {
                        lemma_sorted_distinct(n.remove_candidates@);
                    },
                    Step::HiddenSet(h) => {
                        lemma_sorted_distinct(h.remove_candidates@);
                    },
                    _ => {},
                }
            },
        }
    }

    /// Carrying out a justified step keeps candidates agreeing with values, and keeps
    /// given cells filled.
    pub proof fn lemma_keeps_valid(self, old: Grid, new: Grid)
        requires
            old.wf(),
            new.wf(),
            old.state_valid(),
            givens_filled(old),
            self.pattern(old),
            self.applicable(old),
            self.outcome(old, new),
        ensures
            new.state_valid(),
            givens_filled(new),
    {
        old.lemma_wf();
        new.lemma_wf();
        match self.placement() {
            Some(p) => {
                if self is Nothing {
                } else {
                    let cell = p.0 as int;
                    let v = p.1;
                    assert(old.has_cand(cell, v)) by {
                        match self {
                            Step::NakedSingle(n) => {
                                assert(old.cands(cell).contains(v));
                            },
                            _ => {},
                        }
                    }
                    assert forall|c: int| 0 <= c < 81 implies #[trigger] new.value(c) == (if c == cell { v } else { old.value(c) })
                        && new.cands(c) == (if c == cell {
                        Set::<u8>::empty()
                    } else if sees(cell, c) {
                        old.cands(c).remove(v)
                    } else {
                        old.cands(c)
                    }) && new.given(c) == (if c == cell { false } else { old.given(c) }) by {
                        assert(new.value_seq()[c] == new.value(c));
                        assert(old.value_seq()[c] == old.value(c));
                        assert(new.cand_seq()[c] == new.cands(c));
                        assert(old.cand_seq()[c] == old.cands(c));
                        assert(new.given_seq()[c] == new.given(c));
                        assert(old.given_seq()[c] == old.given(c));
                    }
                    assert forall|c: int, b: int|
                        0 <= c < 81 && new.value(c) == 0 && sees(c, b) && new.value(b) != 0 implies !#[trigger] new.cands(c).contains(
                        #[trigger] new.value(b),
                    ) by {
                        assert(new.value(c) == (if c == cell { v } else { old.value(c) }));
                        assert(new.value(b) == (if b == cell { v } else { old.value(b) }));
                        if b != cell {
                            assert(!old.cands(c).contains(old.value(b)));
                        }
                    }
                    assert forall|c: int, b: int|
                        0 <= c < 81 && #[trigger] new.value(c) != 0 && sees(c, b) implies #[trigger] new.value(b) != new.value(c)
                        && !new.cands(b).contains(new.value(c)) by {
                        assert(new.value(b) == (if b == cell { v } else { old.value(b) }));
                        if c == cell {
                            assert(old.value_seq()[b] != v);
                        } else if b == cell {
                            assert(!old.cands(cell).contains(old.value(c)));
                        } else {
                            assert(old.value(b) != old.value(c) && !old.cands(b).contains(old.value(c)));
                        }
                    }
                    assert forall|c: int| 0 <= c < 81 && #[trigger] new.given(c) implies new.value(c) != 0 by {
                        assert(new.value(c) == (if c == cell { v } else { old.value(c) }));
                        assert(new.given(c) == (if c == cell { false } else { old.given(c) }));
                    }
                }
            },
            None => {
                if !(self is Nothing) {
                    let rm = self.removals();
                    assert forall|c: int| 0 <= c < 81 implies #[trigger] new.value(c) == old.value(c) && new.cands(c).subset_of(
                        old.cands(c),
                    ) && new.given(c) == old.given(c) by {
                        assert(new.value_seq()[c] == new.value(c));
                        assert(old.value_seq()[c] == old.value(c));
                        assert(new.cand_seq()[c] == new.cands(c));
                        assert(old.cand_seq()[c] == old.cands(c));
                        assert(new.given_seq()[c] == new.given(c));
                        assert(old.given_seq()[c] == old.given(c));
                    }
                } else {
                    assert forall|c: int| 0 <= c < 81 implies #[trigger] new.value(c) == old.value(c) && new.cands(c) == old.cands(c)
                        && new.given(c) == old.given(c) by {
                        assert(new.value_seq()[c] == new.value(c));
                        assert(old.value_seq()[c] == old.value(c));
                        assert(new.cand_seq()[c] == new.cands(c));
                        assert(old.cand_seq()[c] == old.cands(c));
                        assert(new.given_seq()[c] == new.given(c));
                        assert(old.given_seq()[c] == old.given(c));
                    }
                }
            },
        }
    }
}

impl Step {
    /// No rating exceeds a thousand.
    pub proof fn lemma_rating_bound(self)
        ensures
            self.rating() <= 1000,
    {
    }
}

/// `b` keeps every digit of `a`.
pub open spec fn extends(a: Grid, b: Grid) -> bool {
    forall|c: int| 0 <= c < 81 && #[trigger] a.value(c) != 0 ==> b.value(c) == a.value(c)
}

/// Writing one of a cell's candidates into it keeps candidates agreeing with values and
/// given cells filled, keeps every digit already written, and lowers the number of
/// candidates.
pub proof fn lemma_place(old: Grid, new: Grid, p: Candidate)
    requires
        old.wf(),
        new.wf(),
        old.state_valid(),
        givens_filled(old),
        old.has_cand(p.0 as int, p.1),
        placeable(old, p),
        placed(old, new, p),
    ensures
        new.state_valid(),
        givens_filled(new),
        extends(old, new),
        cand_total(new.cand_seq(), 81) < cand_total(old.cand_seq(), 81),
{
    old.lemma_wf();
    new.lemma_wf();
    let cell = p.0 as int;
    let v = p.1;
    assert forall|c: int| 0 <= c < 81 implies #[trigger] new.value(c) == (if c == cell { v } else { old.value(c) })
        && new.cands(c) == (if c == cell {
        Set::<u8>::empty()
    } else if sees(cell, c) {
        old.cands(c).remove(v)
    } else {
        old.cands(c)
    }) && new.given(c) == (if c == cell { false } else { old.given(c) }) by {
        assert(new.value_seq()[c] == new.value(c));
        assert(old.value_seq()[c] == old.value(c));
        assert(new.cand_seq()[c] == new.cands(c));
        assert(old.cand_seq()[c] == old.cands(c));
        assert(new.given_seq()[c] == new.given(c));
        assert(old.given_seq()[c] == old.given(c));
    }
    assert forall|c: int, b: int|
        0 <= c < 81 && new.value(c) == 0 && sees(c, b) && new.value(b) != 0 implies !#[trigger] new.cands(c).contains(
        #[trigger] new.value(b),
    ) by {
        assert(new.value(c) == (if c == cell { v } else { old.value(c) }));
        assert(new.value(b) == (if b == cell { v } else { old.value(b) }));
        if b != cell {
            assert(!old.cands(c).contains(old.value(b)));
        }
    }
    assert forall|c: int, b: int|
        0 <= c < 81 && #[trigger] new.value(c) != 0 && sees(c, b) implies #[trigger] new.value(b) != new.value(c)
        && !new.cands(b).contains(new.value(c)) by {
        assert(new.value(b) == (if b == cell { v } else { old.value(b) }));
        if c == cell {
            assert(old.value_seq()[b] != v);
        } else if b == cell {
            assert(!old.cands(cell).contains(old.value(c)));
        } else {
            assert(old.value(b) != old.value(c) && !old.cands(b).contains(old.value(c)));
        }
    }
    assert forall|c: int| 0 <= c < 81 && #[trigger] new.given(c) implies new.value(c) != 0 by {
        assert(new.value(c) == (if c == cell { v } else { old.value(c) }));
    }
    assert forall|c: int| 0 <= c < 81 && #[trigger] old.value(c) != 0 implies new.value(c) == old.value(c) by {
        assert(new.value(c) == (if c == cell { v } else { old.value(c) }));
    }
    let a = old.cand_seq();
    let b = new.cand_seq();
    assert forall|c: int| 0 <= c < 81 implies (#[trigger] b[c]).subset_of(a[c]) && a[c].finite() by {
        old.lemma_cands_finite(c);
    }
    lemma_lost_one(a[cell], b[cell], v);
    lemma_total_shrinks(a, b, 81, cell);
}

} // verus!
