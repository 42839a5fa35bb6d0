use vstd::prelude::*;
use crate::grid::Grid;
use crate::solution::{SolutionPath, hardest_of};
use crate::solver::common::{grows, progressed};
use crate::solver::step::{Step, givens_filled, cand_total, score_of, state_of, run_steps};
use crate::solver::step_accumulator::{StepAccumulator, SingleStepAccumulator};
use crate::solver::full_house::FullHouseFinder;
use crate::solver::naked_single::NakedSingleFinder;
use crate::solver::hidden_single::HiddenSingleFinder;
use crate::solver::naked_set::NakedSetFinder;
use crate::solver::hidden_set::HiddenSetFinder;
use crate::solver::locked_candidate::{LockedCandidateFinder, LockedCandidateType};
use crate::solver::wings::WingsFinder;
use crate::solver::als::AlsXzFinder;
use crate::solver::als::AlsXYWingFinder;
use crate::solver::als::AlsChainFinder;
use crate::solver::als::DeathBlossomFinder;
use crate::solver::coloring::ColoringFinder;
use crate::solver::expert::TemplateFinder;
use crate::util::clock::past;
use crate::solver::expert::{SearchLimits, find_expert_hint};
use web_time::Instant;
use crate::solver::unique_3::Unique3Finder;
use crate::solver::unique_6::Unique6Finder;
use crate::solver::unique_4::Unique4Finder;
use crate::solver::unique_1::Unique1Finder;
use crate::solver::unique::MissingCandidatesUniquenessFinder;
use crate::solver::unique::UniquenessFinder;
use crate::solver::complex_fish::ComplexFishFinder;
use crate::solver::fish::{FishFinder, FishType, FishSize, FishVariant};
use crate::solver::full_house::{full_house_in, first_full_house};
use crate::solver::naked_single::naked_single_at;
use crate::solver::hidden_single::hidden_single_in;
use crate::solver::skyscraper::SkyscraperFinder;
use crate::solver::xywing::XYWingFinder;
use crate::solver::xyzwing::XYZWingFinder;
use crate::solver::wwing::WWingFinder;

pub mod step;
pub mod presentation;
pub mod expert;
pub mod coloring;
pub mod als;
pub mod soundness;
pub mod step_accumulator;
pub mod common;
pub mod full_house;
pub mod naked_single;
pub mod hidden_single;
pub mod locked_candidate;
pub mod naked_set;
pub mod hidden_set;
pub mod brute_force;
pub mod wings;
pub mod xywing;
pub mod xyzwing;
pub mod wwing;
pub mod skyscraper;
pub mod fish;
pub mod complex_fish;
pub mod unique;
pub mod unique_1;
pub mod unique_3;
pub mod unique_4;
pub mod unique_6;

verus! {

/// A solving technique.
pub trait SolverStrategy {
    /// Reports the steps of this technique found in `grid`; each satisfies its own
    /// justification.
    fn find_step<A: StepAccumulator>(&self, grid: &Grid, acc: &mut A)
        requires
            grid.wf(),
        ensures
            grows(old(acc).recorded(), final(acc).recorded(), |s: Step| s.pattern(*grid) && !(s is Nothing)),
            final(acc).stops_at_first() == old(acc).stops_at_first(),
    ;

    /// The technique's name.
    fn name(&self) -> &str;
}

/// A full-house step names the first house through which its cell gets its digit.
pub open spec fn first_house_shown(g: Grid, s: Step) -> bool {
    s matches Step::FullHouse(f) ==> first_full_house(g, f.house as int, f.cell as int, f.value)
}

/// Weakens what recorded steps are known to satisfy.
pub proof fn lemma_grows_weaken(start: Seq<Step>, now: Seq<Step>, a: spec_fn(Step) -> bool, b: spec_fn(Step) -> bool)
    requires
        grows(start, now, a),
        forall|s: Step| #[trigger] a(s) ==> b(s),
    ensures
        grows(start, now, b),
{
    assert forall|i: int| start.len() <= i < now.len() implies b(#[trigger] now[i]) by {
        assert(a(now[i]));
    }
}

impl SolverStrategy for FullHouseFinder {
    fn find_step<A: StepAccumulator>(&self, grid: &Grid, acc: &mut A)
        ensures
            grows(old(acc).recorded(), final(acc).recorded(), |s: Step| s.pattern(*grid) && s is FullHouse),
            forall|i: int| old(acc).recorded().len() <= i < final(acc).recorded().len() ==> first_house_shown(*grid, #[trigger] final(acc).recorded()[i]),
            (exists|h: int| 0 <= h < 27 && #[trigger] full_house_in(*grid, h)) ==> progressed(
                old(acc).recorded(),
                final(acc).recorded(),
                old(acc).stops_at_first(),
            ),
    {
        FullHouseFinder::find_step(self, grid, acc);
        assert forall|i: int| old(acc).recorded().len() <= i < acc.recorded().len() implies (|s: Step| s.pattern(*grid) && !(s is Nothing))(
            #[trigger] acc.recorded()[i],
        ) by {
            assert(acc.recorded()[i] is FullHouse);
        }
        assert forall|i: int| old(acc).recorded().len() <= i < acc.recorded().len() implies (|s: Step| s.pattern(*grid) && s is FullHouse)(
            #[trigger] acc.recorded()[i],
        ) by {
            assert(acc.recorded()[i] is FullHouse);
        }
    }

    fn name(&self) -> (r: &str)
        ensures
            r@ == "Full House"@,
    {
        "Full House"
    }
}

impl SolverStrategy for NakedSingleFinder {
    fn find_step<A: StepAccumulator>(&self, grid: &Grid, acc: &mut A)
        ensures
            grows(old(acc).recorded(), final(acc).recorded(), |s: Step| s.pattern(*grid) && s is NakedSingle),
            (exists|c: int| #[trigger] naked_single_at(*grid, c)) ==> progressed(
                old(acc).recorded(),
                final(acc).recorded(),
                old(acc).stops_at_first(),
            ),
    {
        NakedSingleFinder::find_step(self, grid, acc);
        assert forall|i: int| old(acc).recorded().len() <= i < acc.recorded().len() implies (|s: Step| s.pattern(*grid) && !(s is Nothing))(
            #[trigger] acc.recorded()[i],
        ) by {
            assert(acc.recorded()[i] is NakedSingle);
        }
        assert forall|i: int| old(acc).recorded().len() <= i < acc.recorded().len() implies (|s: Step| s.pattern(*grid) && s is NakedSingle)(
            #[trigger] acc.recorded()[i],
        ) by {
            assert(acc.recorded()[i] is NakedSingle);
        }
    }

    fn name(&self) -> (r: &str)
        ensures
            r@ == "NakedSingleFinder"@,
    {
        "NakedSingleFinder"
    }
}

impl SolverStrategy for HiddenSingleFinder {
    fn find_step<A: StepAccumulator>(&self, grid: &Grid, acc: &mut A)
        ensures
            grows(old(acc).recorded(), final(acc).recorded(), |s: Step| s.pattern(*grid) && s is HiddenSingle),
            (exists|h: int, v: u8, c: int| #[trigger] hidden_single_in(*grid, h, v, c)) ==> progressed(
                old(acc).recorded(),
                final(acc).recorded(),
                old(acc).stops_at_first(),
            ),
    {
        HiddenSingleFinder::find_step(self, grid, acc);
        assert forall|i: int| old(acc).recorded().len() <= i < acc.recorded().len() implies (|s: Step| s.pattern(*grid) && !(s is Nothing))(
            #[trigger] acc.recorded()[i],
        ) by {
            assert(acc.recorded()[i] is HiddenSingle);
        }
        assert forall|i: int| old(acc).recorded().len() <= i < acc.recorded().len() implies (|s: Step| s.pattern(*grid) && s is HiddenSingle)(
            #[trigger] acc.recorded()[i],
        ) by {
            assert(acc.recorded()[i] is HiddenSingle);
        }
    }

    fn name(&self) -> (r: &str)
        ensures
            r@ == "HiddenSingleFinder"@,
    {
        "HiddenSingleFinder"
    }
}

impl SolverStrategy for NakedSetFinder {
    fn find_step<A: StepAccumulator>(&self, grid: &Grid, acc: &mut A)
        ensures
            grows(old(acc).recorded(), final(acc).recorded(), |s: Step| s.pattern(*grid) && s is NakedSet),
            self.finds_in(*grid) ==> progressed(old(acc).recorded(), final(acc).recorded(), old(acc).stops_at_first()),
    {
        NakedSetFinder::find_step(self, grid, acc);
        proof {
            lemma_grows_weaken(old(acc).recorded(), acc.recorded(), |s: Step| self.reports(*grid, s), |s: Step| s.pattern(*grid) && !(s is Nothing));
        }
        proof {
            lemma_grows_weaken(old(acc).recorded(), acc.recorded(), |s: Step| self.reports(*grid, s), |s: Step| s.pattern(*grid) && s is NakedSet);
        }
    }

    fn name(&self) -> (r: &str)
        ensures
            r@ == "NakedSetFinder"@,
    {
        "NakedSetFinder"
    }
}

impl SolverStrategy for HiddenSetFinder {
    fn find_step<A: StepAccumulator>(&self, grid: &Grid, acc: &mut A)
        ensures
            grows(old(acc).recorded(), final(acc).recorded(), |s: Step| s.pattern(*grid) && s is HiddenSet),
            self.finds_in(*grid) ==> progressed(old(acc).recorded(), final(acc).recorded(), old(acc).stops_at_first()),
    {
        HiddenSetFinder::find_step(self, grid, acc);
        proof {
            lemma_grows_weaken(old(acc).recorded(), acc.recorded(), |s: Step| self.reports(*grid, s), |s: Step| s.pattern(*grid) && !(s is Nothing));
        }
        proof {
            lemma_grows_weaken(old(acc).recorded(), acc.recorded(), |s: Step| self.reports(*grid, s), |s: Step| s.pattern(*grid) && s is HiddenSet);
        }
    }

    fn name(&self) -> (r: &str)
        ensures
            r@ == "HiddenSetFinder"@,
    {
        "HiddenSetFinder"
    }
}

impl SolverStrategy for LockedCandidateFinder {
    fn find_step<A: StepAccumulator>(&self, grid: &Grid, acc: &mut A)
        ensures
            grows(old(acc).recorded(), final(acc).recorded(), |s: Step| s.pattern(*grid) && s is LockedCandidate),
            self.finds_in(*grid) ==> progressed(old(acc).recorded(), final(acc).recorded(), old(acc).stops_at_first()),
    {
        LockedCandidateFinder::find_step(self, grid, acc);
        proof {
            lemma_grows_weaken(old(acc).recorded(), acc.recorded(), |s: Step| self.reports(*grid, s), |s: Step| s.pattern(*grid) && !(s is Nothing));
        }
        proof {
            lemma_grows_weaken(old(acc).recorded(), acc.recorded(), |s: Step| self.reports(*grid, s), |s: Step| s.pattern(*grid) && s is LockedCandidate);
        }
    }

    fn name(&self) -> (r: &str)
        ensures
            r@ == "LockedCandidateFinder"@,
    {
        "LockedCandidateFinder"
    }
}

impl SolverStrategy for WingsFinder {
    fn find_step<A: StepAccumulator>(&self, grid: &Grid, acc: &mut A)
        ensures
            grows(old(acc).recorded(), final(acc).recorded(), |s: Step| s.pattern(*grid) && (s is XYWing || s is XYZWing || s is WWing)),
            self.finds_in(*grid) ==> progressed(old(acc).recorded(), final(acc).recorded(), old(acc).stops_at_first()),
    {
        WingsFinder::find_step(self, grid, acc);
        proof {
            lemma_grows_weaken(old(acc).recorded(), acc.recorded(), |s: Step| s.pattern(*grid) && (s is XYWing || s is XYZWing || s is WWing), |s: Step| s.pattern(*grid) && !(s is Nothing));
        }
        proof {
            lemma_grows_weaken(old(acc).recorded(), acc.recorded(), |s: Step| s.pattern(*grid) && (s is XYWing || s is XYZWing || s is WWing), |s: Step| s.pattern(*grid) && (s is XYWing || s is XYZWing || s is WWing));
        }
    }

    fn name(&self) -> (r: &str)
        ensures
            r@ == "WingsFinder"@,
    {
        "WingsFinder"
    }
}

impl SolverStrategy for XYWingFinder {
    fn find_step<A: StepAccumulator>(&self, grid: &Grid, acc: &mut A)
        ensures
            self.finds_in(*grid) ==> progressed(old(acc).recorded(), final(acc).recorded(), old(acc).stops_at_first()),
    {
        XYWingFinder::find_hint(self, grid, acc);
        proof {
            lemma_grows_weaken(old(acc).recorded(), acc.recorded(), |s: Step| s.pattern(*grid) && s is XYWing, |s: Step| s.pattern(*grid) && !(s is Nothing));
        }
    }

    fn name(&self) -> (r: &str)
        ensures
            r@ == "XYWingFinder"@,
    {
        "XYWingFinder"
    }
}

impl SolverStrategy for XYZWingFinder {
    fn find_step<A: StepAccumulator>(&self, grid: &Grid, acc: &mut A)
        ensures
            self.finds_in(*grid) ==> progressed(old(acc).recorded(), final(acc).recorded(), old(acc).stops_at_first()),
    {
        XYZWingFinder::find_hint(self, grid, acc);
        proof {
            lemma_grows_weaken(old(acc).recorded(), acc.recorded(), |s: Step| s.pattern(*grid) && s is XYZWing, |s: Step| s.pattern(*grid) && !(s is Nothing));
        }
    }

    fn name(&self) -> (r: &str)
        ensures
            r@ == "XYZWingFinder"@,
    {
        "XYZWingFinder"
    }
}

impl SolverStrategy for WWingFinder {
    fn find_step<A: StepAccumulator>(&self, grid: &Grid, acc: &mut A)
        ensures
            self.finds_in(*grid) ==> progressed(old(acc).recorded(), final(acc).recorded(), old(acc).stops_at_first()),
    {
        WWingFinder::find_hint(self, grid, acc);
        proof {
            lemma_grows_weaken(old(acc).recorded(), acc.recorded(), |s: Step| s.pattern(*grid) && s is WWing, |s: Step| s.pattern(*grid) && !(s is Nothing));
        }
    }

    fn name(&self) -> (r: &str)
        ensures
            r@ == "WWingFinder"@,
    {
        "WWingFinder"
    }
}

impl SolverStrategy for SkyscraperFinder {
    fn find_step<A: StepAccumulator>(&self, grid: &Grid, acc: &mut A)
        ensures
            grows(old(acc).recorded(), final(acc).recorded(), |s: Step| s.pattern(*grid) && s is Skyscraper),
            self.finds_in(*grid) ==> progressed(old(acc).recorded(), final(acc).recorded(), old(acc).stops_at_first()),
    {
        SkyscraperFinder::find_step(self, grid, acc);
        proof {
            lemma_grows_weaken(old(acc).recorded(), acc.recorded(), |s: Step| s.pattern(*grid) && s is Skyscraper, |s: Step| s.pattern(*grid) && !(s is Nothing));
        }
        proof {
            lemma_grows_weaken(old(acc).recorded(), acc.recorded(), |s: Step| s.pattern(*grid) && s is Skyscraper, |s: Step| s.pattern(*grid) && s is Skyscraper);
        }
    }

    fn name(&self) -> (r: &str)
        ensures
            r@ == "SkyscraperFinder"@,
    {
        "SkyscraperFinder"
    }
}

impl SolverStrategy for FishFinder {
    fn find_step<A: StepAccumulator>(&self, grid: &Grid, acc: &mut A)
        ensures
            grows(old(acc).recorded(), final(acc).recorded(), |s: Step| s.pattern(*grid) && s is Fish),
            self.finds_in(*grid) ==> progressed(old(acc).recorded(), final(acc).recorded(), old(acc).stops_at_first()),
    {
        FishFinder::find_step(self, grid, acc);
        proof {
            lemma_grows_weaken(old(acc).recorded(), acc.recorded(), |s: Step| self.reports(*grid, s), |s: Step| s.pattern(*grid) && !(s is Nothing));
        }
        proof {
            lemma_grows_weaken(old(acc).recorded(), acc.recorded(), |s: Step| self.reports(*grid, s), |s: Step| s.pattern(*grid) && s is Fish);
        }
    }

    fn name(&self) -> (r: &str)
        ensures
            r@ == "FishFinder"@,
    {
        "FishFinder"
    }
}

impl SolverStrategy for ComplexFishFinder {
    fn find_step<A: StepAccumulator>(&self, grid: &Grid, acc: &mut A)
        ensures
            grows(old(acc).recorded(), final(acc).recorded(), |s: Step| s.pattern(*grid) && s is ComplexFish),
            self.finds_in(*grid) ==> progressed(old(acc).recorded(), final(acc).recorded(), old(acc).stops_at_first()),
    {
        ComplexFishFinder::find_step(self, grid, acc);
        proof {
            lemma_grows_weaken(old(acc).recorded(), acc.recorded(), |s: Step| s.pattern(*grid) && s is ComplexFish, |s: Step| s.pattern(*grid) && !(s is Nothing));
        }
        proof {
            lemma_grows_weaken(old(acc).recorded(), acc.recorded(), |s: Step| s.pattern(*grid) && s is ComplexFish, |s: Step| s.pattern(*grid) && s is ComplexFish);
        }
    }

    fn name(&self) -> (r: &str)
        ensures
            r@ == "ComplexFishFinder"@,
    {
        "ComplexFishFinder"
    }
}

impl SolverStrategy for UniquenessFinder {
    fn find_step<A: StepAccumulator>(&self, grid: &Grid, acc: &mut A)
        ensures
            grows(old(acc).recorded(), final(acc).recorded(), |s: Step| s.pattern(*grid) && s is UniqueStep),
            self.finds_in(*grid) ==> progressed(old(acc).recorded(), final(acc).recorded(), old(acc).stops_at_first()),
    {
        UniquenessFinder::find_step(self, grid, acc);
        proof {
            lemma_grows_weaken(old(acc).recorded(), acc.recorded(), |s: Step| s.pattern(*grid) && s is UniqueStep, |s: Step| s.pattern(*grid) && !(s is Nothing));
        }
        proof {
            lemma_grows_weaken(old(acc).recorded(), acc.recorded(), |s: Step| s.pattern(*grid) && s is UniqueStep, |s: Step| s.pattern(*grid) && s is UniqueStep);
        }
    }

    fn name(&self) -> (r: &str)
        ensures
            r@ == "UniquenessFinder"@,
    {
        "UniquenessFinder"
    }
}

impl SolverStrategy for MissingCandidatesUniquenessFinder {
    fn find_step<A: StepAccumulator>(&self, grid: &Grid, acc: &mut A)
        ensures
            grows(old(acc).recorded(), final(acc).recorded(), |s: Step| s.pattern(*grid) && s is UniqueStep),
            self.finds_in(*grid) ==> progressed(old(acc).recorded(), final(acc).recorded(), old(acc).stops_at_first()),
    {
        MissingCandidatesUniquenessFinder::find_step(self, grid, acc);
        proof {
            lemma_grows_weaken(old(acc).recorded(), acc.recorded(), |s: Step| s.pattern(*grid) && s is UniqueStep, |s: Step| s.pattern(*grid) && !(s is Nothing));
        }
        proof {
            lemma_grows_weaken(old(acc).recorded(), acc.recorded(), |s: Step| s.pattern(*grid) && s is UniqueStep, |s: Step| s.pattern(*grid) && s is UniqueStep);
        }
    }

    fn name(&self) -> (r: &str)
        ensures
            r@ == "MissingCandidatesUniquenessFinder"@,
    {
        "MissingCandidatesUniquenessFinder"
    }
}

impl SolverStrategy for Unique1Finder {
    fn find_step<A: StepAccumulator>(&self, grid: &Grid, acc: &mut A)
        ensures
            self.finds_in(*grid) ==> progressed(old(acc).recorded(), final(acc).recorded(), old(acc).stops_at_first()),
    {
        Unique1Finder::find_unique_type1(self, grid, acc);
        proof {
            lemma_grows_weaken(old(acc).recorded(), acc.recorded(), |s: Step| s.pattern(*grid) && s is UniqueStep, |s: Step| s.pattern(*grid) && !(s is Nothing));
        }
    }

    fn name(&self) -> (r: &str)
        ensures
            r@ == "UniqueType1Finder"@,
    {
        "UniqueType1Finder"
    }
}

impl SolverStrategy for Unique4Finder {
    fn find_step<A: StepAccumulator>(&self, grid: &Grid, acc: &mut A)
        ensures
            self.finds_in(*grid) ==> progressed(old(acc).recorded(), final(acc).recorded(), old(acc).stops_at_first()),
    {
        Unique4Finder::find_unique_type4(self, grid, acc);
        proof {
            lemma_grows_weaken(old(acc).recorded(), acc.recorded(), |s: Step| s.pattern(*grid) && s is UniqueStep, |s: Step| s.pattern(*grid) && !(s is Nothing));
        }
    }

    fn name(&self) -> (r: &str)
        ensures
            r@ == "UniqueType4Finder"@,
    {
        "UniqueType4Finder"
    }
}

impl SolverStrategy for Unique6Finder {
    fn find_step<A: StepAccumulator>(&self, grid: &Grid, acc: &mut A)
        ensures
            self.finds_in(*grid) ==> progressed(old(acc).recorded(), final(acc).recorded(), old(acc).stops_at_first()),
    {
        Unique6Finder::find_unique_type6(self, grid, acc);
        proof {
            lemma_grows_weaken(old(acc).recorded(), acc.recorded(), |s: Step| s.pattern(*grid) && s is UniqueStep, |s: Step| s.pattern(*grid) && !(s is Nothing));
        }
    }

    fn name(&self) -> (r: &str)
        ensures
            r@ == "UniqueType6Finder"@,
    {
        "UniqueType6Finder"
    }
}

impl SolverStrategy for Unique3Finder {
    fn find_step<A: StepAccumulator>(&self, grid: &Grid, acc: &mut A)
        ensures
            self.finds_in(*grid) ==> progressed(old(acc).recorded(), final(acc).recorded(), old(acc).stops_at_first()),
    {
        Unique3Finder::find_unique_type3(self, grid, acc);
        proof {
            lemma_grows_weaken(old(acc).recorded(), acc.recorded(), |s: Step| s.pattern(*grid) && s is UniqueStep, |s: Step| s.pattern(*grid) && !(s is Nothing));
        }
    }

    fn name(&self) -> (r: &str)
        ensures
            r@ == "UniqueType3Finder"@,
    {
        "UniqueType3Finder"
    }
}

impl SolverStrategy for TemplateFinder {
    fn find_step<A: StepAccumulator>(&self, grid: &Grid, acc: &mut A) {
        TemplateFinder::find_step(self, grid, acc);
        proof {
            lemma_grows_weaken(old(acc).recorded(), acc.recorded(), |s: Step| s.pattern(*grid) && s is Expert, |s: Step| s.pattern(*grid) && !(s is Nothing));
        }
    }

    fn name(&self) -> (r: &str)
        ensures
            r@ == "TemplateFinder"@,
    {
        "TemplateFinder"
    }
}

impl SolverStrategy for ColoringFinder {
    fn find_step<A: StepAccumulator>(&self, grid: &Grid, acc: &mut A)
        ensures
            grows(old(acc).recorded(), final(acc).recorded(), |s: Step| s.pattern(*grid) && s is Coloring),
    {
        ColoringFinder::find_step(self, grid, acc);
        proof {
            lemma_grows_weaken(old(acc).recorded(), acc.recorded(), |s: Step| s.pattern(*grid) && s is Coloring, |s: Step| s.pattern(*grid) && !(s is Nothing));
        }
        proof {
            lemma_grows_weaken(old(acc).recorded(), acc.recorded(), |s: Step| s.pattern(*grid) && s is Coloring, |s: Step| s.pattern(*grid) && s is Coloring);
        }
    }

    fn name(&self) -> (r: &str)
        ensures
            r@ == "ColoringFinder"@,
    {
        "ColoringFinder"
    }
}

impl SolverStrategy for DeathBlossomFinder {
    fn find_step<A: StepAccumulator>(&self, grid: &Grid, acc: &mut A)
        ensures
            grows(old(acc).recorded(), final(acc).recorded(), |s: Step| s.pattern(*grid) && s is Als),
            self.finds_in(*grid) ==> progressed(old(acc).recorded(), final(acc).recorded(), old(acc).stops_at_first()),
    {
        DeathBlossomFinder::find_step(self, grid, acc);
        proof {
            lemma_grows_weaken(old(acc).recorded(), acc.recorded(), |s: Step| s.pattern(*grid) && s is Als, |s: Step| s.pattern(*grid) && !(s is Nothing));
        }
        proof {
            lemma_grows_weaken(old(acc).recorded(), acc.recorded(), |s: Step| s.pattern(*grid) && s is Als, |s: Step| s.pattern(*grid) && s is Als);
        }
    }

    fn name(&self) -> (r: &str)
        ensures
            r@ == "DeathBlossomFinder"@,
    {
        "DeathBlossomFinder"
    }
}

impl SolverStrategy for AlsChainFinder {
    fn find_step<A: StepAccumulator>(&self, grid: &Grid, acc: &mut A)
        ensures
            grows(old(acc).recorded(), final(acc).recorded(), |s: Step| s.pattern(*grid) && s is Als),
            self.finds_in(*grid) ==> progressed(old(acc).recorded(), final(acc).recorded(), old(acc).stops_at_first()),
    {
        AlsChainFinder::find_step(self, grid, acc);
        proof {
            lemma_grows_weaken(old(acc).recorded(), acc.recorded(), |s: Step| s.pattern(*grid) && s is Als, |s: Step| s.pattern(*grid) && !(s is Nothing));
        }
        proof {
            lemma_grows_weaken(old(acc).recorded(), acc.recorded(), |s: Step| s.pattern(*grid) && s is Als, |s: Step| s.pattern(*grid) && s is Als);
        }
    }

    fn name(&self) -> (r: &str)
        ensures
            r@ == "AlsChainFinder"@,
    {
        "AlsChainFinder"
    }
}

impl SolverStrategy for AlsXYWingFinder {
    fn find_step<A: StepAccumulator>(&self, grid: &Grid, acc: &mut A)
        ensures
            grows(old(acc).recorded(), final(acc).recorded(), |s: Step| s.pattern(*grid) && s is Als),
            self.finds_in(*grid) ==> progressed(old(acc).recorded(), final(acc).recorded(), old(acc).stops_at_first()),
    {
        AlsXYWingFinder::find_step(self, grid, acc);
        proof {
            lemma_grows_weaken(old(acc).recorded(), acc.recorded(), |s: Step| s.pattern(*grid) && s is Als, |s: Step| s.pattern(*grid) && !(s is Nothing));
        }
        proof {
            lemma_grows_weaken(old(acc).recorded(), acc.recorded(), |s: Step| s.pattern(*grid) && s is Als, |s: Step| s.pattern(*grid) && s is Als);
        }
    }

    fn name(&self) -> (r: &str)
        ensures
            r@ == "AlsXYWingFinder"@,
    {
        "AlsXYWingFinder"
    }
}

impl SolverStrategy for AlsXzFinder {
    fn find_step<A: StepAccumulator>(&self, grid: &Grid, acc: &mut A)
        ensures
            grows(old(acc).recorded(), final(acc).recorded(), |s: Step| s.pattern(*grid) && s is Als),
            self.finds_in(*grid) ==> progressed(old(acc).recorded(), final(acc).recorded(), old(acc).stops_at_first()),
    {
        AlsXzFinder::find_step(self, grid, acc);
        proof {
            lemma_grows_weaken(old(acc).recorded(), acc.recorded(), |s: Step| s.pattern(*grid) && s is Als, |s: Step| s.pattern(*grid) && !(s is Nothing));
        }
        proof {
            lemma_grows_weaken(old(acc).recorded(), acc.recorded(), |s: Step| s.pattern(*grid) && s is Als, |s: Step| s.pattern(*grid) && s is Als);
        }
    }

    fn name(&self) -> (r: &str)
        ensures
            r@ == "AlsXzFinder"@,
    {
        "AlsXzFinder"
    }
}

/// The techniques the solver tries, in order.
pub enum Strategy {
    FullHouse(FullHouseFinder),
    NakedSingle(NakedSingleFinder),
    HiddenSingle(HiddenSingleFinder),
    NakedSet(NakedSetFinder),
    HiddenSet(HiddenSetFinder),
    LockedCandidate(LockedCandidateFinder),
    Wings(WingsFinder),
    AlsXz(AlsXzFinder),
    AlsXYWing(AlsXYWingFinder),
    AlsChain(AlsChainFinder),
    DeathBlossom(DeathBlossomFinder),
    Coloring(ColoringFinder),
    MissingUniqueness(MissingCandidatesUniquenessFinder),
    Uniqueness(UniquenessFinder),
    ComplexFish(ComplexFishFinder),
    Skyscraper(SkyscraperFinder),
    Fish(FishFinder),
}

impl Strategy {
    /// The kind of step this technique reports.
    pub open spec fn produces(self, s: Step) -> bool {
        match self {
            Strategy::FullHouse(_) => s is FullHouse,
            Strategy::NakedSingle(_) => s is NakedSingle,
            Strategy::HiddenSingle(_) => s is HiddenSingle,
            Strategy::NakedSet(_) => s is NakedSet,
            Strategy::HiddenSet(_) => s is HiddenSet,
            Strategy::LockedCandidate(_) => s is LockedCandidate,
            Strategy::Wings(_) => s is XYWing || s is XYZWing || s is WWing,
            Strategy::AlsXz(_) => s is Als,
            Strategy::AlsXYWing(_) => s is Als,
            Strategy::AlsChain(_) => s is Als,
            Strategy::DeathBlossom(_) => s is Als,
            Strategy::Coloring(_) => s is Coloring,
            Strategy::MissingUniqueness(_) => s is UniqueStep,
            Strategy::Uniqueness(_) => s is UniqueStep,
            Strategy::ComplexFish(_) => s is ComplexFish,
            Strategy::Skyscraper(_) => s is Skyscraper,
            Strategy::Fish(_) => s is Fish,
        }
    }

    /// The grid has a step of this technique that its finder is known to report: a full
    /// house, a naked single, a hidden single, a naked or hidden set that hides no smaller
    /// one, a locked candidate, or a unique rectangle of type 1, 3, 4 or 6 (also on
    /// rectangles that lost candidates), a basic or finned fish, a skyscraper, an XY-Wing, an
    /// XYZ-Wing, a W-Wing, a complex fish, an ALS-XZ, an ALS-XY-Wing, an ALS chain of three
    /// to eight sets or a death blossom that removes something, as their finders look for
    /// them.
    pub open spec fn finds(self, g: Grid) -> bool {
        match self {
            Strategy::FullHouse(_) => exists|h: int| 0 <= h < 27 && #[trigger] full_house_in(g, h),
            Strategy::NakedSingle(_) => exists|c: int| #[trigger] naked_single_at(g, c),
            Strategy::HiddenSingle(_) => exists|h: int, v: u8, c: int| #[trigger] hidden_single_in(g, h, v, c),
            Strategy::NakedSet(f) => f.finds_in(g),
            Strategy::HiddenSet(f) => f.finds_in(g),
            Strategy::LockedCandidate(f) => f.finds_in(g),
            Strategy::Skyscraper(f) => f.finds_in(g),
            Strategy::Wings(f) => f.finds_in(g),
            Strategy::Fish(f) => f.finds_in(g),
            Strategy::Uniqueness(f) => f.finds_in(g),
            Strategy::ComplexFish(f) => f.finds_in(g),
            Strategy::MissingUniqueness(f) => f.finds_in(g),
            Strategy::DeathBlossom(f) => f.finds_in(g),
            Strategy::AlsXz(f) => f.finds_in(g),
            Strategy::AlsXYWing(f) => f.finds_in(g),
            Strategy::AlsChain(f) => f.finds_in(g),
            _ => false,
        }
    }

    /// The technique's name.
    pub open spec fn title(self) -> Seq<char> {
        match self {
            Strategy::FullHouse(_) => "Full House"@,
            Strategy::NakedSingle(_) => "NakedSingleFinder"@,
            Strategy::HiddenSingle(_) => "HiddenSingleFinder"@,
            Strategy::NakedSet(_) => "NakedSetFinder"@,
            Strategy::HiddenSet(_) => "HiddenSetFinder"@,
            Strategy::LockedCandidate(_) => "LockedCandidateFinder"@,
            Strategy::Wings(_) => "WingsFinder"@,
            Strategy::AlsXz(_) => "AlsXzFinder"@,
            Strategy::AlsXYWing(_) => "AlsXYWingFinder"@,
            Strategy::AlsChain(_) => "AlsChainFinder"@,
            Strategy::DeathBlossom(_) => "DeathBlossomFinder"@,
            Strategy::Coloring(_) => "ColoringFinder"@,
            Strategy::MissingUniqueness(_) => "MissingCandidatesUniquenessFinder"@,
            Strategy::Uniqueness(_) => "UniquenessFinder"@,
            Strategy::ComplexFish(_) => "ComplexFishFinder"@,
            Strategy::Fish(_) => "FishFinder"@,
            Strategy::Skyscraper(_) => "SkyscraperFinder"@,
        }
    }
}

impl SolverStrategy for Strategy {
    fn find_step<A: StepAccumulator>(&self, grid: &Grid, acc: &mut A)
        ensures
            self.finds(*grid) ==> progressed(old(acc).recorded(), final(acc).recorded(), old(acc).stops_at_first()),
            grows(old(acc).recorded(), final(acc).recorded(), |s: Step| s.pattern(*grid) && self.produces(s)),
            forall|i: int| old(acc).recorded().len() <= i < final(acc).recorded().len() ==> first_house_shown(*grid, #[trigger] final(acc).recorded()[i]),
    {
        let ghost me = *self;
        match self {
            Strategy::FullHouse(f) => {
                SolverStrategy::find_step(f, grid, acc);
                proof {
                    lemma_grows_weaken(old(acc).recorded(), acc.recorded(), |s: Step| s.pattern(*grid) && s is FullHouse, |s: Step| s.pattern(*grid) && me.produces(s));
                }
            },
            Strategy::NakedSingle(f) => {
                SolverStrategy::find_step(f, grid, acc);
                proof {
                    lemma_grows_weaken(old(acc).recorded(), acc.recorded(), |s: Step| s.pattern(*grid) && s is NakedSingle, |s: Step| s.pattern(*grid) && me.produces(s));
                }
            },
            Strategy::HiddenSingle(f) => {
                SolverStrategy::find_step(f, grid, acc);
                proof {
                    lemma_grows_weaken(old(acc).recorded(), acc.recorded(), |s: Step| s.pattern(*grid) && s is HiddenSingle, |s: Step| s.pattern(*grid) && me.produces(s));
                }
            },
            Strategy::NakedSet(f) => {
                SolverStrategy::find_step(f, grid, acc);
                proof {
                    lemma_grows_weaken(old(acc).recorded(), acc.recorded(), |s: Step| s.pattern(*grid) && s is NakedSet, |s: Step| s.pattern(*grid) && me.produces(s));
                }
            },
            Strategy::HiddenSet(f) => {
                SolverStrategy::find_step(f, grid, acc);
                proof {
                    lemma_grows_weaken(old(acc).recorded(), acc.recorded(), |s: Step| s.pattern(*grid) && s is HiddenSet, |s: Step| s.pattern(*grid) && me.produces(s));
                }
            },
            Strategy::LockedCandidate(f) => {
                SolverStrategy::find_step(f, grid, acc);
                proof {
                    lemma_grows_weaken(old(acc).recorded(), acc.recorded(), |s: Step| s.pattern(*grid) && s is LockedCandidate, |s: Step| s.pattern(*grid) && me.produces(s));
                }
            },
            Strategy::Wings(f) => {
                SolverStrategy::find_step(f, grid, acc);
                proof {
                    lemma_grows_weaken(old(acc).recorded(), acc.recorded(), |s: Step| s.pattern(*grid) && (s is XYWing || s is XYZWing || s is WWing), |s: Step| s.pattern(*grid) && me.produces(s));
                }
            },
            Strategy::AlsXz(f) => {
                SolverStrategy::find_step(f, grid, acc);
                proof {
                    lemma_grows_weaken(old(acc).recorded(), acc.recorded(), |s: Step| s.pattern(*grid) && s is Als, |s: Step| s.pattern(*grid) && me.produces(s));
                }
            },
            Strategy::AlsXYWing(f) => {
                SolverStrategy::find_step(f, grid, acc);
                proof {
                    lemma_grows_weaken(old(acc).recorded(), acc.recorded(), |s: Step| s.pattern(*grid) && s is Als, |s: Step| s.pattern(*grid) && me.produces(s));
                }
            },
            Strategy::AlsChain(f) => {
                SolverStrategy::find_step(f, grid, acc);
                proof {
                    lemma_grows_weaken(old(acc).recorded(), acc.recorded(), |s: Step| s.pattern(*grid) && s is Als, |s: Step| s.pattern(*grid) && me.produces(s));
                }
            },
            Strategy::DeathBlossom(f) => {
                SolverStrategy::find_step(f, grid, acc);
                proof {
                    lemma_grows_weaken(old(acc).recorded(), acc.recorded(), |s: Step| s.pattern(*grid) && s is Als, |s: Step| s.pattern(*grid) && me.produces(s));
                }
            },
            Strategy::Coloring(f) => {
                SolverStrategy::find_step(f, grid, acc);
                proof {
                    lemma_grows_weaken(old(acc).recorded(), acc.recorded(), |s: Step| s.pattern(*grid) && s is Coloring, |s: Step| s.pattern(*grid) && me.produces(s));
                }
            },
            Strategy::MissingUniqueness(f) => {
                SolverStrategy::find_step(f, grid, acc);
                proof {
                    lemma_grows_weaken(old(acc).recorded(), acc.recorded(), |s: Step| s.pattern(*grid) && s is UniqueStep, |s: Step| s.pattern(*grid) && me.produces(s));
                }
            },
            Strategy::Uniqueness(f) => {
                SolverStrategy::find_step(f, grid, acc);
                proof {
                    lemma_grows_weaken(old(acc).recorded(), acc.recorded(), |s: Step| s.pattern(*grid) && s is UniqueStep, |s: Step| s.pattern(*grid) && me.produces(s));
                }
            },
            Strategy::ComplexFish(f) => {
                SolverStrategy::find_step(f, grid, acc);
                proof {
                    lemma_grows_weaken(old(acc).recorded(), acc.recorded(), |s: Step| s.pattern(*grid) && s is ComplexFish, |s: Step| s.pattern(*grid) && me.produces(s));
                }
            },
            Strategy::Fish(f) => {
                SolverStrategy::find_step(f, grid, acc);
                proof {
                    lemma_grows_weaken(old(acc).recorded(), acc.recorded(), |s: Step| s.pattern(*grid) && s is Fish, |s: Step| s.pattern(*grid) && me.produces(s));
                }
            },
            Strategy::Skyscraper(f) => {
                SolverStrategy::find_step(f, grid, acc);
                proof {
                    lemma_grows_weaken(old(acc).recorded(), acc.recorded(), |s: Step| s.pattern(*grid) && s is Skyscraper, |s: Step| s.pattern(*grid) && me.produces(s));
                }
            },
        }
        proof {
            assert forall|i: int| old(acc).recorded().len() <= i < acc.recorded().len() implies first_house_shown(*grid, #[trigger] acc.recorded()[i]) by {
                if !(me is FullHouse) {
                    assert((|s: Step| s.pattern(*grid) && me.produces(s))(acc.recorded()[i]));
                }
            }
        }
    }

    fn name(&self) -> (r: &str)
        ensures
            r@ == self.title(),
    {
        match self {
            Strategy::FullHouse(f) => f.name(),
            Strategy::NakedSingle(f) => f.name(),
            Strategy::HiddenSingle(f) => f.name(),
            Strategy::NakedSet(f) => f.name(),
            Strategy::HiddenSet(f) => f.name(),
            Strategy::LockedCandidate(f) => f.name(),
            Strategy::Wings(f) => f.name(),
            Strategy::AlsXz(f) => f.name(),
            Strategy::AlsXYWing(f) => f.name(),
            Strategy::AlsChain(f) => f.name(),
            Strategy::DeathBlossom(f) => f.name(),
            Strategy::Coloring(f) => f.name(),
            Strategy::MissingUniqueness(f) => f.name(),
            Strategy::Uniqueness(f) => f.name(),
            Strategy::ComplexFish(f) => f.name(),
            Strategy::Fish(f) => f.name(),
            Strategy::Skyscraper(f) => f.name(),
        }
    }
}

/// Which set of techniques to use.
#[derive(Debug, Clone, Copy, PartialEq, Eq, Structural)]
pub enum SolverProfile {
    Normal,
    Expert,
}

/// A step found together with whether the search was cut short.
#[derive(Debug, Clone)]
pub struct HintOutcome {
    pub step: Step,
    pub truncated: bool,
}

/// The techniques in the order the solver tries them: singles, subsets, intersections,
/// uniqueness, fish and skyscraper, wings, finned fish, colouring, almost locked sets and
/// complex fish.
pub open spec fn standard_order(t: Seq<Strategy>) -> bool {
    &&& t.len() == 33
    &&& t[0] is FullHouse
    &&& t[1] is NakedSingle
    &&& t[2] is HiddenSingle
    &&& t[3] matches Strategy::NakedSet(f) && f.size() == 2
    &&& t[4] matches Strategy::NakedSet(f) && f.size() == 3
    &&& t[5] matches Strategy::NakedSet(f) && f.size() == 4
    &&& t[6] matches Strategy::HiddenSet(f) && f.size() == 2
    &&& t[7] matches Strategy::HiddenSet(f) && f.size() == 3
    &&& t[8] matches Strategy::HiddenSet(f) && f.size() == 4
    &&& t[9] matches Strategy::LockedCandidate(f) && f.kind() == LockedCandidateType::Pointing
    &&& t[10] matches Strategy::LockedCandidate(f) && f.kind() == LockedCandidateType::Claiming
    &&& t[11] is Uniqueness
    &&& t[12] is MissingUniqueness
    &&& t[13] matches Strategy::Fish(f) && f.kind() == (FishType { size: FishSize::XWing, variant: FishVariant::Basic })
    &&& t[14] is Skyscraper
    &&& t[15] matches Strategy::Fish(f) && f.kind() == (FishType { size: FishSize::Swordfish, variant: FishVariant::Basic })
    &&& t[16] matches Strategy::Fish(f) && f.kind() == (FishType { size: FishSize::Jellyfish, variant: FishVariant::Basic })
    &&& t[17] is Wings
    &&& t[18] matches Strategy::Fish(f) && f.kind() == (FishType { size: FishSize::XWing, variant: FishVariant::Finned })
    &&& t[19] matches Strategy::Fish(f) && f.kind() == (FishType { size: FishSize::XWing, variant: FishVariant::Sashimi })
    &&& t[20] matches Strategy::Fish(f) && f.kind() == (FishType { size: FishSize::Squirmbag, variant: FishVariant::Basic })
    &&& t[21] matches Strategy::Fish(f) && f.kind() == (FishType { size: FishSize::Whale, variant: FishVariant::Basic })
    &&& t[22] matches Strategy::Fish(f) && f.kind() == (FishType { size: FishSize::Leviathan, variant: FishVariant::Basic })
    &&& t[23] matches Strategy::Fish(f) && f.kind() == (FishType { size: FishSize::Swordfish, variant: FishVariant::Finned })
    &&& t[24] matches Strategy::Fish(f) && f.kind() == (FishType { size: FishSize::Swordfish, variant: FishVariant::Sashimi })
    &&& t[25] matches Strategy::Fish(f) && f.kind() == (FishType { size: FishSize::Jellyfish, variant: FishVariant::Finned })
    &&& t[26] matches Strategy::Fish(f) && f.kind() == (FishType { size: FishSize::Jellyfish, variant: FishVariant::Sashimi })
    &&& t[27] is Coloring
    &&& t[28] is AlsXz
    &&& t[29] is AlsXYWing
    &&& t[30] is AlsChain
    &&& t[31] is DeathBlossom
    &&& t[32] is ComplexFish
}

/// The grid has a step that a technique of the standard list is known to report.
pub open spec fn standard_finds(g: Grid) -> bool {
    exists|t: Seq<Strategy>, i: int| standard_order(t) && 0 <= i < t.len() && #[trigger] t[i].finds(g)
}

/// `st` is a step of the first technique of the standard list that can report one, as
/// far as [`Strategy::finds`] tells: no technique before it finds a step on `g`.
pub open spec fn standard_leads(g: Grid, st: Step) -> bool {
    exists|t: Seq<Strategy>, i: int|
        standard_order(t) && 0 <= i < t.len() && #[trigger] t[i].produces(st) && forall|j: int| 0 <= j < i ==> !(#[trigger] t[j]).finds(g)
}

/// Two lists in the standard order know the same steps.
pub proof fn lemma_standard_finds(t: Seq<Strategy>, g: Grid)
    requires
        standard_order(t),
        standard_finds(g),
    ensures
        exists|i: int| 0 <= i < t.len() && #[trigger] t[i].finds(g),
{
    let (u, i) = choose|u: Seq<Strategy>, i: int| standard_order(u) && 0 <= i < u.len() && #[trigger] u[i].finds(g);
    assert(t[i].finds(g));
}

/// Solves by trying the techniques in order of difficulty, one step at a time.
pub struct SimpleSolver {
    strategies: Vec<Strategy>,
}

impl Default for SimpleSolver {
    fn default() -> (r: Self) {
        Self::new()
    }
}

impl SimpleSolver {
    /// The techniques, in the order they are tried.
    pub closed spec fn techniques(self) -> Seq<Strategy> {
        self.strategies@
    }

    pub fn new() -> (r: Self)
        ensures
            standard_order(r.techniques()),
    {
        let mut strategies: Vec<Strategy> = Vec::new();
        strategies.push(Strategy::FullHouse(FullHouseFinder {}));
        strategies.push(Strategy::NakedSingle(NakedSingleFinder {}));
        strategies.push(Strategy::HiddenSingle(HiddenSingleFinder {}));
        strategies.push(Strategy::NakedSet(NakedSetFinder::new(2)));
        strategies.push(Strategy::NakedSet(NakedSetFinder::new(3)));
        strategies.push(Strategy::NakedSet(NakedSetFinder::new(4)));
        strategies.push(Strategy::HiddenSet(HiddenSetFinder::new(2)));
        strategies.push(Strategy::HiddenSet(HiddenSetFinder::new(3)));
        strategies.push(Strategy::HiddenSet(HiddenSetFinder::new(4)));
        strategies.push(Strategy::LockedCandidate(LockedCandidateFinder::new(LockedCandidateType::Pointing)));
        strategies.push(Strategy::LockedCandidate(LockedCandidateFinder::new(LockedCandidateType::Claiming)));
        strategies.push(Strategy::Uniqueness(UniquenessFinder {}));
        strategies.push(Strategy::MissingUniqueness(MissingCandidatesUniquenessFinder));
        strategies.push(Strategy::Fish(FishFinder::new(FishType::basic(FishSize::XWing))));
        strategies.push(Strategy::Skyscraper(SkyscraperFinder {}));
        strategies.push(Strategy::Fish(FishFinder::new(FishType::basic(FishSize::Swordfish))));
        strategies.push(Strategy::Fish(FishFinder::new(FishType::basic(FishSize::Jellyfish))));
        strategies.push(Strategy::Wings(WingsFinder {}));
        strategies.push(Strategy::Fish(FishFinder::new(FishType::finned(FishSize::XWing))));
        strategies.push(Strategy::Fish(FishFinder::new(FishType::sashimi(FishSize::XWing))));
        strategies.push(Strategy::Fish(FishFinder::new(FishType::basic(FishSize::Squirmbag))));
        strategies.push(Strategy::Fish(FishFinder::new(FishType::basic(FishSize::Whale))));
        strategies.push(Strategy::Fish(FishFinder::new(FishType::basic(FishSize::Leviathan))));
        strategies.push(Strategy::Fish(FishFinder::new(FishType::finned(FishSize::Swordfish))));
        strategies.push(Strategy::Fish(FishFinder::new(FishType::sashimi(FishSize::Swordfish))));
        strategies.push(Strategy::Fish(FishFinder::new(FishType::finned(FishSize::Jellyfish))));
        strategies.push(Strategy::Fish(FishFinder::new(FishType::sashimi(FishSize::Jellyfish))));
        strategies.push(Strategy::Coloring(ColoringFinder));
        strategies.push(Strategy::AlsXz(AlsXzFinder));
        strategies.push(Strategy::AlsXYWing(AlsXYWingFinder));
        strategies.push(Strategy::AlsChain(AlsChainFinder));
        strategies.push(Strategy::DeathBlossom(DeathBlossomFinder));
        strategies.push(Strategy::ComplexFish(ComplexFishFinder {}));
        SimpleSolver { strategies }
    }

    /// Both profiles use the same techniques.
    pub fn with_profile(profile: SolverProfile) -> (r: Self) {
        Self::new()
    }

    /// The first step found, trying the techniques in order; [`Step::Nothing`] if none
    /// applies.
    pub fn hint(&self, grid: &Grid) -> (r: Step)
        requires
            grid.wf(),
        ensures
            r is Nothing || r.pattern(*grid),
            first_house_shown(*grid, r),
            (exists|i: int| 0 <= i < self.techniques().len() && #[trigger] self.techniques()[i].finds(*grid)) ==> !(r is Nothing),
            !(r is Nothing) ==> exists|i: int|
                0 <= i < self.techniques().len() && (#[trigger] self.techniques()[i]).produces(r) && forall|j: int|
                    0 <= j < i ==> !(#[trigger] self.techniques()[j]).finds(*grid),
    {
        let mut i: usize = 0;
        while i < self.strategies.len()
            invariant
                i <= self.strategies@.len(),
                grid.wf(),
                forall|j: int| 0 <= j < i ==> !(#[trigger] self.strategies@[j].finds(*grid)),
            decreases self.strategies@.len() - i,
        {
            let mut acc = SingleStepAccumulator::default();
            self.strategies[i].find_step(grid, &mut acc);
            let step = acc.into_step();
            if !matches!(step, Step::Nothing) {
                proof {
                    assert(self.techniques() == self.strategies@);
                    assert(self.techniques()[i as int].produces(step));
                    assert(forall|j: int| 0 <= j < i ==> !(#[trigger] self.techniques()[j]).finds(*grid));
                    assert(first_house_shown(*grid, acc.recorded()[0]));
                }
                return step;
            }
            i = i + 1;
        }
        Step::Nothing
    }

    /// The first step found, trying the techniques in order and giving up once the
    /// deadline, if any, has passed; [`Step::Nothing`] if none applies.
    /// `s` is a step on `g` of the first technique, in order, that can report one as far
    /// as [`Strategy::finds`] tells: no technique before it finds a step.
    pub open spec fn leads(self, g: Grid, s: Step) -> bool {
        &&& s.pattern(g)
        &&& exists|i: int|
            0 <= i < self.techniques().len() && (#[trigger] self.techniques()[i]).produces(s) && forall|j: int|
                0 <= j < i ==> !(#[trigger] self.techniques()[j]).finds(g)
    }

    /// `steps` is a path the solver takes through the grids `gs`: each step leads on the
    /// grid before it (see [`SimpleSolver::leads`]) and turns it into the next one.
    pub open spec fn led_path(self, gs: Seq<Grid>, steps: Seq<Step>) -> bool {
        &&& gs.len() == steps.len() + 1
        &&& forall|i: int|
            0 <= i < steps.len() ==> (#[trigger] steps[i]).well_formed() && gs[i].wf() && self.leads(gs[i], steps[i])
                && steps[i].outcome(gs[i], gs[i + 1])
    }

    fn next_step(&self, grid: &Grid, deadline: &Option<Instant>) -> (r: Step)
        requires
            grid.wf(),
        ensures
            r is Nothing || r.pattern(*grid),
            deadline is None && (exists|i: int| 0 <= i < self.techniques().len() && #[trigger] self.techniques()[i].finds(*grid))
                ==> !(r is Nothing),
            !(r is Nothing) ==> exists|i: int|
                0 <= i < self.techniques().len() && (#[trigger] self.techniques()[i]).produces(r) && forall|j: int|
                    0 <= j < i ==> !(#[trigger] self.techniques()[j]).finds(*grid),
    {
        let mut i: usize = 0;
        while i < self.strategies.len()
            invariant
                i <= self.strategies@.len(),
                grid.wf(),
                forall|j: int| 0 <= j < i ==> !(#[trigger] self.strategies@[j].finds(*grid)),
            decreases self.strategies@.len() - i,
        {
            if past(deadline) {
                return Step::Nothing;
            }
            let mut acc = SingleStepAccumulator::default();
            self.strategies[i].find_step(grid, &mut acc);
            let step = acc.into_step();
            if !matches!(step, Step::Nothing) {
                proof {
                    assert(self.techniques() == self.strategies@);
                    assert(self.techniques()[i as int].produces(step));
                    assert(forall|j: int| 0 <= j < i ==> !(#[trigger] self.techniques()[j]).finds(*grid));
                }
                return step;
            }
            i = i + 1;
        }
        Step::Nothing
    }

    /// The first step the techniques find; when there is none, a bounded expert search
    /// within `limits`, whose outcome says whether the limits cut it short.
    pub fn hint_with_limits(&self, grid: &Grid, limits: &SearchLimits) -> (r: HintOutcome)
        requires
            grid.wf(),
        ensures
            r.step is Nothing || r.step.pattern(*grid),
            r.truncated ==> r.step is Nothing,
            (exists|i: int| 0 <= i < self.techniques().len() && #[trigger] self.techniques()[i].finds(*grid)) ==> !(r.step is Nothing),
    {
        let step = self.hint(grid);
        if !matches!(step, Step::Nothing) {
            return HintOutcome { step, truncated: false };
        }
        find_expert_hint(grid, limits)
    }

    /// Applies steps until the grid is solved or no technique helps.
    pub fn solve(&self, grid: &mut Grid) -> (r: SolutionPath)
        requires
            old(grid).wf(),
            old(grid).state_valid(),
            givens_filled(*old(grid)),
        ensures
            final(grid).wf(),
            final(grid).state_valid(),
            givens_filled(*final(grid)),
            r.total() == score_of(r.step_seq()),
            r.done() == forall|c: int| 0 <= c < 81 ==> #[trigger] final(grid).value(c) != 0,
            state_of(*final(grid)) == run_steps(state_of(*old(grid)), r.step_seq()),
            r.hardest_rank() == hardest_of(r.step_seq()),
            !r.done() ==> forall|i: int| 0 <= i < self.techniques().len() ==> !(#[trigger] self.techniques()[i]).finds(*final(grid)),
            exists|gs: Seq<Grid>| #[trigger] self.led_path(gs, r.step_seq()) && gs[0] == *old(grid) && gs.last() == *final(grid),
    {
        self.solve_with_max_difficulty(grid, u32::MAX)
    }

    /// Applies steps until the grid is solved, no technique helps, or the next step is
    /// rated above `max_difficulty` (then the path is reported unsolved).
    pub fn solve_with_max_difficulty(&self, grid: &mut Grid, max_difficulty: u32) -> (r: SolutionPath)
        requires
            old(grid).wf(),
            old(grid).state_valid(),
            givens_filled(*old(grid)),
        ensures
            final(grid).wf(),
            final(grid).state_valid(),
            givens_filled(*final(grid)),
            r.total() == score_of(r.step_seq()),
            forall|i: int| 0 <= i < r.step_seq().len() ==> (#[trigger] r.step_seq()[i]).rating() <= max_difficulty,
            r.done() == forall|c: int| 0 <= c < 81 ==> #[trigger] final(grid).value(c) != 0,
            state_of(*final(grid)) == run_steps(state_of(*old(grid)), r.step_seq()),
            r.hardest_rank() == hardest_of(r.step_seq()),
            max_difficulty == u32::MAX && !r.done() ==> forall|i: int|
                0 <= i < self.techniques().len() ==> !(#[trigger] self.techniques()[i]).finds(*final(grid)),
            !r.done() ==> (forall|i: int|
                0 <= i < self.techniques().len() ==> !(#[trigger] self.techniques()[i]).finds(*final(grid))) || exists|s: Step|
                #[trigger] self.leads(*final(grid), s) && s.rating() > max_difficulty,
            exists|gs: Seq<Grid>| #[trigger] self.led_path(gs, r.step_seq()) && gs[0] == *old(grid) && gs.last() == *final(grid),
    {
        self.solve_with_limits(grid, max_difficulty, &None)
    }

    /// As [`SimpleSolver::solve_with_max_difficulty`], stopping as well once the deadline
    /// has passed.
    pub fn solve_with_deadline(&self, grid: &mut Grid, max_difficulty: u32, deadline: Instant) -> (r: SolutionPath)
        requires
            old(grid).wf(),
            old(grid).state_valid(),
            givens_filled(*old(grid)),
        ensures
            final(grid).wf(),
            final(grid).state_valid(),
            givens_filled(*final(grid)),
            r.total() == score_of(r.step_seq()),
            forall|i: int| 0 <= i < r.step_seq().len() ==> (#[trigger] r.step_seq()[i]).rating() <= max_difficulty,
            r.done() == forall|c: int| 0 <= c < 81 ==> #[trigger] final(grid).value(c) != 0,
            state_of(*final(grid)) == run_steps(state_of(*old(grid)), r.step_seq()),
            r.hardest_rank() == hardest_of(r.step_seq()),
            exists|gs: Seq<Grid>| #[trigger] self.led_path(gs, r.step_seq()) && gs[0] == *old(grid) && gs.last() == *final(grid),
    {
        self.solve_with_limits(grid, max_difficulty, &Some(deadline))
    }

    /// Applies steps until the grid is solved, no technique helps, the deadline if any
    /// has passed, or the next step is rated above `max_difficulty`. The path counts as
    /// solved exactly when the grid ends up filled.
    fn solve_with_limits(&self, grid: &mut Grid, max_difficulty: u32, deadline: &Option<Instant>) -> (r: SolutionPath)
        requires
            old(grid).wf(),
            old(grid).state_valid(),
            givens_filled(*old(grid)),
        ensures
            final(grid).wf(),
            final(grid).state_valid(),
            givens_filled(*final(grid)),
            r.total() == score_of(r.step_seq()),
            forall|i: int| 0 <= i < r.step_seq().len() ==> (#[trigger] r.step_seq()[i]).rating() <= max_difficulty,
            r.done() == forall|c: int| 0 <= c < 81 ==> #[trigger] final(grid).value(c) != 0,
            state_of(*final(grid)) == run_steps(state_of(*old(grid)), r.step_seq()),
            r.hardest_rank() == hardest_of(r.step_seq()),
            deadline is None && max_difficulty == u32::MAX && !r.done() ==> forall|i: int|
                0 <= i < self.techniques().len() ==> !(#[trigger] self.techniques()[i]).finds(*final(grid)),
            deadline is None && !r.done() ==> (forall|i: int|
                0 <= i < self.techniques().len() ==> !(#[trigger] self.techniques()[i]).finds(*final(grid))) || exists|s: Step|
                #[trigger] self.leads(*final(grid), s) && s.rating() > max_difficulty,
            exists|gs: Seq<Grid>| #[trigger] self.led_path(gs, r.step_seq()) && gs[0] == *old(grid) && gs.last() == *final(grid),
    {
        let ghost st0 = state_of(*grid);
        let ghost g0 = *grid;
        let ghost mut gs: Seq<Grid> = seq![*grid];
        let mut steps: Vec<Step> = Vec::new();
        let mut total: u32 = 0;
        proof {
            crate::solver::step::lemma_total_bounds(*grid, 81);
        }
        loop
            invariant
                grid.wf(),
                grid.state_valid(),
                givens_filled(*grid),
                total == score_of(steps@),
                0 <= cand_total(grid.cand_seq(), 81) <= 729,
                total + 1000 * cand_total(grid.cand_seq(), 81) <= 729000,
                forall|i: int| 0 <= i < steps@.len() ==> (#[trigger] steps@[i]).rating() <= max_difficulty,
                forall|i: int| 0 <= i < steps@.len() ==> (#[trigger] steps@[i]).well_formed(),
                st0 == state_of(*old(grid)),
                state_of(*grid) == run_steps(st0, steps@),
                g0 == *old(grid),
                self.led_path(gs, steps@) && gs[0] == g0 && gs.last() == *grid,
            ensures
                grid.wf(),
                grid.state_valid(),
                givens_filled(*grid),
                total == score_of(steps@),
                forall|i: int| 0 <= i < steps@.len() ==> (#[trigger] steps@[i]).rating() <= max_difficulty,
                forall|i: int| 0 <= i < steps@.len() ==> (#[trigger] steps@[i]).well_formed(),
                state_of(*grid) == run_steps(st0, steps@),
                self.led_path(gs, steps@) && gs[0] == g0 && gs.last() == *grid,
                deadline is None && !(forall|c: int| 0 <= c < 81 ==> #[trigger] grid.value(c) != 0) ==> forall|i: int|
                    0 <= i < self.techniques().len() ==> !(#[trigger] self.techniques()[i]).finds(*grid),
            decreases cand_total(grid.cand_seq(), 81),
        {
            if grid.is_solved() || past(deadline) {
                break;
            }
            let step = self.next_step(grid, deadline);
            if matches!(step, Step::Nothing) {
                break;
            }
            let d = step.difficulty();
            if d > max_difficulty {
                proof {
                    assert(self.leads(*grid, step));
                }
                return SolutionPath::new(steps, total, false);
            }
            let ghost before = *grid;
            proof {
                step.lemma_applicable(*grid);
            }
            step.apply(grid);
            proof {
                crate::solver::step::lemma_outcome_state(step, before, *grid);
                crate::solver::step::lemma_run_push(st0, steps@, step);
                step.lemma_progress(before, *grid);
                step.lemma_keeps_valid(before, *grid);
                step.lemma_rating_bound();
                crate::solver::step::lemma_total_bounds(*grid, 81);
            }
            let ghost old_steps = steps@;
            total = total + d;
            steps.push(step);
            proof {
                assert(steps@.drop_last() =~= old_steps);
                assert(self.leads(before, step));
                let gs2 = gs.push(*grid);
                assert forall|i: int| 0 <= i < steps@.len() implies (#[trigger] steps@[i]).well_formed() && gs2[i].wf()
                    && self.leads(gs2[i], steps@[i]) && steps@[i].outcome(gs2[i], gs2[i + 1]) by {
                    if i < old_steps.len() {
                        assert(steps@[i] == old_steps[i]);
                        assert(gs2[i] == gs[i] && gs2[i + 1] == gs[i + 1]);
                    }
                }
                gs = gs2;
            }
        }
        let solved = grid.is_solved();
        SolutionPath::new(steps, total, solved)
    }
}

} // verus!
