use vstd::prelude::*;
use vstd::string::StringExecFns;
use crate::solver::step::{Step, score_of};

verus! {

/// How many solutions a grid has.
#[derive(Debug, PartialEq, Eq, Clone, Copy, Structural)]
pub enum SolutionState {
    NoSolution,
    Unique,
    MoreThanOne,
}

/// A filled grid and how many solutions the puzzle has.
#[derive(Debug)]
pub struct Solution {
    values: [u8; 81],
    state: SolutionState,
}

impl Solution {
    pub fn new(values: [u8; 81], state: SolutionState) -> (r: Self)
        ensures
            r.digits() == values@,
            r.kind() == state,
    {
        Solution { values, state }
    }

    pub closed spec fn digits(self) -> Seq<u8> {
        self.values@
    }

    pub closed spec fn kind(self) -> SolutionState {
        self.state
    }

    pub fn values(&self) -> (r: &[u8; 81])
        ensures
            r@ == self.digits(),
    {
        &self.values
    }

    pub fn state(&self) -> (r: &SolutionState)
        ensures
            *r == self.kind(),
    {
        &self.state
    }
}

/// The rating of the hardest step (the last of highest rating), 0 for none.
pub open spec fn hardest_of(steps: Seq<Step>) -> u32 {
    if steps.len() == 0 {
        0
    } else {
        steps[hardest_index(steps)].rating()
    }
}

/// Index of the last step with the highest rating (`steps` not empty).
pub open spec fn hardest_index(steps: Seq<Step>) -> int
    decreases steps.len(),
{
    if steps.len() <= 1 {
        0
    } else {
        let k = hardest_index(steps.drop_last());
        if steps.last().rating() >= steps[k].rating() {
            steps.len() - 1
        } else {
            k
        }
    }
}

/// The hardest step of a path is one of its steps, none is rated higher, and every step
/// after it is rated lower: it is the last step of the highest rating.
pub proof fn lemma_hardest_is_highest(steps: Seq<Step>)
    requires
        steps.len() > 0,
    ensures
        0 <= hardest_index(steps) < steps.len(),
        forall|i: int| 0 <= i < steps.len() ==> (#[trigger] steps[i]).rating() <= steps[hardest_index(steps)].rating(),
        forall|i: int| hardest_index(steps) < i < steps.len() ==> (#[trigger] steps[i]).rating() < steps[hardest_index(steps)].rating(),
        hardest_of(steps) == steps[hardest_index(steps)].rating(),
    decreases steps.len(),
{
    if steps.len() > 1 {
        let pre = steps.drop_last();
        lemma_hardest_is_highest(pre);
        let k = hardest_index(pre);
        assert forall|i: int| 0 <= i < pre.len() implies #[trigger] pre[i] == steps[i] by {}
        assert(pre[k] == steps[k]);
        if steps[k].rating() <= steps.last().rating() {
            assert forall|i: int| 0 <= i < steps.len() implies (#[trigger] steps[i]).rating() <= steps[steps.len() - 1].rating() by {
                if i < steps.len() - 1 {
                    assert(pre[i] == steps[i]);
                }
            }
        } else {
            assert forall|i: int| 0 <= i < steps.len() implies (#[trigger] steps[i]).rating() <= steps[k].rating() by {
                if i < steps.len() - 1 {
                    assert(pre[i] == steps[i]);
                }
            }
            assert forall|i: int| k < i < steps.len() implies (#[trigger] steps[i]).rating() < steps[k].rating() by {
                if i < steps.len() - 1 {
                    assert(pre[i] == steps[i]);
                }
            }
        }
    }
}

/// The steps that solved (or failed to solve) a grid, with their total rating and the
/// hardest technique used.
#[derive(Debug)]
pub struct SolutionPath {
    steps: Vec<Step>,
    score: u32,
    solved: bool,
    hardest_technique: Option<String>,
    hardest_technique_rank: u32,
}

impl SolutionPath {
    pub closed spec fn step_seq(self) -> Seq<Step> {
        self.steps@
    }

    pub closed spec fn total(self) -> u32 {
        self.score
    }

    pub closed spec fn done(self) -> bool {
        self.solved
    }

    pub closed spec fn hardest_name(self) -> Option<Seq<char>> {
        match self.hardest_technique {
            Some(s) => Some(s@),
            None => None,
        }
    }

    pub closed spec fn hardest_rank(self) -> u32 {
        self.hardest_technique_rank
    }

    /// Records the steps; the hardest technique is the last step of highest rating.
    pub fn new(steps: Vec<Step>, score: u32, solved: bool) -> (r: Self)
        requires
            forall|i: int| 0 <= i < steps@.len() ==> (#[trigger] steps@[i]).well_formed(),
        ensures
            r.step_seq() == steps@,
            r.total() == score,
            r.done() == solved,
            steps@.len() == 0 ==> r.hardest_name() is None && r.hardest_rank() == 0,
            steps@.len() > 0 ==> r.hardest_name() == Some(steps@[hardest_index(steps@)].title())
                && r.hardest_rank() == steps@[hardest_index(steps@)].rating(),
            forall|i: int| 0 <= i < steps@.len() ==> (#[trigger] steps@[i]).rating() <= r.hardest_rank(),
            steps@.len() > 0 ==> exists|i: int|
                0 <= i < steps@.len() && (#[trigger] steps@[i]).rating() == r.hardest_rank() && r.hardest_name() == Some(steps@[i].title())
                    && forall|j: int| i < j < steps@.len() ==> (#[trigger] steps@[j]).rating() < r.hardest_rank(),
    {
        if steps.len() == 0 {
            return SolutionPath { steps, score, solved, hardest_technique: None, hardest_technique_rank: 0 };
        }
        let mut best: usize = 0;
        let mut best_rank = steps[0].difficulty();
        let mut i: usize = 1;
        while i < steps.len()
            invariant
                1 <= i <= steps@.len(),
                best < i,
                best as int == hardest_index(steps@.subrange(0, i as int)),
                best_rank == steps@[best as int].rating(),
                forall|k: int| 0 <= k < steps@.len() ==> (#[trigger] steps@[k]).well_formed(),
            decreases steps@.len() - i,
        {
            proof {
                let pre = steps@.subrange(0, i as int);
                let post = steps@.subrange(0, i + 1);
                assert(post.drop_last() =~= pre);
                assert(pre[best as int] == steps@[best as int]);
            }
            let d = steps[i].difficulty();
            if d >= best_rank {
                best = i;
                best_rank = d;
            }
            i = i + 1;
        }
        assert(steps@.subrange(0, steps@.len() as int) =~= steps@);
        proof {
            lemma_hardest_is_highest(steps@);
        }
        let name = String::from_str(steps[best].name());
        SolutionPath { steps, score, solved, hardest_technique: Some(name), hardest_technique_rank: best_rank }
    }

    pub fn steps(&self) -> (r: &[Step])
        ensures
            r@ == self.step_seq(),
    {
        self.steps.as_slice()
    }

    pub fn score(&self) -> (r: u32)
        ensures
            r == self.total(),
    {
        self.score
    }

    pub fn is_solved(&self) -> (r: bool)
        ensures
            r == self.done(),
    {
        self.solved
    }

    pub fn hardest_technique(&self) -> (r: Option<&str>)
        ensures
            r is None <==> self.hardest_name() is None,
            r matches Some(s) ==> self.hardest_name() == Some(s@),
    {
        match &self.hardest_technique {
            Some(s) => Some(s.as_str()),
            None => None,
        }
    }

    pub fn hardest_technique_rank(&self) -> (r: u32)
        ensures
            r == self.hardest_rank(),
    {
        self.hardest_technique_rank
    }
}

} // verus!
