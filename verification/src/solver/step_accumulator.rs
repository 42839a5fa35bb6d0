use vstd::prelude::*;
use crate::solver::step::Step;

verus! {

/// Collects the steps a finder reports.
pub trait StepAccumulator {
    /// The steps recorded so far, in the order they were added.
    spec fn recorded(&self) -> Seq<Step>;

    /// The accumulator wants a single step.
    spec fn stops_at_first(&self) -> bool;

    /// Records `step` (a single-step accumulator keeps only its first) and tells whether
    /// the search may stop.
    fn add_step(&mut self, step: Step) -> (finish: bool)
        ensures
            final(self).stops_at_first() == old(self).stops_at_first(),
            finish == final(self).stops_at_first(),
            !old(self).stops_at_first() || old(self).recorded().len() == 0 ==> final(self).recorded()
                == old(self).recorded().push(step),
            old(self).stops_at_first() && old(self).recorded().len() > 0 ==> final(self).recorded()
                == old(self).recorded(),
    ;

    /// The accumulator holds what it wants.
    fn is_finish(&self) -> (r: bool)
        ensures
            r == (self.stops_at_first() && self.recorded().len() > 0),
    ;
}

/// Keeps every step.
#[derive(Debug)]
pub struct AllStepAccumulator {
    steps: Vec<Step>,
}

impl Default for AllStepAccumulator {
    fn default() -> (r: Self)
        ensures
            r.recorded() == Seq::<Step>::empty(),
    {
        AllStepAccumulator { steps: Vec::new() }
    }
}

impl AllStepAccumulator {
    /// The steps, in the order they were reported.
    pub fn get_steps(&self) -> (r: &Vec<Step>)
        ensures
            r@ == self.recorded(),
    {
        &self.steps
    }
}

impl StepAccumulator for AllStepAccumulator {
    closed spec fn recorded(&self) -> Seq<Step> {
        self.steps@
    }

    closed spec fn stops_at_first(&self) -> bool {
        false
    }

    fn add_step(&mut self, step: Step) -> (finish: bool) {
        self.steps.push(step);
        false
    }

    fn is_finish(&self) -> (r: bool) {
        false
    }
}

/// Keeps the first step only.
#[derive(Debug)]
pub struct SingleStepAccumulator {
    step: Step,
    found: bool,
}

impl Default for SingleStepAccumulator {
    fn default() -> (r: Self)
        ensures
            r.recorded() == Seq::<Step>::empty(),
            r.stops_at_first(),
    {
        SingleStepAccumulator { step: Step::Nothing, found: false }
    }
}

impl SingleStepAccumulator {
    #[verifier::type_invariant]
    spec fn inv(self) -> bool {
        !self.found ==> self.step is Nothing
    }

    /// The step found, or [`Step::Nothing`].
    pub fn get_step(&self) -> (r: &Step)
        ensures
            self.recorded().len() == 0 ==> *r == Step::Nothing,
            self.recorded().len() > 0 ==> *r == self.recorded()[0],
    {
        proof {
            use_type_invariant(self);
        }
        &self.step
    }

    /// Gives up the step found, or [`Step::Nothing`].
    pub fn into_step(self) -> (r: Step)
        ensures
            self.recorded().len() == 0 ==> r == Step::Nothing,
            self.recorded().len() > 0 ==> r == self.recorded()[0],
    {
        proof {
            use_type_invariant(&self);
        }
        self.step
    }
}

impl StepAccumulator for SingleStepAccumulator {
    closed spec fn recorded(&self) -> Seq<Step> {
        if self.found {
            seq![self.step]
        } else {
            Seq::empty()
        }
    }

    closed spec fn stops_at_first(&self) -> bool {
        true
    }

    fn add_step(&mut self, step: Step) -> (finish: bool) {
        if !self.found {
            self.found = true;
            self.step = step;
        }
        true
    }

    fn is_finish(&self) -> (r: bool) {
        self.found
    }
}

} // verus!
