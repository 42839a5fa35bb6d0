use vstd::prelude::*;
use vstd::string::StringExecFns;
use crate::candidate::Candidate;
use crate::grid::Grid;
use crate::solver::step::{Step, placeable, placed};
use crate::solver::step_accumulator::StepAccumulator;
use crate::solver::common::progressed;
use crate::solver::full_house::{cell_is_full_house, full_house_cell};
use crate::util::format_step::{push_cell, push_number, cell_text, number_text};

verus! {

/// A cell with a single candidate takes it.
#[derive(Debug, PartialEq, Clone, Eq, Hash)]
pub struct NakedSingle {
    pub candidate: Candidate,
}

impl NakedSingle {
    pub fn new(cell: u8, value: u8) -> (r: Self)
        ensures
            r.candidate == Candidate(cell, value),
    {
        NakedSingle { candidate: Candidate::new(cell, value) }
    }

    /// The cell's only candidate is the digit.
    pub open spec fn pattern(self, g: Grid) -> bool {
        &&& self.candidate.0 < 81
        &&& g.value(self.candidate.0 as int) == 0
        &&& g.cands(self.candidate.0 as int) == set![self.candidate.1]
    }

    /// Writes the digit into the cell.
    pub fn apply(&self, grid: &mut Grid)
        requires
            old(grid).wf(),
            placeable(*old(grid), self.candidate),
        ensures
            final(grid).wf(),
            placed(*old(grid), *final(grid), self.candidate),
    {
        let ok = grid.set_value_with_candidate(&self.candidate);
    }

    pub open spec fn text(self) -> Seq<char> {
        "<h3>Naked Single</h3> <p>cell <b>"@ + cell_text(self.candidate.0 as int) + "</b> last possible candidate is <b>"@
            + number_text(self.candidate.1 as int) + "</b></p>"@
    }

    /// Describes the step.
    pub fn explain(&self) -> (r: String)
        requires
            self.candidate.0 < 81,
            self.candidate.1 <= 9,
        ensures
            r@ == self.text(),
    {
        let mut s = String::from_str("<h3>Naked Single</h3> <p>cell <b>");
        push_cell(&mut s, self.candidate.0);
        s.append("</b> last possible candidate is <b>");
        push_number(&mut s, self.candidate.1);
        s.append("</b></p>");
        s
    }
}

/// Cell `c` has a single candidate and is not the last empty cell of one of its houses.
pub open spec fn naked_single_at(g: Grid, c: int) -> bool {
    0 <= c < 81 && g.cands(c).len() == 1 && !full_house_cell(g, c)
}

/// Both are naked-single steps, the first in an earlier cell.
pub open spec fn cell_before(a: Step, b: Step) -> bool {
    a matches Step::NakedSingle(x) && b matches Step::NakedSingle(y) && x.candidate.0 < y.candidate.0
}

/// Finds naked singles.
#[derive(Debug, Default)]
pub struct NakedSingleFinder {}

impl NakedSingleFinder {
    /// Reports, cell by cell, each cell with a single candidate that is not the last empty
    /// cell of one of its houses (those are full houses).
    pub fn find_step<A: StepAccumulator>(&self, grid: &Grid, acc: &mut A)
        requires
            grid.wf(),
        ensures
            final(acc).stops_at_first() == old(acc).stops_at_first(),
            old(acc).recorded().len() <= final(acc).recorded().len(),
            final(acc).recorded().subrange(0, old(acc).recorded().len() as int) == old(acc).recorded(),
            forall|i: int|
                old(acc).recorded().len() <= i < final(acc).recorded().len() ==> (#[trigger] final(acc).recorded()[i]).pattern(*grid)
                    && (final(acc).recorded()[i] matches Step::NakedSingle(s) && !full_house_cell(*grid, s.candidate.0 as int)),
            (exists|c: int| #[trigger] naked_single_at(*grid, c)) ==> progressed(
                old(acc).recorded(),
                final(acc).recorded(),
                old(acc).stops_at_first(),
            ),
            forall|i: int, j: int|
                old(acc).recorded().len() <= i < j < final(acc).recorded().len() ==> cell_before(
                    #[trigger] final(acc).recorded()[i],
                    #[trigger] final(acc).recorded()[j],
                ),
    {
        let ghost start = acc.recorded();
        let mut cell: u8 = 0;
        while cell < 81
            invariant
                cell <= 81,
                grid.wf(),
                acc.stops_at_first() == old(acc).stops_at_first(),
                start == old(acc).recorded(),
                start.len() <= acc.recorded().len(),
                acc.recorded().subrange(0, start.len() as int) == start,
                forall|i: int|
                    start.len() <= i < acc.recorded().len() ==> (#[trigger] acc.recorded()[i]).pattern(*grid)
                        && (acc.recorded()[i] matches Step::NakedSingle(s) && !full_house_cell(*grid, s.candidate.0 as int)),
                !progressed(start, acc.recorded(), acc.stops_at_first()) ==> forall|c: int| 0 <= c < cell ==> !#[trigger] naked_single_at(*grid, c),
                forall|i: int, j: int|
                    start.len() <= i < j < acc.recorded().len() ==> cell_before(#[trigger] acc.recorded()[i], #[trigger] acc.recorded()[j]),
                forall|i: int|
                    start.len() <= i < acc.recorded().len() ==> (#[trigger] acc.recorded()[i] matches Step::NakedSingle(s) && s.candidate.0 < cell),
            decreases 81 - cell,
        {
            let cands = grid.get_cell_candidate(cell);
            if cands.count() == 1 && !cell_is_full_house(grid, cell) {
                let vals = cands.values();
                let value = vals[0];
                proof {
                    grid.lemma_wf();
                    assert(vals@.contains(value));
                    assert(cands@.contains(value));
                    crate::util::digitset::DigitSet::lemma_bounds(cands);
                    assert forall|v: u8| cands@.contains(v) <==> set![value].contains(v) by {
                        if cands@.contains(v) {
                            crate::util::indexset::lemma_set_single(cands@, value, v);
                        }
                    }
                    assert(cands@ =~= set![value]);
                    assert(grid.value(cell as int) == 0) by {
                        if grid.value(cell as int) != 0 {
                            assert(grid.cands(cell as int) == Set::<u8>::empty());
                        }
                    }
                }
                let step = Step::NakedSingle(NakedSingle::new(cell, value));
                let ghost before = acc.recorded();
                let finish = acc.add_step(step);
                proof {
                    if !(acc.stops_at_first() && before.len() > 0) {
                        assert(acc.recorded().subrange(0, start.len() as int) =~= before.subrange(0, start.len() as int));
                        assert(acc.recorded() == before.push(step));
                    }
                }
                if finish {
                    return;
                }
            }
            cell = cell + 1;
        }
    }
}

} // verus!
