use vstd::prelude::*;
use vstd::string::StringExecFns;
use crate::candidate::Candidate;
use crate::grid::Grid;
use crate::grid_constant::in_house;
use crate::solver::step::{Step, placeable, placed};
use crate::solver::step_accumulator::StepAccumulator;
use crate::solver::common::progressed;
use crate::solver::full_house::{cell_is_full_house, full_house_cell};
use crate::util::format_step::{push_cell, push_number, cell_text, number_text};

verus! {

/// A digit with a single place in a house goes there.
#[derive(Debug, PartialEq, Clone, Eq, Hash)]
pub struct HiddenSingle {
    pub candidate: Candidate,
    pub house: u8,
}

impl HiddenSingle {
    pub fn new(cell: u8, house: u8, value: u8) -> (r: Self)
        ensures
            r.candidate == Candidate(cell, value),
            r.house == house,
    {
        HiddenSingle { candidate: Candidate::new(cell, value), house }
    }

    /// The cell is the only one of the house with the digit as a candidate.
    pub open spec fn pattern(self, g: Grid) -> bool {
        &&& self.house < 27
        &&& in_house(self.candidate.0 as int, self.house as int)
        &&& g.has_cand(self.candidate.0 as int, self.candidate.1)
        &&& forall|c: int|
            #[trigger] in_house(c, self.house as int) && g.has_cand(c, self.candidate.1) ==> c == self.candidate.0
    }

    /// Writes the digit into the cell.
    pub fn apply(&self, grid: &mut Grid)
        requires
            old(grid).wf(),
            placeable(*old(grid), self.candidate),
        ensures
            final(grid).wf(),
            placed(*old(grid), *final(grid), self.candidate),
    {
        let ok = grid.set_value_with_candidate(&self.candidate);
    }

    pub open spec fn text(self) -> Seq<char> {
        "digit <b>"@ + number_text(self.candidate.1 as int) + "</b> can only be placed in cell <b>"@ + cell_text(
            self.candidate.0 as int,
        ) + "</b> for house <b>"@ + number_text(self.house as int) + "</b>"@
    }

    /// Describes the step.
    pub fn explain(&self) -> (r: String)
        requires
            self.candidate.0 < 81,
            self.candidate.1 <= 9,
            self.house < 27,
        ensures
            r@ == self.text(),
    {
        let mut s = String::from_str("digit <b>");
        push_number(&mut s, self.candidate.1);
        s.append("</b> can only be placed in cell <b>");
        push_cell(&mut s, self.candidate.0);
        s.append("</b> for house <b>");
        push_number(&mut s, self.house);
        s.append("</b>");
        s
    }
}

/// Cell `c` is the only cell of house `h` with candidate `v`, has other candidates too and
/// is not the last empty cell of one of its houses.
pub open spec fn hidden_single_in(g: Grid, h: int, v: u8, c: int) -> bool {
    &&& 0 <= h < 27
    &&& 1 <= v <= 9
    &&& in_house(c, h)
    &&& g.has_cand(c, v)
    &&& forall|e: int| #[trigger] in_house(e, h) && g.has_cand(e, v) ==> e == c
    &&& g.cands(c).len() != 1
    &&& !full_house_cell(g, c)
}

/// `h` is the first house through which digit `v` is a hidden single in cell `c`.
pub open spec fn first_hidden(g: Grid, h: int, v: u8, c: int) -> bool {
    hidden_single_in(g, h, v, c) && forall|k: int| 0 <= k < h ==> !#[trigger] hidden_single_in(g, k, v, c)
}

/// Two hidden-single steps name the same cell and digit.
pub open spec fn same_hidden(a: Step, b: Step) -> bool {
    a matches Step::HiddenSingle(x) && b matches Step::HiddenSingle(y) && x.candidate == y.candidate
}

/// Finds hidden singles.
#[derive(Debug, Default)]
pub struct HiddenSingleFinder {}

impl HiddenSingleFinder {
    /// Reports, house by house and digit by digit, each digit with a single candidate cell
    /// in the house, unless the cell has no other candidate (a naked single) or is the last
    /// empty cell of one of its houses (a full house); a cell and digit found through
    /// several houses is reported once.
    pub fn find_step<A: StepAccumulator>(&self, grid: &Grid, acc: &mut A)
        requires
            grid.wf(),
        ensures
            final(acc).stops_at_first() == old(acc).stops_at_first(),
            old(acc).recorded().len() <= final(acc).recorded().len(),
            final(acc).recorded().subrange(0, old(acc).recorded().len() as int) == old(acc).recorded(),
            forall|i: int|
                old(acc).recorded().len() <= i < final(acc).recorded().len() ==> (#[trigger] final(acc).recorded()[i]).pattern(*grid)
                    && (final(acc).recorded()[i] matches Step::HiddenSingle(s) && !full_house_cell(*grid, s.candidate.0 as int)
                    && grid.cands(s.candidate.0 as int).len() != 1),
            (exists|h: int, v: u8, c: int| #[trigger] hidden_single_in(*grid, h, v, c)) ==> progressed(
                old(acc).recorded(),
                final(acc).recorded(),
                old(acc).stops_at_first(),
            ),
            forall|i: int|
                old(acc).recorded().len() <= i < final(acc).recorded().len() ==> (#[trigger] final(acc).recorded()[i] matches Step::HiddenSingle(
                    s,
                ) && first_hidden(*grid, s.house as int, s.candidate.1, s.candidate.0 as int)),
            forall|i: int, j: int|
                old(acc).recorded().len() <= i < j < final(acc).recorded().len() ==> !same_hidden(
                    #[trigger] final(acc).recorded()[i],
                    #[trigger] final(acc).recorded()[j],
                ),
    {
        let mut seen: Vec<Candidate> = Vec::new();
        let ghost start = acc.recorded();
        let mut house: u8 = 0;
        while house < 27
            invariant
                house <= 27,
                grid.wf(),
                acc.stops_at_first() == old(acc).stops_at_first(),
                start == old(acc).recorded(),
                start.len() <= acc.recorded().len(),
                acc.recorded().subrange(0, start.len() as int) == start,
                forall|i: int|
                    start.len() <= i < acc.recorded().len() ==> (#[trigger] acc.recorded()[i]).pattern(*grid)
                        && (acc.recorded()[i] matches Step::HiddenSingle(s) && !full_house_cell(*grid, s.candidate.0 as int)
                        && grid.cands(s.candidate.0 as int).len() != 1),
                seen@.len() > 0 ==> progressed(start, acc.recorded(), acc.stops_at_first()),
                !progressed(start, acc.recorded(), acc.stops_at_first()) ==> forall|h: int, v: u8, c: int|
                    h < house ==> !#[trigger] hidden_single_in(*grid, h, v, c),
                forall|i: int|
                    start.len() <= i < acc.recorded().len() ==> (#[trigger] acc.recorded()[i] matches Step::HiddenSingle(s)
                        && first_hidden(*grid, s.house as int, s.candidate.1, s.candidate.0 as int) && seen@.contains(s.candidate)),
                forall|i: int, j: int|
                    start.len() <= i < j < acc.recorded().len() ==> !same_hidden(
                        #[trigger] acc.recorded()[i],
                        #[trigger] acc.recorded()[j],
                    ),
                forall|h: int, v: u8, c: int| h < house && #[trigger] hidden_single_in(*grid, h, v, c) ==> seen@.contains(Candidate(c as u8, v)),
            decreases 27 - house,
        {
            let mut value: u8 = 1;
            while value <= 9
                invariant
                    house < 27,
                    1 <= value <= 10,
                    grid.wf(),
                    acc.stops_at_first() == old(acc).stops_at_first(),
                    start == old(acc).recorded(),
                    start.len() <= acc.recorded().len(),
                    acc.recorded().subrange(0, start.len() as int) == start,
                    forall|i: int|
                        start.len() <= i < acc.recorded().len() ==> (#[trigger] acc.recorded()[i]).pattern(*grid)
                            && (acc.recorded()[i] matches Step::HiddenSingle(s) && !full_house_cell(
                            *grid,
                            s.candidate.0 as int,
                        ) && grid.cands(s.candidate.0 as int).len() != 1),
                    seen@.len() > 0 ==> progressed(start, acc.recorded(), acc.stops_at_first()),
                    !progressed(start, acc.recorded(), acc.stops_at_first()) ==> forall|h: int, v: u8, c: int|
                        (h < house || (h == house && v < value)) ==> !#[trigger] hidden_single_in(*grid, h, v, c),
                    forall|i: int|
                        start.len() <= i < acc.recorded().len() ==> (#[trigger] acc.recorded()[i] matches Step::HiddenSingle(s)
                            && first_hidden(*grid, s.house as int, s.candidate.1, s.candidate.0 as int) && seen@.contains(s.candidate)),
                    forall|i: int, j: int|
                        start.len() <= i < j < acc.recorded().len() ==> !same_hidden(
                            #[trigger] acc.recorded()[i],
                            #[trigger] acc.recorded()[j],
                        ),
                    forall|h: int, v: u8, c: int|
                        (h < house || (h == house && v < value)) && #[trigger] hidden_single_in(*grid, h, v, c) ==> seen@.contains(
                            Candidate(c as u8, v),
                        ),
                decreases 10 - value,
            {
                let cells = grid.candidate_cells_in_house(house, value);
                proof {
                    if exists|c: int| #[trigger] hidden_single_in(*grid, house as int, value, c) {
                        let c0 = choose|c: int| #[trigger] hidden_single_in(*grid, house as int, value, c);
                        assert(0 <= c0 < 81);
                        assert forall|x: u8| cells@.contains(x) <==> set![c0 as u8].contains(x) by {
                            if cells@.contains(x) {
                                assert(in_house(x as int, house as int));
                            }
                        }
                        assert(cells@ =~= set![c0 as u8]);
                    }
                }
                if cells.count() == 1 {
                    if let Some(cell) = cells.first() {
                        let cc = grid.get_cell_candidate(cell);
                        let cand = Candidate::new(cell, value);
                        let mut dup = false;
                        let mut k: usize = 0;
                        while k < seen.len()
                            invariant
                                k <= seen@.len(),
                                dup ==> seen@.len() > 0,
                                dup <==> exists|q: int| 0 <= q < k && seen@[q] == cand,
                                cand.0 == cell && cand.1 == value,
                            decreases seen@.len() - k,
                        {
                            if seen[k].0 == cell && seen[k].1 == value {
                                dup = true;
                            }
                            proof {
                                assert(seen@[k as int] == cand <==> (seen@[k as int].0 == cell && seen@[k as int].1 == value));
                                if exists|q: int| 0 <= q < k + 1 && seen@[q] == cand {
                                    let q = choose|q: int| 0 <= q < k + 1 && seen@[q] == cand;
                                    if q < k {
                                        assert(exists|q: int| 0 <= q < k && seen@[q] == cand);
                                    }
                                }
                            }
                            k = k + 1;
                        }
                        let ghost seen_before = seen@;
                        if cc.count() != 1 && !cell_is_full_house(grid, cell) && !dup {
                            seen.push(cand);
                            proof {
                                assert forall|y: Candidate| #![trigger seen@.contains(y)] seen_before.contains(y) implies seen@.contains(y) by {
                                    let q = choose|q: int| 0 <= q < seen_before.len() && seen_before[q] == y;
                                    assert(seen@[q] == seen_before[q]);
                                }
                                assert(seen@[seen_before.len() as int] == cand);
                                assert(seen@.contains(cand));
                                assert(!seen_before.contains(cand));
                            }
                            proof {
                                crate::util::indexset::IndexSet::lemma_bounds(cells);
                                assert forall|c: int| #[trigger] in_house(c, house as int) && grid.has_cand(c, value) implies c
                                    == cell by {
                                    assert(cells@.contains(c as u8));
                                    crate::util::indexset::lemma_set_single(cells@, cell, c as u8);
                                }
                            }
                            let step = Step::HiddenSingle(HiddenSingle::new(cell, house, value));
                            let ghost before = acc.recorded();
                            let finish = acc.add_step(step);
                            proof {
                                if !(acc.stops_at_first() && before.len() > 0) {
                                    assert(acc.recorded().subrange(0, start.len() as int) =~= before.subrange(
                                        0,
                                        start.len() as int,
                                    ));
                                }
                            }
                            if finish {
                                return;
                            }
                        }
                    }
                }
                value = value + 1;
            }
            house = house + 1;
        }
    }
}

} // verus!
