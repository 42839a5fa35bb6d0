use vstd::prelude::*;
use vstd::string::StringExecFns;
use crate::candidate::Candidate;
use crate::grid::{Grid, HouseType};
use crate::grid_constant::in_house;
use crate::solver::step::{Step, removable, removed, remove_all};
use crate::solver::step_accumulator::StepAccumulator;
use crate::solver::common::{grows, report, cand_list, candidates_of, lemma_cand_list_distinct, shared_house, house_of_kind, progressed};
use crate::solver::naked_set::house_at;
use crate::util::format_step::{push_house, push_number, push_cand_cells, house_text, number_text, cells_text};
use crate::util::indexset::IndexSet;

verus! {

/// How the digit is locked: inside a block along a line, or inside a line within a block.
#[derive(Debug, Clone, Copy, PartialEq, Eq, Hash, Structural)]
pub enum LockedCandidateType {
    Pointing,
    Claiming,
}

/// The candidates of a digit in one house all lie in a second house, so the digit leaves
/// the rest of the second house.
#[derive(Debug, Clone, PartialEq, Eq, Hash)]
pub struct LockedCandidate {
    pub remove_candidates: Vec<Candidate>,
    pub highlight_candidates: Vec<Candidate>,
    pub candidate_type: LockedCandidateType,
    pub common_house: u8,
    pub house: u8,
}

/// The cells of house `h` with candidate `v`.
pub open spec fn cand_cells(g: Grid, h: int, v: u8) -> Set<u8> {
    Set::new(|c: u8| in_house(c as int, h) && g.has_cand(c as int, v))
}

/// The first `n` cells of house `h` whose candidate sets in `cs` hold `v`.
pub open spec fn counted_cells(cs: Seq<Set<u8>>, h: int, v: u8, n: int) -> Set<u8> {
    Set::new(|c: u8| c < n && in_house(c as int, h) && cs[c as int].contains(v))
}

/// The count kept for a house is the number of such cells.
pub proof fn lemma_count_is_len(cs: Seq<Set<u8>>, h: int, v: u8, n: int)
    requires
        0 <= n <= 81,
    ensures
        counted_cells(cs, h, v, n).finite(),
        crate::grid::count_in_house(cs, h, v, n) == counted_cells(cs, h, v, n).len(),
    decreases n,
{
    if n == 0 {
        assert(counted_cells(cs, h, v, n) =~= Set::<u8>::empty());
    } else {
        lemma_count_is_len(cs, h, v, n - 1);
        let prev = counted_cells(cs, h, v, n - 1);
        if in_house(n - 1, h) && cs[n - 1].contains(v) {
            assert(counted_cells(cs, h, v, n) =~= prev.insert((n - 1) as u8));
        } else {
            assert(counted_cells(cs, h, v, n) =~= prev);
        }
    }
}

/// A house's candidate count is the number of its cells with the candidate.
pub proof fn lemma_house_count(g: Grid, h: int, v: u8)
    requires
        g.wf(),
    ensures
        cand_cells(g, h, v).finite(),
        g.house_count(h, v) == cand_cells(g, h, v).len(),
{
    g.lemma_wf();
    lemma_count_is_len(g.cand_seq(), h, v, 81);
    assert forall|c: u8| #[trigger] cand_cells(g, h, v).contains(c) <==> counted_cells(g.cand_seq(), h, v, 81).contains(c) by {
        if in_house(c as int, h) {
            assert(g.cand_seq()[c as int] == g.cands(c as int));
        }
    }
    assert(cand_cells(g, h, v) =~= counted_cells(g.cand_seq(), h, v, 81));
}

/// The cells of house `common` with candidate `v` that lie outside house `h`.
pub open spec fn cand_cells_outside(g: Grid, common: int, h: int, v: u8) -> Set<u8> {
    Set::new(|c: u8| in_house(c as int, common) && g.has_cand(c as int, v) && !in_house(c as int, h))
}

impl LockedCandidate {
    pub fn new(
        remove_candidates: Vec<Candidate>,
        highlight_candidates: Vec<Candidate>,
        candidate_type: LockedCandidateType,
        common_house: u8,
        house: u8,
    ) -> (r: Self)
        ensures
            r == (LockedCandidate { remove_candidates, highlight_candidates, candidate_type, common_house, house }),
    {
        LockedCandidate { remove_candidates, highlight_candidates, candidate_type, common_house, house }
    }

    /// The digit of the step.
    pub open spec fn digit(self) -> u8 {
        self.highlight_candidates@[0].1
    }

    /// Every candidate of the digit in `house` lies in `common_house` (a block and a line
    /// for pointing, a line and a block for claiming); they are highlighted, and the other
    /// candidates of the digit in `common_house` are removed.
    pub open spec fn pattern(self, g: Grid) -> bool {
        let v = self.digit();
        &&& self.house < 27
        &&& self.common_house < 27
        &&& (self.candidate_type == LockedCandidateType::Pointing) == (self.house >= 18)
        &&& (self.common_house >= 18) == (self.house < 18)
        &&& self.highlight_candidates@.len() > 0
        &&& 1 <= v <= 9
        &&& cand_list(self.highlight_candidates@, v, cand_cells(g, self.house as int, v))
        &&& forall|c: int| in_house(c, self.house as int) && #[trigger] g.has_cand(c, v) ==> in_house(c, self.common_house as int)
        &&& cand_list(self.remove_candidates@, v, cand_cells_outside(g, self.common_house as int, self.house as int, v))
        &&& self.remove_candidates@.len() > 0
    }

    pub fn difficulty(&self) -> (r: u8)
        ensures
            r == 50,
    {
        50
    }

    /// Removes the candidates.
    pub fn apply(&self, grid: &mut Grid)
        requires
            old(grid).wf(),
            self.remove_candidates@.len() > 0,
            removable(*old(grid), self.remove_candidates@),
        ensures
            final(grid).wf(),
            removed(*old(grid), *final(grid), self.remove_candidates@),
    {
        remove_all(grid, &self.remove_candidates);
    }

    pub open spec fn title(self) -> Seq<char> {
        match self.candidate_type {
            LockedCandidateType::Pointing => "Locked Candidates: Pointing"@,
            LockedCandidateType::Claiming => "Locked Candidates: Claiming"@,
        }
    }

    pub fn name(&self) -> (r: &'static str)
        ensures
            r@ == self.title(),
    {
        match self.candidate_type {
            LockedCandidateType::Pointing => "Locked Candidates: Pointing",
            LockedCandidateType::Claiming => "Locked Candidates: Claiming",
        }
    }

    pub open spec fn text(self) -> Seq<char> {
        "<h3>"@ + self.title() + "</h3>In "@ + house_text(self.house as int) + ", digit "@ + number_text(
            self.digit() as int,
        ) + " is locked into "@ + house_text(self.common_house as int) + " at cells "@ + cells_text(
            self.highlight_candidates@,
        ) + ". Remove "@ + cells_text(self.remove_candidates@) + "."@
    }

    /// Describes the step.
    pub fn explain(&self) -> (r: String)
        requires
            self.house < 27,
            self.common_house < 27,
            self.highlight_candidates@.len() > 0,
            self.digit() < 100,
            forall|i: int| 0 <= i < self.highlight_candidates@.len() ==> (#[trigger] self.highlight_candidates@[i]).0 < 81,
            forall|i: int| 0 <= i < self.remove_candidates@.len() ==> (#[trigger] self.remove_candidates@[i]).0 < 81,
        ensures
            r@ == self.text(),
    {
        let mut s = String::from_str("<h3>");
        s.append(self.name());
        s.append("</h3>In ");
        push_house(&mut s, self.house);
        s.append(", digit ");
        push_number(&mut s, self.highlight_candidates[0].1);
        s.append(" is locked into ");
        push_house(&mut s, self.common_house);
        s.append(" at cells ");
        push_cand_cells(&mut s, &self.highlight_candidates);
        s.append(". Remove ");
        push_cand_cells(&mut s, &self.remove_candidates);
        s.append(".");
        s
    }
}

/// Finds locked candidates of one type.
pub struct LockedCandidateFinder {
    candidate_type: LockedCandidateType,
}

/// House `house` has two or three candidates of `v`, all in house `common` of kind
/// `kind`, and `common` has other candidates of `v`.
pub open spec fn locked_at(g: Grid, house: int, v: u8, kind: int, common: int) -> bool {
    &&& 1 <= v <= 9
    &&& (cand_cells(g, house, v).len() == 2 || cand_cells(g, house, v).len() == 3)
    &&& forall|c: u8| #[trigger] cand_cells(g, house, v).contains(c) ==> house_of_kind(c as int, kind) == common
    &&& cand_cells_outside(g, common, house, v) != Set::<u8>::empty()
}

/// Some house of `house_type` has a locked candidate to report.
pub open spec fn locked_in(g: Grid, house_type: HouseType) -> bool {
    exists|i: int, v: u8, kind: int, common: int|
        0 <= i < 9 && kind_for(house_at(house_type, i), kind) && #[trigger] locked_at(g, house_at(house_type, i), v, kind, common)
}

/// The kinds of house a house's candidates are looked for in: a line for a block, the
/// block for a line.
pub open spec fn kind_for(house: int, kind: int) -> bool {
    if house >= 18 {
        kind == 0 || kind == 1
    } else {
        kind == 2
    }
}

impl LockedCandidateFinder {
    pub fn new(candidate_type: LockedCandidateType) -> (r: Self)
        ensures
            r.kind() == candidate_type,
    {
        LockedCandidateFinder { candidate_type }
    }

    pub closed spec fn kind(self) -> LockedCandidateType {
        self.candidate_type
    }

    /// What this finder reports.
    pub open spec fn reports(self, g: Grid, s: Step) -> bool {
        s.pattern(g) && (s matches Step::LockedCandidate(l) && l.candidate_type == self.kind())
    }

    fn create_locked_step(&self, grid: &Grid, cells: &IndexSet, house: u8, common_house: u8, value: u8) -> (r: Option<LockedCandidate>)
        requires
            grid.wf(),
            house < 27,
            common_house < 27,
            1 <= value <= 9,
            cells@ == cand_cells(*grid, house as int, value),
            cells@.len() > 0,
            forall|c: int| in_house(c, house as int) && #[trigger] grid.has_cand(c, value) ==> in_house(c, common_house as int),
            (self.kind() == LockedCandidateType::Pointing) == (house >= 18),
            (common_house >= 18) == (house < 18),
        ensures
            r matches Some(l) ==> l.pattern(*grid) && l.candidate_type == self.kind() && l.house == house
                && l.common_house == common_house && l.highlight_candidates@.len() > 0 && l.digit() == value,
            r is None <==> cand_cells_outside(*grid, common_house as int, house as int, value) == Set::<u8>::empty(),
    {
        let highlight = candidates_of(cells, value);
        let all = grid.candidate_cells_in_house(common_house, value);
        let rest = all.difference(cells);
        proof {
            assert(rest@ =~= cand_cells_outside(*grid, common_house as int, house as int, value));
        }
        let remove = candidates_of(&rest, value);
        proof {
            crate::util::indexset::IndexSet::lemma_bounds(rest);
        }
        if remove.len() == 0 {
            assert(rest@.len() == 0);
            assert(rest@ =~= Set::<u8>::empty()) by {
                if exists|c: u8| rest@.contains(c) {
                    let c = choose|c: u8| rest@.contains(c);
                    assert(rest@.remove(c).len() + 1 == rest@.len());
                }
            }
            return None;
        }
        Some(LockedCandidate::new(remove, highlight, self.candidate_type, common_house, house))
    }

    fn find_locked_candidate<A: StepAccumulator>(&self, house_type: HouseType, grid: &Grid, acc: &mut A, Ghost(start): Ghost<Seq<Step>>)
        requires
            grid.wf(),
            grows(start, old(acc).recorded(), |s: Step| self.reports(*grid, s)),
            (house_type == HouseType::Block) == (self.kind() == LockedCandidateType::Pointing),
        ensures
            grows(start, final(acc).recorded(), |s: Step| self.reports(*grid, s)),
            final(acc).stops_at_first() == old(acc).stops_at_first(),
            (exists|i: int, v: u8, kind: int, common: int|
                0 <= i < 9 && kind_for(house_at(house_type, i), kind) && #[trigger] locked_at(
                    *grid,
                    house_at(house_type, i),
                    v,
                    kind,
                    common,
                )) ==> progressed(old(acc).recorded(), final(acc).recorded(), old(acc).stops_at_first()),
            old(acc).recorded().len() <= final(acc).recorded().len(),
    {
        let ghost rec0 = acc.recorded();
        let houses = house_type.houses();
        let mut hi: usize = 0;
        while hi < 9
            invariant
                hi <= 9,
                grid.wf(),
                grows(start, acc.recorded(), |s: Step| self.reports(*grid, s)),
                acc.stops_at_first() == old(acc).stops_at_first(),
                (house_type == HouseType::Block) == (self.kind() == LockedCandidateType::Pointing),
                forall|i: int|
                    0 <= i < 9 ==> #[trigger] houses@[i] == match house_type {
                        HouseType::Row => i,
                        HouseType::Column => 9 + i,
                        HouseType::Block => 18 + i,
                    },
                rec0 == old(acc).recorded(),
                rec0.len() <= acc.recorded().len(),
                !progressed(rec0, acc.recorded(), acc.stops_at_first()) ==> forall|i: int, v: u8, kind: int, common: int|
                    0 <= i < hi && kind_for(house_at(house_type, i), kind) ==> !#[trigger] locked_at(
                        *grid,
                        house_at(house_type, i),
                        v,
                        kind,
                        common,
                    ),
            decreases 9 - hi,
        {
            let house = houses[hi];
            let mut value: u8 = 1;
            while value <= 9
                invariant
                    1 <= value <= 10,
                    grid.wf(),
                    house < 27,
                    (house_type == HouseType::Block) == (house >= 18),
                    (house_type == HouseType::Block) == (self.kind() == LockedCandidateType::Pointing),
                    grows(start, acc.recorded(), |s: Step| self.reports(*grid, s)),
                    acc.stops_at_first() == old(acc).stops_at_first(),
                rec0 == old(acc).recorded(),
                rec0.len() <= acc.recorded().len(),
                    hi < 9,
                    house == house_at(house_type, hi as int),
                    !progressed(rec0, acc.recorded(), acc.stops_at_first()) ==> forall|i: int, v: u8, kind: int, common: int|
                        (0 <= i < hi || (i == hi && v < value)) && kind_for(house_at(house_type, i), kind) ==> !#[trigger] locked_at(
                            *grid,
                            house_at(house_type, i),
                            v,
                            kind,
                            common,
                        ),
                decreases 10 - value,
            {
                let pc = grid.get_house_candidate_count(house, value);
                proof {
                    lemma_house_count(*grid, house as int, value);
                }
                if pc == 2 || pc == 3 {
                    let cells = grid.candidate_cells_in_house(house, value);
                    let cv = cells.values();
                    proof {
                        assert(cells@ =~= cand_cells(*grid, house as int, value));
                        crate::util::indexset::IndexSet::lemma_bounds(cells);
                        assert forall|i: int| 0 <= i < cv@.len() implies #[trigger] cv@[i] < 81 by {
                            assert(cv@.contains(cv@[i]));
                        }
                    }
                    let kinds: [u8; 2] = if house >= 18 { [0, 1] } else { [2, 2] };
                    let nk: usize = if house >= 18 { 2 } else { 1 };
                    let mut ki: usize = 0;
                    while ki < nk
                        invariant
                            ki <= nk <= 2,
                            grid.wf(),
                            house < 27,
                            1 <= value <= 9,
                            house >= 18 ==> kinds@ == seq![0u8, 1u8],
                            house < 18 ==> kinds@ == seq![2u8, 2u8],
                            (house_type == HouseType::Block) == (house >= 18),
                            (house_type == HouseType::Block) == (self.kind() == LockedCandidateType::Pointing),
                            cells@ == cand_cells(*grid, house as int, value),
                            forall|c: u8| cv@.contains(c) <==> cells@.contains(c),
                            cv@.len() == cells@.len(),
                            forall|i: int| 0 <= i < cv@.len() ==> #[trigger] cv@[i] < 81,
                            grows(start, acc.recorded(), |s: Step| self.reports(*grid, s)),
                            acc.stops_at_first() == old(acc).stops_at_first(),
                            rec0 == old(acc).recorded(),
                            rec0.len() <= acc.recorded().len(),
                            hi < 9,
                            house == house_at(house_type, hi as int),
                            house >= 18 ==> nk == 2,
                            house < 18 ==> nk == 1,
                            cells@.len() == 2 || cells@.len() == 3,
                            !progressed(rec0, acc.recorded(), acc.stops_at_first()) ==> forall|i: int, v: u8, kind: int, common: int|
                                (0 <= i < hi || (i == hi && v < value)) && kind_for(house_at(house_type, i), kind) ==> !#[trigger] locked_at(
                                    *grid,
                                    house_at(house_type, i),
                                    v,
                                    kind,
                                    common,
                                ),
                            !progressed(rec0, acc.recorded(), acc.stops_at_first()) ==> forall|k: int, common: int|
                                0 <= k < ki ==> !#[trigger] locked_at(*grid, house as int, value, kinds@[k] as int, common),
                        decreases nk - ki,
                    {
                        let kind = kinds[ki];
                        if let Some(common) = shared_house(&cv, kind) {
                            proof {
                                assert(cv@.contains(cv@[0]));
                                assert forall|c: int| in_house(c, house as int) && #[trigger] grid.has_cand(c, value) implies in_house(
                                    c,
                                    common as int,
                                ) by {
                                    assert(cells@.contains(c as u8));
                                    assert(cv@.contains(c as u8));
                                    let k = choose|k: int| 0 <= k < cv@.len() && cv@[k] == c as u8;
                                    assert(house_of_kind(cv@[k] as int, kind as int) == common);
                                }
                                assert(common < 27) by {
                                    assert(house_of_kind(cv@[0] as int, kind as int) == common);
                                }
                                assert((common >= 18) == (house < 18)) by {
                                    assert(house_of_kind(cv@[0] as int, kind as int) == common);
                                }
                            }
                            if let Some(step) = self.create_locked_step(grid, &cells, house, common, value) {
                                let ghost ok = |s: Step| self.reports(*grid, s);
                                if report(acc, Step::LockedCandidate(step), Ghost(start), Ghost(ok)) {
                                    return;
                                }
                            } else {
                                proof {
                                    assert forall|cm: int| !#[trigger] locked_at(*grid, house as int, value, kind as int, cm) by {
                                        if locked_at(*grid, house as int, value, kind as int, cm) {
                                            assert(cv@.contains(cv@[0]));
                                            assert(cells@.contains(cv@[0]));
                                            assert(house_of_kind(cv@[0] as int, kind as int) == common);
                                        }
                                    }
                                }
                            }
                        } else {
                            proof {
                                assert forall|cm: int| !#[trigger] locked_at(*grid, house as int, value, kind as int, cm) by {
                                    if locked_at(*grid, house as int, value, kind as int, cm) && cv@.len() > 0 {
                                        let (i, j) = choose|i: int, j: int|
                                            0 <= i < cv@.len() && 0 <= j < cv@.len() && house_of_kind(#[trigger] cv@[i] as int, kind as int)
                                                != house_of_kind(#[trigger] cv@[j] as int, kind as int);
                                        assert(cv@.contains(cv@[i]) && cv@.contains(cv@[j]));
                                        assert(cells@.contains(cv@[i]) && cells@.contains(cv@[j]));
                                    }
                                }
                            }
                        }
                        ki = ki + 1;
                    }
                    proof {
                        if !progressed(rec0, acc.recorded(), acc.stops_at_first()) {
                            assert forall|kind: int, common: int| kind_for(house as int, kind) implies !#[trigger] locked_at(
                                *grid,
                                house as int,
                                value,
                                kind,
                                common,
                            ) by {
                                if house >= 18 {
                                    if kind == 0 {
                                        assert(kinds@[0] == 0);
                                    } else {
                                        assert(kinds@[1] == 1);
                                    }
                                } else {
                                    assert(kinds@[0] == 2);
                                }
                            }
                        }
                    }
                }
                value = value + 1;
            }
            hi = hi + 1;
        }
    }

    /// Reports locked candidates: pointing ones house by house among the blocks (first
    /// along a row, then along a column), claiming ones among the rows and then the columns.
    pub fn find_step<A: StepAccumulator>(&self, grid: &Grid, acc: &mut A)
        requires
            grid.wf(),
        ensures
            grows(old(acc).recorded(), final(acc).recorded(), |s: Step| self.reports(*grid, s)),
            final(acc).stops_at_first() == old(acc).stops_at_first(),
            self.finds_in(*grid) ==> progressed(old(acc).recorded(), final(acc).recorded(), old(acc).stops_at_first()),
    {
        let ghost start = acc.recorded();
        proof {
            assert(acc.recorded().subrange(0, start.len() as int) =~= start);
        }
        match self.candidate_type {
            LockedCandidateType::Pointing => {
                self.find_locked_candidate(HouseType::Block, grid, acc, Ghost(start));
            },
            LockedCandidateType::Claiming => {
                self.find_locked_candidate(HouseType::Row, grid, acc, Ghost(start));
                let ghost r1 = acc.recorded();
                if acc.is_finish() {
                    return;
                }
                self.find_locked_candidate(HouseType::Column, grid, acc, Ghost(start));
                proof {
                    crate::solver::common::lemma_progress_chain(start, r1, acc.recorded(), acc.stops_at_first());
                }
            },
        }
    }

    /// The grid has a locked candidate of this finder's kind: pointing from a block,
    /// claiming from a row or a column.
    pub open spec fn finds_in(self, g: Grid) -> bool {
        if self.kind() == LockedCandidateType::Pointing {
            locked_in(g, HouseType::Block)
        } else {
            locked_in(g, HouseType::Row) || locked_in(g, HouseType::Column)
        }
    }
}

} // verus!
