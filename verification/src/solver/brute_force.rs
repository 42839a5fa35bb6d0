use vstd::prelude::*;
use crate::candidate::Candidate;
use crate::grid::Grid;
use crate::solution::{Solution, SolutionState};
use crate::solver::step::{Step, givens_filled, cand_total, extends, lemma_place, lemma_total_bounds};
use crate::solver::step_accumulator::{StepAccumulator, SingleStepAccumulator};
use crate::solver::full_house::{FullHouseFinder, full_house_in};
use crate::solver::naked_single::{NakedSingleFinder, naked_single_at};
use crate::solver::hidden_single::{HiddenSingleFinder, hidden_single_in};
use crate::solver::SolverStrategy;
use crate::grid_constant::{sees, in_house};
use crate::grid::{no_peer_has, count_in_house, lemma_count_in_house_pos, cands_after_place};
use crate::solver::step::placed;
use crate::util::random::{fresh_rng, shuffle_in_place};
use crate::util::clock::past;
use rand::rngs::StdRng;
use web_time::Instant;

verus! {

/// A grid the search may work on: well formed, candidates agreeing with values, given
/// cells filled.
pub open spec fn searchable(g: Grid) -> bool {
    &&& g.wf()
    &&& g.state_valid()
    &&& givens_filled(g)
}

/// A finished grid: every cell filled, consistent.
pub open spec fn finished(g: Grid) -> bool {
    &&& g.wf()
    &&& forall|c: int| 0 <= c < 81 ==> #[trigger] g.value(c) != 0
    &&& g.consistent()
}

/// What a count of solutions says.
pub open spec fn state_of(n: int) -> SolutionState {
    if n == 0 {
        SolutionState::NoSolution
    } else if n == 1 {
        SolutionState::Unique
    } else {
        SolutionState::MoreThanOne
    }
}

/// `s` fills the 81 cells so that every house holds each digit exactly once: every cell
/// holds a digit, no two cells that see each other hold the same one, and every house
/// holds every digit.
pub open spec fn valid_fill(s: Seq<u8>) -> bool {
    &&& s.len() == 81
    &&& forall|c: int| 0 <= c < 81 ==> 1 <= #[trigger] s[c] <= 9
    &&& forall|c: int, b: int| #[trigger] sees(c, b) ==> s[c] != s[b]
    &&& forall|h: int, v: u8| 0 <= h < 27 && 1 <= v <= 9 ==> #[trigger] house_holds(s, h, v)
}

/// Some cell of house `h` holds digit `v` in `s`.
pub open spec fn house_holds(s: Seq<u8>, h: int, v: u8) -> bool {
    exists|c: int| #[trigger] in_house(c, h) && s[c] == v
}

/// Cell `c` of `s` keeps the grid's digit, or holds one of the cell's candidates.
pub open spec fn fits(g: Grid, s: Seq<u8>, c: int) -> bool {
    if g.value(c) != 0 {
        s[c] == g.value(c)
    } else {
        g.cands(c).contains(s[c])
    }
}

/// `s` is a solution of the grid: a valid fill that keeps the grid's digits and puts one
/// of its candidates into each empty cell.
pub open spec fn solves(g: Grid, s: Seq<u8>) -> bool {
    &&& valid_fill(s)
    &&& forall|c: int| 0 <= c < 81 ==> #[trigger] fits(g, s, c)
}

/// The solutions of a grid after a digit is written into an empty cell are its solutions
/// with that digit there.
pub proof fn lemma_place_solutions(g: Grid, new: Grid, p: Candidate)
    requires
        g.wf(),
        new.wf(),
        p.0 < 81,
        g.has_cand(p.0 as int, p.1),
        placed(g, new, p),
    ensures
        forall|s: Seq<u8>| #[trigger] solves(new, s) <==> solves(g, s) && s[p.0 as int] == p.1,
{
    g.lemma_wf();
    new.lemma_wf();
    let cell = p.0 as int;
    let v = p.1;
    assert forall|c: int| 0 <= c < 81 implies #[trigger] new.value(c) == (if c == cell { v } else { g.value(c) }) && new.cands(c)
        == (if c == cell {
        Set::<u8>::empty()
    } else if sees(cell, c) {
        g.cands(c).remove(v)
    } else {
        g.cands(c)
    }) by {
        assert(new.value_seq()[c] == new.value(c));
        assert(g.value_seq()[c] == g.value(c));
        assert(new.cand_seq()[c] == new.cands(c));
        assert(g.cand_seq()[c] == g.cands(c));
    }
    assert forall|s: Seq<u8>| #[trigger] solves(new, s) <==> solves(g, s) && s[cell] == v by {
        if solves(new, s) {
            assert(fits(new, s, cell));
            assert forall|c: int| 0 <= c < 81 implies #[trigger] fits(g, s, c) by {
                assert(fits(new, s, c));
                if c != cell && g.value(c) == 0 && sees(cell, c) {
                    assert(g.cands(c).remove(v).contains(s[c]));
                }
            }
        }
        if solves(g, s) && s[cell] == v {
            assert forall|c: int| 0 <= c < 81 implies #[trigger] fits(new, s, c) by {
                assert(fits(g, s, c));
                if c != cell && g.value(c) == 0 && sees(cell, c) {
                    assert(s[cell] != s[c]);
                }
            }
        }
    }
}

/// Every solution of a grid puts into a cell the digit a single finds there.
pub proof fn lemma_single_forced(g: Grid, step: Step, s: Seq<u8>)
    requires
        searchable(g),
        step.pattern(g),
        step is FullHouse || step is NakedSingle || step is HiddenSingle,
        solves(g, s),
    ensures
        step.placement() matches Some(p) && s[p.0 as int] == p.1,
{
    g.lemma_wf();
    match step {
        Step::FullHouse(f) => {
            let h = f.house as int;
            let v = f.value;
            assert(house_holds(s, h, v));
            let d = choose|d: int| #[trigger] in_house(d, h) && s[d] == v;
            assert(fits(g, s, d));
            if d != f.cell as int {
                assert(g.value(d) != 0);
                assert(g.value(d) != v);
            }
        },
        Step::NakedSingle(n) => {
            let c = n.candidate.0 as int;
            assert(fits(g, s, c));
            assert(g.cands(c).contains(s[c]));
        },
        Step::HiddenSingle(hs) => {
            let h = hs.house as int;
            let c = hs.candidate.0 as int;
            let v = hs.candidate.1;
            assert(house_holds(s, h, v));
            let d = choose|d: int| #[trigger] in_house(d, h) && s[d] == v;
            assert(fits(g, s, d));
            if g.value(d) != 0 {
                assert(sees(c, d));
                assert(!g.cands(c).contains(g.value(d)));
            } else {
                assert(g.has_cand(d, v));
            }
        },
        _ => {},
    }
}

/// Whether the grid has no solution, exactly one, or more.
pub open spec fn solution_state_of(g: Grid) -> SolutionState {
    if !(exists|s: Seq<u8>| solves(g, s)) {
        SolutionState::NoSolution
    } else if exists|s: Seq<u8>| solves(g, s) && forall|t: Seq<u8>| solves(g, t) ==> t == s {
        SolutionState::Unique
    } else {
        SolutionState::MoreThanOne
    }
}

/// What up to two distinct solutions, known to be all when fewer than two, say of the
/// grid.
proof fn lemma_state_from_found(g: Grid, found: Seq<Grid>)
    requires
        found.len() <= 2,
        distinct_fills(found),
        forall|i: int| 0 <= i < found.len() ==> solves(g, (#[trigger] found[i]).value_seq()),
        found.len() < 2 ==> forall|s: Seq<u8>| solves(g, s) ==> exists|i: int| 0 <= i < found.len() && (#[trigger] found[i]).value_seq() == s,
    ensures
        state_of(found.len() as int) == solution_state_of(g),
{
    if found.len() == 0 {
        assert(!(exists|s: Seq<u8>| solves(g, s)));
    } else if found.len() == 1 {
        let s0 = found[0].value_seq();
        assert(solves(g, s0));
        assert forall|t: Seq<u8>| solves(g, t) implies t == s0 by {
            let i = choose|i: int| 0 <= i < found.len() && (#[trigger] found[i]).value_seq() == t;
        }
    } else {
        let s0 = found[0].value_seq();
        let s1 = found[1].value_seq();
        assert(solves(g, s0));
        assert(solves(g, s1));
        assert(s0 != s1);
        if exists|s: Seq<u8>| solves(g, s) && forall|t: Seq<u8>| solves(g, t) ==> t == s {
            let s = choose|s: Seq<u8>| solves(g, s) && forall|t: Seq<u8>| solves(g, t) ==> t == s;
            assert(s0 == s);
            assert(s1 == s);
        }
    }
}

/// No two grids of the list hold the same digits.
pub open spec fn distinct_fills(l: Seq<Grid>) -> bool {
    forall|i: int, j: int| 0 <= i < j < l.len() ==> (#[trigger] l[i]).value_seq() != (#[trigger] l[j]).value_seq()
}

/// A single writes one of a cell's candidates.
pub proof fn lemma_single_candidate(g: Grid, step: Step)
    requires
        g.wf(),
        step.pattern(g),
        step is FullHouse || step is NakedSingle || step is HiddenSingle,
    ensures
        step.placement() matches Some(p) && p.0 < 81 && g.has_cand(p.0 as int, p.1),
{
    match step {
        Step::NakedSingle(n) => {
            assert(g.cands(n.candidate.0 as int).contains(n.candidate.1));
        },
        Step::HiddenSingle(h) => {
            assert(0 <= h.candidate.0 < 81);
        },
        Step::FullHouse(f) => {
            assert(0 <= f.cell < 81);
        },
        _ => {},
    }
}

/// A grid that is not consistent has no solution.
pub proof fn lemma_inconsistent_unsolvable(g: Grid, s: Seq<u8>)
    requires
        g.wf(),
        !g.consistent(),
    ensures
        !solves(g, s),
{
    g.lemma_wf();
    if solves(g, s) {
        if exists|c: int| 0 <= c < 81 && #[trigger] g.value(c) == 0 && g.cands(c) == Set::<u8>::empty() {
            let c = choose|c: int| 0 <= c < 81 && #[trigger] g.value(c) == 0 && g.cands(c) == Set::<u8>::empty();
            assert(fits(g, s, c));
        } else if exists|c: int| 0 <= c < 81 && #[trigger] g.value(c) != 0 && !no_peer_has(g.value_seq(), c, g.value(c)) {
            let c = choose|c: int| 0 <= c < 81 && #[trigger] g.value(c) != 0 && !no_peer_has(g.value_seq(), c, g.value(c));
            let b = choose|b: int| 0 <= b < 81 && sees(c, b) && g.value_seq()[b] == g.value(c);
            assert(fits(g, s, c));
            assert(fits(g, s, b));
            assert(s[c] != s[b]);
        } else {
            let (h, v) = choose|h: int, v: u8|
                0 <= h < 27 && 1 <= v <= 9 && !((exists|c: int| in_house(c, h) && #[trigger] g.value(c) == v) || #[trigger] g.house_count(h, v) > 0);
            assert(house_holds(s, h, v));
            let d = choose|d: int| #[trigger] in_house(d, h) && s[d] == v;
            assert(fits(g, s, d));
            if g.value(d) == 0 {
                assert(g.cand_seq()[d] == g.cands(d));
                lemma_count_in_house_pos(g.cand_seq(), h, v, 81, d);
            }
        }
    }
}

/// No cell `i < n` of house `h` has candidate `v` in `cs`: the count is zero.
proof fn lemma_count_in_house_none(cs: Seq<Set<u8>>, h: int, v: u8, n: int)
    requires
        forall|i: int| 0 <= i < n && in_house(i, h) ==> !#[trigger] cs[i].contains(v),
    ensures
        count_in_house(cs, h, v, n) == 0,
    decreases n,
{
    if n > 0 {
        lemma_count_in_house_none(cs, h, v, n - 1);
    }
}

/// A finished grid has exactly one solution: its own digits.
pub proof fn lemma_finished_solution(g: Grid)
    requires
        finished(g),
    ensures
        forall|s: Seq<u8>| #[trigger] solves(g, s) <==> s == g.value_seq(),
{
    g.lemma_wf();
    let vs = g.value_seq();
    assert forall|c: int| 0 <= c < 81 implies 1 <= #[trigger] vs[c] <= 9 by {
        assert(g.value(c) != 0);
    }
    assert forall|c: int, b: int| #[trigger] sees(c, b) implies vs[c] != vs[b] by {
        assert(g.value(c) != 0);
        assert(no_peer_has(g.value_seq(), c, g.value(c)));
    }
    assert forall|h: int, v: u8| 0 <= h < 27 && 1 <= v <= 9 implies #[trigger] house_holds(vs, h, v) by {
        if !(exists|c: int| in_house(c, h) && #[trigger] g.value(c) == v) {
            assert forall|i: int| 0 <= i < 81 && in_house(i, h) implies !#[trigger] g.cand_seq()[i].contains(v) by {
                assert(g.value(i) != 0);
            }
            lemma_count_in_house_none(g.cand_seq(), h, v, 81);
            assert(g.house_count(h, v) == 0);
        }
        let c = choose|c: int| in_house(c, h) && #[trigger] g.value(c) == v;
        assert(vs[c] == v);
    }
    assert(valid_fill(vs));
    assert forall|s: Seq<u8>| #[trigger] solves(g, s) <==> s == vs by {
        if solves(g, s) {
            assert forall|c: int| 0 <= c < 81 implies s[c] == vs[c] by {
                assert(fits(g, s, c));
                assert(g.value(c) != 0);
            }
            assert(s =~= vs);
        }
        if s == vs {
            assert forall|c: int| 0 <= c < 81 implies #[trigger] fits(g, s, c) by {
                assert(g.value(c) != 0);
            }
        }
    }
}

/// Solves by filling singles and trying each candidate of the cell with fewest
/// candidates.
pub struct BruteForceSolver {}

impl Default for BruteForceSolver {
    fn default() -> (r: Self) {
        BruteForceSolver {}
    }
}

impl BruteForceSolver {
    pub fn new() -> (r: Self) {
        BruteForceSolver {}
    }

    /// Writes full houses, naked singles and hidden singles until none is left; the grid
    /// keeps its solutions.
    fn fill_singles(&self, grid: &mut Grid)
        requires
            searchable(*old(grid)),
        ensures
            searchable(*final(grid)),
            extends(*old(grid), *final(grid)),
            cand_total(final(grid).cand_seq(), 81) <= cand_total(old(grid).cand_seq(), 81),
            forall|s: Seq<u8>| solves(*final(grid), s) <==> solves(*old(grid), s),
            !exists|h: int| 0 <= h < 27 && #[trigger] full_house_in(*final(grid), h),
            !exists|c: int| #[trigger] naked_single_at(*final(grid), c),
            !exists|h: int, v: u8, c: int| #[trigger] hidden_single_in(*final(grid), h, v, c),
    {
        let full_house = FullHouseFinder {};
        let naked_single = NakedSingleFinder {};
        let hidden_single = HiddenSingleFinder {};
        proof {
            lemma_total_bounds(*grid, 81);
        }
        loop
            invariant
                searchable(*grid),
                extends(*old(grid), *grid),
                cand_total(grid.cand_seq(), 81) <= cand_total(old(grid).cand_seq(), 81),
                cand_total(grid.cand_seq(), 81) >= 0,
                forall|s: Seq<u8>| solves(*grid, s) <==> solves(*old(grid), s),
            ensures
                searchable(*grid),
                extends(*old(grid), *grid),
                cand_total(grid.cand_seq(), 81) <= cand_total(old(grid).cand_seq(), 81),
                forall|s: Seq<u8>| solves(*grid, s) <==> solves(*old(grid), s),
                !exists|h: int| 0 <= h < 27 && #[trigger] full_house_in(*grid, h),
                !exists|c: int| #[trigger] naked_single_at(*grid, c),
                !exists|h: int, v: u8, c: int| #[trigger] hidden_single_in(*grid, h, v, c),
            decreases cand_total(grid.cand_seq(), 81),
        {
            let mut acc = SingleStepAccumulator::default();
            full_house.find_step(grid, &mut acc);
            if !acc.is_finish() {
                naked_single.find_step(grid, &mut acc);
            }
            if !acc.is_finish() {
                hidden_single.find_step(grid, &mut acc);
            }
            if !acc.is_finish() {
                break;
            }
            let ghost first = acc.recorded()[0];
            assert(first.pattern(*grid) && (first is FullHouse || first is NakedSingle || first is HiddenSingle));
            let step = acc.into_step();
            let ghost before = *grid;
            proof {
                step.lemma_applicable(*grid);
                lemma_single_candidate(*grid, step);
                assert forall|s: Seq<u8>| solves(before, s) implies (step.placement() matches Some(p) && s[p.0 as int] == p.1) by {
                    lemma_single_forced(before, step, s);
                }
            }
            step.apply(grid);
            proof {
                step.lemma_progress(before, *grid);
                step.lemma_keeps_valid(before, *grid);
                lemma_total_bounds(*grid, 81);
                before.lemma_wf();
                grid.lemma_wf();
                let p = step.placement().unwrap();
                lemma_place_solutions(before, *grid, p);
                assert forall|c: int| 0 <= c < 81 && #[trigger] before.value(c) != 0 implies grid.value(c) == before.value(c) by {
                    assert(before.value_seq()[c] == before.value(c));
                    assert(grid.value_seq()[c] == grid.value(c));
                    assert(c != p.0 as int);
                }
            }
        }
    }

    /// Depth-first search from `grid`, stopping once `max` solutions are known or the
    /// deadline has passed (then `truncated` is set); with `randomize`, the digits of a
    /// cell are tried in a random order. The solutions added are solutions of `grid`, each
    /// once; unless stopped, they are all of them.
    fn search_recursive(
        &self,
        grid: Grid,
        max: usize,
        randomize: bool,
        rng: &mut StdRng,
        deadline: &Option<Instant>,
        solutions: &mut Vec<Grid>,
        truncated: &mut bool,
        Ghost(start): Ghost<Grid>,
    )
        requires
            searchable(grid),
            extends(start, grid),
            start.wf(),
            forall|i: int| 0 <= i < old(solutions)@.len() ==> finished(#[trigger] old(solutions)@[i]) && extends(start, old(solutions)@[i]),
            distinct_fills(old(solutions)@),
            forall|i: int| 0 <= i < old(solutions)@.len() ==> !solves(grid, (#[trigger] old(solutions)@[i]).value_seq()),
        ensures
            final(solutions)@.len() >= old(solutions)@.len(),
            old(solutions)@.len() < max ==> final(solutions)@.len() <= max,
            old(solutions)@.len() >= max || *old(truncated) ==> final(solutions)@ == old(solutions)@,
            final(solutions)@.subrange(0, old(solutions)@.len() as int) == old(solutions)@,
            forall|i: int| 0 <= i < final(solutions)@.len() ==> finished(#[trigger] final(solutions)@[i]) && extends(start, final(solutions)@[i]),
            *old(truncated) ==> *final(truncated),
            deadline is None ==> *final(truncated) == *old(truncated),
            distinct_fills(final(solutions)@),
            forall|i: int| old(solutions)@.len() <= i < final(solutions)@.len() ==> solves(grid, (#[trigger] final(solutions)@[i]).value_seq()),
            !*final(truncated) && final(solutions)@.len() < max ==> forall|s: Seq<u8>| solves(grid, s) ==> exists|i: int|
                old(solutions)@.len() <= i < final(solutions)@.len() && (#[trigger] final(solutions)@[i]).value_seq() == s,
        decreases cand_total(grid.cand_seq(), 81),
    {
        if solutions.len() >= max || *truncated {
            return;
        }
        if past(deadline) {
            *truncated = true;
            return;
        }
        let mut g = grid;
        self.fill_singles(&mut g);
        if !g.is_consistent() {
            proof {
                assert forall|s: Seq<u8>| !solves(grid, s) by {
                    lemma_inconsistent_unsolvable(g, s);
                }
            }
            return;
        }
        if g.is_solved() {
            let ghost before = solutions@;
            solutions.push(g);
            proof {
                assert(solutions@.subrange(0, before.len() as int) =~= before);
                lemma_finished_solution(g);
                assert(solves(g, g.value_seq()));
                assert forall|i: int, j: int| 0 <= i < j < solutions@.len() implies (#[trigger] solutions@[i]).value_seq()
                    != (#[trigger] solutions@[j]).value_seq() by {
                    if j == before.len() {
                        assert(!solves(grid, before[i].value_seq()));
                    } else {
                        assert(solutions@[i] == before[i]);
                        assert(solutions@[j] == before[j]);
                    }
                }
                assert forall|s: Seq<u8>| solves(grid, s) implies exists|i: int|
                    before.len() <= i < solutions@.len() && (#[trigger] solutions@[i]).value_seq() == s by {
                    assert(solutions@[before.len() as int].value_seq() == s);
                }
            }
            return;
        }
        let cell = match g.get_min_candidate_cell() {
            Some(c) => c,
            None => {
                return;
            },
        };
        let mut cands = g.get_cell_candidate(cell).values();
        proof {
            assert(cands@.no_duplicates());
        }
        if randomize {
            let ghost unshuffled = cands@;
            shuffle_in_place(&mut cands, rng);
            proof {
                unshuffled.to_multiset_ensures();
                cands@.to_multiset_ensures();
                assert forall|v: u8| cands@.contains(v) <==> unshuffled.contains(v) by {
                    assert(cands@.to_multiset().count(v) == unshuffled.to_multiset().count(v));
                }
                unshuffled.lemma_multiset_has_no_duplicates();
                cands@.lemma_multiset_has_no_duplicates_conv();
            }
        }
        let mut k: usize = 0;
        let ghost sol0 = solutions@;
        while k < cands.len()
            invariant
                k <= cands@.len(),
                searchable(g),
                extends(start, g),
                start.wf(),
                cell < 81,
                g.value(cell as int) == 0,
                forall|v: u8| cands@.contains(v) <==> g.cands(cell as int).contains(v),
                cands@.no_duplicates(),
                cand_total(g.cand_seq(), 81) <= cand_total(grid.cand_seq(), 81),
                forall|s: Seq<u8>| solves(g, s) <==> solves(grid, s),
                solutions@.len() >= sol0.len(),
                sol0 == old(solutions)@,
                sol0.len() < max,
                solutions@.len() < max,
                solutions@.subrange(0, sol0.len() as int) == sol0,
                forall|i: int| 0 <= i < solutions@.len() ==> finished(#[trigger] solutions@[i]) && extends(start, solutions@[i]),
                distinct_fills(solutions@),
                forall|i: int| 0 <= i < sol0.len() ==> !solves(grid, (#[trigger] sol0[i]).value_seq()),
                forall|i: int|
                    sol0.len() <= i < solutions@.len() ==> solves(grid, (#[trigger] solutions@[i]).value_seq()) && exists|j: int|
                        0 <= j < k && solutions@[i].value_seq()[cell as int] == cands@[j],
                forall|s: Seq<u8>|
                    solves(grid, s) && (exists|j: int| 0 <= j < k && s[cell as int] == cands@[j]) ==> exists|i: int|
                        sol0.len() <= i < solutions@.len() && (#[trigger] solutions@[i]).value_seq() == s,
                !*truncated,
                !*old(truncated),
            decreases cands@.len() - k,
        {
            let v = cands[k];
            assert(cands@.contains(v));
            let mut next = g.duplicate();
            let ghost dup = next;
            proof {
                g.lemma_wf();
                dup.lemma_wf();
                assert(dup.value_seq()[cell as int] == dup.value(cell as int));
                assert(g.value_seq()[cell as int] == g.value(cell as int));
                assert(dup.given_seq()[cell as int] == dup.given(cell as int));
                assert(g.given_seq()[cell as int] == g.given(cell as int));
            }
            let ok = next.set_value(cell, v, false);
            let ghost mid = solutions@;
            if ok {
                proof {
                    g.lemma_wf();
                    assert(!g.given(cell as int));
                    lemma_place(g, next, Candidate(cell, v));
                    lemma_place_solutions(g, next, Candidate(cell, v));
                    assert forall|c: int| 0 <= c < 81 && #[trigger] start.value(c) != 0 implies next.value(c) == start.value(c) by {
                        assert(g.value(c) == start.value(c));
                    }
                    assert forall|i: int| 0 <= i < solutions@.len() implies !solves(next, (#[trigger] solutions@[i]).value_seq()) by {
                        if i < sol0.len() {
                            assert(solutions@[i] == sol0[i]);
                            assert(!solves(grid, sol0[i].value_seq()));
                        } else {
                            let j = choose|j: int| 0 <= j < k && solutions@[i].value_seq()[cell as int] == cands@[j];
                            assert(cands@[j] != cands@[k as int]);
                        }
                    }
                }
                assert(cand_total(next.cand_seq(), 81) < cand_total(grid.cand_seq(), 81));
                proof {
                    lemma_total_bounds(next, 81);
                }
                self.search_recursive(next, max, randomize, rng, deadline, solutions, truncated, Ghost(start));
                proof {
                    assert(solutions@.subrange(0, sol0.len() as int) =~= mid.subrange(0, sol0.len() as int));
                    assert forall|i: int|
                        sol0.len() <= i < solutions@.len() implies solves(grid, (#[trigger] solutions@[i]).value_seq()) && exists|j: int|
                            0 <= j < k + 1 && solutions@[i].value_seq()[cell as int] == cands@[j] by {
                        if i < mid.len() {
                            assert(solutions@[i] == mid[i]);
                        } else {
                            assert(solves(next, solutions@[i].value_seq()));
                        }
                    }
                    if !*truncated && solutions@.len() < max {
                        assert forall|s: Seq<u8>|
                            solves(grid, s) && (exists|j: int| 0 <= j < k + 1 && s[cell as int] == cands@[j]) implies exists|i: int|
                                sol0.len() <= i < solutions@.len() && (#[trigger] solutions@[i]).value_seq() == s by {
                            if s[cell as int] == v {
                                assert(solves(next, s));
                            } else {
                                let j = choose|j: int| 0 <= j < k + 1 && s[cell as int] == cands@[j];
                                let i = choose|i: int| sol0.len() <= i < mid.len() && (#[trigger] mid[i]).value_seq() == s;
                                assert(solutions@[i] == mid[i]);
                            }
                        }
                    }
                }
            } else {
                proof {
                    assert forall|s: Seq<u8>| solves(grid, s) implies s[cell as int] != v by {
                        assert(solves(g, s));
                        assert(!no_peer_has(dup.value_seq(), cell as int, v));
                        let b = choose|b: int| 0 <= b < 81 && sees(cell as int, b) && dup.value_seq()[b] == v;
                        assert(g.value_seq()[b] == g.value(b));
                        assert(fits(g, s, b));
                        assert(fits(g, s, cell as int));
                    }
                    assert forall|i: int|
                        sol0.len() <= i < solutions@.len() implies solves(grid, (#[trigger] solutions@[i]).value_seq()) && exists|j: int|
                            0 <= j < k + 1 && solutions@[i].value_seq()[cell as int] == cands@[j] by {
                        let j = choose|j: int| 0 <= j < k && solutions@[i].value_seq()[cell as int] == cands@[j];
                    }
                }
            }
            if solutions.len() >= max || *truncated {
                return;
            }
            k = k + 1;
        }
        proof {
            assert forall|s: Seq<u8>| solves(grid, s) implies exists|i: int|
                sol0.len() <= i < solutions@.len() && (#[trigger] solutions@[i]).value_seq() == s by {
                assert(solves(g, s));
                assert(fits(g, s, cell as int));
                assert(cands@.contains(s[cell as int]));
                let j = choose|j: int| 0 <= j < cands@.len() && cands@[j] == s[cell as int];
            }
        }
    }

    /// Up to `max` solutions of `grid`, each filled, consistent, and keeping the grid's
    /// digits.
    fn search(&self, grid: &Grid, max: usize, randomize: bool, rng: &mut StdRng, deadline: &Option<Instant>) -> (r: (Vec<Grid>, bool))
        requires
            searchable(*grid),
            max > 0,
        ensures
            r.0@.len() <= max,
            forall|i: int| 0 <= i < r.0@.len() ==> finished(#[trigger] r.0@[i]) && extends(*grid, r.0@[i]),
            deadline is None ==> !r.1,
            distinct_fills(r.0@),
            forall|i: int| 0 <= i < r.0@.len() ==> solves(*grid, (#[trigger] r.0@[i]).value_seq()),
            !r.1 && r.0@.len() < max ==> forall|s: Seq<u8>| solves(*grid, s) ==> exists|i: int|
                0 <= i < r.0@.len() && (#[trigger] r.0@[i]).value_seq() == s,
    {
        let mut solutions: Vec<Grid> = Vec::new();
        let g = grid.duplicate();
        proof {
            grid.lemma_wf();
            g.lemma_wf();
            assert forall|c: int| 0 <= c < 81 && #[trigger] grid.value(c) != 0 implies g.value(c) == grid.value(c) by {
                assert(g.value_seq()[c] == g.value(c));
                assert(grid.value_seq()[c] == grid.value(c));
            }
            assert forall|c: int, b: int|
                0 <= c < 81 && g.value(c) == 0 && sees(c, b) && g.value(b) != 0 implies !#[trigger] g.cands(c).contains(
                #[trigger] g.value(b),
            ) by {
                assert(g.value_seq()[c] == g.value(c));
                assert(grid.value_seq()[c] == grid.value(c));
                assert(g.cand_seq()[c] == g.cands(c));
                assert(grid.cand_seq()[c] == grid.cands(c));
                if 0 <= b < 81 {
                    assert(g.value_seq()[b] == g.value(b));
                    assert(grid.value_seq()[b] == grid.value(b));
                }
            }
            assert forall|c: int, b: int|
                0 <= c < 81 && #[trigger] g.value(c) != 0 && sees(c, b) implies #[trigger] g.value(b) != g.value(c)
                && !g.cands(b).contains(g.value(c)) by {
                assert(g.value_seq()[c] == g.value(c));
                assert(grid.value_seq()[c] == grid.value(c));
                assert(g.value_seq()[b] == g.value(b));
                assert(grid.value_seq()[b] == grid.value(b));
                assert(g.cand_seq()[b] == g.cands(b));
                assert(grid.cand_seq()[b] == grid.cands(b));
            }
            assert forall|c: int| 0 <= c < 81 && #[trigger] g.given(c) implies g.value(c) != 0 by {
                assert(g.given_seq()[c] == g.given(c));
                assert(grid.given_seq()[c] == grid.given(c));
                assert(g.value_seq()[c] == g.value(c));
                assert(grid.value_seq()[c] == grid.value(c));
            }
        }
        let mut truncated = false;
        proof {
            assert forall|t: Seq<u8>| solves(g, t) <==> solves(*grid, t) by {
                assert forall|c: int| 0 <= c < 81 implies #[trigger] fits(g, t, c) == fits(*grid, t, c) by {
                    assert(g.value_seq()[c] == g.value(c));
                    assert(grid.value_seq()[c] == grid.value(c));
                    assert(g.cand_seq()[c] == g.cands(c));
                    assert(grid.cand_seq()[c] == grid.cands(c));
                }
                if solves(g, t) {
                    assert forall|c: int| 0 <= c < 81 implies #[trigger] fits(*grid, t, c) by {
                        assert(fits(g, t, c));
                    }
                }
                if solves(*grid, t) {
                    assert forall|c: int| 0 <= c < 81 implies #[trigger] fits(g, t, c) by {
                        assert(fits(*grid, t, c));
                    }
                }
            }
        }
        self.search_recursive(g, max, randomize, rng, deadline, &mut solutions, &mut truncated, Ghost(*grid));
        (solutions, truncated)
    }

    /// Solves the grid: the first solution found, and whether there is none, one, or
    /// more (the search stops at the second). A found solution is filled, consistent and
    /// keeps the grid's digits; with none, the values are all zero.
    pub fn solve(&self, grid: &Grid) -> (r: Solution)
        requires
            searchable(*grid),
        ensures
            r.kind() == solution_state_of(*grid),
            !(r.kind() is NoSolution) ==> solves(*grid, r.digits()),
            r.kind() is Unique || r.kind() is MoreThanOne ==> exists|s: Grid|
                finished(s) && extends(*grid, s) && r.digits() == s.value_seq(),
            r.kind() is NoSolution ==> r.digits() == Seq::new(81, |i: int| 0u8),
    {
        let mut rng = fresh_rng();
        let (found, _) = self.search(grid, 2, false, &mut rng, &None);
        let state = solution_state(found.len());
        proof {
            lemma_state_from_found(*grid, found@);
        }
        let mut values: [u8; 81] = [0; 81];
        if found.len() > 0 {
            let first = found[0].values();
            proof {
                found@[0].lemma_wf();
            }
            let mut i: usize = 0;
            while i < 81
                invariant
                    i <= 81,
                    first@.len() == 81,
                    forall|j: int| 0 <= j < i ==> values@[j] == first@[j],
                decreases 81 - i,
            {
                values[i] = first[i];
                i = i + 1;
            }
            assert(values@ =~= first@);
            assert(found@[0].value_seq() == first@);
        } else {
            assert(values@ =~= Seq::new(81, |i: int| 0u8));
        }
        Solution::new(values, state)
    }

    /// A random filled grid, drawn with a generator of its own.
    pub fn generate_solution(&self) -> (r: Option<Grid>)
        ensures
            r matches Some(g) ==> finished(g),
            r is None ==> forall|s: Seq<u8>| !#[trigger] valid_fill(s),
    {
        let mut rng = fresh_rng();
        self.generate_solution_with_rng(&mut rng)
    }

    /// A random filled grid: the search from the empty grid tries the digits of each cell
    /// in the order `rng` shuffles them, and stops at the first solution.
    pub fn generate_solution_with_rng(&self, rng: &mut StdRng) -> (r: Option<Grid>)
        ensures
            r matches Some(g) ==> finished(g),
            r is None ==> forall|s: Seq<u8>| !#[trigger] valid_fill(s),
    {
        let empty = Grid::default();
        let (mut found, _) = self.search(&empty, 1, true, rng, &None);
        proof {
            if found@.len() == 0 {
                assert forall|s: Seq<u8>| !#[trigger] valid_fill(s) by {
                    if valid_fill(s) {
                        assert forall|c: int| 0 <= c < 81 implies #[trigger] fits(empty, s, c) by {
                            assert(1 <= s[c] <= 9);
                        }
                        assert(solves(empty, s));
                    }
                }
            }
        }
        found.pop()
    }

    /// As [`BruteForceSolver::generate_solution_with_rng`], but `None` once the deadline
    /// has passed before the search ends.
    pub fn generate_solution_with_rng_and_deadline(&self, rng: &mut StdRng, deadline: Instant) -> (r: Option<Grid>)
        ensures
            r matches Some(g) ==> finished(g),
    {
        let empty = Grid::default();
        let (mut found, truncated) = self.search(&empty, 1, true, rng, &Some(deadline));
        if truncated {
            None
        } else {
            found.pop()
        }
    }

    /// Whether the grid has no solution, one, or more; `None` once the deadline has
    /// passed before the search ends.
    pub fn get_solution_state_with_deadline(&self, grid: &Grid, deadline: Instant) -> (r: Option<SolutionState>)
        requires
            searchable(*grid),
        ensures
            r matches Some(st) ==> st == solution_state_of(*grid),
            r matches Some(st) ==> (st is Unique || st is MoreThanOne ==> exists|s: Grid| finished(s) && extends(*grid, s)),
    {
        let mut rng = fresh_rng();
        let (found, truncated) = self.search(grid, 2, false, &mut rng, &Some(deadline));
        if truncated {
            None
        } else {
            let st = solution_state(found.len());
            proof {
                lemma_state_from_found(*grid, found@);
                if found@.len() > 0 {
                    assert(finished(found@[0]) && extends(*grid, found@[0]));
                }
            }
            Some(st)
        }
    }

    /// Whether the grid has no solution, one, or more.
    pub fn get_solution_state(&self, grid: &Grid) -> (r: SolutionState)
        requires
            searchable(*grid),
        ensures
            r == solution_state_of(*grid),
            r is Unique || r is MoreThanOne ==> exists|s: Grid| finished(s) && extends(*grid, s),
    {
        let solution = self.solve(grid);
        *solution.state()
    }
}

/// What a count of solutions says.
fn solution_state(n: usize) -> (r: SolutionState)
    ensures
        r == state_of(n as int),
{
    if n == 0 {
        SolutionState::NoSolution
    } else if n == 1 {
        SolutionState::Unique
    } else {
        SolutionState::MoreThanOne
    }
}

} // verus!
