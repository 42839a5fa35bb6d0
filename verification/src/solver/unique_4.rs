use vstd::prelude::*;
use crate::candidate::Candidate;
use crate::grid::Grid;
use crate::grid_constant::{row, col, block, row_of, col_of, block_of, in_house};
use crate::solver::step::Step;
use crate::solver::step_accumulator::StepAccumulator;
use crate::solver::common::{grows, progressed, lemma_progress_chain};
use crate::solver::unique_3::shares_house;
use crate::solver::unique::{
    UniqueRectangle, UniqueStep, UniqueType, add_unique_step, find_unique_rectangles, corners_over, without_listed,
    corners_ok, from_rects, shown, two_extra, locked_pair, locked_side, present_of, lemma_grows_from_rects, ur_on, listed_ab,
};

verus! {

/// Some cell of house `h` besides `f` and `s` holds candidate `v`.
pub open spec fn elsewhere(g: Grid, h: int, f: u8, s: u8, v: u8) -> bool {
    exists|c: int| 0 <= c < 81 && in_house(c, h) && c != f && c != s && #[trigger] g.has_cand(c, v)
}

/// A unique rectangle of type 4 on corners `p` and digits `a`, `b`: corners `i` and `j`
/// alone have extra candidates and share a line; in a house `h` they share one of the
/// digits has no other place, and the other digit is a candidate of one of them.
pub open spec fn type4_at(g: Grid, p: Seq<u8>, a: u8, b: u8, i: int, j: int, h: int) -> bool {
    let gone = if !elsewhere(g, h, p[i], p[j], a) { b } else { a };
    &&& two_extra(g, p, i, j)
    &&& (row_of(p[i] as int) == row_of(p[j] as int) || col_of(p[i] as int) == col_of(p[j] as int))
    &&& shares_house(p[i] as int, p[j] as int, h)
    &&& elsewhere(g, h, p[i], p[j], a) != elsewhere(g, h, p[i], p[j], b)
    &&& (g.has_cand(p[i] as int, gone) || g.has_cand(p[j] as int, gone))
}

/// Only one pair of corners has extra candidates.
proof fn lemma_two_extra_once(g: Grid, p: Seq<u8>, i: int, j: int, i2: int, j2: int)
    requires
        two_extra(g, p, i, j),
        two_extra(g, p, i2, j2),
    ensures
        i == i2 && j == j2,
{
    assert(g.cands(p[i2] as int).len() >= 3 && g.cands(p[j2] as int).len() >= 3);
}

/// Finds unique rectangles of type 4: two corners of one line carry extra candidates, and
/// one digit has no other place in a house they share, so the other digit leaves them.
#[derive(Debug, Default)]
pub struct Unique4Finder {}

impl Unique4Finder {
    /// Some rectangle of type 4 on two digits that all its corners hold removes a
    /// candidate.
    pub open spec fn finds_in(self, g: Grid) -> bool {
        exists|p: Seq<u8>, a: u8, b: u8, i: int, j: int, h: int|
            1 <= a < b <= 9 && ur_on(g, p, a, b) && #[trigger] type4_at(g, p, a, b, i, j, h)
    }

    /// Looks for type 4 among all rectangles of the grid; when one removes a candidate, a
    /// step is reported.
    pub fn find_unique_type4<A: StepAccumulator>(&self, grid: &Grid, acc: &mut A)
        requires
            grid.wf(),
        ensures
            grows(old(acc).recorded(), final(acc).recorded(), |s: Step| s.pattern(*grid) && s is UniqueStep),
            final(acc).stops_at_first() == old(acc).stops_at_first(),
            self.finds_in(*grid) ==> progressed(old(acc).recorded(), final(acc).recorded(), old(acc).stops_at_first()),
    {
        let ghost start = acc.recorded();
        let rectangles = find_unique_rectangles(grid);
        let mut seen: Vec<Vec<Candidate>> = Vec::new();
        find_steps(grid, &rectangles, acc, &mut seen);
        proof {
            lemma_grows_from_rects(*grid, rectangles@, UniqueType::Type4, start, acc.recorded());
            if self.finds_in(*grid) {
                let (p, a, b, i, j, h) = choose|p: Seq<u8>, a: u8, b: u8, i: int, j: int, h: int|
                    1 <= a < b <= 9 && ur_on(*grid, p, a, b) && #[trigger] type4_at(*grid, p, a, b, i, j, h);
                assert(listed_ab(rectangles@, p, a, b));
                let k = choose|k: int|
                    0 <= k < rectangles@.len() && (#[trigger] rectangles@[k]).corners() == p && rectangles@[k].digit_a() == a
                        && rectangles@[k].digit_b() == b;
                assert(type4_at(*grid, rectangles@[k].corners(), rectangles@[k].digit_a(), rectangles@[k].digit_b(), i, j, h));
            }
        }
    }

    /// Looks for type 4 among the given rectangles; when one removes a candidate, a step is
    /// reported.
    pub fn check_unique_type4<A: StepAccumulator>(&self, grid: &Grid, urs: Vec<UniqueRectangle>, acc: &mut A, _a: u8, _b: u8)
        requires
            grid.wf(),
            corners_ok(urs@),
        ensures
            grows(old(acc).recorded(), final(acc).recorded(), |s: Step| from_rects(*grid, urs@, UniqueType::Type4, s)),
            final(acc).stops_at_first() == old(acc).stops_at_first(),
            forall|k: int, i: int, j: int, h: int|
                0 <= k < urs@.len() && #[trigger] type4_at(*grid, urs@[k].corners(), urs@[k].digit_a(), urs@[k].digit_b(), i, j, h)
                    ==> progressed(old(acc).recorded(), final(acc).recorded(), old(acc).stops_at_first()),
    {
        let mut seen: Vec<Vec<Candidate>> = Vec::new();
        find_steps(grid, &urs, acc, &mut seen);
    }
}

/// The cells of house `h` other than `f` and `s` with candidate `v`.
fn others_with(grid: &Grid, h: u8, f: u8, s: u8, v: u8) -> (r: bool)
    requires
        grid.wf(),
    ensures
        r == exists|c: int| 0 <= c < 81 && in_house(c, h as int) && c != f && c != s && #[trigger] grid.has_cand(c, v),
{
    let mut cells = grid.candidate_cells_in_house(h, v);
    cells.remove(f);
    cells.remove(s);
    let empty = cells.is_empty();
    proof {
        if !empty {
            if !(exists|x: u8| cells@.contains(x)) {
                assert(cells@ =~= Set::<u8>::empty());
            }
            let x = choose|x: u8| cells@.contains(x);
            assert(grid.has_cand(x as int, v));
            assert(in_house(x as int, h as int) && x != f && x != s);
        } else {
            assert forall|c: int| 0 <= c < 81 && in_house(c, h as int) && c != f && c != s implies !#[trigger] grid.has_cand(c, v) by {
                if grid.has_cand(c, v) {
                    assert(cells@.contains(c as u8));
                }
            }
        }
    }
    !empty
}

/// Reports, rectangle by rectangle, the corners of one line with extra candidates when
/// one digit is locked to them in a house they share; stops once the accumulator is done.
pub(crate) fn find_steps<A: StepAccumulator>(
    grid: &Grid,
    rectangles: &Vec<UniqueRectangle>,
    acc: &mut A,
    seen: &mut Vec<Vec<Candidate>>,
)
    requires
        grid.wf(),
        corners_ok(rectangles@),
    ensures
        grows(old(acc).recorded(), final(acc).recorded(), |s: Step| from_rects(*grid, rectangles@, UniqueType::Type4, s)),
        final(acc).stops_at_first() == old(acc).stops_at_first(),
        final(seen)@ == old(seen)@ || progressed(old(acc).recorded(), final(acc).recorded(), old(acc).stops_at_first()),
        forall|k: int, i: int, j: int, h: int|
            0 <= k < rectangles@.len() && old(seen)@.len() == 0 && #[trigger] type4_at(
                *grid,
                rectangles@[k].corners(),
                rectangles@[k].digit_a(),
                rectangles@[k].digit_b(),
                i,
                j,
                h,
            ) ==> progressed(old(acc).recorded(), final(acc).recorded(), old(acc).stops_at_first()),
{
    let ghost start = acc.recorded();
    let ghost stop = acc.stops_at_first();
    let ghost seen0 = seen@;
    let ghost ok = |s: Step| from_rects(*grid, rectangles@, UniqueType::Type4, s);
    proof {
        assert(acc.recorded().subrange(0, start.len() as int) =~= start);
    }
    let mut idx: usize = 0;
    while idx < rectangles.len()
        invariant
            idx <= rectangles@.len(),
            grid.wf(),
            corners_ok(rectangles@),
            ok == (|s: Step| from_rects(*grid, rectangles@, UniqueType::Type4, s)),
            grows(start, acc.recorded(), ok),
            acc.stops_at_first() == stop,
            start == old(acc).recorded(),
            stop == old(acc).stops_at_first(),
            start.len() <= acc.recorded().len(),
            seen0 == old(seen)@,
            !progressed(start, acc.recorded(), stop) ==> seen@ == seen0,
            seen0.len() == 0 && !progressed(start, acc.recorded(), stop) ==> forall|k: int, i: int, j: int, h: int|
                0 <= k < idx ==> !#[trigger] type4_at(
                    *grid,
                    rectangles@[k].corners(),
                    rectangles@[k].digit_a(),
                    rectangles@[k].digit_b(),
                    i,
                    j,
                    h,
                ),
        decreases rectangles@.len() - idx,
    {
        let ur = rectangles[idx];
        let (a, b) = ur.values();
        let cells = ur.cells();
        assert(forall|i: int| 0 <= i < 4 ==> #[trigger] cells@[i] < 81) by {
            assert forall|i: int| 0 <= i < 4 implies #[trigger] cells@[i] < 81 by {
                assert(rectangles@[idx as int].corners()[i] < 81);
            }
        }
        let over = corners_over(grid, cells, 2);
        if over.len() == 2 {
            let i = over[0];
            let j = over[1];
            let first = cells[i];
            let second = cells[j];
            proof {
                assert(two_extra(*grid, ur.corners(), i as int, j as int)) by {
                    assert(over@.contains(i) && over@.contains(j));
                    assert forall|k: int| 0 <= k < 4 && k != i && k != j implies grid.cands(#[trigger] ur.corners()[k] as int).len() < 3 by {
                        if over@.contains(k as usize) {
                            let x = choose|x: int| 0 <= x < over@.len() && over@[x] == k as usize;
                        }
                    }
                }
                assert(rectangles@[idx as int] == ur);
            }
            if row(first) == row(second) || col(first) == col(second) {
                let mut houses: Vec<u8> = Vec::new();
                if row(first) == row(second) {
                    houses.push(row(first));
                }
                if col(first) == col(second) {
                    houses.push(col(first));
                }
                if block(first) == block(second) {
                    houses.push(block(first));
                }
                assert(forall|q: int| 0 <= q < houses@.len() ==> #[trigger] houses@[q] < 27 && in_house(first as int, houses@[q] as int)
                    && in_house(second as int, houses@[q] as int));
                proof {
                    assert forall|hh: int| #[trigger] shares_house(first as int, second as int, hh) implies exists|x: int|
                        0 <= x < houses@.len() && houses@[x] as int == hh by {
                        if hh == row_of(first as int) && hh == row_of(second as int) {
                            assert(houses@[0] as int == hh);
                        } else if hh == col_of(first as int) && hh == col_of(second as int) {
                            if row_of(first as int) == row_of(second as int) {
                                assert(houses@[1] as int == hh);
                            } else {
                                assert(houses@[0] as int == hh);
                            }
                        } else {
                            assert(houses@[houses@.len() - 1] as int == hh);
                        }
                    }
                }
                let mut q: usize = 0;
                while q < houses.len()
                    invariant
                        q <= houses@.len(),
                        idx < rectangles@.len(),
                        rectangles@[idx as int] == ur,
                        ur.corners() == cells@,
                        (a, b) == (ur.digit_a(), ur.digit_b()),
                        i < j < 4,
                        first == cells@[i as int],
                        second == cells@[j as int],
                        first < 81,
                        second < 81,
                        two_extra(*grid, ur.corners(), i as int, j as int),
                        forall|x: int| 0 <= x < houses@.len() ==> #[trigger] houses@[x] < 27 && in_house(first as int, houses@[x] as int)
                            && in_house(second as int, houses@[x] as int),
                        grid.wf(),
                        ok == (|s: Step| from_rects(*grid, rectangles@, UniqueType::Type4, s)),
                        grows(start, acc.recorded(), ok),
                        acc.stops_at_first() == stop,
                        start == old(acc).recorded(),
                        stop == old(acc).stops_at_first(),
                        start.len() <= acc.recorded().len(),
                        seen0 == old(seen)@,
                        !progressed(start, acc.recorded(), stop) ==> seen@ == seen0,
                        seen0.len() == 0 && !progressed(start, acc.recorded(), stop) ==> forall|k: int, i2: int, j2: int, h: int|
                            0 <= k < idx ==> !#[trigger] type4_at(
                                *grid,
                                rectangles@[k].corners(),
                                rectangles@[k].digit_a(),
                                rectangles@[k].digit_b(),
                                i2,
                                j2,
                                h,
                            ),
                        seen0.len() == 0 && !progressed(start, acc.recorded(), stop) ==> forall|x: int|
                            0 <= x < q ==> !#[trigger] type4_at(*grid, ur.corners(), a, b, i as int, j as int, houses@[x] as int),
                    decreases houses@.len() - q,
                {
                    let h = houses[q];
                    let others_a = others_with(grid, h, first, second, a);
                    let others_b = others_with(grid, h, first, second, b);
                    let ghost rec_b = acc.recorded();
                    let ghost seen_b = seen@;
                    if others_a != others_b {
                        let locked = if !others_a { a } else { b };
                        let gone = if !others_a { b } else { a };
                        let mut remove: Vec<Candidate> = Vec::new();
                        remove.push(Candidate::new(first, gone));
                        remove.push(Candidate::new(second, gone));
                        let highlight = without_listed(&ur.candidates(), &remove);
                        let step = UniqueStep {
                            unique_type: UniqueType::Type4,
                            highlight_candidates: highlight,
                            remove_candidates: remove,
                            fin_candidates: Vec::new(),
                        };
                        proof {
                            assert(locked_pair(*grid, h as int, first, second, locked));
                            assert(step.remove_candidates@ =~= seq![Candidate(first, gone), Candidate(second, gone)]);
                            assert forall|s: Step|
                                (s matches Step::UniqueStep(u) && u.unique_type == step.unique_type && u.remove_candidates@.len() > 0
                                    && present_of(*grid, u.remove_candidates@, step.remove_candidates@)) implies #[trigger] ok(s) by {
                                let u = s->UniqueStep_0;
                                assert(locked_side(*grid, h as int, ur.corners()[i as int], ur.corners()[j as int], a, b, u.remove_candidates@));
                                assert(shown(*grid, UniqueType::Type4, u.remove_candidates@, ur.corners(), a, b));
                            }
                            if type4_at(*grid, ur.corners(), a, b, i as int, j as int, h as int) {
                                assert(others_a == elsewhere(*grid, h as int, first, second, a));
                                assert(others_b == elsewhere(*grid, h as int, first, second, b));
                                if grid.has_cand(first as int, gone) {
                                    assert(step.remove_candidates@[0] == Candidate(first, gone));
                                } else {
                                    assert(step.remove_candidates@[1] == Candidate(second, gone));
                                }
                            }
                        }
                        let finish = add_unique_step(grid, step, seen, acc, Ghost(start), Ghost(ok));
                        proof {
                            lemma_progress_chain(start, rec_b, acc.recorded(), stop);
                        }
                        if finish {
                            return;
                        }
                    } else {
                        proof {
                            assert(others_a == elsewhere(*grid, h as int, first, second, a));
                            assert(others_b == elsewhere(*grid, h as int, first, second, b));
                        }
                    }
                    q = q + 1;
                }
                proof {
                    if seen0.len() == 0 && !progressed(start, acc.recorded(), stop) {
                        assert forall|i2: int, j2: int, hh: int| !#[trigger] type4_at(
                            *grid,
                            rectangles@[idx as int].corners(),
                            rectangles@[idx as int].digit_a(),
                            rectangles@[idx as int].digit_b(),
                            i2,
                            j2,
                            hh,
                        ) by {
                            if type4_at(*grid, ur.corners(), a, b, i2, j2, hh) {
                                lemma_two_extra_once(*grid, ur.corners(), i as int, j as int, i2, j2);
                                let x = choose|x: int| 0 <= x < houses@.len() && houses@[x] as int == hh;
                                assert(!type4_at(*grid, ur.corners(), a, b, i as int, j as int, houses@[x] as int));
                            }
                        }
                    }
                }
            } else {
                proof {
                    assert forall|i2: int, j2: int, hh: int| !#[trigger] type4_at(
                        *grid,
                        rectangles@[idx as int].corners(),
                        rectangles@[idx as int].digit_a(),
                        rectangles@[idx as int].digit_b(),
                        i2,
                        j2,
                        hh,
                    ) by {
                        if type4_at(*grid, ur.corners(), a, b, i2, j2, hh) {
                            lemma_two_extra_once(*grid, ur.corners(), i as int, j as int, i2, j2);
                        }
                    }
                }
            }
        } else {
            proof {
                assert forall|i2: int, j2: int, hh: int| !#[trigger] type4_at(
                    *grid,
                    rectangles@[idx as int].corners(),
                    rectangles@[idx as int].digit_a(),
                    rectangles@[idx as int].digit_b(),
                    i2,
                    j2,
                    hh,
                ) by {
                    if type4_at(*grid, ur.corners(), a, b, i2, j2, hh) {
                        assert(over@.contains(i2 as usize) && over@.contains(j2 as usize));
                        let x = choose|x: int| 0 <= x < over@.len() && over@[x] == i2 as usize;
                        let y = choose|y: int| 0 <= y < over@.len() && over@[y] == j2 as usize;
                        if over@.len() > 2 {
                            assert(over@[0] < over@[1] < over@[2]);
                            assert forall|m: int| 0 <= m < 3 implies over@[m] == i2 as usize || over@[m] == j2 as usize by {
                                let k = over@[m] as int;
                                assert(over@.contains(over@[m]));
                                assert(grid.cands(cells@[k] as int).len() > 2);
                                assert(cells@[k] == ur.corners()[k]);
                            }
                        }
                        if over@.len() == 1 {
                            assert(x == 0 && y == 0);
                        }
                    }
                }
            }
        }
        idx = idx + 1;
    }
}

} // verus!
