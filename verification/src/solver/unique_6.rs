use vstd::prelude::*;
use crate::candidate::Candidate;
use crate::grid::Grid;
use crate::grid_constant::{row, col, row_of, col_of};
use crate::solver::step::Step;
use crate::solver::step_accumulator::StepAccumulator;
use crate::solver::common::{grows, progressed, lemma_progress_chain};
use crate::solver::unique::{
    UniqueRectangle, UniqueStep, UniqueType, add_unique_step, find_unique_rectangles, corners_over, corners_ok,
    from_rects, shown, two_extra, absent_around, absent_side, present_of, lemma_grows_from_rects, ur_on, listed_ab,
};

verus! {

/// A unique rectangle of type 6 on corners `p` and digits `a`, `b`: diagonal corners `i`
/// and `j` alone have extra candidates, digit `v` (one of the two) has no other place in
/// their rows and columns, and one of them holds it.
pub open spec fn type6_at(g: Grid, p: Seq<u8>, a: u8, b: u8, i: int, j: int, v: u8) -> bool {
    &&& two_extra(g, p, i, j)
    &&& row_of(p[i] as int) != row_of(p[j] as int)
    &&& col_of(p[i] as int) != col_of(p[j] as int)
    &&& (v == a || v == b)
    &&& absent_around(g, p, p[i], p[j], v)
    &&& (g.has_cand(p[i] as int, v) || g.has_cand(p[j] as int, v))
}

/// Only one pair of corners has extra candidates.
proof fn lemma_two_extra_single(g: Grid, p: Seq<u8>, i: int, j: int, i2: int, j2: int)
    requires
        two_extra(g, p, i, j),
        two_extra(g, p, i2, j2),
    ensures
        i == i2 && j == j2,
{
    assert(g.cands(p[i2] as int).len() >= 3 && g.cands(p[j2] as int).len() >= 3);
}

/// Finds unique rectangles of type 6: two diagonal corners carry extra candidates, and a
/// digit has no other place in the rectangle's rows and columns, so it leaves them.
#[derive(Debug, Default)]
pub struct Unique6Finder {}

impl Unique6Finder {
    /// Some rectangle of type 6 on two digits that all its corners hold removes a
    /// candidate.
    pub open spec fn finds_in(self, g: Grid) -> bool {
        exists|p: Seq<u8>, a: u8, b: u8, i: int, j: int, v: u8|
            1 <= a < b <= 9 && ur_on(g, p, a, b) && #[trigger] type6_at(g, p, a, b, i, j, v)
    }

    /// Looks for type 6 among all rectangles of the grid; when one removes a candidate, a
    /// step is reported.
    pub fn find_unique_type6<A: StepAccumulator>(&self, grid: &Grid, acc: &mut A)
        requires
            grid.wf(),
        ensures
            grows(old(acc).recorded(), final(acc).recorded(), |s: Step| s.pattern(*grid) && s is UniqueStep),
            final(acc).stops_at_first() == old(acc).stops_at_first(),
            self.finds_in(*grid) ==> progressed(old(acc).recorded(), final(acc).recorded(), old(acc).stops_at_first()),
    {
        let ghost start = acc.recorded();
        let rectangles = find_unique_rectangles(grid);
        let mut seen: Vec<Vec<Candidate>> = Vec::new();
        find_steps(grid, &rectangles, acc, &mut seen);
        proof {
            lemma_grows_from_rects(*grid, rectangles@, UniqueType::Type6, start, acc.recorded());
            if self.finds_in(*grid) {
                let (p, a, b, i, j, v) = choose|p: Seq<u8>, a: u8, b: u8, i: int, j: int, v: u8|
                    1 <= a < b <= 9 && ur_on(*grid, p, a, b) && #[trigger] type6_at(*grid, p, a, b, i, j, v);
                assert(listed_ab(rectangles@, p, a, b));
                let k = choose|k: int|
                    0 <= k < rectangles@.len() && (#[trigger] rectangles@[k]).corners() == p && rectangles@[k].digit_a() == a
                        && rectangles@[k].digit_b() == b;
                assert(type6_at(*grid, rectangles@[k].corners(), rectangles@[k].digit_a(), rectangles@[k].digit_b(), i, j, v));
            }
        }
    }

    /// Looks for type 6 among the given rectangles; when one removes a candidate, a step is
    /// reported.
    pub fn check_unique_type6<A: StepAccumulator>(&self, grid: &Grid, urs: Vec<UniqueRectangle>, acc: &mut A, _a: u8, _b: u8)
        requires
            grid.wf(),
            corners_ok(urs@),
        ensures
            grows(old(acc).recorded(), final(acc).recorded(), |s: Step| from_rects(*grid, urs@, UniqueType::Type6, s)),
            final(acc).stops_at_first() == old(acc).stops_at_first(),
            forall|k: int, i: int, j: int, v: u8|
                0 <= k < urs@.len() && #[trigger] type6_at(*grid, urs@[k].corners(), urs@[k].digit_a(), urs@[k].digit_b(), i, j, v)
                    ==> progressed(old(acc).recorded(), final(acc).recorded(), old(acc).stops_at_first()),
    {
        let mut seen: Vec<Vec<Candidate>> = Vec::new();
        find_steps(grid, &urs, acc, &mut seen);
    }
}

/// Whether digit `v` is a candidate outside the corners in the rows and columns of `f`
/// and `s`.
fn lines_have(grid: &Grid, cells: [u8; 4], f: u8, s: u8, v: u8) -> (r: bool)
    requires
        grid.wf(),
        f < 81,
        s < 81,
    ensures
        r == !absent_around(*grid, cells@, f, s, v),
{
    let mut c: u8 = 0;
    while c < 81
        invariant
            c <= 81,
            f < 81,
            s < 81,
            grid.wf(),
            forall|x: int|
                0 <= x < c && (row_of(x) == row_of(f as int) || row_of(x) == row_of(s as int) || col_of(x) == col_of(f as int)
                    || col_of(x) == col_of(s as int)) && !cells@.contains(x as u8) ==> !#[trigger] grid.has_cand(x, v),
        decreases 81 - c,
    {
        let in_lines = row(c) == row(f) || row(c) == row(s) || col(c) == col(f) || col(c) == col(s);
        let corner = c == cells[0] || c == cells[1] || c == cells[2] || c == cells[3];
        proof {
            if !corner {
                assert forall|i: int| 0 <= i < 4 implies cells@[i] != c by {}
            } else {
                assert(cells@.contains(c));
            }
        }
        if in_lines && !corner && grid.cell_has_candidate(c, v) {
            return true;
        }
        c = c + 1;
    }
    false
}

/// Reports, rectangle by rectangle, the diagonal corners with extra candidates and each
/// digit without other places in their lines; stops once the accumulator is done.
pub(crate) fn find_steps<A: StepAccumulator>(
    grid: &Grid,
    rectangles: &Vec<UniqueRectangle>,
    acc: &mut A,
    seen: &mut Vec<Vec<Candidate>>,
)
    requires
        grid.wf(),
        corners_ok(rectangles@),
    ensures
        grows(old(acc).recorded(), final(acc).recorded(), |s: Step| from_rects(*grid, rectangles@, UniqueType::Type6, s)),
        final(acc).stops_at_first() == old(acc).stops_at_first(),
        final(seen)@ == old(seen)@ || progressed(old(acc).recorded(), final(acc).recorded(), old(acc).stops_at_first()),
        forall|k: int, i: int, j: int, v: u8|
            0 <= k < rectangles@.len() && old(seen)@.len() == 0 && #[trigger] type6_at(
                *grid,
                rectangles@[k].corners(),
                rectangles@[k].digit_a(),
                rectangles@[k].digit_b(),
                i,
                j,
                v,
            ) ==> progressed(old(acc).recorded(), final(acc).recorded(), old(acc).stops_at_first()),
{
    let ghost start = acc.recorded();
    let ghost stop = acc.stops_at_first();
    let ghost seen0 = seen@;
    let ghost ok = |s: Step| from_rects(*grid, rectangles@, UniqueType::Type6, s);
    proof {
        assert(acc.recorded().subrange(0, start.len() as int) =~= start);
    }
    let mut idx: usize = 0;
    while idx < rectangles.len()
        invariant
            idx <= rectangles@.len(),
            grid.wf(),
            corners_ok(rectangles@),
            ok == (|s: Step| from_rects(*grid, rectangles@, UniqueType::Type6, s)),
            grows(start, acc.recorded(), ok),
            acc.stops_at_first() == stop,
            start == old(acc).recorded(),
            stop == old(acc).stops_at_first(),
            start.len() <= acc.recorded().len(),
            seen0 == old(seen)@,
            !progressed(start, acc.recorded(), stop) ==> seen@ == seen0,
            seen0.len() == 0 && !progressed(start, acc.recorded(), stop) ==> forall|k: int, i2: int, j2: int, w: u8|
                0 <= k < idx ==> !#[trigger] type6_at(
                    *grid,
                    rectangles@[k].corners(),
                    rectangles@[k].digit_a(),
                    rectangles@[k].digit_b(),
                    i2,
                    j2,
                    w,
                ),
        decreases rectangles@.len() - idx,
    {
        let ur = rectangles[idx];
        let (a, b) = ur.values();
        let cells = ur.cells();
        assert(forall|i: int| 0 <= i < 4 ==> #[trigger] cells@[i] < 81) by {
            assert forall|i: int| 0 <= i < 4 implies #[trigger] cells@[i] < 81 by {
                assert(rectangles@[idx as int].corners()[i] < 81);
            }
        }
        let over = corners_over(grid, cells, 2);
        if over.len() == 2 {
            let i = over[0];
            let j = over[1];
            let first = cells[i];
            let second = cells[j];
            if row(first) != row(second) && col(first) != col(second) {
                proof {
                    assert(two_extra(*grid, ur.corners(), i as int, j as int)) by {
                        assert(over@.contains(i) && over@.contains(j));
                        assert forall|k: int| 0 <= k < 4 && k != i && k != j implies grid.cands(#[trigger] ur.corners()[k] as int).len() < 3 by {
                            if over@.contains(k as usize) {
                                let x = choose|x: int| 0 <= x < over@.len() && over@[x] == k as usize;
                            }
                        }
                    }
                    assert(rectangles@[idx as int] == ur);
                }
                let mut pass: u8 = 0;
                while pass < 2
                    invariant
                        pass <= 2,
                        idx < rectangles@.len(),
                        rectangles@[idx as int] == ur,
                        ur.corners() == cells@,
                        (a, b) == (ur.digit_a(), ur.digit_b()),
                        i < j < 4,
                        first == cells@[i as int],
                        second == cells@[j as int],
                        first < 81,
                        second < 81,
                        row_of(first as int) != row_of(second as int),
                        col_of(first as int) != col_of(second as int),
                        two_extra(*grid, ur.corners(), i as int, j as int),
                        grid.wf(),
                        ok == (|s: Step| from_rects(*grid, rectangles@, UniqueType::Type6, s)),
                        grows(start, acc.recorded(), ok),
                        acc.stops_at_first() == stop,
                        start == old(acc).recorded(),
                        stop == old(acc).stops_at_first(),
                        start.len() <= acc.recorded().len(),
                                    seen0 == old(seen)@,
                                    !progressed(start, acc.recorded(), stop) ==> seen@ == seen0,
                                    seen0.len() == 0 && !progressed(start, acc.recorded(), stop) ==> forall|k: int, i2: int, j2: int, w: u8|
                                        0 <= k < idx ==> !#[trigger] type6_at(
                                            *grid,
                                            rectangles@[k].corners(),
                                            rectangles@[k].digit_a(),
                                            rectangles@[k].digit_b(),
                                            i2,
                                            j2,
                                            w,
                                        ),
                        seen0.len() == 0 && !progressed(start, acc.recorded(), stop) ==> forall|w: u8|
                            (w == a && pass > 0 || w == b && pass > 1) ==> !#[trigger] type6_at(*grid, ur.corners(), a, b, i as int, j as int, w),
                    decreases 2 - pass,
                {
                    let v = if pass == 0 { a } else { b };
                    let ghost rec_b = acc.recorded();
                    let have = lines_have(grid, cells, first, second, v);
                    if !have {
                        let mut remove: Vec<Candidate> = Vec::new();
                        remove.push(Candidate::new(first, v));
                        remove.push(Candidate::new(second, v));
                        let step = UniqueStep {
                            unique_type: UniqueType::Type6,
                            highlight_candidates: ur.candidates(),
                            remove_candidates: remove,
                            fin_candidates: Vec::new(),
                        };
                        proof {
                            assert(step.remove_candidates@ =~= seq![Candidate(first, v), Candidate(second, v)]);
                            assert forall|s: Step|
                                (s matches Step::UniqueStep(u) && u.unique_type == step.unique_type && u.remove_candidates@.len() > 0
                                    && present_of(*grid, u.remove_candidates@, step.remove_candidates@)) implies #[trigger] ok(s) by {
                                let u = s->UniqueStep_0;
                                assert(absent_side(*grid, cells@, first, second, a, b, u.remove_candidates@));
                                assert(shown(*grid, UniqueType::Type6, u.remove_candidates@, ur.corners(), a, b));
                            }
                            if type6_at(*grid, ur.corners(), a, b, i as int, j as int, v) {
                                if grid.has_cand(first as int, v) {
                                    assert(step.remove_candidates@[0] == Candidate(first, v));
                                } else {
                                    assert(step.remove_candidates@[1] == Candidate(second, v));
                                }
                            }
                        }
                        let finish = add_unique_step(grid, step, seen, acc, Ghost(start), Ghost(ok));
                        proof {
                            lemma_progress_chain(start, rec_b, acc.recorded(), stop);
                        }
                        if finish {
                            return;
                        }
                    }
                    pass = pass + 1;
                }
                proof {
                    if seen0.len() == 0 && !progressed(start, acc.recorded(), stop) {
                        assert forall|i2: int, j2: int, w: u8| !#[trigger] type6_at(
                            *grid,
                            rectangles@[idx as int].corners(),
                            rectangles@[idx as int].digit_a(),
                            rectangles@[idx as int].digit_b(),
                            i2,
                            j2,
                            w,
                        ) by {
                            if type6_at(*grid, ur.corners(), a, b, i2, j2, w) {
                                lemma_two_extra_single(*grid, ur.corners(), i as int, j as int, i2, j2);
                            }
                        }
                    }
                }
            } else {
                proof {
                    assert forall|i2: int, j2: int, w: u8| !#[trigger] type6_at(
                        *grid,
                        rectangles@[idx as int].corners(),
                        rectangles@[idx as int].digit_a(),
                        rectangles@[idx as int].digit_b(),
                        i2,
                        j2,
                        w,
                    ) by {
                        if type6_at(*grid, ur.corners(), a, b, i2, j2, w) {
                            lemma_two_extra_single(*grid, ur.corners(), i as int, j as int, i2, j2);
                        }
                    }
                }
            }
        } else {
            proof {
                assert forall|i2: int, j2: int, w: u8| !#[trigger] type6_at(
                    *grid,
                    rectangles@[idx as int].corners(),
                    rectangles@[idx as int].digit_a(),
                    rectangles@[idx as int].digit_b(),
                    i2,
                    j2,
                    w,
                ) by {
                    if type6_at(*grid, ur.corners(), a, b, i2, j2, w) {
                        assert(over@.contains(i2 as usize) && over@.contains(j2 as usize));
                        let x = choose|x: int| 0 <= x < over@.len() && over@[x] == i2 as usize;
                        let y = choose|y: int| 0 <= y < over@.len() && over@[y] == j2 as usize;
                        if over@.len() > 2 {
                            assert(over@[0] < over@[1] < over@[2]);
                            assert forall|m: int| 0 <= m < 3 implies over@[m] == i2 as usize || over@[m] == j2 as usize by {
                                let k = over@[m] as int;
                                assert(over@.contains(over@[m]));
                                assert(grid.cands(cells@[k] as int).len() > 2);
                                assert(cells@[k] == ur.corners()[k]);
                            }
                        }
                        if over@.len() == 1 {
                            assert(x == 0 && y == 0);
                        }
                    }
                }
            }
        }
        idx = idx + 1;
    }
}

} // verus!
