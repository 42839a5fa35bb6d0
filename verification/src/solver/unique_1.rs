use vstd::prelude::*;
use crate::candidate::Candidate;
use crate::grid::Grid;
use crate::solver::step::Step;
use crate::solver::step_accumulator::StepAccumulator;
use crate::solver::common::{grows, progressed, lemma_progress_chain};
use crate::solver::unique::{
    UniqueRectangle, UniqueStep, UniqueType, add_unique_step, find_unique_rectangles, corners_over, without_listed,
    corners_ok, from_rects, shown, one_extra, present_of, lemma_grows_from_rects, ur_on, listed_ab,
};

verus! {

/// A unique rectangle of type 1 on digits `a < b` with corners `p`: corner `k` alone has
/// more than two candidates, so `a` and `b` leave it; the list of those removals is not
/// among `seen`.
pub open spec fn type1_new(g: Grid, seen: Seq<Vec<Candidate>>, p: Seq<u8>, a: u8, b: u8, k: int) -> bool {
    &&& 1 <= a < b <= 9
    &&& ur_on(g, p, a, b)
    &&& one_extra(g, p, k)
    &&& forall|i: int| 0 <= i < seen.len() ==> !present_of(g, #[trigger] seen[i]@, seq![Candidate(p[k], a), Candidate(p[k], b)])
}

/// Finds unique rectangles of type 1: three corners hold only the two digits, so the
/// fourth corner cannot be either of them.
#[derive(Debug, Default)]
pub struct Unique1Finder {}

impl Unique1Finder {
    /// Some rectangle of type 1 removes a candidate.
    pub open spec fn finds_in(self, g: Grid) -> bool {
        exists|p: Seq<u8>, a: u8, b: u8, k: int| #[trigger] type1_new(g, Seq::empty(), p, a, b, k)
    }

    /// Looks for type 1 among all rectangles of the grid; when one removes a candidate, a
    /// step is reported.
    pub fn find_unique_type1<A: StepAccumulator>(&self, grid: &Grid, acc: &mut A)
        requires
            grid.wf(),
        ensures
            grows(old(acc).recorded(), final(acc).recorded(), |s: Step| s.pattern(*grid) && s is UniqueStep),
            final(acc).stops_at_first() == old(acc).stops_at_first(),
            self.finds_in(*grid) ==> progressed(old(acc).recorded(), final(acc).recorded(), old(acc).stops_at_first()),
    {
        let ghost start = acc.recorded();
        let rectangles = find_unique_rectangles(grid);
        let mut seen: Vec<Vec<Candidate>> = Vec::new();
        proof {
            assert(seen@ =~= Seq::<Vec<Candidate>>::empty());
        }
        find_steps(grid, &rectangles, acc, &mut seen);
        proof {
            lemma_grows_from_rects(*grid, rectangles@, UniqueType::Type1, start, acc.recorded());
            if self.finds_in(*grid) {
                let (p, a, b, k) = choose|p: Seq<u8>, a: u8, b: u8, k: int| #[trigger] type1_new(*grid, Seq::empty(), p, a, b, k);
                assert(ur_on(*grid, p, a, b));
                assert(listed_ab(rectangles@, p, a, b));
                let j = choose|j: int| 0 <= j < rectangles@.len() && (#[trigger] rectangles@[j]).corners() == p && rectangles@[j].digit_a() == a && rectangles@[j].digit_b() == b;
                assert(type1_new(*grid, Seq::empty(), rectangles@[j].corners(), rectangles@[j].digit_a(), rectangles@[j].digit_b(), k));
            }
        }
    }

    /// Looks for type 1 among the given rectangles; when one removes a candidate, a step
    /// is reported.
    pub fn check_unique_type1<A: StepAccumulator>(&self, grid: &Grid, urs: Vec<UniqueRectangle>, acc: &mut A, _a: u8, _b: u8)
        requires
            grid.wf(),
            corners_ok(urs@),
        ensures
            grows(old(acc).recorded(), final(acc).recorded(), |s: Step| from_rects(*grid, urs@, UniqueType::Type1, s)),
            final(acc).stops_at_first() == old(acc).stops_at_first(),
            forall|j: int, k: int|
                0 <= j < urs@.len() && #[trigger] type1_new(*grid, Seq::empty(), urs@[j].corners(), urs@[j].digit_a(), urs@[j].digit_b(), k)
                    ==> progressed(old(acc).recorded(), final(acc).recorded(), old(acc).stops_at_first()),
    {
        let mut seen: Vec<Vec<Candidate>> = Vec::new();
        proof {
            assert(seen@ =~= Seq::<Vec<Candidate>>::empty());
        }
        find_steps(grid, &urs, acc, &mut seen);
    }
}

/// Reports, rectangle by rectangle, the corner that alone has extra candidates; stops
/// once the accumulator is done.
pub(crate) fn find_steps<A: StepAccumulator>(
    grid: &Grid,
    rectangles: &Vec<UniqueRectangle>,
    acc: &mut A,
    seen: &mut Vec<Vec<Candidate>>,
)
    requires
        grid.wf(),
        corners_ok(rectangles@),
    ensures
        grows(old(acc).recorded(), final(acc).recorded(), |s: Step| from_rects(*grid, rectangles@, UniqueType::Type1, s)),
        final(acc).stops_at_first() == old(acc).stops_at_first(),
        final(seen)@ == old(seen)@ || progressed(old(acc).recorded(), final(acc).recorded(), old(acc).stops_at_first()),
        forall|j: int, k: int|
            0 <= j < rectangles@.len() && #[trigger] type1_new(
                *grid,
                old(seen)@,
                rectangles@[j].corners(),
                rectangles@[j].digit_a(),
                rectangles@[j].digit_b(),
                k,
            ) ==> progressed(old(acc).recorded(), final(acc).recorded(), old(acc).stops_at_first()),
{
    let ghost start = acc.recorded();
    let ghost stop = acc.stops_at_first();
    let ghost seen0 = seen@;
    let ghost ok = |s: Step| from_rects(*grid, rectangles@, UniqueType::Type1, s);
    proof {
        assert(acc.recorded().subrange(0, start.len() as int) =~= start);
    }
    let mut idx: usize = 0;
    while idx < rectangles.len()
        invariant
            idx <= rectangles@.len(),
            grid.wf(),
            corners_ok(rectangles@),
            ok == (|s: Step| from_rects(*grid, rectangles@, UniqueType::Type1, s)),
            grows(start, acc.recorded(), ok),
            acc.stops_at_first() == stop,
            start == old(acc).recorded(),
            stop == old(acc).stops_at_first(),
            seen0 == old(seen)@,
            !progressed(start, acc.recorded(), stop) ==> seen@ == seen0,
            !progressed(start, acc.recorded(), stop) ==> forall|j: int, k: int|
                0 <= j < idx ==> !#[trigger] type1_new(
                    *grid,
                    seen0,
                    rectangles@[j].corners(),
                    rectangles@[j].digit_a(),
                    rectangles@[j].digit_b(),
                    k,
                ),
        decreases rectangles@.len() - idx,
    {
        let ghost rec_b = acc.recorded();
        let ur = rectangles[idx];
        let (a, b) = ur.values();
        let cells = ur.cells();
        assert(forall|i: int| 0 <= i < 4 ==> #[trigger] cells@[i] < 81) by {
            assert forall|i: int| 0 <= i < 4 implies #[trigger] cells@[i] < 81 by {
                assert(rectangles@[idx as int].corners()[i] < 81);
            }
        }
        let over = corners_over(grid, cells, 2);
        if over.len() == 1 {
            let k = over[0];
            let mut remove: Vec<Candidate> = Vec::new();
            remove.push(Candidate::new(cells[k], a));
            remove.push(Candidate::new(cells[k], b));
            let highlight = without_listed(&ur.candidates(), &remove);
            let step = UniqueStep {
                unique_type: UniqueType::Type1,
                highlight_candidates: highlight,
                remove_candidates: remove,
                fin_candidates: Vec::new(),
            };
            proof {
                assert(one_extra(*grid, ur.corners(), k as int)) by {
                    assert(over@.contains(k));
                    assert forall|j: int| 0 <= j < 4 && j != k implies grid.cands(#[trigger] ur.corners()[j] as int).len() <= 2 by {
                        if over@.contains(j as usize) {
                            let x = choose|x: int| 0 <= x < over@.len() && over@[x] == j as usize;
                        }
                    }
                }
                assert(step.remove_candidates@ =~= seq![Candidate(ur.corners()[k as int], a), Candidate(ur.corners()[k as int], b)]);
                assert(rectangles@[idx as int] == ur);
                assert forall|s: Step|
                    (s matches Step::UniqueStep(u) && u.unique_type == step.unique_type && u.remove_candidates@.len() > 0
                        && present_of(*grid, u.remove_candidates@, step.remove_candidates@)) implies #[trigger] ok(s) by {
                    let u = s->UniqueStep_0;
                    assert(shown(*grid, UniqueType::Type1, u.remove_candidates@, ur.corners(), a, b));
                }
            }
            proof {
                if type1_new(*grid, seen0, ur.corners(), a, b, k as int) {
                    assert(grid.has_cand(step.remove_candidates@[0].0 as int, step.remove_candidates@[0].1));
                }
            }
            if add_unique_step(grid, step, seen, acc, Ghost(start), Ghost(ok)) {
                return;
            }
            proof {
                lemma_progress_chain(start, rec_b, acc.recorded(), stop);
                assert forall|k2: int| !progressed(start, acc.recorded(), stop) implies !#[trigger] type1_new(
                    *grid,
                    seen0,
                    rectangles@[idx as int].corners(),
                    rectangles@[idx as int].digit_a(),
                    rectangles@[idx as int].digit_b(),
                    k2,
                ) by {
                    if type1_new(*grid, seen0, ur.corners(), a, b, k2) {
                        assert(over@.contains(k2 as usize));
                        assert(over@[0] == k2);
                        assert(type1_new(*grid, seen0, ur.corners(), a, b, k as int));
                    }
                }
            }
        } else {
            proof {
                assert forall|k2: int| !#[trigger] type1_new(
                    *grid,
                    seen0,
                    rectangles@[idx as int].corners(),
                    rectangles@[idx as int].digit_a(),
                    rectangles@[idx as int].digit_b(),
                    k2,
                ) by {
                    if type1_new(*grid, seen0, ur.corners(), a, b, k2) {
                        assert(over@.contains(k2 as usize));
                        if over@.len() >= 2 {
                            assert(over@[0] < over@[1]);
                            if over@[0] != k2 as usize {
                                assert(over@.contains(over@[0]));
                                assert(grid.cands(ur.corners()[over@[0] as int] as int).len() > 2);
                            } else {
                                assert(over@.contains(over@[1]));
                                assert(grid.cands(ur.corners()[over@[1] as int] as int).len() > 2);
                            }
                        }
                    }
                }
            }
        }
        idx = idx + 1;
    }
}

} // verus!
