use vstd::prelude::*;
use crate::candidate::Candidate;
use crate::grid::Grid;
use crate::grid_constant::sees;
use crate::solver::step::Step;
use crate::solver::step_accumulator::StepAccumulator;
use crate::solver::common::{grows, report, cand_list, added, progressed, lemma_progress_chain};
use crate::solver::xyzwing::xyz_new;
use crate::solver::xywing::xy_new;
use crate::solver::wwing::w_wing_new;
use crate::solver::naked_set::{seen_before, clone_cand_list};

verus! {

/// The cells with candidate `z` that see every cell of `cells`.
pub open spec fn seen_by_all(g: Grid, cells: Seq<u8>, z: u8) -> Set<u8> {
    Set::new(
        |c: u8|
            c < 81 && (forall|i: int| 0 <= i < cells.len() ==> sees(#[trigger] cells[i] as int, c as int)) && g.has_cand(
                c as int,
                z,
            ),
    )
}

/// The candidate `z` of every cell that sees all of `cells`, by increasing cell.
pub fn seen_removals(grid: &Grid, cells: &Vec<u8>, z: u8) -> (r: Vec<Candidate>)
    requires
        grid.wf(),
        forall|i: int| 0 <= i < cells@.len() ==> #[trigger] cells@[i] < 81,
    ensures
        cand_list(r@, z, seen_by_all(*grid, cells@, z)),
{
    let mut r: Vec<Candidate> = Vec::new();
    let mut c: u8 = 0;
    while c < 81
        invariant
            c <= 81,
            grid.wf(),
            forall|i: int| 0 <= i < cells@.len() ==> #[trigger] cells@[i] < 81,
            forall|i: int| 0 <= i < r@.len() ==> (#[trigger] r@[i]).1 == z && seen_by_all(*grid, cells@, z).contains(r@[i].0)
                && r@[i].0 < c,
            forall|i: int, j: int| 0 <= i < j < r@.len() ==> (#[trigger] r@[i]).0 < (#[trigger] r@[j]).0,
            forall|d: u8| d < c && seen_by_all(*grid, cells@, z).contains(d) ==> exists|i: int| 0 <= i < r@.len() && (#[trigger] r@[i]).0 == d,
        decreases 81 - c,
    {
        let mut all = true;
        let mut k: usize = 0;
        while k < cells.len()
            invariant
                k <= cells@.len(),
                c < 81,
                forall|i: int| 0 <= i < cells@.len() ==> #[trigger] cells@[i] < 81,
                all == forall|i: int| 0 <= i < k ==> sees(#[trigger] cells@[i] as int, c as int),
            decreases cells@.len() - k,
        {
            if !crate::grid_constant::cells_see(cells[k], c) {
                all = false;
            }
            k = k + 1;
        }
        if all && grid.cell_has_candidate(c, z) {
            let ghost before = r@;
            r.push(Candidate::new(c, z));
            proof {
                assert forall|d: u8| d < c + 1 && seen_by_all(*grid, cells@, z).contains(d) implies exists|i: int|
                    0 <= i < r@.len() && (#[trigger] r@[i]).0 == d by {
                    if d < c {
                        let i = choose|i: int| 0 <= i < before.len() && (#[trigger] before[i]).0 == d;
                        assert(r@[i] == before[i]);
                    } else {
                        assert(r@[r@.len() - 1].0 == d);
                    }
                }
            }
        }
        c = c + 1;
    }
    r
}

/// `rm` removes something and is not among the lists of `seen`.
pub open spec fn fresh(seen: Seq<Vec<Candidate>>, rm: Seq<Candidate>) -> bool {
    rm.len() > 0 && !exists|i: int| 0 <= i < seen.len() && (#[trigger] seen[i])@ == rm
}

/// Records a wing step unless it removes nothing or its removals were reported before.
pub(crate) fn add_wing_step<A: StepAccumulator>(
    step: Step,
    remove_candidates: &Vec<Candidate>,
    seen: &mut Vec<Vec<Candidate>>,
    acc: &mut A,
    Ghost(start): Ghost<Seq<Step>>,
    Ghost(ok): Ghost<spec_fn(Step) -> bool>,
) -> (finish: bool)
    requires
        grows(start, old(acc).recorded(), ok),
        remove_candidates@.len() > 0 ==> ok(step),
    ensures
        grows(start, final(acc).recorded(), ok),
        final(acc).stops_at_first() == old(acc).stops_at_first(),
        finish ==> final(acc).stops_at_first(),
        fresh(old(seen)@, remove_candidates@) ==> final(acc).recorded() == added(old(acc).recorded(), old(acc).stops_at_first(), step)
            && finish == old(acc).stops_at_first() && final(seen)@.len() == old(seen)@.len() + 1 && final(seen)@[old(seen)@.len() as int]@
            == remove_candidates@ && forall|i: int| 0 <= i < old(seen)@.len() ==> #[trigger] final(seen)@[i] == old(seen)@[i],
        !fresh(old(seen)@, remove_candidates@) ==> final(acc).recorded() == old(acc).recorded() && !finish && final(seen)@ == old(
            seen,
        )@,
{
    if remove_candidates.len() == 0 || seen_before(seen, remove_candidates) {
        return false;
    }
    seen.push(clone_cand_list(remove_candidates));
    report(acc, step, Ghost(start), Ghost(ok))
}

/// Finds XY-Wings, XYZ-Wings and W-Wings, in that order.
#[derive(Debug, Default)]
pub struct WingsFinder {}

impl WingsFinder {
    /// Some XY-Wing, XYZ-Wing or W-Wing removes a candidate.
    pub open spec fn finds_in(self, g: Grid) -> bool {
        ||| exists|p: u8, f: u8, s: u8, z: u8| #[trigger] xy_new(g, Seq::empty(), p, f, s, z)
        ||| exists|p: u8, f: u8, s: u8, z: u8| #[trigger] xyz_new(g, Seq::empty(), p, f, s, z)
        ||| exists|f: int, sc: int, rv: u8, lv: u8| #[trigger] w_wing_new(g, Seq::empty(), f, sc, rv, lv)
    }

    /// Reports XY-Wings, then XYZ-Wings, then W-Wings; a list of removals already
    /// reported is not reported again. When some wing of these kinds removes a candidate,
    /// a step is reported.
    pub fn find_step<A: StepAccumulator>(&self, grid: &Grid, acc: &mut A)
        requires
            grid.wf(),
        ensures
            grows(
                old(acc).recorded(),
                final(acc).recorded(),
                |s: Step| s.pattern(*grid) && (s is XYWing || s is XYZWing || s is WWing),
            ),
            final(acc).stops_at_first() == old(acc).stops_at_first(),
            self.finds_in(*grid) ==> progressed(old(acc).recorded(), final(acc).recorded(), old(acc).stops_at_first()),
    {
        let ghost start = acc.recorded();
        let ghost stops = acc.stops_at_first();
        let ghost ok = |s: Step| s.pattern(*grid) && (s is XYWing || s is XYZWing || s is WWing);
        proof {
            assert(acc.recorded().subrange(0, start.len() as int) =~= start);
        }
        let mut seen: Vec<Vec<Candidate>> = Vec::new();
        let ghost seen0 = seen@;
        proof {
            assert(seen0 =~= Seq::<Vec<Candidate>>::empty());
        }
        crate::solver::xywing::find_steps(grid, acc, &mut seen, Ghost(start), Ghost(ok));
        let ghost mid1 = acc.recorded();
        let ghost seen1 = seen@;
        proof {
            if exists|p: u8, f: u8, s: u8, z: u8| #[trigger] xy_new(*grid, Seq::empty(), p, f, s, z) {
                let (p, f, s, z) = choose|p: u8, f: u8, s: u8, z: u8| #[trigger] xy_new(*grid, Seq::empty(), p, f, s, z);
                assert(xy_new(*grid, seen0, p, f, s, z));
            }
        }
        if acc.is_finish() {
            return;
        }
        crate::solver::xyzwing::find_steps(grid, acc, &mut seen, Ghost(start), Ghost(ok));
        let ghost mid2 = acc.recorded();
        let ghost seen2 = seen@;
        proof {
            lemma_progress_chain(start, mid1, mid2, stops);
            if exists|p: u8, f: u8, s: u8, z: u8| #[trigger] xyz_new(*grid, Seq::empty(), p, f, s, z) {
                if !progressed(start, mid1, stops) {
                    let (p, f, s, z) = choose|p: u8, f: u8, s: u8, z: u8| #[trigger] xyz_new(*grid, Seq::empty(), p, f, s, z);
                    assert(xyz_new(*grid, seen1, p, f, s, z));
                }
            }
        }
        if acc.is_finish() {
            return;
        }
        crate::solver::wwing::find_steps(grid, acc, &mut seen, Ghost(start), Ghost(ok));
        proof {
            lemma_progress_chain(start, mid2, acc.recorded(), stops);
            if exists|f: int, sc: int, rv: u8, lv: u8| #[trigger] w_wing_new(*grid, Seq::empty(), f, sc, rv, lv) {
                if !progressed(start, mid2, stops) {
                    lemma_progress_chain(start, mid1, mid2, stops);
                    let (f, sc, rv, lv) = choose|f: int, sc: int, rv: u8, lv: u8| #[trigger] w_wing_new(*grid, Seq::empty(), f, sc, rv, lv);
                    assert(seen2 == seen0);
                    assert(w_wing_new(*grid, seen2, f, sc, rv, lv));
                }
            }
        }
    }
}

} // verus!
