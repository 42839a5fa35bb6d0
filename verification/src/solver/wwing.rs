use vstd::prelude::*;
use crate::candidate::Candidate;
use crate::grid::Grid;
use crate::grid_constant::{sees, get_cell_buddies, peers};
use crate::solver::step::{Step, removable, removed, remove_all};
use crate::solver::step_accumulator::StepAccumulator;
use crate::solver::common::{grows, cand_list, progressed};
use crate::solver::locked_candidate::cand_cells;
use crate::solver::wings::{seen_by_all, seen_removals, add_wing_step};
use crate::solver::xywing::clone_list;
use crate::util::indexset::{IndexSet, lemma_set_single};

verus! {

/// Digit `l` has exactly two places `lf` and `ls` in house `h`; `lf` sees `a` and `ls`
/// sees `b`.
pub open spec fn strong_link(g: Grid, a: u8, b: u8, l: u8, lf: u8, ls: u8) -> bool {
    exists|h: int|
        0 <= h < 27 && #[trigger] cand_cells(g, h, l).len() == 2 && cand_cells(g, h, l).contains(lf) && cand_cells(
            g,
            h,
            l,
        ).contains(ls) && lf != ls && sees(a as int, lf as int) && sees(b as int, ls as int)
}

/// Two cells hold the same two digits `r` and `l`, and a strong link on `l` joins cells
/// that see one each.
pub open spec fn w_wing(g: Grid, a: u8, b: u8, r: u8, l: u8, lf: u8, ls: u8) -> bool {
    &&& a < 81 && b < 81 && a != b
    &&& g.value(a as int) == 0 && g.value(b as int) == 0
    &&& g.cands(a as int).len() == 2
    &&& g.cands(b as int) == g.cands(a as int)
    &&& g.cands(a as int).contains(r) && g.cands(a as int).contains(l) && r != l
    &&& strong_link(g, a, b, l, lf, ls)
}

/// One of the two cells holds `r`, so no cell seeing both can.
#[derive(Debug, PartialEq, Clone, Eq, Hash)]
pub struct WWing {
    pub remove_candidates: Vec<Candidate>,
    pub highlight_candidates: Vec<Candidate>,
    pub fin_candidates: Vec<Candidate>,
}

impl WWing {
    /// Some pair of cells forms a W-Wing; the removals are the `r` candidates of the cells
    /// seeing both.
    pub open spec fn pattern(self, g: Grid) -> bool {
        exists|a: u8, b: u8, r: u8, l: u8, lf: u8, ls: u8|
            #[trigger] w_wing(g, a, b, r, l, lf, ls) && cand_list(self.remove_candidates@, r, seen_by_all(g, seq![a, b], r))
                && self.remove_candidates@.len() > 0
    }

    /// Removes the candidates.
    pub fn apply(&self, grid: &mut Grid)
        requires
            old(grid).wf(),
            self.remove_candidates@.len() > 0,
            removable(*old(grid), self.remove_candidates@),
        ensures
            final(grid).wf(),
            removed(*old(grid), *final(grid), self.remove_candidates@),
    {
        remove_all(grid, &self.remove_candidates);
    }

    /// Describes the step.
    pub fn explain(&self) -> (r: String)
        ensures
            r@ == "<h3>W-Wing</h3>"@,
    {
        "<h3>W-Wing</h3>".to_owned()
    }
}

/// In house `h` digit `l` has exactly two places; `a` sees just one of them, `b` just one,
/// and not the same one.
pub open spec fn link_in(g: Grid, a: u8, b: u8, l: u8, h: int) -> bool {
    &&& 0 <= h < 27
    &&& cand_cells(g, h, l).len() == 2
    &&& peers(a as int).intersect(cand_cells(g, h, l)).len() == 1
    &&& peers(b as int).intersect(cand_cells(g, h, l)).len() == 1
    &&& peers(a as int).intersect(cand_cells(g, h, l)) != peers(b as int).intersect(cand_cells(g, h, l))
}

/// A house where digit `value` has exactly two places, one seen by `first` and the other
/// by `second` (the first such house).
fn find_strong_link(grid: &Grid, first: u8, second: u8, value: u8) -> (r: Option<(u8, u8)>)
    requires
        grid.wf(),
        first < 81,
        second < 81,
    ensures
        r matches Some(p) ==> strong_link(*grid, first, second, value, p.0, p.1),
        r is None <==> !exists|h: int| #[trigger] link_in(*grid, first, second, value, h),
{
    let fb = get_cell_buddies(first);
    let sb = get_cell_buddies(second);
    let mut house: u8 = 0;
    while house < 27
        invariant
            house <= 27,
            grid.wf(),
            fb@ == peers(first as int),
            sb@ == peers(second as int),
            forall|h: int| 0 <= h < house ==> !#[trigger] link_in(*grid, first, second, value, h),
        decreases 27 - house,
    {
        let link = grid.candidate_cells_in_house(house, value);
        assert(link@ =~= cand_cells(*grid, house as int, value));
        let fvis = fb.intersect(&link);
        let svis = sb.intersect(&link);
        proof {
            IndexSet::lemma_bounds(fvis);
            IndexSet::lemma_bounds(svis);
        }
        if link.count() == 2 {
            if fvis.count() == 1 && svis.count() == 1 {
                if let Some(lf) = fvis.first() {
                    if let Some(ls) = svis.first() {
                        if lf != ls {
                            proof {
                                assert(strong_link(*grid, first, second, value, lf, ls));
                                assert(fvis@ != svis@) by {
                                    if fvis@ == svis@ {
                                        lemma_set_single(fvis@, lf, ls);
                                    }
                                }
                                assert(link_in(*grid, first, second, value, house as int));
                            }
                            return Some((lf, ls));
                        } else {
                            proof {
                                assert forall|x: u8| fvis@.contains(x) <==> svis@.contains(x) by {
                                    if fvis@.contains(x) {
                                        lemma_set_single(fvis@, lf, x);
                                    }
                                    if svis@.contains(x) {
                                        lemma_set_single(svis@, ls, x);
                                    }
                                }
                                assert(fvis@ =~= svis@);
                            }
                        }
                    }
                }
            }
        }
        house = house + 1;
    }
    None
}

/// What was recorded since `rec0` stays recorded, so progress since `rec0` persists and
/// progress since `mid` is progress since `rec0`.
proof fn lemma_progress_chain(rec0: Seq<Step>, mid: Seq<Step>, now: Seq<Step>, stops: bool)
    requires
        rec0.len() <= mid.len() <= now.len(),
    ensures
        progressed(rec0, mid, stops) ==> progressed(rec0, now, stops),
        progressed(mid, now, stops) ==> progressed(rec0, now, stops),
{
}

/// Finds W-Wings.
#[derive(Debug, Default)]
pub struct WWingFinder {}

impl WWingFinder {
    /// Some W-Wing removes a candidate.
    pub open spec fn finds_in(self, g: Grid) -> bool {
        exists|f: int, sc: int, rv: u8, lv: u8| #[trigger] w_wing_new(g, Seq::empty(), f, sc, rv, lv)
    }

    /// Reports W-Wings, pair of cells by pair of cells; when one removes a candidate, a
    /// step is reported.
    pub fn find_hint<A: StepAccumulator>(&self, grid: &Grid, acc: &mut A)
        requires
            grid.wf(),
        ensures
            grows(old(acc).recorded(), final(acc).recorded(), |s: Step| s.pattern(*grid) && s is WWing),
            final(acc).stops_at_first() == old(acc).stops_at_first(),
            self.finds_in(*grid) ==> progressed(old(acc).recorded(), final(acc).recorded(), old(acc).stops_at_first()),
    {
        let ghost start = acc.recorded();
        proof {
            assert(acc.recorded().subrange(0, start.len() as int) =~= start);
        }
        let mut seen: Vec<Vec<Candidate>> = Vec::new();
        let ghost seen0 = seen@;
        find_steps(grid, acc, &mut seen, Ghost(start), Ghost(|s: Step| s.pattern(*grid) && s is WWing));
        proof {
            if self.finds_in(*grid) {
                let (f, sc, rv, lv) = choose|f: int, sc: int, rv: u8, lv: u8| #[trigger] w_wing_new(*grid, Seq::empty(), f, sc, rv, lv);
                assert(seen0 =~= Seq::<Vec<Candidate>>::empty());
                assert(w_wing_new(*grid, seen0, f, sc, rv, lv));
            }
        }
    }
}

/// Cells `f < sc` hold the same two digits `rv` and `lv`, some cell sees both and has
/// candidate `rv`, and a strong link on `lv` joins cells that see one each.
pub open spec fn w_wing_at(g: Grid, f: int, sc: int, rv: u8, lv: u8) -> bool {
    &&& 0 <= f < sc < 81
    &&& g.cands(f).len() == 2
    &&& g.cands(sc) == g.cands(f)
    &&& g.cands(f).contains(rv)
    &&& g.cands(f).contains(lv)
    &&& rv != lv
    &&& seen_by_all(g, seq![f as u8, sc as u8], rv) != Set::<u8>::empty()
    &&& exists|h: int| #[trigger] link_in(g, f as u8, sc as u8, lv, h)
}

/// Such a W-Wing whose removals no list of `seen` gives.
pub open spec fn w_wing_new(g: Grid, seen: Seq<Vec<Candidate>>, f: int, sc: int, rv: u8, lv: u8) -> bool {
    &&& w_wing_at(g, f, sc, rv, lv)
    &&& forall|i: int| 0 <= i < seen.len() ==> !cand_list((#[trigger] seen[i])@, rv, seen_by_all(g, seq![f as u8, sc as u8], rv))
}

/// Tries the W-Wing on `first` and `second` that removes `remove_value` over a link on
/// `link_value`.
fn add_w_wing<A: StepAccumulator>(
    grid: &Grid,
    first: u8,
    second: u8,
    remove_value: u8,
    link_value: u8,
    acc: &mut A,
    seen: &mut Vec<Vec<Candidate>>,
    Ghost(start): Ghost<Seq<Step>>,
    Ghost(ok): Ghost<spec_fn(Step) -> bool>,
)
    requires
        grid.wf(),
        first < 81 && second < 81 && first != second,
        grid.value(first as int) == 0,
        grid.value(second as int) == 0,
        grid.cands(first as int).len() == 2,
        grid.cands(second as int) == grid.cands(first as int),
        grid.cands(first as int).contains(remove_value),
        grid.cands(first as int).contains(link_value),
        remove_value != link_value,
        grows(start, old(acc).recorded(), ok),
        forall|s: Step| s.pattern(*grid) && s is WWing ==> #[trigger] ok(s),
    ensures
        grows(start, final(acc).recorded(), ok),
        final(acc).stops_at_first() == old(acc).stops_at_first(),
        seen_by_all(*grid, seq![first, second], remove_value) != Set::<u8>::empty() && (exists|h: int|
            #[trigger] link_in(*grid, first, second, link_value, h)) && (forall|i: int|
            0 <= i < old(seen)@.len() ==> !cand_list(
                (#[trigger] old(seen)@[i])@,
                remove_value,
                seen_by_all(*grid, seq![first, second], remove_value),
            )) ==> progressed(old(acc).recorded(), final(acc).recorded(), old(acc).stops_at_first()),
        !(seen_by_all(*grid, seq![first, second], remove_value) != Set::<u8>::empty() && (exists|h: int|
            #[trigger] link_in(*grid, first, second, link_value, h))) ==> final(acc).recorded() == old(acc).recorded(),
        final(seen)@ == old(seen)@ || progressed(old(acc).recorded(), final(acc).recorded(), old(acc).stops_at_first()),
        final(acc).recorded().len() >= old(acc).recorded().len(),
{
    let mut pair: Vec<u8> = Vec::new();
    pair.push(first);
    pair.push(second);
    assert(pair@ =~= seq![first, second]);
    let rm = seen_removals(grid, &pair, remove_value);
    if rm.len() == 0 {
        proof {
            let t = seen_by_all(*grid, seq![first, second], remove_value);
            if t != Set::<u8>::empty() {
                let c = t.choose();
                assert(t.contains(c)) by {
                    if !(exists|c: u8| t.contains(c)) {
                        assert(t =~= Set::<u8>::empty());
                    }
                }
            }
        }
        return;
    }
    let (link_first, link_second) = match find_strong_link(grid, first, second, link_value) {
        Some(p) => p,
        None => {
            return;
        },
    };
    proof {
        let t = seen_by_all(*grid, seq![first, second], remove_value);
        assert(t.contains(rm@[0].0));
        if exists|i: int| 0 <= i < seen@.len() && (#[trigger] seen@[i])@ == rm@ {
            let i = choose|i: int| 0 <= i < seen@.len() && (#[trigger] seen@[i])@ == rm@;
            assert(cand_list(seen@[i]@, remove_value, t));
        }
    }
    let mut highlight: Vec<Candidate> = Vec::new();
    highlight.push(Candidate::new(first, remove_value));
    highlight.push(Candidate::new(second, remove_value));
    let mut fins: Vec<Candidate> = Vec::new();
    fins.push(Candidate::new(first, link_value));
    fins.push(Candidate::new(second, link_value));
    fins.push(Candidate::new(link_first, link_value));
    fins.push(Candidate::new(link_second, link_value));
    let hint = WWing { remove_candidates: clone_list(&rm), highlight_candidates: highlight, fin_candidates: fins };
    proof {
        assert(pair@ =~= seq![first, second]);
        assert(w_wing(*grid, first, second, remove_value, link_value, link_first, link_second));
        assert(Step::WWing(hint).pattern(*grid));
    }
    add_wing_step(Step::WWing(hint), &rm, seen, acc, Ghost(start), Ghost(ok));
}

/// Reports W-Wings: for each pair of cells with the same two candidates, first removing
/// the smaller digit over a link on the larger, then the other way round.
pub(crate) fn find_steps<A: StepAccumulator>(
    grid: &Grid,
    acc: &mut A,
    seen: &mut Vec<Vec<Candidate>>,
    Ghost(start): Ghost<Seq<Step>>,
    Ghost(ok): Ghost<spec_fn(Step) -> bool>,
)
    requires
        grid.wf(),
        grows(start, old(acc).recorded(), ok),
        forall|s: Step| s.pattern(*grid) && s is WWing ==> #[trigger] ok(s),
    ensures
        grows(start, final(acc).recorded(), ok),
        final(acc).stops_at_first() == old(acc).stops_at_first(),
        (exists|f: int, sc: int, rv: u8, lv: u8| #[trigger] w_wing_new(*grid, old(seen)@, f, sc, rv, lv)) ==> progressed(
            old(acc).recorded(),
            final(acc).recorded(),
            old(acc).stops_at_first(),
        ),
        old(acc).recorded().len() <= final(acc).recorded().len(),
        final(seen)@ == old(seen)@ || progressed(old(acc).recorded(), final(acc).recorded(), old(acc).stops_at_first()),
{
    proof {
        grid.lemma_wf();
    }
    let ghost rec0 = acc.recorded();
    let ghost seen0 = seen@;
    let mut first: u8 = 0;
    while first < 81
        invariant
            first <= 81,
            grid.wf(),
            forall|c: int| 0 <= c < 81 && grid.value(c) != 0 ==> #[trigger] grid.cands(c) == Set::<u8>::empty(),
            grows(start, acc.recorded(), ok),
            forall|s: Step| s.pattern(*grid) && s is WWing ==> #[trigger] ok(s),
            acc.stops_at_first() == old(acc).stops_at_first(),
            rec0 == old(acc).recorded(),
            seen0 == old(seen)@,
            !progressed(rec0, acc.recorded(), acc.stops_at_first()) ==> seen@ == seen0,
            !progressed(rec0, acc.recorded(), acc.stops_at_first()) ==> forall|f: int, sc: int, rv: u8, lv: u8|
                f < first ==> !#[trigger] w_wing_new(*grid, seen0, f, sc, rv, lv),
            rec0.len() <= acc.recorded().len(),
        decreases 81 - first,
    {
        let values = grid.get_cell_candidate(first);
        if values.count() == 2 {
            let vals = values.values();
            let mut second: u8 = first + 1;
            while second < 81
                invariant
                    first < second <= 81,
                    grid.wf(),
                    values@ == grid.cands(first as int),
                    values@.len() == 2,
                    vals@.len() == 2,
                    forall|v: u8| vals@.contains(v) <==> values@.contains(v),
                    vals@[0] < vals@[1],
                    forall|c: int| 0 <= c < 81 && grid.value(c) != 0 ==> #[trigger] grid.cands(c) == Set::<u8>::empty(),
                    grows(start, acc.recorded(), ok),
                    forall|s: Step| s.pattern(*grid) && s is WWing ==> #[trigger] ok(s),
                    acc.stops_at_first() == old(acc).stops_at_first(),
                    rec0 == old(acc).recorded(),
                    seen0 == old(seen)@,
                    first < 81,
                    !progressed(rec0, acc.recorded(), acc.stops_at_first()) ==> seen@ == seen0,
                    !progressed(rec0, acc.recorded(), acc.stops_at_first()) ==> forall|f: int, sc: int, rv: u8, lv: u8|
                        (f < first || (f == first && sc < second)) ==> !#[trigger] w_wing_new(*grid, seen0, f, sc, rv, lv),
                    rec0.len() <= acc.recorded().len(),
                decreases 81 - second,
            {
                let sv = grid.get_cell_candidate(second);
                if sv == values {
                    proof {
                        assert(vals@.contains(vals@[0]));
                        assert(vals@.contains(vals@[1]));
                        assert(grid.value(first as int) == 0) by {
                            if grid.value(first as int) != 0 {
                                assert(grid.cands(first as int) == Set::<u8>::empty());
                            }
                        }
                        assert(grid.value(second as int) == 0) by {
                            if grid.value(second as int) != 0 {
                                assert(grid.cands(second as int) == Set::<u8>::empty());
                            }
                        }
                    }
                    let ghost r1 = acc.recorded();
                    add_w_wing(grid, first, second, vals[0], vals[1], acc, seen, Ghost(start), Ghost(ok));
                    proof {
                        lemma_progress_chain(rec0, r1, acc.recorded(), acc.stops_at_first());
                    }
                    if acc.is_finish() {
                        return;
                    }
                    let ghost r2 = acc.recorded();
                    add_w_wing(grid, first, second, vals[1], vals[0], acc, seen, Ghost(start), Ghost(ok));
                    proof {
                        lemma_progress_chain(rec0, r2, acc.recorded(), acc.stops_at_first());
                        assert forall|rv: u8| #[trigger] grid.cands(first as int).contains(rv) implies rv == vals@[0] || rv == vals@[1] by {
                            assert(vals@.contains(rv));
                        }
                    }
                    if acc.is_finish() {
                        return;
                    }
                } else {
                    proof {
                        use_type_invariant(&sv);
                        use_type_invariant(&values);
                        if sv@ == values@ {
                            crate::util::digitset::DigitSet::lemma_view_eq(sv, values);
                        }
                    }
                }
                second = second + 1;
            }
        }
        first = first + 1;
    }
}

} // verus!
