use vstd::prelude::*;
use crate::candidate::Candidate;
use crate::grid::Grid;
use crate::grid_constant::{sees, get_cell_buddies, peers};
use crate::solver::step::{Step, removable, removed, remove_all};
use crate::solver::step_accumulator::StepAccumulator;
use crate::solver::common::{progressed, grows, cand_list};
use vstd::set_lib::lemma_set_difference_len;
use crate::solver::wings::{seen_by_all, seen_removals, add_wing_step, fresh};
use crate::util::digitset::DigitSet;

verus! {

/// Pivot `p` holds two digits; `f` and `s` see it, `f` shares one digit with the pivot
/// and adds `z`, `s` holds the pivot's other digit and `z`.
pub open spec fn xy_wing(g: Grid, p: u8, f: u8, s: u8, z: u8) -> bool {
    &&& p < 81 && f < 81 && s < 81
    &&& sees(p as int, f as int) && sees(p as int, s as int) && f != s
    &&& g.value(p as int) == 0 && g.value(f as int) == 0 && g.value(s as int) == 0
    &&& g.cands(p as int).len() == 2
    &&& g.cands(f as int).len() == 2
    &&& g.cands(p as int).intersect(g.cands(f as int)).len() == 1
    &&& g.cands(f as int).contains(z)
    &&& !g.cands(p as int).contains(z)
    &&& g.cands(s as int) == g.cands(p as int).difference(g.cands(f as int)).insert(z)
}

/// Either wing holds `z`, so no cell seeing both wings can.
#[derive(Debug, PartialEq, Clone, Eq, Hash)]
pub struct XYWing {
    pub remove_candidates: Vec<Candidate>,
    pub highlight_candidates: Vec<Candidate>,
    pub fin_candidates: Vec<Candidate>,
}

impl XYWing {
    /// Some pivot and wings form an XY-Wing; the removals are the `z` candidates of the
    /// cells seeing both wings.
    pub open spec fn pattern(self, g: Grid) -> bool {
        exists|p: u8, f: u8, s: u8, z: u8|
            #[trigger] xy_wing(g, p, f, s, z) && cand_list(self.remove_candidates@, z, seen_by_all(g, seq![f, s], z))
                && self.remove_candidates@.len() > 0
    }

    /// Removes the candidates.
    pub fn apply(&self, grid: &mut Grid)
        requires
            old(grid).wf(),
            self.remove_candidates@.len() > 0,
            removable(*old(grid), self.remove_candidates@),
        ensures
            final(grid).wf(),
            removed(*old(grid), *final(grid), self.remove_candidates@),
    {
        remove_all(grid, &self.remove_candidates);
    }

    /// Describes the step.
    pub fn explain(&self) -> (r: String)
        ensures
            r@ == "<h3>XY-Wing</h3>"@,
    {
        "<h3>XY-Wing</h3>".to_owned()
    }
}

/// The candidates of `cell` among `values`, by increasing digit.
pub(crate) fn cands_in(grid: &Grid, cell: u8, values: &DigitSet) -> (r: Vec<Candidate>)
    requires
        grid.wf(),
        cell < 81,
    ensures
        forall|i: int| 0 <= i < r@.len() ==> (#[trigger] r@[i]).0 == cell && grid.cands(cell as int).contains(r@[i].1)
            && values@.contains(r@[i].1),
        forall|v: u8|
            grid.cands(cell as int).contains(v) && values@.contains(v) ==> exists|i: int| 0 <= i < r@.len() && #[trigger] r@[i] == Candidate(cell, v),
        forall|i: int, j: int| 0 <= i < j < r@.len() ==> (#[trigger] r@[i]).1 < (#[trigger] r@[j]).1,
{
    let vs = grid.get_cell_candidate(cell).intersect(values).values();
    let mut r: Vec<Candidate> = Vec::new();
    let mut i: usize = 0;
    while i < vs.len()
        invariant
            i <= vs@.len(),
            cell < 81,
            forall|v: u8| vs@.contains(v) ==> grid.cands(cell as int).contains(v) && values@.contains(v),
            forall|k: int| 0 <= k < r@.len() ==> (#[trigger] r@[k]).0 == cell && grid.cands(cell as int).contains(r@[k].1)
                && values@.contains(r@[k].1),
            forall|v: u8| vs@.contains(v) <==> grid.cands(cell as int).contains(v) && values@.contains(v),
            forall|a: int, b: int| 0 <= a < b < vs@.len() ==> vs@[a] < vs@[b],
            r@.len() == i,
            forall|k: int| 0 <= k < i ==> #[trigger] r@[k] == Candidate(cell, vs@[k]),
        decreases vs@.len() - i,
    {
        assert(vs@.contains(vs@[i as int]));
        r.push(Candidate::new(cell, vs[i]));
        i = i + 1;
    }
    proof {
        assert forall|v: u8| grid.cands(cell as int).contains(v) && values@.contains(v) implies exists|i: int|
            0 <= i < r@.len() && #[trigger] r@[i] == Candidate(cell, v) by {
            assert(vs@.contains(v));
            let k = choose|k: int| 0 <= k < vs@.len() && vs@[k] == v;
            assert(r@[k] == Candidate(cell, v));
        }
        assert forall|a: int, b: int| 0 <= a < b < r@.len() implies (#[trigger] r@[a]).1 < (#[trigger] r@[b]).1 by {
            assert(r@[a] == Candidate(cell, vs@[a]));
            assert(r@[b] == Candidate(cell, vs@[b]));
        }
    }
    r
}

/// Finds XY-Wings.
#[derive(Debug, Default)]
pub struct XYWingFinder {}

impl XYWingFinder {
    /// Some XY-Wing removes a candidate.
    pub open spec fn finds_in(self, g: Grid) -> bool {
        exists|p: u8, f: u8, s: u8, z: u8| #[trigger] xy_new(g, Seq::empty(), p, f, s, z)
    }

    /// Reports XY-Wings, pivot by pivot; when one removes a candidate, a step is reported.
    pub fn find_hint<A: StepAccumulator>(&self, grid: &Grid, acc: &mut A)
        requires
            grid.wf(),
        ensures
            grows(old(acc).recorded(), final(acc).recorded(), |s: Step| s.pattern(*grid) && s is XYWing),
            final(acc).stops_at_first() == old(acc).stops_at_first(),
            self.finds_in(*grid) ==> progressed(old(acc).recorded(), final(acc).recorded(), old(acc).stops_at_first()),
    {
        let ghost start = acc.recorded();
        proof {
            assert(acc.recorded().subrange(0, start.len() as int) =~= start);
        }
        let mut seen: Vec<Vec<Candidate>> = Vec::new();
        let ghost seen0 = seen@;
        find_steps(grid, acc, &mut seen, Ghost(start), Ghost(|s: Step| s.pattern(*grid) && s is XYWing));
        proof {
            if self.finds_in(*grid) {
                let (p, f, s, z) = choose|p: u8, f: u8, s: u8, z: u8| #[trigger] xy_new(*grid, Seq::empty(), p, f, s, z);
                assert(seen0 =~= Seq::<Vec<Candidate>>::empty());
                assert(xy_new(*grid, seen0, p, f, s, z));
            }
        }
    }
}

/// The cells holding `z` that see both wings.
pub open spec fn xy_sight(g: Grid, f: u8, s: u8, z: u8) -> Set<u8> {
    seen_by_all(g, seq![f, s], z)
}

/// An XY-Wing with wings `f < s` that removes a candidate and whose removal list is not
/// among `seen`.
pub open spec fn xy_new(g: Grid, seen: Seq<Vec<Candidate>>, p: u8, f: u8, s: u8, z: u8) -> bool {
    &&& xy_wing(g, p, f, s, z)
    &&& f < s
    &&& exists|c: u8| #[trigger] xy_sight(g, f, s, z).contains(c)
    &&& forall|i: int| 0 <= i < seen.len() ==> !cand_list(#[trigger] seen[i]@, z, xy_sight(g, f, s, z))
}

/// In an XY-Wing both wings hold two digits, one of them the pivot's; `z` is the first
/// wing's only digit outside the pivot.
proof fn lemma_xy_parts(g: Grid, p: u8, f: u8, s: u8, z: u8)
    requires
        xy_wing(g, p, f, s, z),
        g.cands(p as int).finite(),
        g.cands(f as int).finite(),
    ensures
        g.cands(f as int).intersect(g.cands(p as int)).len() == 1,
        g.cands(f as int).difference(g.cands(p as int)).len() == 1,
        g.cands(f as int).difference(g.cands(p as int)).contains(z),
        g.cands(s as int).len() == 2,
        g.cands(s as int).intersect(g.cands(p as int)).len() == 1,
{
    let pc = g.cands(p as int);
    let fc = g.cands(f as int);
    assert(fc.intersect(pc) =~= pc.intersect(fc));
    lemma_set_difference_len(fc, pc);
    lemma_set_difference_len(pc, fc);
    let d = pc.difference(fc);
    assert(!d.contains(z));
    assert(d.insert(z).len() == d.len() + 1);
    assert(d.insert(z).intersect(pc) =~= d);
}

/// Reports XY-Wings: for each pivot with two candidates, each pair of wings among the
/// cells it sees, in increasing order; removals already reported are skipped. Every
/// XY-Wing whose removals are new gets its removals reported, unless the accumulator
/// wanted one step and has it.
#[verifier::rlimit(80)]
pub(crate) fn find_steps<A: StepAccumulator>(
    grid: &Grid,
    acc: &mut A,
    seen: &mut Vec<Vec<Candidate>>,
    Ghost(start): Ghost<Seq<Step>>,
    Ghost(ok): Ghost<spec_fn(Step) -> bool>,
)
    requires
        grid.wf(),
        grows(start, old(acc).recorded(), ok),
        forall|s: Step| s.pattern(*grid) && s is XYWing ==> #[trigger] ok(s),
    ensures
        grows(start, final(acc).recorded(), ok),
        final(acc).stops_at_first() == old(acc).stops_at_first(),
        old(acc).recorded().len() <= final(acc).recorded().len(),
        final(seen)@ == old(seen)@ || progressed(old(acc).recorded(), final(acc).recorded(), old(acc).stops_at_first()),
        (exists|p: u8, f: u8, s: u8, z: u8| #[trigger] xy_new(*grid, old(seen)@, p, f, s, z)) ==> progressed(
            old(acc).recorded(),
            final(acc).recorded(),
            old(acc).stops_at_first(),
        ),
{
    proof {
        grid.lemma_wf();
    }
    let ghost rec0 = acc.recorded();
    let ghost stops = acc.stops_at_first();
    let ghost seen0 = seen@;
    let mut pivot: u8 = 0;
    while pivot < 81
        invariant
            pivot <= 81,
            grid.wf(),
            forall|c: int, v: u8| 0 <= c < 81 && #[trigger] grid.cands(c).contains(v) ==> 1 <= v <= 9,
            forall|c: int| 0 <= c < 81 && grid.value(c) != 0 ==> #[trigger] grid.cands(c) == Set::<u8>::empty(),
            grows(start, acc.recorded(), ok),
            forall|s: Step| s.pattern(*grid) && s is XYWing ==> #[trigger] ok(s),
            acc.stops_at_first() == stops,
            stops == old(acc).stops_at_first(),
            rec0 == old(acc).recorded(),
            seen0 == old(seen)@,
            rec0.len() <= acc.recorded().len(),
            !progressed(rec0, acc.recorded(), stops) ==> seen@ == seen0,
            !progressed(rec0, acc.recorded(), stops) ==> forall|p: u8, f: u8, s: u8, z: u8|
                p < pivot ==> !#[trigger] xy_new(*grid, seen0, p, f, s, z),
        decreases 81 - pivot,
    {
        let pv = grid.get_cell_candidate(pivot);
        proof {
            crate::util::digitset::DigitSet::lemma_bounds(pv);
        }
        if pv.count() == 2 {
            let all = get_cell_buddies(pivot).values();
            let mut buddies: Vec<u8> = Vec::new();
            let mut i: usize = 0;
            while i < all.len()
                invariant
                    i <= all@.len(),
                    pivot < 81,
                    grid.wf(),
                    pv@ == grid.cands(pivot as int),
                    forall|c: u8| all@.contains(c) <==> peers(pivot as int).contains(c),
                    forall|a: int, b: int| 0 <= a < b < all@.len() ==> all@[a] < all@[b],
                    forall|a: int, b: int| 0 <= a < b < buddies@.len() ==> buddies@[a] < buddies@[b],
                    forall|a: int| 0 <= a < buddies@.len() ==> exists|q: int| 0 <= q < i && all@[q] == #[trigger] buddies@[a],
                    forall|a: int|
                        0 <= a < buddies@.len() ==> sees(pivot as int, #[trigger] buddies@[a] as int) && grid.cands(
                            buddies@[a] as int,
                        ).len() == 2 && grid.cands(buddies@[a] as int).intersect(pv@).len() == 1,
                    forall|q: int|
                        0 <= q < i && grid.cands(#[trigger] all@[q] as int).len() == 2 && grid.cands(all@[q] as int).intersect(pv@).len() == 1
                            ==> buddies@.contains(all@[q]),
                decreases all@.len() - i,
            {
                let c = all[i];
                assert(all@.contains(c));
                let cc = grid.get_cell_candidate(c);
                let ghost before = buddies@;
                if cc.count() == 2 && cc.intersect(&pv).count() == 1 {
                    proof {
                        if buddies@.len() > 0 {
                            let q = choose|q: int| 0 <= q < i && all@[q] == buddies@[buddies@.len() - 1];
                            assert(all@[q] < all@[i as int]);
                        }
                    }
                    buddies.push(c);
                    proof {
                        assert forall|a: int| 0 <= a < buddies@.len() implies exists|q: int| 0 <= q < i + 1 && all@[q]
                            == #[trigger] buddies@[a] by {
                            if a < before.len() {
                                assert(buddies@[a] == before[a]);
                                let q = choose|q: int| 0 <= q < i && all@[q] == before[a];
                            } else {
                                assert(all@[i as int] == buddies@[a]);
                            }
                        }
                    }
                }
                proof {
                    assert forall|q: int|
                        0 <= q < i + 1 && grid.cands(#[trigger] all@[q] as int).len() == 2 && grid.cands(all@[q] as int).intersect(pv@).len() == 1
                            implies buddies@.contains(all@[q]) by {
                        if q < i {
                            assert(before.contains(all@[q]));
                            let k = choose|k: int| 0 <= k < before.len() && before[k] == all@[q];
                            assert(buddies@[k] == before[k]);
                        } else {
                            assert(buddies@[buddies@.len() - 1] == c);
                        }
                    }
                }
                i = i + 1;
            }
            proof {
                assert forall|c: u8|
                    sees(pivot as int, c as int) && #[trigger] grid.cands(c as int).len() == 2 && grid.cands(c as int).intersect(pv@).len() == 1
                        implies buddies@.contains(c) by {
                    assert(peers(pivot as int).contains(c));
                    assert(all@.contains(c));
                    let q = choose|q: int| 0 <= q < all@.len() && all@[q] == c;
                    assert(grid.cands(all@[q] as int).len() == 2);
                }
            }
            let mut idx: usize = 0;
            while idx < buddies.len()
                invariant
                    idx <= buddies@.len(),
                    pivot < 81,
                    grid.wf(),
                    pv@ == grid.cands(pivot as int),
                    pv@.len() == 2,
                    pv@.finite(),
                    forall|c: int, v: u8| 0 <= c < 81 && #[trigger] grid.cands(c).contains(v) ==> 1 <= v <= 9,
                    forall|c: int| 0 <= c < 81 && grid.value(c) != 0 ==> #[trigger] grid.cands(c) == Set::<u8>::empty(),
                    forall|a: int, b: int| 0 <= a < b < buddies@.len() ==> buddies@[a] < buddies@[b],
                    forall|a: int|
                        0 <= a < buddies@.len() ==> sees(pivot as int, #[trigger] buddies@[a] as int) && grid.cands(
                            buddies@[a] as int,
                        ).len() == 2 && grid.cands(buddies@[a] as int).intersect(pv@).len() == 1,
                    forall|c: u8|
                        sees(pivot as int, c as int) && #[trigger] grid.cands(c as int).len() == 2 && grid.cands(c as int).intersect(pv@).len() == 1
                            ==> buddies@.contains(c),
                    grows(start, acc.recorded(), ok),
                    forall|s: Step| s.pattern(*grid) && s is XYWing ==> #[trigger] ok(s),
                    acc.stops_at_first() == stops,
                    stops == old(acc).stops_at_first(),
                    rec0 == old(acc).recorded(),
                    seen0 == old(seen)@,
                    rec0.len() <= acc.recorded().len(),
                    !progressed(rec0, acc.recorded(), stops) ==> seen@ == seen0,
                    !progressed(rec0, acc.recorded(), stops) ==> forall|p: u8, f: u8, s: u8, z: u8|
                        p < pivot ==> !#[trigger] xy_new(*grid, seen0, p, f, s, z),
                    !progressed(rec0, acc.recorded(), stops) ==> forall|a: int, s: u8, z: u8|
                        0 <= a < idx ==> !#[trigger] xy_new(*grid, seen0, pivot, buddies@[a], s, z),
                decreases buddies@.len() - idx,
            {
                let first = buddies[idx];
                let fv = grid.get_cell_candidate(first);
                proof {
                    crate::util::digitset::DigitSet::lemma_bounds(fv);
                }
                let zs = fv.difference(&pv).values();
                if zs.len() > 0 {
                    let z = zs[0];
                    assert(zs@.contains(z));
                    let mut es = pv.difference(&fv);
                    es.add(z);
                    let mut j: usize = idx + 1;
                    while j < buddies.len()
                        invariant
                            idx < j <= buddies@.len(),
                            first == buddies@[idx as int],
                            pivot < 81,
                            grid.wf(),
                            pv@ == grid.cands(pivot as int),
                            pv@.len() == 2,
                            pv@.finite(),
                            fv@ == grid.cands(first as int),
                            fv@.finite(),
                            fv@.contains(z) && !pv@.contains(z),
                            1 <= z <= 9,
                            es@ == pv@.difference(fv@).insert(z),
                            forall|c: int| 0 <= c < 81 && grid.value(c) != 0 ==> #[trigger] grid.cands(c) == Set::<u8>::empty(),
                            forall|a: int, b: int| 0 <= a < b < buddies@.len() ==> buddies@[a] < buddies@[b],
                            forall|a: int|
                                0 <= a < buddies@.len() ==> sees(pivot as int, #[trigger] buddies@[a] as int) && grid.cands(
                                    buddies@[a] as int,
                                ).len() == 2 && grid.cands(buddies@[a] as int).intersect(pv@).len() == 1,
                            grows(start, acc.recorded(), ok),
                            forall|s: Step| s.pattern(*grid) && s is XYWing ==> #[trigger] ok(s),
                            acc.stops_at_first() == stops,
                            stops == old(acc).stops_at_first(),
                            rec0 == old(acc).recorded(),
                            seen0 == old(seen)@,
                            rec0.len() <= acc.recorded().len(),
                            !progressed(rec0, acc.recorded(), stops) ==> seen@ == seen0,
                            !progressed(rec0, acc.recorded(), stops) ==> forall|p: u8, f: u8, s: u8, z: u8|
                                p < pivot ==> !#[trigger] xy_new(*grid, seen0, p, f, s, z),
                            !progressed(rec0, acc.recorded(), stops) ==> forall|a: int, s: u8, z: u8|
                                0 <= a < idx ==> !#[trigger] xy_new(*grid, seen0, pivot, buddies@[a], s, z),
                            !progressed(rec0, acc.recorded(), stops) ==> forall|b: int, z2: u8|
                                idx < b < j ==> !#[trigger] xy_new(*grid, seen0, pivot, first, buddies@[b], z2),
                        decreases buddies@.len() - j,
                    {
                        let second = buddies[j];
                        let sv = grid.get_cell_candidate(second);
                        let ghost seen_b = seen@;
                        if sv == es {
                            let mut wing: Vec<u8> = Vec::new();
                            wing.push(first);
                            wing.push(second);
                            let rm = seen_removals(grid, &wing, z);
                            let mut highlight = cands_in(grid, pivot, &pv);
                            let mut h2 = cands_in(grid, first, &pv);
                            highlight.append(&mut h2);
                            let mut h3 = cands_in(grid, second, &pv);
                            highlight.append(&mut h3);
                            let mut fins: Vec<Candidate> = Vec::new();
                            fins.push(Candidate::new(first, z));
                            fins.push(Candidate::new(second, z));
                            let hint = XYWing { remove_candidates: clone_list(&rm), highlight_candidates: highlight, fin_candidates: fins };
                            proof {
                                assert(buddies@[idx as int] < buddies@[j as int]);
                                assert(sv@ == es@);
                                assert(pv@.len() > 0);
                                assert(grid.value(pivot as int) == 0) by {
                                    if grid.value(pivot as int) != 0 {
                                        assert(grid.cands(pivot as int) == Set::<u8>::empty());
                                    }
                                }
                                assert(grid.value(first as int) == 0) by {
                                    if grid.value(first as int) != 0 {
                                        assert(grid.cands(first as int) == Set::<u8>::empty());
                                    }
                                }
                                assert(grid.value(second as int) == 0) by {
                                    assert(sv@.contains(z));
                                    if grid.value(second as int) != 0 {
                                        assert(grid.cands(second as int) == Set::<u8>::empty());
                                    }
                                }
                                assert(wing@ =~= seq![first, second]);
                                assert(pv@.intersect(fv@) =~= fv@.intersect(pv@));
                                assert(sees(pivot as int, first as int));
                                assert(sees(pivot as int, second as int));
                                assert(grid.cands(second as int) == grid.cands(pivot as int).difference(grid.cands(first as int)).insert(z));
                                assert(xy_wing(*grid, pivot, first, second, z));
                                if rm@.len() > 0 {
                                    assert(Step::XYWing(hint).pattern(*grid));
                                }
                            }
                            if add_wing_step(Step::XYWing(hint), &rm, seen, acc, Ghost(start), Ghost(ok)) {
                                return;
                            }
                            proof {
                                if !progressed(rec0, acc.recorded(), stops) {
                                    assert(!fresh(seen_b, rm@));
                                    assert forall|z2: u8| !#[trigger] xy_new(*grid, seen0, pivot, first, second, z2) by {
                                        if xy_new(*grid, seen0, pivot, first, second, z2) {
                                            lemma_xy_parts(*grid, pivot, first, second, z2);
                                            assert(fv@.difference(pv@).contains(z));
                                            crate::util::indexset::lemma_set_single(fv@.difference(pv@), z, z2);
                                            let c = choose|c: u8| #[trigger] xy_sight(*grid, first, second, z2).contains(c);
                                            assert(xy_sight(*grid, first, second, z2).contains(c));
                                            if rm@.len() > 0 {
                                                let k = choose|k: int| 0 <= k < seen_b.len() && (#[trigger] seen_b[k])@ == rm@;
                                                assert(!cand_list(seen0[k]@, z, xy_sight(*grid, first, second, z)));
                                            }
                                        }
                                    }
                                }
                            }
                        } else {
                            proof {
                                use_type_invariant(&sv);
                                use_type_invariant(&es);
                                assert forall|z2: u8| !#[trigger] xy_new(*grid, seen0, pivot, first, second, z2) by {
                                    if xy_new(*grid, seen0, pivot, first, second, z2) {
                                        lemma_xy_parts(*grid, pivot, first, second, z2);
                                        assert(fv@.difference(pv@).contains(z));
                                        crate::util::indexset::lemma_set_single(fv@.difference(pv@), z, z2);
                                        assert(sv@ =~= es@);
                                        crate::util::digitset::DigitSet::lemma_view_eq(sv, es);
                                    }
                                }
                            }
                        }
                        j = j + 1;
                    }
                    proof {
                        assert forall|s: u8, z2: u8| !progressed(rec0, acc.recorded(), stops) implies !#[trigger] xy_new(
                            *grid,
                            seen0,
                            pivot,
                            first,
                            s,
                            z2,
                        ) by {
                            if xy_new(*grid, seen0, pivot, first, s, z2) {
                                lemma_xy_parts(*grid, pivot, first, s, z2);
                                assert(buddies@.contains(s));
                                let b = choose|b: int| 0 <= b < buddies@.len() && buddies@[b] == s;
                                if b <= idx {
                                    if b < idx {
                                        assert(buddies@[b] < buddies@[idx as int]);
                                    }
                                }
                                assert(!xy_new(*grid, seen0, pivot, first, buddies@[b], z2));
                            }
                        }
                    }
                } else {
                    proof {
                        assert forall|s: u8, z2: u8| !#[trigger] xy_new(*grid, seen0, pivot, first, s, z2) by {
                            if xy_new(*grid, seen0, pivot, first, s, z2) {
                                assert(fv@.difference(pv@).contains(z2));
                                assert(zs@.contains(z2));
                            }
                        }
                    }
                }
                idx = idx + 1;
            }
            proof {
                assert forall|f: u8, s: u8, z: u8| !progressed(rec0, acc.recorded(), stops) implies !#[trigger] xy_new(
                    *grid,
                    seen0,
                    pivot,
                    f,
                    s,
                    z,
                ) by {
                    if xy_new(*grid, seen0, pivot, f, s, z) {
                        assert(grid.cands(f as int).intersect(pv@) =~= pv@.intersect(grid.cands(f as int)));
                        assert(buddies@.contains(f));
                        let a = choose|a: int| 0 <= a < buddies@.len() && buddies@[a] == f;
                        assert(!xy_new(*grid, seen0, pivot, buddies@[a], s, z));
                    }
                }
            }
        } else {
            proof {
                assert forall|f: u8, s: u8, z: u8| !#[trigger] xy_new(*grid, seen0, pivot, f, s, z) by {
                }
            }
        }
        pivot = pivot + 1;
    }
}

/// A copy of a list of candidates.
pub(crate) fn clone_list(v: &Vec<Candidate>) -> (r: Vec<Candidate>)
    ensures
        r@ == v@,
{
    crate::solver::naked_set::clone_cand_list(v)
}

} // verus!
