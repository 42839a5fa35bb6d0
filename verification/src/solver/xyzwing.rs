use vstd::prelude::*;
use crate::candidate::Candidate;
use crate::grid::Grid;
use crate::grid_constant::{sees, get_cell_buddies, peers};
use crate::solver::step::{Step, removable, removed, remove_all};
use crate::solver::step_accumulator::StepAccumulator;
use crate::solver::common::{grows, cand_list, progressed};
use crate::solver::wings::{seen_by_all, seen_removals, add_wing_step, fresh};
use crate::solver::xywing::clone_list;
use crate::util::digitset::DigitSet;

verus! {

/// Pivot `p` holds three digits; the wings `f` and `s` see it and hold two of them each,
/// different pairs sharing only `z` and together making up the pivot's digits.
pub open spec fn xyz_wing(g: Grid, p: u8, f: u8, s: u8, z: u8) -> bool {
    &&& p < 81 && f < 81 && s < 81
    &&& sees(p as int, f as int) && sees(p as int, s as int) && f != s
    &&& g.value(p as int) == 0 && g.value(f as int) == 0 && g.value(s as int) == 0
    &&& g.cands(p as int).len() == 3
    &&& g.cands(f as int).len() == 2 && g.cands(f as int).subset_of(g.cands(p as int))
    &&& g.cands(s as int).len() == 2 && g.cands(s as int).subset_of(g.cands(p as int))
    &&& g.cands(f as int) != g.cands(s as int)
    &&& g.cands(f as int).union(g.cands(s as int)) == g.cands(p as int)
    &&& g.cands(f as int).intersect(g.cands(s as int)) == set![z]
}

/// One of the pivot and its wings holds `z`, so no cell seeing all three can.
#[derive(Debug, PartialEq, Clone, Eq, Hash)]
pub struct XYZWing {
    pub remove_candidates: Vec<Candidate>,
    pub highlight_candidates: Vec<Candidate>,
    pub fin_candidates: Vec<Candidate>,
}

impl XYZWing {
    /// Some pivot and wings form an XYZ-Wing; the removals are the `z` candidates of the
    /// cells seeing all three.
    pub open spec fn pattern(self, g: Grid) -> bool {
        exists|p: u8, f: u8, s: u8, z: u8|
            #[trigger] xyz_wing(g, p, f, s, z) && cand_list(self.remove_candidates@, z, seen_by_all(g, seq![p, f, s], z))
                && self.remove_candidates@.len() > 0
    }

    /// Removes the candidates.
    pub fn apply(&self, grid: &mut Grid)
        requires
            old(grid).wf(),
            self.remove_candidates@.len() > 0,
            removable(*old(grid), self.remove_candidates@),
        ensures
            final(grid).wf(),
            removed(*old(grid), *final(grid), self.remove_candidates@),
    {
        remove_all(grid, &self.remove_candidates);
    }

    /// Describes the step.
    pub fn explain(&self) -> (r: String)
        ensures
            r@ == "<h3>XYZ-Wing</h3>"@,
    {
        "<h3>XYZ-Wing</h3>".to_owned()
    }
}

/// The candidates of `cell` other than `z`, by increasing digit.
fn cands_but(grid: &Grid, cell: u8, z: u8) -> (r: Vec<Candidate>)
    requires
        grid.wf(),
        cell < 81,
    ensures
        forall|i: int| 0 <= i < r@.len() ==> (#[trigger] r@[i]).0 == cell && grid.cands(cell as int).contains(r@[i].1)
            && r@[i].1 != z,
        forall|v: u8| grid.cands(cell as int).contains(v) && v != z ==> exists|i: int| 0 <= i < r@.len() && #[trigger] r@[i] == Candidate(cell, v),
        forall|i: int, j: int| 0 <= i < j < r@.len() ==> (#[trigger] r@[i]).1 < (#[trigger] r@[j]).1,
{
    let vs = grid.get_cell_candidate(cell).values();
    let mut r: Vec<Candidate> = Vec::new();
    let mut i: usize = 0;
    while i < vs.len()
        invariant
            i <= vs@.len(),
            cell < 81,
            forall|v: u8| vs@.contains(v) ==> grid.cands(cell as int).contains(v),
            forall|k: int| 0 <= k < r@.len() ==> (#[trigger] r@[k]).0 == cell && grid.cands(cell as int).contains(r@[k].1)
                && r@[k].1 != z,
            forall|v: u8| vs@.contains(v) <==> grid.cands(cell as int).contains(v),
            forall|a: int, b: int| 0 <= a < b < vs@.len() ==> vs@[a] < vs@[b],
            forall|k: int| 0 <= k < r@.len() ==> exists|a: int| 0 <= a < i && #[trigger] vs@[a] == (#[trigger] r@[k]).1,
            forall|a: int| 0 <= a < i && vs@[a] != z ==> exists|k: int| 0 <= k < r@.len() && #[trigger] r@[k] == Candidate(cell, vs@[a]),
            forall|k1: int, k2: int| 0 <= k1 < k2 < r@.len() ==> (#[trigger] r@[k1]).1 < (#[trigger] r@[k2]).1,
        decreases vs@.len() - i,
    {
        assert(vs@.contains(vs@[i as int]));
        let ghost rb = r@;
        if vs[i] != z {
            r.push(Candidate::new(cell, vs[i]));
            proof {
                assert forall|k1: int, k2: int| 0 <= k1 < k2 < r@.len() implies (#[trigger] r@[k1]).1 < (#[trigger] r@[k2]).1 by {
                    if k2 == rb.len() {
                        assert(r@[k1] == rb[k1]);
                        let a = choose|a: int| 0 <= a < i && #[trigger] vs@[a] == rb[k1].1;
                    } else {
                        assert(r@[k1] == rb[k1] && r@[k2] == rb[k2]);
                    }
                }
                assert forall|k: int| 0 <= k < r@.len() implies exists|a: int| 0 <= a < i + 1 && #[trigger] vs@[a] == (#[trigger] r@[k]).1 by {
                    if k < rb.len() {
                        assert(r@[k] == rb[k]);
                        let a = choose|a: int| 0 <= a < i && #[trigger] vs@[a] == rb[k].1;
                    } else {
                        assert(vs@[i as int] == r@[k].1);
                    }
                }
                assert forall|a: int| 0 <= a < i + 1 && vs@[a] != z implies exists|k: int| 0 <= k < r@.len() && #[trigger] r@[k] == Candidate(cell, vs@[a]) by {
                    if a < i {
                        let k = choose|k: int| 0 <= k < rb.len() && #[trigger] rb[k] == Candidate(cell, vs@[a]);
                        assert(r@[k] == rb[k]);
                    } else {
                        assert(r@[rb.len() as int] == Candidate(cell, vs@[a]));
                    }
                }
            }
        }
        i = i + 1;
    }
    proof {
        assert forall|v: u8| grid.cands(cell as int).contains(v) && v != z implies exists|i: int|
            0 <= i < r@.len() && #[trigger] r@[i] == Candidate(cell, v) by {
            assert(vs@.contains(v));
            let a = choose|a: int| 0 <= a < vs@.len() && vs@[a] == v;
        }
    }
    r
}

/// The cells holding `z` that see the pivot and both wings.
pub open spec fn wing_sight(g: Grid, p: u8, f: u8, s: u8, z: u8) -> Set<u8> {
    seen_by_all(g, seq![p, f, s], z)
}

/// An XYZ-Wing with wings `f < s` that removes a candidate and whose removal list is not
/// among `seen`.
pub open spec fn xyz_new(g: Grid, seen: Seq<Vec<Candidate>>, p: u8, f: u8, s: u8, z: u8) -> bool {
    &&& xyz_wing(g, p, f, s, z)
    &&& f < s
    &&& exists|c: u8| #[trigger] wing_sight(g, p, f, s, z).contains(c)
    &&& forall|i: int| 0 <= i < seen.len() ==> !cand_list(#[trigger] seen[i]@, z, wing_sight(g, p, f, s, z))
}

/// Finds XYZ-Wings.
#[derive(Debug, Default)]
pub struct XYZWingFinder {}

impl XYZWingFinder {
    /// Some XYZ-Wing removes a candidate.
    pub open spec fn finds_in(self, g: Grid) -> bool {
        exists|p: u8, f: u8, s: u8, z: u8| #[trigger] xyz_new(g, Seq::empty(), p, f, s, z)
    }

    /// Reports XYZ-Wings, pivot by pivot; when one removes a candidate, a step is
    /// reported.
    pub fn find_hint<A: StepAccumulator>(&self, grid: &Grid, acc: &mut A)
        requires
            grid.wf(),
        ensures
            grows(old(acc).recorded(), final(acc).recorded(), |s: Step| s.pattern(*grid) && s is XYZWing),
            final(acc).stops_at_first() == old(acc).stops_at_first(),
            self.finds_in(*grid) ==> progressed(old(acc).recorded(), final(acc).recorded(), old(acc).stops_at_first()),
    {
        let ghost start = acc.recorded();
        proof {
            assert(acc.recorded().subrange(0, start.len() as int) =~= start);
        }
        let mut seen: Vec<Vec<Candidate>> = Vec::new();
        let ghost seen0 = seen@;
        find_steps(grid, acc, &mut seen, Ghost(start), Ghost(|s: Step| s.pattern(*grid) && s is XYZWing));
        proof {
            if self.finds_in(*grid) {
                let (p, f, s, z) = choose|p: u8, f: u8, s: u8, z: u8| #[trigger] xyz_new(*grid, Seq::empty(), p, f, s, z);
                assert(seen0 =~= Seq::<Vec<Candidate>>::empty());
                assert(xyz_new(*grid, seen0, p, f, s, z));
            }
        }
    }
}

/// Reports XYZ-Wings: for each pivot with three candidates, each pair of wings among the
/// cells it sees, in increasing order; removals already reported are skipped. Every
/// XYZ-Wing whose removals are new gets its removals reported, unless the accumulator
/// wanted one step and has it.
#[verifier::rlimit(80)]
pub(crate) fn find_steps<A: StepAccumulator>(
    grid: &Grid,
    acc: &mut A,
    seen: &mut Vec<Vec<Candidate>>,
    Ghost(start): Ghost<Seq<Step>>,
    Ghost(ok): Ghost<spec_fn(Step) -> bool>,
)
    requires
        grid.wf(),
        grows(start, old(acc).recorded(), ok),
        forall|s: Step| s.pattern(*grid) && s is XYZWing ==> #[trigger] ok(s),
    ensures
        grows(start, final(acc).recorded(), ok),
        final(acc).stops_at_first() == old(acc).stops_at_first(),
        old(acc).recorded().len() <= final(acc).recorded().len(),
        final(seen)@ == old(seen)@ || progressed(old(acc).recorded(), final(acc).recorded(), old(acc).stops_at_first()),
        (exists|p: u8, f: u8, s: u8, z: u8| #[trigger] xyz_new(*grid, old(seen)@, p, f, s, z)) ==> progressed(
            old(acc).recorded(),
            final(acc).recorded(),
            old(acc).stops_at_first(),
        ),
{
    proof {
        grid.lemma_wf();
    }
    let ghost rec0 = acc.recorded();
    let ghost stops = acc.stops_at_first();
    let ghost seen0 = seen@;
    let mut pivot: u8 = 0;
    while pivot < 81
        invariant
            pivot <= 81,
            grid.wf(),
            forall|c: int, v: u8| 0 <= c < 81 && #[trigger] grid.cands(c).contains(v) ==> 1 <= v <= 9,
            forall|c: int| 0 <= c < 81 && grid.value(c) != 0 ==> #[trigger] grid.cands(c) == Set::<u8>::empty(),
            grows(start, acc.recorded(), ok),
            forall|s: Step| s.pattern(*grid) && s is XYZWing ==> #[trigger] ok(s),
            acc.stops_at_first() == stops,
            stops == old(acc).stops_at_first(),
            rec0 == old(acc).recorded(),
            seen0 == old(seen)@,
            rec0.len() <= acc.recorded().len(),
            !progressed(rec0, acc.recorded(), stops) ==> seen@ == seen0,
            !progressed(rec0, acc.recorded(), stops) ==> forall|p: u8, f: u8, s: u8, z: u8|
                p < pivot ==> !#[trigger] xyz_new(*grid, seen0, p, f, s, z),
        decreases 81 - pivot,
    {
        let pv = grid.get_cell_candidate(pivot);
        if pv.count() == 3 {
            let all = get_cell_buddies(pivot).values();
            let mut pincers: Vec<u8> = Vec::new();
            let mut i: usize = 0;
            while i < all.len()
                invariant
                    i <= all@.len(),
                    pivot < 81,
                    grid.wf(),
                    pv@ == grid.cands(pivot as int),
                    forall|c: u8| all@.contains(c) <==> peers(pivot as int).contains(c),
                    forall|a: int, b: int| 0 <= a < b < all@.len() ==> all@[a] < all@[b],
                    forall|a: int, b: int| 0 <= a < b < pincers@.len() ==> pincers@[a] < pincers@[b],
                    forall|a: int| 0 <= a < pincers@.len() ==> exists|q: int| 0 <= q < i && all@[q] == #[trigger] pincers@[a],
                    forall|a: int|
                        0 <= a < pincers@.len() ==> sees(pivot as int, #[trigger] pincers@[a] as int) && grid.cands(
                            pincers@[a] as int,
                        ).len() == 2 && grid.cands(pincers@[a] as int).subset_of(pv@),
                    forall|q: int|
                        0 <= q < i && grid.cands(#[trigger] all@[q] as int).len() == 2 && grid.cands(all@[q] as int).subset_of(pv@)
                            ==> pincers@.contains(all@[q]),
                decreases all@.len() - i,
            {
                let c = all[i];
                assert(all@.contains(c));
                let cc = grid.get_cell_candidate(c);
                let ghost before = pincers@;
                if cc.count() == 2 && cc.difference(&pv).is_empty() {
                    proof {
                        if pincers@.len() > 0 {
                            let q = choose|q: int| 0 <= q < i && all@[q] == pincers@[pincers@.len() - 1];
                            assert(all@[q] < all@[i as int]);
                        }
                        assert forall|v: u8| cc@.contains(v) implies pv@.contains(v) by {
                            assert(!cc@.difference(pv@).contains(v));
                        }
                    }
                    pincers.push(c);
                    proof {
                        assert forall|a: int| 0 <= a < pincers@.len() implies exists|q: int| 0 <= q < i + 1 && all@[q]
                            == #[trigger] pincers@[a] by {
                            if a < before.len() {
                                assert(pincers@[a] == before[a]);
                                let q = choose|q: int| 0 <= q < i && all@[q] == before[a];
                            } else {
                                assert(all@[i as int] == pincers@[a]);
                            }
                        }
                        assert(pincers@[before.len() as int] == c);
                    }
                } else {
                    proof {
                        if grid.cands(c as int).len() == 2 && grid.cands(c as int).subset_of(pv@) {
                            assert(cc@.difference(pv@) =~= Set::<u8>::empty());
                        }
                    }
                }
                proof {
                    assert forall|q: int|
                        0 <= q < i + 1 && grid.cands(#[trigger] all@[q] as int).len() == 2 && grid.cands(all@[q] as int).subset_of(pv@)
                            implies pincers@.contains(all@[q]) by {
                        if q < i {
                            assert(before.contains(all@[q]));
                            let k = choose|k: int| 0 <= k < before.len() && before[k] == all@[q];
                            assert(pincers@[k] == before[k]);
                        } else {
                            assert(pincers@[pincers@.len() - 1] == c);
                        }
                    }
                }
                i = i + 1;
            }
            proof {
                assert forall|c: u8|
                    sees(pivot as int, c as int) && #[trigger] grid.cands(c as int).len() == 2 && grid.cands(c as int).subset_of(pv@)
                        implies pincers@.contains(c) by {
                    assert(peers(pivot as int).contains(c));
                    assert(all@.contains(c));
                    let q = choose|q: int| 0 <= q < all@.len() && all@[q] == c;
                    assert(grid.cands(all@[q] as int).len() == 2);
                }
            }
            let mut idx: usize = 0;
            while idx < pincers.len()
                invariant
                    idx <= pincers@.len(),
                    pivot < 81,
                    grid.wf(),
                    pv@ == grid.cands(pivot as int),
                    pv@.len() == 3,
                    forall|c: int, v: u8| 0 <= c < 81 && #[trigger] grid.cands(c).contains(v) ==> 1 <= v <= 9,
                    forall|c: int| 0 <= c < 81 && grid.value(c) != 0 ==> #[trigger] grid.cands(c) == Set::<u8>::empty(),
                    forall|a: int, b: int| 0 <= a < b < pincers@.len() ==> pincers@[a] < pincers@[b],
                    forall|a: int|
                        0 <= a < pincers@.len() ==> sees(pivot as int, #[trigger] pincers@[a] as int) && grid.cands(
                            pincers@[a] as int,
                        ).len() == 2 && grid.cands(pincers@[a] as int).subset_of(pv@),
                    forall|c: u8|
                        sees(pivot as int, c as int) && #[trigger] grid.cands(c as int).len() == 2 && grid.cands(c as int).subset_of(pv@)
                            ==> pincers@.contains(c),
                    grows(start, acc.recorded(), ok),
                    forall|s: Step| s.pattern(*grid) && s is XYZWing ==> #[trigger] ok(s),
                    acc.stops_at_first() == stops,
                    stops == old(acc).stops_at_first(),
                    rec0 == old(acc).recorded(),
                    seen0 == old(seen)@,
                    rec0.len() <= acc.recorded().len(),
                    !progressed(rec0, acc.recorded(), stops) ==> seen@ == seen0,
                    !progressed(rec0, acc.recorded(), stops) ==> forall|p: u8, f: u8, s: u8, z: u8|
                        p < pivot ==> !#[trigger] xyz_new(*grid, seen0, p, f, s, z),
                    !progressed(rec0, acc.recorded(), stops) ==> forall|a: int, s: u8, z: u8|
                        0 <= a < idx ==> !#[trigger] xyz_new(*grid, seen0, pivot, pincers@[a], s, z),
                decreases pincers@.len() - idx,
            {
                let first = pincers[idx];
                let fv = grid.get_cell_candidate(first);
                let mut j: usize = idx + 1;
                while j < pincers.len()
                    invariant
                        idx < j <= pincers@.len(),
                        first == pincers@[idx as int],
                        pivot < 81,
                        grid.wf(),
                        pv@ == grid.cands(pivot as int),
                        pv@.len() == 3,
                        fv@ == grid.cands(first as int),
                        forall|c: int| 0 <= c < 81 && grid.value(c) != 0 ==> #[trigger] grid.cands(c) == Set::<u8>::empty(),
                        forall|a: int, b: int| 0 <= a < b < pincers@.len() ==> pincers@[a] < pincers@[b],
                        forall|a: int|
                            0 <= a < pincers@.len() ==> sees(pivot as int, #[trigger] pincers@[a] as int) && grid.cands(
                                pincers@[a] as int,
                            ).len() == 2 && grid.cands(pincers@[a] as int).subset_of(pv@),
                        grows(start, acc.recorded(), ok),
                        forall|s: Step| s.pattern(*grid) && s is XYZWing ==> #[trigger] ok(s),
                        acc.stops_at_first() == stops,
                        stops == old(acc).stops_at_first(),
                        rec0 == old(acc).recorded(),
                        seen0 == old(seen)@,
                        rec0.len() <= acc.recorded().len(),
                        !progressed(rec0, acc.recorded(), stops) ==> seen@ == seen0,
                        !progressed(rec0, acc.recorded(), stops) ==> forall|b: int, z: u8|
                            idx < b < j ==> !#[trigger] xyz_new(*grid, seen0, pivot, first, pincers@[b], z),
                        !progressed(rec0, acc.recorded(), stops) ==> forall|p: u8, f: u8, s: u8, z: u8|
                            p < pivot ==> !#[trigger] xyz_new(*grid, seen0, p, f, s, z),
                        !progressed(rec0, acc.recorded(), stops) ==> forall|a: int, s: u8, z: u8|
                            0 <= a < idx ==> !#[trigger] xyz_new(*grid, seen0, pivot, pincers@[a], s, z),
                    decreases pincers@.len() - j,
                {
                    let second = pincers[j];
                    let sv = grid.get_cell_candidate(second);
                    let u = fv.union(&sv);
                    let ghost rec_b = acc.recorded();
                    let ghost seen_b = seen@;
                    if !(fv == sv) && u == pv {
                        let common = fv.intersect(&sv);
                        if common.count() == 1 {
                            let zs = common.values();
                            let z = zs[0];
                            assert(zs@.contains(z));
                            let mut wing: Vec<u8> = Vec::new();
                            wing.push(pivot);
                            wing.push(first);
                            wing.push(second);
                            let rm = seen_removals(grid, &wing, z);
                            let mut highlight = cands_but(grid, pivot, z);
                            let mut h2 = cands_but(grid, first, z);
                            highlight.append(&mut h2);
                            let mut h3 = cands_but(grid, second, z);
                            highlight.append(&mut h3);
                            let mut fins: Vec<Candidate> = Vec::new();
                            fins.push(Candidate::new(pivot, z));
                            fins.push(Candidate::new(first, z));
                            fins.push(Candidate::new(second, z));
                            let hint = XYZWing { remove_candidates: clone_list(&rm), highlight_candidates: highlight, fin_candidates: fins };
                            proof {
                                use_type_invariant(&fv);
                                use_type_invariant(&sv);
                                assert(pincers@[idx as int] < pincers@[j as int]);
                                crate::util::digitset::DigitSet::lemma_bounds(common);
                                assert(common@ =~= set![z]) by {
                                    assert forall|v: u8| common@.contains(v) implies v == z by {
                                        crate::util::indexset::lemma_set_single(common@, z, v);
                                    }
                                }
                                assert(pv@.len() > 0);
                                assert(grid.value(pivot as int) == 0) by {
                                    if grid.value(pivot as int) != 0 {
                                        assert(grid.cands(pivot as int) == Set::<u8>::empty());
                                    }
                                }
                                assert(grid.value(first as int) == 0) by {
                                    if grid.value(first as int) != 0 {
                                        assert(grid.cands(first as int) == Set::<u8>::empty());
                                    }
                                }
                                assert(grid.value(second as int) == 0) by {
                                    assert(sv@.contains(z));
                                    if grid.value(second as int) != 0 {
                                        assert(grid.cands(second as int) == Set::<u8>::empty());
                                    }
                                }
                                assert(fv@ != sv@) by {
                                    if fv@ == sv@ {
                                        crate::util::digitset::DigitSet::lemma_view_eq(fv, sv);
                                    }
                                }
                                assert(wing@ =~= seq![pivot, first, second]);
                                assert(sees(pivot as int, first as int));
                                assert(sees(pivot as int, second as int));
                                assert(xyz_wing(*grid, pivot, first, second, z));
                                if rm@.len() > 0 {
                                    assert(Step::XYZWing(hint).pattern(*grid));
                                }
                            }
                            if add_wing_step(Step::XYZWing(hint), &rm, seen, acc, Ghost(start), Ghost(ok)) {
                                return;
                            }
                            proof {
                                if !progressed(rec0, acc.recorded(), stops) {
                                    assert(!fresh(seen_b, rm@));
                                    assert forall|z2: u8| !#[trigger] xyz_new(*grid, seen0, pivot, first, second, z2) by {
                                        if xyz_new(*grid, seen0, pivot, first, second, z2) {
                                            assert(common@.contains(z2));
                                            assert(z2 == z);
                                            let c = choose|c: u8| #[trigger] wing_sight(*grid, pivot, first, second, z2).contains(c);
                                            assert(wing_sight(*grid, pivot, first, second, z2).contains(c));
                                            if rm@.len() > 0 {
                                                let k = choose|k: int| 0 <= k < seen_b.len() && (#[trigger] seen_b[k])@ == rm@;
                                                assert(!cand_list(seen0[k]@, z, wing_sight(*grid, pivot, first, second, z)));
                                            }
                                        }
                                    }
                                }
                            }
                        } else {
                            proof {
                                assert forall|z2: u8| !#[trigger] xyz_new(*grid, seen0, pivot, first, second, z2) by {
                                    if xyz_new(*grid, seen0, pivot, first, second, z2) {
                                        assert(common@ == set![z2]);
                                        assert(set![z2].len() == 1);
                                    }
                                }
                            }
                        }
                    } else {
                        proof {
                            use_type_invariant(&fv);
                            use_type_invariant(&sv);
                            use_type_invariant(&u);
                            use_type_invariant(&pv);
                            assert forall|z2: u8| !#[trigger] xyz_new(*grid, seen0, pivot, first, second, z2) by {
                                if xyz_new(*grid, seen0, pivot, first, second, z2) {
                                    assert(fv@ != sv@);
                                    assert(u@ == pv@);
                                    crate::util::digitset::DigitSet::lemma_view_eq(u, pv);
                                }
                            }
                        }
                    }
                    j = j + 1;
                }
                proof {
                    assert forall|s: u8, z: u8| !progressed(rec0, acc.recorded(), stops) implies !#[trigger] xyz_new(
                        *grid,
                        seen0,
                        pivot,
                        first,
                        s,
                        z,
                    ) by {
                        if xyz_new(*grid, seen0, pivot, first, s, z) {
                            assert(grid.cands(s as int).len() == 2);
                            assert(pincers@.contains(s));
                            let b = choose|b: int| 0 <= b < pincers@.len() && pincers@[b] == s;
                            if b <= idx {
                                if b < idx {
                                    assert(pincers@[b] < pincers@[idx as int]);
                                }
                            }
                            assert(!xyz_new(*grid, seen0, pivot, first, pincers@[b], z));
                        }
                    }
                }
                idx = idx + 1;
            }
            proof {
                assert forall|f: u8, s: u8, z: u8| !progressed(rec0, acc.recorded(), stops) implies !#[trigger] xyz_new(
                    *grid,
                    seen0,
                    pivot,
                    f,
                    s,
                    z,
                ) by {
                    if xyz_new(*grid, seen0, pivot, f, s, z) {
                        assert(grid.cands(f as int).len() == 2);
                        assert(pincers@.contains(f));
                        let a = choose|a: int| 0 <= a < pincers@.len() && pincers@[a] == f;
                        assert(!xyz_new(*grid, seen0, pivot, pincers@[a], s, z));
                    }
                }
            }
        } else {
            proof {
                assert forall|f: u8, s: u8, z: u8| !#[trigger] xyz_new(*grid, seen0, pivot, f, s, z) by {
                }
            }
        }
        pivot = pivot + 1;
    }
}

} // verus!
