use vstd::prelude::*;
use vstd::string::StringExecFns;
use crate::candidate::Candidate;
use crate::grid::{Grid, HouseType};
use crate::grid_constant::in_house;
use crate::solver::step::{Step, removable, removed, remove_all};
use crate::solver::step_accumulator::StepAccumulator;
use crate::solver::common::{grows, report, progressed};
use crate::solver::naked_set::{sorted_cands, cand_before, seen_before, clone_cand_list, house_at};
use crate::util::digitset::DigitSet;
use crate::util::indexset::IndexSet;
use crate::util::permutations::{create_permutations, increasing, picks};
use crate::util::format_step::{push_house, push_cand_cells, push_cand_values, house_text, cells_text, values_text};

verus! {

/// `vs` picks `k` digits in increasing order.
pub open spec fn digit_pick(vs: Seq<u8>, k: int) -> bool {
    &&& vs.len() == k
    &&& increasing(vs)
    &&& forall|i: int| 0 <= i < vs.len() ==> 1 <= #[trigger] vs[i] <= 9
}

/// Some cell of house `h` has candidate `v`.
pub open spec fn digit_has_place(g: Grid, h: int, v: u8) -> bool {
    exists|c: int| in_house(c, h) && #[trigger] g.has_cand(c, v)
}

/// Every digit of `vs` has a candidate in house `h`.
pub open spec fn has_places(g: Grid, h: int, vs: Seq<u8>) -> bool {
    forall|i: int| 0 <= i < vs.len() ==> digit_has_place(g, h, #[trigger] vs[i])
}

/// The cells of house `h` with a candidate among `vs`.
pub open spec fn hidden_cells(g: Grid, h: int, vs: Seq<u8>) -> Set<u8> {
    Set::new(|c: u8| in_house(c as int, h) && exists|i: int| 0 <= i < vs.len() && #[trigger] g.has_cand(c as int, vs[i]))
}

/// Candidate `w` of cell `c` can go: `c` holds the hidden digits, `w` is not one of them.
pub open spec fn hidden_target(g: Grid, h: int, vs: Seq<u8>, c: int, w: u8) -> bool {
    &&& 0 <= c < 81
    &&& hidden_cells(g, h, vs).contains(c as u8)
    &&& g.has_cand(c, w)
    &&& !vs.contains(w)
}

/// The removals are exactly the candidates that can go, in order.
pub open spec fn hidden_removals(g: Grid, h: int, vs: Seq<u8>, rm: Seq<Candidate>) -> bool {
    &&& rm.len() > 0
    &&& sorted_cands(rm)
    &&& forall|i: int| 0 <= i < rm.len() ==> hidden_target(g, h, vs, (#[trigger] rm[i]).0 as int, rm[i].1)
    &&& forall|c: int, w: u8| hidden_target(g, h, vs, c, w) ==> rm.contains(Candidate(c as u8, w))
}

/// `k` digits whose candidates in a house lie in just `k` cells: those cells hold only
/// these digits.
#[derive(Debug, Clone, PartialEq, Eq, Hash)]
pub struct HiddenSet {
    pub degree: u8,
    pub remove_candidates: Vec<Candidate>,
    pub highlight_candidates: Vec<Candidate>,
    pub house: u8,
}

impl HiddenSet {
    /// Some `degree` digits, each with a candidate in `house`, have their candidates of
    /// `house` in `degree` cells; every other candidate of those cells is listed for
    /// removal.
    pub open spec fn pattern(self, g: Grid) -> bool {
        &&& 2 <= self.degree <= 4
        &&& self.house < 27
        &&& exists|vs: Seq<u8>|
            #[trigger] digit_pick(vs, self.degree as int) && has_places(g, self.house as int, vs) && hidden_cells(
                g,
                self.house as int,
                vs,
            ).len() == self.degree && hidden_removals(g, self.house as int, vs, self.remove_candidates@)
    }

    pub open spec fn rating(self) -> u32 {
        if self.degree == 2 {
            70
        } else if self.degree == 3 {
            100
        } else if self.degree == 4 {
            120
        } else {
            0
        }
    }

    pub fn difficulty(&self) -> (r: u32)
        ensures
            r == self.rating(),
    {
        match self.degree {
            2 => 70,
            3 => 100,
            4 => 120,
            _ => 0,
        }
    }

    /// Removes the candidates.
    pub fn apply(&self, grid: &mut Grid)
        requires
            old(grid).wf(),
            self.remove_candidates@.len() > 0,
            removable(*old(grid), self.remove_candidates@),
        ensures
            final(grid).wf(),
            removed(*old(grid), *final(grid), self.remove_candidates@),
    {
        remove_all(grid, &self.remove_candidates);
    }

    pub open spec fn title(self) -> Seq<char> {
        if self.degree == 2 {
            "Hidden Pair"@
        } else if self.degree == 3 {
            "Hidden Triple"@
        } else if self.degree == 4 {
            "Hidden Quadruple"@
        } else {
            ""@
        }
    }

    pub fn name(&self) -> (r: &'static str)
        ensures
            r@ == self.title(),
    {
        match self.degree {
            2 => "Hidden Pair",
            3 => "Hidden Triple",
            4 => "Hidden Quadruple",
            _ => "",
        }
    }

    pub open spec fn text(self) -> Seq<char> {
        "<h3>"@ + self.title() + "</h3><p>In <b>"@ + house_text(self.house as int) + "</b>, digits "@ + values_text(
            self.highlight_candidates@,
        ) + " can only appear in cells "@ + cells_text(self.highlight_candidates@) + ". Remove candidates "@
            + values_text(self.remove_candidates@) + " from those cells.</p>"@
    }

    /// Describes the step.
    pub fn explain(&self) -> (r: String)
        requires
            self.house < 27,
            forall|i: int| 0 <= i < self.highlight_candidates@.len() ==> (#[trigger] self.highlight_candidates@[i]).0 < 81
                && self.highlight_candidates@[i].1 < 100,
            forall|i: int| 0 <= i < self.remove_candidates@.len() ==> (#[trigger] self.remove_candidates@[i]).1 < 100,
        ensures
            r@ == self.text(),
    {
        let mut s = String::from_str("<h3>");
        s.append(self.name());
        s.append("</h3><p>In <b>");
        push_house(&mut s, self.house);
        s.append("</b>, digits ");
        push_cand_values(&mut s, &self.highlight_candidates);
        s.append(" can only appear in cells ");
        push_cand_cells(&mut s, &self.highlight_candidates);
        s.append(". Remove candidates ");
        push_cand_values(&mut s, &self.remove_candidates);
        s.append(" from those cells.</p>");
        s
    }
}

/// The cells of `house` holding a candidate among `values`.
fn cells_with_any(grid: &Grid, house: u8, values: &Vec<u8>) -> (r: IndexSet)
    requires
        grid.wf(),
    ensures
        r@ == hidden_cells(*grid, house as int, values@),
{
    let mut r = IndexSet::new_empty();
    let mut i: usize = 0;
    while i < values.len()
        invariant
            i <= values@.len(),
            grid.wf(),
            r@ == hidden_cells(*grid, house as int, values@.subrange(0, i as int)),
        decreases values@.len() - i,
    {
        let ghost before = r@;
        let cs = grid.candidate_cells_in_house(house, values[i]);
        r = r.union(&cs);
        proof {
            let pre = values@.subrange(0, i as int);
            let post = values@.subrange(0, i + 1);
            assert forall|c: u8| r@.contains(c) <==> hidden_cells(*grid, house as int, post).contains(c) by {
                if hidden_cells(*grid, house as int, post).contains(c) {
                    let k = choose|k: int| 0 <= k < post.len() && #[trigger] grid.has_cand(c as int, post[k]);
                    if k < i {
                        assert(pre[k] == post[k]);
                        assert(grid.has_cand(c as int, pre[k]));
                    }
                }
                if before.contains(c) {
                    let k = choose|k: int| 0 <= k < pre.len() && #[trigger] grid.has_cand(c as int, pre[k]);
                    assert(post[k] == pre[k]);
                    assert(grid.has_cand(c as int, post[k]));
                }
                if cs@.contains(c) {
                    assert(post[i as int] == values@[i as int]);
                    assert(grid.has_cand(c as int, post[i as int]));
                }
            }
            assert(r@ =~= hidden_cells(*grid, house as int, post));
        }
        i = i + 1;
    }
    assert(values@.subrange(0, values@.len() as int) =~= values@);
    r
}

/// `sub` picks `d` digits of `values` whose cells in house `h` number `d` and form a
/// hidden set that removes something.
pub open spec fn lower_hidden(g: Grid, h: int, values: Seq<u8>, sub: Seq<u8>, d: int) -> bool {
    &&& picks(values, sub, d)
    &&& hidden_cells(g, h, sub).len() == d
    &&& exists|c: int, w: u8| hidden_target(g, h, sub, c, w)
}

/// `vs`, in increasing order, are `deg` digits each with a place in house `h`, and the
/// house has at least `deg` empty cells; their cells number `deg`, hide no smaller hidden
/// set that removes something, remove something, and no list of `seen` gives the removals.
pub open spec fn hidden_new(g: Grid, seen: Seq<Vec<Candidate>>, h: int, vs: Seq<u8>, deg: int) -> bool {
    &&& vs.len() == deg
    &&& increasing(vs)
    &&& forall|i: int| 0 <= i < vs.len() ==> digit_has_place(g, h, #[trigger] vs[i])
    &&& Set::new(|c: u8| in_house(c as int, h) && g.value(c as int) == 0).len() >= deg
    &&& hidden_cells(g, h, vs).len() == deg
    &&& !(exists|d: int, sub: Seq<u8>| 2 <= d < deg && #[trigger] lower_hidden(g, h, vs, sub, d))
    &&& exists|c: int, w: u8| hidden_target(g, h, vs, c, w)
    &&& forall|i: int| 0 <= i < seen.len() ==> !hidden_removals(g, h, vs, (#[trigger] seen[i])@)
}

/// Finds hidden sets of one size.
pub struct HiddenSetFinder {
    degree: u8,
}

impl HiddenSetFinder {
    pub fn new(degree: u8) -> (r: Self)
        requires
            2 <= degree <= 4,
        ensures
            r.size() == degree,
    {
        HiddenSetFinder { degree }
    }

    pub closed spec fn size(self) -> u8 {
        self.degree
    }

    #[verifier::type_invariant]
    spec fn inv(self) -> bool {
        2 <= self.degree <= 4
    }

    /// What this finder reports.
    pub open spec fn reports(self, g: Grid, s: Step) -> bool {
        s.pattern(g) && (s matches Step::HiddenSet(n) && n.degree == self.size())
    }

    fn create_hidden_set_step(&self, grid: &Grid, values: &Vec<u8>, cells: &IndexSet, house: u8) -> (r: Option<HiddenSet>)
        requires
            grid.wf(),
            cells@ == hidden_cells(*grid, house as int, values@),
            forall|i: int| 0 <= i < values@.len() ==> 1 <= #[trigger] values@[i] <= 9,
        ensures
            r is None <==> !exists|c: int, w: u8| hidden_target(*grid, house as int, values@, c, w),
            r matches Some(h) ==> h.degree == self.size() && h.house == house && hidden_removals(
                *grid,
                house as int,
                values@,
                h.remove_candidates@,
            ) && forall|i: int| 0 <= i < h.highlight_candidates@.len() ==> (#[trigger] h.highlight_candidates@[i]).0 < 81
                && h.highlight_candidates@[i].1 <= 9,
    {
        let value_set = DigitSet::new_from_values(values.as_slice());
        let cv = cells.values();
        proof {
            grid.lemma_wf();
            IndexSet::lemma_bounds(*cells);
        }
        let mut rm: Vec<Candidate> = Vec::new();
        let mut i: usize = 0;
        while i < cv.len()
            invariant
                i <= cv@.len(),
                grid.wf(),
                forall|c: int, v: u8| 0 <= c < 81 && #[trigger] grid.cands(c).contains(v) ==> 1 <= v <= 9,
                forall|c: u8| cv@.contains(c) <==> cells@.contains(c),
                forall|a: int, b: int| 0 <= a < b < cv@.len() ==> cv@[a] < cv@[b],
                forall|c: u8| #[trigger] cells@.contains(c) ==> c < 81,
                cells@ == hidden_cells(*grid, house as int, values@),
                value_set@ == Set::new(|v: u8| 1 <= v <= 9 && values@.contains(v)),
                sorted_cands(rm@),
                i == 0 ==> rm@.len() == 0,
                forall|k: int| 0 <= k < rm@.len() ==> hidden_target(*grid, house as int, values@, (#[trigger] rm@[k]).0 as int, rm@[k].1)
                    && (i > 0 ==> rm@[k].0 <= cv@[i - 1]),
                forall|q: int, w: u8| 0 <= q < i && #[trigger] hidden_target(*grid, house as int, values@, cv@[q] as int, w) ==> rm@.contains(
                    Candidate(cv@[q], w),
                ),
            decreases cv@.len() - i,
        {
            let cell = cv[i];
            assert(cv@.contains(cell));
            let rest = grid.get_cell_candidate(cell).difference(&value_set);
            let rv = rest.values();
            proof {
                DigitSet::lemma_bounds(rest);
            }
            let ghost rm0 = rm@;
            let mut j: usize = 0;
            while j < rv.len()
                invariant
                    j <= rv@.len(),
                    i < cv@.len(),
                    cell == cv@[i as int],
                    cell < 81,
                    cells@.contains(cell),
                    grid.wf(),
                    forall|c: int, v: u8| 0 <= c < 81 && #[trigger] grid.cands(c).contains(v) ==> 1 <= v <= 9,
                    forall|a: int, b: int| 0 <= a < b < cv@.len() ==> cv@[a] < cv@[b],
                    forall|w: u8| rv@.contains(w) <==> rest@.contains(w),
                    forall|a: int, b: int| 0 <= a < b < rv@.len() ==> rv@[a] < rv@[b],
                    rest@ == grid.cands(cell as int).difference(value_set@),
                    value_set@ == Set::new(|v: u8| 1 <= v <= 9 && values@.contains(v)),
                    cells@ == hidden_cells(*grid, house as int, values@),
                    rm0.len() <= rm@.len(),
                    rm@.subrange(0, rm0.len() as int) == rm0,
                    sorted_cands(rm@),
                    forall|k: int| 0 <= k < rm0.len() ==> (i > 0 ==> (#[trigger] rm0[k]).0 <= cv@[i - 1]),
                    i == 0 ==> rm0.len() == 0,
                    forall|k: int| rm0.len() <= k < rm@.len() ==> (#[trigger] rm@[k]).0 == cell && exists|q: int|
                        0 <= q < j && rv@[q] == rm@[k].1,
                    forall|k: int| 0 <= k < rm@.len() ==> hidden_target(*grid, house as int, values@, (#[trigger] rm@[k]).0 as int, rm@[k].1),
                    forall|q: int| 0 <= q < j ==> rm@.contains(Candidate(cell, #[trigger] rv@[q])),
                decreases rv@.len() - j,
            {
                let w = rv[j];
                proof {
                    assert(rv@.contains(w));
                    assert(grid.value(cell as int) == 0) by {
                        if grid.value(cell as int) != 0 {
                            assert(grid.cands(cell as int) == Set::<u8>::empty());
                        }
                    }
                    assert(hidden_target(*grid, house as int, values@, cell as int, w));
                    assert forall|k: int| 0 <= k < rm@.len() implies cand_before(#[trigger] rm@[k], Candidate(cell, w)) by {
                        if k >= rm0.len() {
                            let q = choose|q: int| 0 <= q < j && rv@[q] == rm@[k].1;
                            assert(rv@[q] < rv@[j as int]);
                        } else {
                            assert(rm@.subrange(0, rm0.len() as int)[k] == rm0[k]);
                            assert(cv@[i - 1] < cv@[i as int]);
                        }
                    }
                }
                let ghost before = rm@;
                rm.push(Candidate::new(cell, w));
                proof {
                    assert(rm@.subrange(0, rm0.len() as int) =~= before.subrange(0, rm0.len() as int));
                    assert forall|k: int| rm0.len() <= k < rm@.len() implies (#[trigger] rm@[k]).0 == cell && exists|q: int|
                        0 <= q < j + 1 && rv@[q] == rm@[k].1 by {
                        if k < before.len() {
                            assert(rm@[k] == before[k]);
                            let q = choose|q: int| 0 <= q < j && rv@[q] == before[k].1;
                        } else {
                            assert(rv@[j as int] == rm@[k].1);
                        }
                    }
                    assert forall|q: int| 0 <= q < j + 1 implies rm@.contains(Candidate(cell, #[trigger] rv@[q])) by {
                        if q < j {
                            let k = choose|k: int| 0 <= k < before.len() && before[k] == Candidate(cell, rv@[q]);
                            assert(rm@[k] == before[k]);
                        } else {
                            assert(rm@[rm@.len() - 1] == Candidate(cell, w));
                        }
                    }
                }
                j = j + 1;
            }
            proof {
                assert forall|k: int| 0 <= k < rm@.len() implies hidden_target(*grid, house as int, values@, (#[trigger] rm@[k]).0 as int, rm@[k].1)
                    && rm@[k].0 <= cv@[i as int] by {
                    if k < rm0.len() {
                        assert(rm@.subrange(0, rm0.len() as int)[k] == rm0[k]);
                        if i > 0 {
                            assert(cv@[i - 1] < cv@[i as int]);
                        }
                    }
                }
                assert forall|q: int, w: u8| 0 <= q < i + 1 && #[trigger] hidden_target(*grid, house as int, values@, cv@[q] as int, w) implies rm@.contains(
                    Candidate(cv@[q], w),
                ) by {
                    if q < i {
                        let k = choose|k: int| 0 <= k < rm0.len() && rm0[k] == Candidate(cv@[q], w);
                        assert(rm@.subrange(0, rm0.len() as int)[k] == rm0[k]);
                        assert(rm@[k] == rm0[k]);
                    } else {
                        assert(!value_set@.contains(w));
                        assert(rest@.contains(w));
                        assert(rv@.contains(w));
                        let p = choose|p: int| 0 <= p < rv@.len() && rv@[p] == w;
                        assert(rm@.contains(Candidate(cell, rv@[p])));
                    }
                }
            }
            i = i + 1;
        }
        proof {
            assert forall|c: int, w: u8| hidden_target(*grid, house as int, values@, c, w) implies rm@.contains(Candidate(c as u8, w)) by {
                assert(cv@.contains(c as u8));
                let q = choose|q: int| 0 <= q < cv@.len() && cv@[q] == c as u8;
                assert(hidden_target(*grid, house as int, values@, cv@[q] as int, w));
            }
        }
        if rm.len() == 0 {
            proof {
                assert forall|c: int, w: u8| !hidden_target(*grid, house as int, values@, c, w) by {
                    if hidden_target(*grid, house as int, values@, c, w) {
                        assert(rm@.contains(Candidate(c as u8, w)));
                    }
                }
            }
            return None;
        }
        proof {
            assert(hidden_target(*grid, house as int, values@, rm@[0].0 as int, rm@[0].1));
        }
        let vv = value_set.values();
        let mut highlight: Vec<Candidate> = Vec::new();
        let mut a: usize = 0;
        while a < cv.len()
            invariant
                a <= cv@.len(),
                grid.wf(),
                forall|c: u8| #[trigger] cells@.contains(c) ==> c < 81,
                forall|c: u8| cv@.contains(c) <==> cells@.contains(c),
                forall|v: u8| vv@.contains(v) <==> value_set@.contains(v),
                value_set@ == Set::new(|v: u8| 1 <= v <= 9 && values@.contains(v)),
                forall|k: int| 0 <= k < highlight@.len() ==> (#[trigger] highlight@[k]).0 < 81 && highlight@[k].1 <= 9,
            decreases cv@.len() - a,
        {
            assert(cv@.contains(cv@[a as int]));
            let cc = grid.get_cell_candidate(cv[a]);
            let mut b: usize = 0;
            while b < vv.len()
                invariant
                    b <= vv@.len(),
                    a < cv@.len(),
                    cv@[a as int] < 81,
                    forall|v: u8| vv@.contains(v) <==> value_set@.contains(v),
                    value_set@ == Set::new(|v: u8| 1 <= v <= 9 && values@.contains(v)),
                    forall|k: int| 0 <= k < highlight@.len() ==> (#[trigger] highlight@[k]).0 < 81 && highlight@[k].1 <= 9,
                decreases vv@.len() - b,
            {
                if cc.contains(vv[b]) {
                    assert(vv@.contains(vv@[b as int]));
                    highlight.push(Candidate::new(cv[a], vv[b]));
                }
                b = b + 1;
            }
            a = a + 1;
        }
        Some(HiddenSet { degree: self.degree, remove_candidates: rm, highlight_candidates: highlight, house })
    }

    /// Some smaller subset of `values` is already a hidden set that removes something.
    fn has_actionable_lower_degree_subset(&self, grid: &Grid, house: u8, values: &Vec<u8>) -> (r: bool)
        requires
            grid.wf(),
            increasing(values@),
            forall|i: int| 0 <= i < values@.len() ==> 1 <= #[trigger] values@[i] <= 9,
        ensures
            r == exists|d: int, sub: Seq<u8>| 2 <= d < self.size() && #[trigger] lower_hidden(*grid, house as int, values@, sub, d),
    {
        proof {
            use_type_invariant(self);
        }
        let mut d: u8 = 2;
        while d < self.degree
            invariant
                2 <= d,
                self.degree <= 4,
                grid.wf(),
                increasing(values@),
                forall|i: int| 0 <= i < values@.len() ==> 1 <= #[trigger] values@[i] <= 9,
                forall|e: int, sub: Seq<u8>| 2 <= e < d ==> !#[trigger] lower_hidden(*grid, house as int, values@, sub, e),
            decreases self.degree - d,
        {
            let lower = create_permutations(crate::solver::naked_set::clone_cells(values), d);
            let mut p: usize = 0;
            while p < lower.len()
                invariant
                    p <= lower@.len(),
                    grid.wf(),
                    forall|j: int| 0 <= j < lower@.len() ==> picks(values@, #[trigger] lower@[j]@, d as int),
                    forall|i: int| 0 <= i < values@.len() ==> 1 <= #[trigger] values@[i] <= 9,
                    forall|c: Seq<u8>| #[trigger] picks(values@, c, d as int) ==> exists|j: int| 0 <= j < lower@.len() && lower@[j]@ == c,
                    forall|j: int| 0 <= j < p ==> !#[trigger] lower_hidden(*grid, house as int, values@, lower@[j]@, d as int),
                    forall|e: int, sub: Seq<u8>| 2 <= e < d ==> !#[trigger] lower_hidden(*grid, house as int, values@, sub, e),
                    2 <= d < self.degree,
                decreases lower@.len() - p,
            {
                let lv = &lower[p];
                proof {
                    assert(picks(values@, lv@, d as int));
                    assert forall|i: int| 0 <= i < lv@.len() implies 1 <= #[trigger] lv@[i] <= 9 by {
                        assert(values@.contains(lv@[i]));
                    }
                }
                let lc = cells_with_any(grid, house, lv);
                if lc.count() == d {
                    if self.create_hidden_set_step(grid, lv, &lc, house).is_some() {
                        proof {
                            assert(lower_hidden(*grid, house as int, values@, lv@, d as int));
                        }
                        return true;
                    }
                }
                p = p + 1;
            }
            proof {
                assert forall|e: int, sub: Seq<u8>| 2 <= e < d + 1 implies !#[trigger] lower_hidden(*grid, house as int, values@, sub, e) by {
                    if e == d && lower_hidden(*grid, house as int, values@, sub, e) {
                        let j = choose|j: int| 0 <= j < lower@.len() && lower@[j]@ == sub;
                    }
                }
            }
            d = d + 1;
        }
        false
    }

    fn find_hidden_set<A: StepAccumulator>(
        &self,
        house_type: HouseType,
        grid: &Grid,
        acc: &mut A,
        seen: &mut Vec<Vec<Candidate>>,
        Ghost(start): Ghost<Seq<Step>>,
    )
        requires
            grid.wf(),
            grows(start, old(acc).recorded(), |s: Step| self.reports(*grid, s)),
        ensures
            grows(start, final(acc).recorded(), |s: Step| self.reports(*grid, s)),
            final(acc).stops_at_first() == old(acc).stops_at_first(),
            (exists|i: int, vs: Seq<u8>|
                0 <= i < 9 && #[trigger] hidden_new(*grid, old(seen)@, house_at(house_type, i), vs, self.size() as int)) ==> progressed(
                old(acc).recorded(),
                final(acc).recorded(),
                old(acc).stops_at_first(),
            ),
            old(acc).recorded().len() <= final(acc).recorded().len(),
            final(seen)@ == old(seen)@ || progressed(old(acc).recorded(), final(acc).recorded(), old(acc).stops_at_first()),
    {
        proof {
            use_type_invariant(self);
        }
        let ghost rec0 = acc.recorded();
        let ghost seen0 = seen@;
        let houses = house_type.houses();
        let mut hi: usize = 0;
        while hi < 9
            invariant
                hi <= 9,
                grid.wf(),
                2 <= self.size() <= 4,
                grows(start, acc.recorded(), |s: Step| self.reports(*grid, s)),
                acc.stops_at_first() == old(acc).stops_at_first(),
                forall|i: int| 0 <= i < 9 ==> #[trigger] houses@[i] < 27,
                forall|i: int| 0 <= i < 9 ==> #[trigger] houses@[i] == house_at(house_type, i),
                rec0 == old(acc).recorded(),
                seen0 == old(seen)@,
                rec0.len() <= acc.recorded().len(),
                !progressed(rec0, acc.recorded(), acc.stops_at_first()) ==> seen@ == seen0,
                !progressed(rec0, acc.recorded(), acc.stops_at_first()) ==> forall|i: int, vs: Seq<u8>|
                    0 <= i < hi ==> !#[trigger] hidden_new(*grid, seen0, house_at(house_type, i), vs, self.size() as int),
            decreases 9 - hi,
        {
            let house = houses[hi];
            let empty = grid.house_empty_cells(house);
            proof {
                crate::util::indexset::IndexSet::lemma_bounds(empty);
            }
            if empty.count() >= self.degree {
                let cand_values = grid.house_candidate_values(house);
                let vv = cand_values.values();
                proof {
                    grid.lemma_wf();
                    assert forall|i: int| 0 <= i < vv@.len() implies 1 <= #[trigger] vv@[i] <= 9 by {
                        assert(vv@.contains(vv@[i]));
                        let c = choose|c: int| in_house(c, house as int) && #[trigger] grid.has_cand(c, vv@[i]);
                    }
                }
                proof {
                    assert forall|v: u8| vv@.contains(v) implies digit_has_place(*grid, house as int, v) by {
                        let c = choose|c: int| in_house(c, house as int) && #[trigger] grid.has_cand(c, v);
                    }
                }
                let ghost vvs = vv@;
                let perms = create_permutations(vv, self.degree);
                let mut p: usize = 0;
                while p < perms.len()
                    invariant
                        p <= perms@.len(),
                        grid.wf(),
                        house < 27,
                        2 <= self.size() <= 4,
                        forall|j: int| 0 <= j < perms@.len() ==> picks(vvs, #[trigger] perms@[j]@, self.size() as int),
                        forall|v: u8| vvs.contains(v) ==> digit_has_place(*grid, house as int, v),
                        forall|i: int| 0 <= i < vvs.len() ==> 1 <= #[trigger] vvs[i] <= 9,
                        grows(start, acc.recorded(), |s: Step| self.reports(*grid, s)),
                        acc.stops_at_first() == old(acc).stops_at_first(),
                        forall|c: Seq<u8>| #[trigger] picks(vvs, c, self.size() as int) ==> exists|j: int| 0 <= j < perms@.len() && perms@[j]@ == c,
                        hi < 9,
                        house == house_at(house_type, hi as int),
                        forall|i: int| 0 <= i < 9 ==> #[trigger] houses@[i] == house_at(house_type, i),
                        rec0 == old(acc).recorded(),
                        seen0 == old(seen)@,
                        rec0.len() <= acc.recorded().len(),
                        !progressed(rec0, acc.recorded(), acc.stops_at_first()) ==> seen@ == seen0,
                        !progressed(rec0, acc.recorded(), acc.stops_at_first()) ==> forall|i: int, vs: Seq<u8>|
                            0 <= i < hi ==> !#[trigger] hidden_new(*grid, seen0, house_at(house_type, i), vs, self.size() as int),
                        !progressed(rec0, acc.recorded(), acc.stops_at_first()) ==> forall|j: int|
                            0 <= j < p ==> !#[trigger] hidden_new(*grid, seen0, house as int, perms@[j]@, self.size() as int),
                    decreases perms@.len() - p,
                {
                    let values = &perms[p];
                    proof {
                        assert(picks(vvs, values@, self.size() as int));
                        assert forall|i: int| 0 <= i < values@.len() implies 1 <= #[trigger] values@[i] <= 9 by {
                            assert(vvs.contains(values@[i]));
                        }
                        assert forall|i: int| 0 <= i < values@.len() implies digit_has_place(*grid, house as int, #[trigger] values@[i]) by {
                            assert(vvs.contains(values@[i]));
                        }
                    }
                    let cells = cells_with_any(grid, house, values);
                    if cells.count() == self.degree && !self.has_actionable_lower_degree_subset(grid, house, values) {
                        if let Some(step) = self.create_hidden_set_step(grid, values, &cells, house) {
                            proof {
                                if exists|i: int| 0 <= i < seen@.len() && (#[trigger] seen@[i])@ == step.remove_candidates@ {
                                    let i = choose|i: int| 0 <= i < seen@.len() && (#[trigger] seen@[i])@ == step.remove_candidates@;
                                    assert(hidden_removals(*grid, house as int, values@, seen@[i]@));
                                }
                            }
                            if !seen_before(seen, &step.remove_candidates) {
                                let copy = clone_cand_list(&step.remove_candidates);
                                seen.push(copy);
                                proof {
                                    assert(digit_pick(values@, self.size() as int));
                                    assert(step.pattern(*grid));
                                }
                                let ghost ok = |s: Step| self.reports(*grid, s);
                                if report(acc, Step::HiddenSet(step), Ghost(start), Ghost(ok)) {
                                    return;
                                }
                            }
                        }
                    }
                    p = p + 1;
                }
                proof {
                    if !progressed(rec0, acc.recorded(), acc.stops_at_first()) {
                        assert forall|i: int, c: Seq<u8>|
                            0 <= i < hi + 1 implies !#[trigger] hidden_new(*grid, seen0, house_at(house_type, i), c, self.size() as int) by {
                            if i == hi && hidden_new(*grid, seen0, house_at(house_type, i), c, self.size() as int) {
                                assert forall|k: int| 0 <= k < c.len() implies vvs.contains(#[trigger] c[k]) by {
                                    assert(digit_has_place(*grid, house as int, c[k]));
                                    let e = choose|e: int| in_house(e, house as int) && #[trigger] grid.has_cand(e, c[k]);
                                    assert(cand_values@.contains(c[k]));
                                }
                                assert(picks(vvs, c, self.size() as int));
                                let j = choose|j: int| 0 <= j < perms@.len() && perms@[j]@ == c;
                            }
                        }
                    }
                }
            } else {
                proof {
                    if !progressed(rec0, acc.recorded(), acc.stops_at_first()) {
                        assert forall|i: int, c: Seq<u8>|
                            0 <= i < hi + 1 implies !#[trigger] hidden_new(*grid, seen0, house_at(house_type, i), c, self.size() as int) by {
                            if i == hi && hidden_new(*grid, seen0, house_at(house_type, i), c, self.size() as int) {
                                assert(empty@ =~= Set::new(|x: u8| in_house(x as int, house as int) && grid.value(x as int) == 0));
                            }
                        }
                    }
                }
            }
            hi = hi + 1;
        }
    }

    /// Reports hidden sets of this size in the rows, then the columns, then the blocks;
    /// a list of removals already reported is not reported again.
    pub fn find_step<A: StepAccumulator>(&self, grid: &Grid, acc: &mut A)
        requires
            grid.wf(),
        ensures
            grows(old(acc).recorded(), final(acc).recorded(), |s: Step| self.reports(*grid, s)),
            final(acc).stops_at_first() == old(acc).stops_at_first(),
            self.finds_in(*grid) ==> progressed(old(acc).recorded(), final(acc).recorded(), old(acc).stops_at_first()),
    {
        let ghost start = acc.recorded();
        proof {
            assert(acc.recorded().subrange(0, start.len() as int) =~= start);
        }
        let mut seen: Vec<Vec<Candidate>> = Vec::new();
        assert(seen@ == Seq::<Vec<Candidate>>::empty());
        self.find_hidden_set(HouseType::Row, grid, acc, &mut seen, Ghost(start));
        let ghost r1 = acc.recorded();
        if acc.is_finish() {
            return;
        }
        self.find_hidden_set(HouseType::Column, grid, acc, &mut seen, Ghost(start));
        let ghost r2 = acc.recorded();
        proof {
            crate::solver::common::lemma_progress_chain(start, r1, r2, acc.stops_at_first());
        }
        if acc.is_finish() {
            return;
        }
        self.find_hidden_set(HouseType::Block, grid, acc, &mut seen, Ghost(start));
        proof {
            crate::solver::common::lemma_progress_chain(start, r1, acc.recorded(), acc.stops_at_first());
            crate::solver::common::lemma_progress_chain(start, r2, acc.recorded(), acc.stops_at_first());
        }
    }

    /// Some row, column or block holds a hidden set of this size that removes something
    /// and hides no smaller one that does.
    pub open spec fn finds_in(self, g: Grid) -> bool {
        exists|t: HouseType, i: int, vs: Seq<u8>|
            0 <= i < 9 && #[trigger] hidden_new(g, Seq::<Vec<Candidate>>::empty(), house_at(t, i), vs, self.size() as int)
    }
}

} // verus!
