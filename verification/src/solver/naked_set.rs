use vstd::prelude::*;
use vstd::string::StringExecFns;
use crate::candidate::Candidate;
use crate::grid::{Grid, HouseType};
use crate::grid_constant::in_house;
use crate::solver::step::{Step, removable, removed, remove_all};
use crate::solver::step_accumulator::StepAccumulator;
use crate::solver::common::{grows, report, shared_house, house_of_kind, progressed};
use crate::util::digitset::DigitSet;
use crate::util::permutations::{create_permutations, increasing, picks};
use crate::util::format_step::{push_house, push_cand_cells, push_cand_values, house_text, cells_text, values_text};

verus! {

/// Every cell of `cs` lies in house `h`.
pub open spec fn all_in(cs: Seq<u8>, h: int) -> bool {
    forall|i: int| 0 <= i < cs.len() ==> in_house(#[trigger] cs[i] as int, h)
}

/// The digits that are a candidate of some cell of `cs`.
pub open spec fn union_cands(g: Grid, cs: Seq<u8>) -> Set<u8> {
    Set::new(|v: u8| exists|i: int| 0 <= i < cs.len() && #[trigger] g.cands(cs[i] as int).contains(v))
}

/// `a` comes before `b`: by cell, then by digit.
pub open spec fn cand_before(a: Candidate, b: Candidate) -> bool {
    a.0 < b.0 || (a.0 == b.0 && a.1 < b.1)
}

/// The list is strictly ordered by cell, then digit.
pub open spec fn sorted_cands(l: Seq<Candidate>) -> bool {
    forall|i: int, j: int| 0 <= i < j < l.len() ==> cand_before(#[trigger] l[i], #[trigger] l[j])
}

/// `k` empty cells of house `h`, in increasing order, whose candidates make up `k` digits.
pub open spec fn naked_cells(g: Grid, h: int, k: int, cs: Seq<u8>) -> bool {
    &&& cs.len() == k
    &&& increasing(cs)
    &&& all_in(cs, h)
    &&& forall|i: int| 0 <= i < cs.len() ==> g.value(#[trigger] cs[i] as int) == 0
    &&& union_cands(g, cs).finite()
    &&& union_cands(g, cs).len() == k
}

/// Candidate `v` of cell `c` can go: `c` is outside `cs` but shares a house with all of
/// `cs`, and `v` is one of their digits.
pub open spec fn naked_target(g: Grid, cs: Seq<u8>, c: int, v: u8) -> bool {
    &&& 0 <= c < 81
    &&& !cs.contains(c as u8)
    &&& union_cands(g, cs).contains(v)
    &&& g.has_cand(c, v)
    &&& exists|h: int| 0 <= h < 27 && #[trigger] in_house(c, h) && all_in(cs, h)
}

/// The removals are exactly the candidates that can go, in order.
pub open spec fn naked_removals(g: Grid, cs: Seq<u8>, rm: Seq<Candidate>) -> bool {
    &&& rm.len() > 0
    &&& sorted_cands(rm)
    &&& forall|i: int| 0 <= i < rm.len() ==> naked_target(g, cs, (#[trigger] rm[i]).0 as int, rm[i].1)
    &&& forall|c: int, v: u8| naked_target(g, cs, c, v) ==> rm.contains(Candidate(c as u8, v))
}

/// `k` cells of one house share `k` digits, so those digits leave the other cells of every
/// house that holds all of them.
#[derive(Debug, Clone, PartialEq, Eq, Hash)]
pub struct NakedSet {
    pub degree: u8,
    pub remove_candidates: Vec<Candidate>,
    pub highlight_candidates: Vec<Candidate>,
    pub house: u8,
    pub locked_house: Option<u8>,
}

impl NakedSet {
    /// Some `degree` cells of `house` are a naked set whose eliminations are listed; the
    /// locked house, if any, is another house holding them all.
    pub open spec fn pattern(self, g: Grid) -> bool {
        &&& 2 <= self.degree <= 4
        &&& self.house < 27
        &&& exists|cs: Seq<u8>|
            #[trigger] naked_cells(g, self.house as int, self.degree as int, cs) && naked_removals(
                g,
                cs,
                self.remove_candidates@,
            ) && (self.locked_house matches Some(l) ==> l < 27 && l != self.house && all_in(cs, l as int))
    }

    pub open spec fn rating(self) -> u32 {
        if self.locked_house is Some {
            if self.degree == 2 {
                40
            } else if self.degree == 3 {
                60
            } else if self.degree == 4 {
                100
            } else {
                0
            }
        } else {
            if self.degree == 2 {
                60
            } else if self.degree == 3 {
                80
            } else if self.degree == 4 {
                120
            } else {
                0
            }
        }
    }

    pub fn difficulty(&self) -> (r: u32)
        ensures
            r == self.rating(),
    {
        if self.locked_house.is_some() {
            match self.degree {
                2 => 40,
                3 => 60,
                4 => 100,
                _ => 0,
            }
        } else {
            match self.degree {
                2 => 60,
                3 => 80,
                4 => 120,
                _ => 0,
            }
        }
    }

    /// Removes the candidates.
    pub fn apply(&self, grid: &mut Grid)
        requires
            old(grid).wf(),
            self.remove_candidates@.len() > 0,
            removable(*old(grid), self.remove_candidates@),
        ensures
            final(grid).wf(),
            removed(*old(grid), *final(grid), self.remove_candidates@),
    {
        remove_all(grid, &self.remove_candidates);
    }

    pub open spec fn title(self) -> Seq<char> {
        if self.locked_house is Some {
            if self.degree == 2 {
                "Locked Pair"@
            } else if self.degree == 3 {
                "Locked Triple"@
            } else if self.degree == 4 {
                "Locked Quadruple"@
            } else {
                ""@
            }
        } else {
            if self.degree == 2 {
                "Naked Pair"@
            } else if self.degree == 3 {
                "Naked Triple"@
            } else if self.degree == 4 {
                "Naked Quadruple"@
            } else {
                ""@
            }
        }
    }

    pub fn name(&self) -> (r: &'static str)
        ensures
            r@ == self.title(),
    {
        if self.locked_house.is_some() {
            match self.degree {
                2 => "Locked Pair",
                3 => "Locked Triple",
                4 => "Locked Quadruple",
                _ => "",
            }
        } else {
            match self.degree {
                2 => "Naked Pair",
                3 => "Naked Triple",
                4 => "Naked Quadruple",
                _ => "",
            }
        }
    }

    pub open spec fn text(self) -> Seq<char> {
        match self.locked_house {
            Some(l) => "<h3>"@ + self.title() + "</h3><p>Cells "@ + cells_text(self.highlight_candidates@) + " in <b>"@
                + house_text(self.house as int) + "</b> and <b>"@ + house_text(l as int) + "</b> contain only digits "@
                + values_text(self.highlight_candidates@) + ". Remove candidates "@ + values_text(self.remove_candidates@)
                + " from the other cells in those houses.</p>"@,
            None => "<h3>"@ + self.title() + "</h3><p>Cells "@ + cells_text(self.highlight_candidates@) + " in <b>"@
                + house_text(self.house as int) + "</b> contain only digits "@ + values_text(self.highlight_candidates@)
                + ". Remove candidates "@ + values_text(self.remove_candidates@)
                + " from the other cells in that house.</p>"@,
        }
    }

    /// Describes the step.
    pub fn explain(&self) -> (r: String)
        requires
            self.house < 27,
            self.locked_house matches Some(l) ==> l < 27,
            forall|i: int| 0 <= i < self.highlight_candidates@.len() ==> (#[trigger] self.highlight_candidates@[i]).0 < 81
                && self.highlight_candidates@[i].1 < 100,
            forall|i: int| 0 <= i < self.remove_candidates@.len() ==> (#[trigger] self.remove_candidates@[i]).1 < 100,
        ensures
            r@ == self.text(),
    {
        let mut s = String::from_str("<h3>");
        s.append(self.name());
        s.append("</h3><p>Cells ");
        push_cand_cells(&mut s, &self.highlight_candidates);
        s.append(" in <b>");
        push_house(&mut s, self.house);
        match self.locked_house {
            Some(l) => {
                s.append("</b> and <b>");
                push_house(&mut s, l);
                s.append("</b> contain only digits ");
                push_cand_values(&mut s, &self.highlight_candidates);
                s.append(". Remove candidates ");
                push_cand_values(&mut s, &self.remove_candidates);
                s.append(" from the other cells in those houses.</p>");
            },
            None => {
                s.append("</b> contain only digits ");
                push_cand_values(&mut s, &self.highlight_candidates);
                s.append(". Remove candidates ");
                push_cand_values(&mut s, &self.remove_candidates);
                s.append(" from the other cells in that house.</p>");
            },
        }
        s
    }
}

/// The union of the candidates of `cells`.
pub(crate) fn union_of(grid: &Grid, cells: &Vec<u8>) -> (r: DigitSet)
    requires
        grid.wf(),
        forall|i: int| 0 <= i < cells@.len() ==> #[trigger] cells@[i] < 81,
    ensures
        r@ == union_cands(*grid, cells@),
{
    let mut u = DigitSet::new_empty();
    let mut i: usize = 0;
    while i < cells.len()
        invariant
            i <= cells@.len(),
            grid.wf(),
            forall|k: int| 0 <= k < cells@.len() ==> #[trigger] cells@[k] < 81,
            u@ == union_cands(*grid, cells@.subrange(0, i as int)),
        decreases cells@.len() - i,
    {
        let ghost before = u@;
        u = u.union(&grid.get_cell_candidate(cells[i]));
        proof {
            let pre = cells@.subrange(0, i as int);
            let post = cells@.subrange(0, i + 1);
            assert forall|v: u8| u@.contains(v) <==> union_cands(*grid, post).contains(v) by {
                if union_cands(*grid, post).contains(v) {
                    let k = choose|k: int| 0 <= k < post.len() && #[trigger] grid.cands(post[k] as int).contains(v);
                    if k < i {
                        assert(pre[k] == post[k]);
                        assert(grid.cands(pre[k] as int).contains(v));
                    }
                }
                if before.contains(v) {
                    let k = choose|k: int| 0 <= k < pre.len() && #[trigger] grid.cands(pre[k] as int).contains(v);
                    assert(post[k] == pre[k]);
                    assert(grid.cands(post[k] as int).contains(v));
                }
                if grid.cands(cells@[i as int] as int).contains(v) {
                    assert(post[i as int] == cells@[i as int]);
                    assert(grid.cands(post[i as int] as int).contains(v));
                }
            }
            assert(u@ =~= union_cands(*grid, post));
        }
        i = i + 1;
    }
    assert(cells@.subrange(0, cells@.len() as int) =~= cells@);
    u
}

/// The kind of house `h`: 0 for a row, 1 for a column, 2 for a block.
pub open spec fn kind_of_house(h: int) -> int {
    if h < 9 {
        0
    } else if h < 18 {
        1
    } else {
        2
    }
}

/// A cell lies in house `h` exactly when `h` is its row, column or block.
pub proof fn lemma_in_house_kind(c: int, h: int)
    requires
        0 <= c < 81,
        0 <= h < 27,
    ensures
        in_house(c, h) <==> h == house_of_kind(c, kind_of_house(h)),
{
    assert(0 <= c / 9 < 9);
    assert(0 <= c % 9 < 9);
    assert(0 <= c / 27 < 3);
}

/// The house `house` and every other house that holds all of `cells`.
fn houses_holding(cells: &Vec<u8>, house: u8) -> (r: Vec<u8>)
    requires
        house < 27,
        cells@.len() > 0,
        all_in(cells@, house as int),
        forall|i: int| 0 <= i < cells@.len() ==> #[trigger] cells@[i] < 81,
    ensures
        r@.len() > 0,
        r@[0] == house,
        forall|i: int| 0 <= i < r@.len() ==> #[trigger] r@[i] < 27 && all_in(cells@, r@[i] as int),
        forall|h: int| 0 <= h < 27 && all_in(cells@, h) ==> r@.contains(h as u8),
        forall|i: int| 1 <= i < r@.len() ==> #[trigger] r@[i] != house,
        forall|i: int, j: int| 1 <= i < j < r@.len() ==> r@[i] < r@[j],
{
    let mut r: Vec<u8> = Vec::new();
    r.push(house);
    let mut kind: u8 = 0;
    while kind < 3
        invariant
            kind <= 3,
            house < 27,
            cells@.len() > 0,
            all_in(cells@, house as int),
            forall|i: int| 0 <= i < cells@.len() ==> #[trigger] cells@[i] < 81,
            r@.len() > 0,
            r@[0] == house,
            forall|i: int| 0 <= i < r@.len() ==> #[trigger] r@[i] < 27 && all_in(cells@, r@[i] as int),
            forall|i: int| 1 <= i < r@.len() ==> #[trigger] r@[i] != house,
            forall|h: int|
                0 <= h < 27 && all_in(cells@, h) && kind_of_house(h) < kind
                    ==> r@.contains(h as u8),
            forall|i: int| 1 <= i < r@.len() ==> kind_of_house(#[trigger] r@[i] as int) < kind,
            forall|i: int, j: int| 1 <= i < j < r@.len() ==> r@[i] < r@[j],
        decreases 3 - kind,
    {
        let found = shared_house(cells, kind);
        let ghost r0 = r@;
        if let Some(h) = found {
            proof {
                assert forall|i: int| 0 <= i < cells@.len() implies in_house(#[trigger] cells@[i] as int, h as int) by {
                    assert(house_of_kind(cells@[i] as int, kind as int) == h);
                    lemma_in_house_kind(cells@[i] as int, h as int);
                    assert(0 <= (cells@[i] as int) / 9 < 9);
                    assert(0 <= (cells@[i] as int) % 9 < 9);
                    assert(0 <= (cells@[i] as int) / 27 < 3);
                }
                assert(h < 27) by {
                    assert(house_of_kind(cells@[0] as int, kind as int) == h);
                    assert(0 <= (cells@[0] as int) / 9 < 9);
                    assert(0 <= (cells@[0] as int) % 9 < 9);
                    assert(0 <= (cells@[0] as int) / 27 < 3);
                }
            }
            if h != house {
                proof {
                    assert(house_of_kind(cells@[0] as int, kind as int) == h);
                    assert(0 <= (cells@[0] as int) / 9 < 9);
                    assert(0 <= (cells@[0] as int) % 9 < 9);
                    assert(0 <= (cells@[0] as int) / 27 < 3);
                    assert(kind_of_house(h as int) == kind);
                }
                r.push(h);
                proof {
                    assert forall|i: int, j: int| 1 <= i < j < r@.len() implies r@[i] < r@[j] by {
                        if j == r@.len() - 1 {
                            assert(r@[i] == r0[i]);
                            assert(kind_of_house(r0[i] as int) < kind);
                        } else {
                            assert(r@[i] == r0[i] && r@[j] == r0[j]);
                        }
                    }
                    assert forall|i: int| 1 <= i < r@.len() implies kind_of_house(#[trigger] r@[i] as int) < kind + 1 by {
                        if i < r0.len() {
                            assert(r@[i] == r0[i]);
                        }
                    }
                }
            }
        }
        proof {
            assert forall|h: int|
                0 <= h < 27 && all_in(cells@, h) && kind_of_house(h) < kind + 1 implies r@.contains(
                h as u8,
            ) by {
                let hk: int = kind_of_house(h);
                if hk < kind {
                    assert(r0.contains(h as u8));
                    let k = choose|k: int| 0 <= k < r0.len() && r0[k] == h as u8;
                    assert(r@[k] == r0[k]);
                } else {
                    assert(hk == kind);
                    assert(in_house(cells@[0] as int, h));
                    assert(in_house(cells@[0] as int, h));
                    lemma_in_house_kind(cells@[0] as int, h);
                    if found is None {
                        let (i, j) = choose|i: int, j: int|
                            0 <= i < cells@.len() && 0 <= j < cells@.len() && house_of_kind(#[trigger] cells@[i] as int, kind as int)
                                != house_of_kind(#[trigger] cells@[j] as int, kind as int);
                        assert(in_house(cells@[i] as int, h));
                        assert(in_house(cells@[j] as int, h));
                        lemma_in_house_kind(cells@[i] as int, h);
                        lemma_in_house_kind(cells@[j] as int, h);
                    } else {
                        let hh = found->0;
                        assert(house_of_kind(cells@[0] as int, kind as int) == hh);
                        assert(h == hh);
                        if h == house {
                            assert(r@[0] == house);
                        } else {
                            assert(r@[r@.len() - 1] == h as u8);
                        }
                    }
                }
            }
        }
        kind = kind + 1;
    }
    r
}

/// Whether `v` holds `x`.
pub(crate) fn vec_has(v: &Vec<u8>, x: u8) -> (r: bool)
    ensures
        r == v@.contains(x),
{
    let mut i: usize = 0;
    while i < v.len()
        invariant
            i <= v@.len(),
            forall|k: int| 0 <= k < i ==> v@[k] != x,
        decreases v@.len() - i,
    {
        if v[i] == x {
            return true;
        }
        i = i + 1;
    }
    false
}

/// Two lists of candidates are equal.
pub(crate) fn same_cands(a: &Vec<Candidate>, b: &Vec<Candidate>) -> (r: bool)
    ensures
        r == (a@ == b@),
{
    if a.len() != b.len() {
        return false;
    }
    let mut i: usize = 0;
    while i < a.len()
        invariant
            i <= a@.len() == b@.len(),
            forall|k: int| 0 <= k < i ==> a@[k] == b@[k],
        decreases a@.len() - i,
    {
        if a[i].0 != b[i].0 || a[i].1 != b[i].1 {
            return false;
        }
        i = i + 1;
    }
    assert(a@ =~= b@);
    true
}

/// Whether `l` is among the lists of `seen`.
pub(crate) fn seen_before(seen: &Vec<Vec<Candidate>>, l: &Vec<Candidate>) -> (r: bool)
    ensures
        r == exists|i: int| 0 <= i < seen@.len() && (#[trigger] seen@[i])@ == l@,
{
    let mut i: usize = 0;
    while i < seen.len()
        invariant
            i <= seen@.len(),
            forall|k: int| 0 <= k < i ==> (#[trigger] seen@[k])@ != l@,
        decreases seen@.len() - i,
    {
        if same_cands(&seen[i], l) {
            return true;
        }
        i = i + 1;
    }
    false
}

/// `sub` picks `d` cells of `cells` whose candidates number `d` and form a naked set
/// that removes something.
pub open spec fn lower_naked(g: Grid, cells: Seq<u8>, sub: Seq<u8>, d: int) -> bool {
    &&& picks(cells, sub, d)
    &&& union_cands(g, sub).len() == d
    &&& exists|c: int, v: u8| naked_target(g, sub, c, v)
}

/// `locked` is the first house other than `house` that holds all of `cells`, `None` when
/// there is none.
pub open spec fn locked_first(cells: Seq<u8>, house: int, locked: Option<u8>) -> bool {
    match locked {
        Some(l) => l < 27 && l != house && all_in(cells, l as int) && forall|h: int|
            0 <= h < l && h != house ==> !#[trigger] all_in(cells, h),
        None => forall|h: int| 0 <= h < 27 && h != house ==> !#[trigger] all_in(cells, h),
    }
}

/// `hl` lists just the candidates of the cells of `cells`.
pub open spec fn highlights(g: Grid, cells: Seq<u8>, hl: Seq<Candidate>) -> bool {
    &&& forall|k: int| 0 <= k < hl.len() ==> (exists|i: int| 0 <= i < cells.len() && cells[i] == (#[trigger] hl[k]).0) && g.cands(
        hl[k].0 as int,
    ).contains(hl[k].1)
    &&& forall|i: int, v: u8| 0 <= i < cells.len() && #[trigger] g.cands(cells[i] as int).contains(v) ==> hl.contains(Candidate(cells[i], v))
}

/// The first house of `house_type` offset by `i`.
pub open spec fn house_at(house_type: HouseType, i: int) -> int {
    match house_type {
        HouseType::Row => i,
        HouseType::Column => 9 + i,
        HouseType::Block => 18 + i,
    }
}

/// `cells`, in increasing order, are `deg` empty cells of house `h`.
pub open spec fn empty_pick(g: Grid, h: int, cells: Seq<u8>, deg: int) -> bool {
    &&& cells.len() == deg
    &&& increasing(cells)
    &&& forall|i: int| 0 <= i < cells.len() ==> (#[trigger] cells[i]) < 81 && in_house(cells[i] as int, h) && g.value(cells[i] as int) == 0
}

/// `cells` form a naked set of size `deg` in house `h` that removes something, hides no
/// smaller one that removes something, and whose removals no list of `seen` gives.
pub open spec fn naked_new(g: Grid, seen: Seq<Vec<Candidate>>, h: int, cells: Seq<u8>, deg: int) -> bool {
    &&& empty_pick(g, h, cells, deg)
    &&& union_cands(g, cells).len() == deg
    &&& !(exists|d: int, sub: Seq<u8>| 2 <= d < deg && #[trigger] lower_naked(g, cells, sub, d))
    &&& exists|c: int, v: u8| naked_target(g, cells, c, v)
    &&& forall|i: int| 0 <= i < seen.len() ==> !naked_removals(g, cells, (#[trigger] seen[i])@)
}

/// Finds naked sets of one size.
pub struct NakedSetFinder {
    degree: u8,
}

impl NakedSetFinder {
    pub fn new(degree: u8) -> (r: Self)
        requires
            2 <= degree <= 4,
        ensures
            r.size() == degree,
    {
        NakedSetFinder { degree }
    }

    pub closed spec fn size(self) -> u8 {
        self.degree
    }

    #[verifier::type_invariant]
    spec fn inv(self) -> bool {
        2 <= self.degree <= 4
    }

    /// What this finder reports.
    pub open spec fn reports(self, g: Grid, s: Step) -> bool {
        s.pattern(g) && (s matches Step::NakedSet(n) && n.degree == self.size())
    }

    /// The naked-set step for `cells` of `house` with digits `values`: it removes the
    /// digits from every other cell of each house holding all the cells; `None` when there
    /// is nothing to remove.
    pub fn create_naked_set(&self, grid: &Grid, values: DigitSet, cells: Vec<u8>, house: u8) -> (r: Option<NakedSet>)
        requires
            grid.wf(),
            house < 27,
            cells@.len() > 0,
            forall|i: int| 0 <= i < cells@.len() ==> #[trigger] cells@[i] < 81,
            all_in(cells@, house as int),
            values@ == union_cands(*grid, cells@),
        ensures
            r is None <==> !exists|c: int, v: u8| naked_target(*grid, cells@, c, v),
            r matches Some(n) ==> n.degree == self.size() && n.house == house && naked_removals(
                *grid,
                cells@,
                n.remove_candidates@,
            ) && (n.locked_house matches Some(l) ==> l < 27 && l != house && all_in(cells@, l as int))
                && forall|i: int| 0 <= i < n.highlight_candidates@.len() ==> (#[trigger] n.highlight_candidates@[i]).0 < 81
                && n.highlight_candidates@[i].1 <= 9,
            r matches Some(n) ==> locked_first(cells@, house as int, n.locked_house) && highlights(*grid, cells@, n.highlight_candidates@),
    {
        self.create_for(grid, &values, &cells, house)
    }

    fn create_for(&self, grid: &Grid, values: &DigitSet, cells: &Vec<u8>, house: u8) -> (r: Option<NakedSet>)
        requires
            grid.wf(),
            house < 27,
            cells@.len() > 0,
            forall|i: int| 0 <= i < cells@.len() ==> #[trigger] cells@[i] < 81,
            all_in(cells@, house as int),
            values@ == union_cands(*grid, cells@),
        ensures
            r is None <==> !exists|c: int, v: u8| naked_target(*grid, cells@, c, v),
            r matches Some(n) ==> n.degree == self.size() && n.house == house && naked_removals(
                *grid,
                cells@,
                n.remove_candidates@,
            ) && (n.locked_house matches Some(l) ==> l < 27 && l != house && all_in(cells@, l as int))
                && forall|i: int| 0 <= i < n.highlight_candidates@.len() ==> (#[trigger] n.highlight_candidates@[i]).0 < 81
                && n.highlight_candidates@[i].1 <= 9,
            r matches Some(n) ==> locked_first(cells@, house as int, n.locked_house) && highlights(*grid, cells@, n.highlight_candidates@),
    {
        let houses = houses_holding(cells, house);
        let vals = values.values();
        proof {
            grid.lemma_wf();
            crate::util::digitset::DigitSet::lemma_bounds(*values);
        }
        let mut rm: Vec<Candidate> = Vec::new();
        let mut cell: u8 = 0;
        while cell < 81
            invariant
                cell <= 81,
                grid.wf(),
                forall|c: int, v: u8| 0 <= c < 81 && #[trigger] grid.cands(c).contains(v) ==> 1 <= v <= 9,
                forall|v: u8| vals@.contains(v) <==> values@.contains(v),
                forall|a: int, b: int| 0 <= a < b < vals@.len() ==> vals@[a] < vals@[b],
                values@ == union_cands(*grid, cells@),
                houses@.len() > 0,
                forall|i: int| 0 <= i < houses@.len() ==> #[trigger] houses@[i] < 27 && all_in(cells@, houses@[i] as int),
                forall|h: int| 0 <= h < 27 && all_in(cells@, h) ==> houses@.contains(h as u8),
                sorted_cands(rm@),
                forall|i: int| 0 <= i < rm@.len() ==> naked_target(*grid, cells@, (#[trigger] rm@[i]).0 as int, rm@[i].1)
                    && rm@[i].0 < cell,
                forall|c: int, v: u8| 0 <= c < cell && naked_target(*grid, cells@, c, v) ==> rm@.contains(Candidate(c as u8, v)),
            decreases 81 - cell,
        {
            let mut shared = false;
            let mut k: usize = 0;
            while k < houses.len()
                invariant
                    k <= houses@.len(),
                    cell < 81,
                    forall|i: int| 0 <= i < houses@.len() ==> #[trigger] houses@[i] < 27,
                    shared == exists|i: int| 0 <= i < k && in_house(cell as int, #[trigger] houses@[i] as int),
                decreases houses@.len() - k,
            {
                if crate::grid_constant::cell_in_house(cell, houses[k]) {
                    shared = true;
                }
                k = k + 1;
            }
            let inside = vec_has(cells, cell);
            if !inside && shared && grid.get_value(cell) == 0 {
                let cc = grid.get_cell_candidate(cell);
                let ghost rm0 = rm@;
                let mut j: usize = 0;
                while j < vals.len()
                    invariant
                        j <= vals@.len(),
                        cell < 81,
                        grid.wf(),
                        cc@ == grid.cands(cell as int),
                        grid.value(cell as int) == 0,
                        !cells@.contains(cell),
                        exists|i: int| 0 <= i < houses@.len() && in_house(cell as int, #[trigger] houses@[i] as int),
                        forall|i: int| 0 <= i < houses@.len() ==> #[trigger] houses@[i] < 27 && all_in(cells@, houses@[i] as int),
                        forall|v: u8| vals@.contains(v) <==> values@.contains(v),
                        forall|a: int, b: int| 0 <= a < b < vals@.len() ==> vals@[a] < vals@[b],
                        values@ == union_cands(*grid, cells@),
                        rm0.len() <= rm@.len(),
                        rm@.subrange(0, rm0.len() as int) == rm0,
                        sorted_cands(rm@),
                        forall|i: int| 0 <= i < rm0.len() ==> (#[trigger] rm0[i]).0 < cell,
                        forall|i: int| rm0.len() <= i < rm@.len() ==> (#[trigger] rm@[i]).0 == cell && exists|q: int|
                            0 <= q < j && vals@[q] == rm@[i].1,
                        forall|i: int| 0 <= i < rm@.len() ==> naked_target(*grid, cells@, (#[trigger] rm@[i]).0 as int, rm@[i].1),
                        forall|q: int| 0 <= q < j && cc@.contains(#[trigger] vals@[q]) ==> rm@.contains(Candidate(cell, vals@[q])),
                    decreases vals@.len() - j,
                {
                    let v = vals[j];
                    if cc.contains(v) {
                        proof {
                            let i0 = choose|i: int| 0 <= i < houses@.len() && in_house(cell as int, #[trigger] houses@[i] as int);
                            let h0 = houses@[i0] as int;
                            assert(in_house(cell as int, h0) && all_in(cells@, h0) && 0 <= h0 < 27);
                            assert(vals@[j as int] == v);
                            assert(vals@.contains(v));
                            assert(values@.contains(v));
                            assert(grid.has_cand(cell as int, v));
                            assert(naked_target(*grid, cells@, cell as int, v));
                            assert forall|i: int| 0 <= i < rm@.len() implies cand_before(#[trigger] rm@[i], Candidate(cell, v)) by {
                                if i >= rm0.len() {
                                    let q = choose|q: int| 0 <= q < j && vals@[q] == rm@[i].1;
                                    assert(vals@[q] < vals@[j as int]);
                                } else {
                                    assert(rm@.subrange(0, rm0.len() as int)[i] == rm0[i]);
                                    assert(rm0[i].0 < cell);
                                }
                            }
                        }
                        let ghost before = rm@;
                        rm.push(Candidate::new(cell, v));
                        proof {
                            assert(rm@.subrange(0, rm0.len() as int) =~= before.subrange(0, rm0.len() as int));
                            assert forall|i: int| rm0.len() <= i < rm@.len() implies (#[trigger] rm@[i]).0 == cell && exists|q: int|
                                0 <= q < j + 1 && vals@[q] == rm@[i].1 by {
                                if i < before.len() {
                                    assert(rm@[i] == before[i]);
                                    let q = choose|q: int| 0 <= q < j && vals@[q] == before[i].1;
                                } else {
                                    assert(vals@[j as int] == rm@[i].1);
                                }
                            }
                            assert forall|q: int| 0 <= q < j + 1 && cc@.contains(#[trigger] vals@[q]) implies rm@.contains(
                                Candidate(cell, vals@[q]),
                            ) by {
                                if q < j {
                                    let i = choose|i: int| 0 <= i < before.len() && before[i] == Candidate(cell, vals@[q]);
                                    assert(rm@[i] == before[i]);
                                } else {
                                    assert(rm@[rm@.len() - 1] == Candidate(cell, v));
                                }
                            }
                        }
                    }
                    j = j + 1;
                }
                proof {
                    assert forall|i: int| 0 <= i < rm@.len() implies (#[trigger] rm@[i]).0 < cell + 1 by {
                        if i < rm0.len() {
                            assert(rm@.subrange(0, rm0.len() as int)[i] == rm0[i]);
                        }
                    }
                    assert forall|c: int, v: u8| 0 <= c < cell + 1 && naked_target(*grid, cells@, c, v) implies rm@.contains(
                        Candidate(c as u8, v),
                    ) by {
                        if c < cell {
                            let i = choose|i: int| 0 <= i < rm0.len() && rm0[i] == Candidate(c as u8, v);
                            assert(rm@.subrange(0, rm0.len() as int)[i] == rm0[i]);
                            assert(rm@[i] == rm0[i]);
                        } else {
                            assert(values@.contains(v));
                            assert(vals@.contains(v));
                            let q = choose|q: int| 0 <= q < vals@.len() && vals@[q] == v;
                            assert(cc@.contains(vals@[q]));
                        }
                    }
                }
            } else {
                proof {
                    assert forall|c: int, v: u8| 0 <= c < cell + 1 && naked_target(*grid, cells@, c, v) implies rm@.contains(
                        Candidate(c as u8, v),
                    ) by {
                        if c == cell {
                            let h = choose|h: int| 0 <= h < 27 && #[trigger] in_house(c, h) && all_in(cells@, h);
                            assert(houses@.contains(h as u8));
                            let i = choose|i: int| 0 <= i < houses@.len() && houses@[i] == h as u8;
                            assert(in_house(cell as int, houses@[i] as int));
                            assert(grid.value(c) == 0);
                        }
                    }
                }
            }
            cell = cell + 1;
        }
        if rm.len() == 0 {
            proof {
                assert forall|c: int, v: u8| !naked_target(*grid, cells@, c, v) by {
                    if naked_target(*grid, cells@, c, v) {
                        assert(rm@.contains(Candidate(c as u8, v)));
                    }
                }
            }
            return None;
        }
        let mut highlight: Vec<Candidate> = Vec::new();
        let mut i: usize = 0;
        while i < cells.len()
            invariant
                i <= cells@.len(),
                grid.wf(),
                forall|k: int| 0 <= k < cells@.len() ==> #[trigger] cells@[k] < 81,
                forall|v: u8| vals@.contains(v) ==> 1 <= v <= 9,
                forall|v: u8| vals@.contains(v) <==> values@.contains(v),
                values@ == union_cands(*grid, cells@),
                forall|k: int| 0 <= k < highlight@.len() ==> (#[trigger] highlight@[k]).0 < 81 && highlight@[k].1 <= 9,
                forall|k: int| 0 <= k < highlight@.len() ==> (exists|q: int| 0 <= q < cells@.len() && cells@[q] == (#[trigger] highlight@[k]).0)
                    && grid.cands(highlight@[k].0 as int).contains(highlight@[k].1),
                forall|q: int, v: u8| 0 <= q < i && #[trigger] grid.cands(cells@[q] as int).contains(v) ==> highlight@.contains(Candidate(cells@[q], v)),
            decreases cells@.len() - i,
        {
            let cc = grid.get_cell_candidate(cells[i]);
            let mut j: usize = 0;
            while j < vals.len()
                invariant
                    j <= vals@.len(),
                    i < cells@.len(),
                    grid.wf(),
                    cc@ == grid.cands(cells@[i as int] as int),
                    forall|k: int| 0 <= k < cells@.len() ==> #[trigger] cells@[k] < 81,
                    forall|v: u8| vals@.contains(v) ==> 1 <= v <= 9,
                    forall|k: int| 0 <= k < highlight@.len() ==> (#[trigger] highlight@[k]).0 < 81 && highlight@[k].1 <= 9,
                    forall|k: int| 0 <= k < highlight@.len() ==> (exists|q: int| 0 <= q < cells@.len() && cells@[q] == (#[trigger] highlight@[k]).0)
                        && grid.cands(highlight@[k].0 as int).contains(highlight@[k].1),
                    forall|q: int, v: u8| 0 <= q < i && #[trigger] grid.cands(cells@[q] as int).contains(v) ==> highlight@.contains(Candidate(cells@[q], v)),
                    forall|e: int| 0 <= e < j && cc@.contains(#[trigger] vals@[e]) ==> highlight@.contains(Candidate(cells@[i as int], vals@[e])),
                decreases vals@.len() - j,
            {
                if cc.contains(vals[j]) {
                    assert(vals@.contains(vals@[j as int]));
                    let ghost before = highlight@;
                    highlight.push(Candidate::new(cells[i], vals[j]));
                    proof {
                        assert forall|y: Candidate| #![trigger highlight@.contains(y)] before.contains(y) implies highlight@.contains(y) by {
                            let q = choose|q: int| 0 <= q < before.len() && before[q] == y;
                            assert(highlight@[q] == before[q]);
                        }
                        assert(highlight@[before.len() as int] == Candidate(cells@[i as int], vals@[j as int]));
                        assert(highlight@.contains(Candidate(cells@[i as int], vals@[j as int])));
                        assert forall|k: int| 0 <= k < highlight@.len() implies (exists|q: int| 0 <= q < cells@.len() && cells@[q] == (#[trigger] highlight@[k]).0)
                            && grid.cands(highlight@[k].0 as int).contains(highlight@[k].1) by {
                            if k < before.len() {
                                assert(highlight@[k] == before[k]);
                            } else {
                                assert(cells@[i as int] == highlight@[k].0);
                            }
                        }
                    }
                }
                j = j + 1;
            }
            proof {
                assert forall|q: int, v: u8| 0 <= q < i + 1 && #[trigger] grid.cands(cells@[q] as int).contains(v) implies highlight@.contains(
                    Candidate(cells@[q], v),
                ) by {
                    if q == i {
                        assert(union_cands(*grid, cells@).contains(v));
                        assert(vals@.contains(v));
                        let e = choose|e: int| 0 <= e < vals@.len() && vals@[e] == v;
                        assert(cc@.contains(vals@[e]));
                    }
                }
            }
            i = i + 1;
        }
        proof {
            assert(naked_target(*grid, cells@, rm@[0].0 as int, rm@[0].1));
        }
        let locked = if houses.len() > 1 {
            Some(houses[1])
        } else {
            None
        };
        proof {
            assert forall|h: int| 0 <= h < 27 && h != house && all_in(cells@, h) implies houses@.len() > 1 && houses@[1] <= h by {
                assert(houses@.contains(h as u8));
                let q = choose|q: int| 0 <= q < houses@.len() && houses@[q] == h as u8;
                assert(q != 0);
            }
            assert(locked_first(cells@, house as int, locked));
        }
        Some(NakedSet { degree: self.degree, remove_candidates: rm, highlight_candidates: highlight, house, locked_house: locked })
    }

    /// Some smaller subset of `cells` is already a naked set that removes something.
    fn has_actionable_lower_degree_subset(&self, grid: &Grid, cells: &Vec<u8>, house: u8) -> (r: bool)
        requires
            grid.wf(),
            house < 27,
            increasing(cells@),
            cells@.len() <= 9,
            forall|i: int| 0 <= i < cells@.len() ==> #[trigger] cells@[i] < 81,
            all_in(cells@, house as int),
        ensures
            r == exists|d: int, sub: Seq<u8>| 2 <= d < self.size() && #[trigger] lower_naked(*grid, cells@, sub, d),
    {
        proof {
            use_type_invariant(self);
        }
        let mut d: u8 = 2;
        while d < self.degree
            invariant
                2 <= d,
                self.degree <= 4,
                grid.wf(),
                house < 27,
                increasing(cells@),
                forall|i: int| 0 <= i < cells@.len() ==> #[trigger] cells@[i] < 81,
                all_in(cells@, house as int),
                forall|e: int, sub: Seq<u8>| 2 <= e < d ==> !#[trigger] lower_naked(*grid, cells@, sub, e),
            decreases self.degree - d,
        {
            let lower = create_permutations(clone_cells(cells), d);
            let mut p: usize = 0;
            while p < lower.len()
                invariant
                    p <= lower@.len(),
                    grid.wf(),
                    house < 27,
                    d >= 2,
                    forall|j: int| 0 <= j < lower@.len() ==> picks(cells@, #[trigger] lower@[j]@, d as int),
                    forall|i: int| 0 <= i < cells@.len() ==> #[trigger] cells@[i] < 81,
                    all_in(cells@, house as int),
                    forall|c: Seq<u8>| #[trigger] picks(cells@, c, d as int) ==> exists|j: int| 0 <= j < lower@.len() && lower@[j]@ == c,
                    forall|j: int| 0 <= j < p ==> !#[trigger] lower_naked(*grid, cells@, lower@[j]@, d as int),
                    forall|e: int, sub: Seq<u8>| 2 <= e < d ==> !#[trigger] lower_naked(*grid, cells@, sub, e),
                    d < self.degree,
                decreases lower@.len() - p,
            {
                let lc = &lower[p];
                proof {
                    assert(picks(cells@, lc@, d as int));
                    assert forall|i: int| 0 <= i < lc@.len() implies #[trigger] lc@[i] < 81 && in_house(lc@[i] as int, house as int) by {
                        assert(cells@.contains(lc@[i]));
                        let k = choose|k: int| 0 <= k < cells@.len() && cells@[k] == lc@[i];
                    }
                }
                let lv = union_of(grid, lc);
                if lv.count() == d {
                    if self.create_for(grid, &lv, lc, house).is_some() {
                        proof {
                            assert(lower_naked(*grid, cells@, lc@, d as int));
                        }
                        return true;
                    }
                }
                p = p + 1;
            }
            proof {
                assert forall|e: int, sub: Seq<u8>| 2 <= e < d + 1 implies !#[trigger] lower_naked(*grid, cells@, sub, e) by {
                    if e == d && lower_naked(*grid, cells@, sub, e) {
                        let j = choose|j: int| 0 <= j < lower@.len() && lower@[j]@ == sub;
                    }
                }
            }
            d = d + 1;
        }
        false
    }

    fn find_naked_set<A: StepAccumulator>(
        &self,
        house_type: HouseType,
        grid: &Grid,
        acc: &mut A,
        seen: &mut Vec<Vec<Candidate>>,
        Ghost(start): Ghost<Seq<Step>>,
    )
        requires
            grid.wf(),
            grows(start, old(acc).recorded(), |s: Step| self.reports(*grid, s)),
        ensures
            grows(start, final(acc).recorded(), |s: Step| self.reports(*grid, s)),
            final(acc).stops_at_first() == old(acc).stops_at_first(),
            (exists|i: int, cells: Seq<u8>|
                0 <= i < 9 && #[trigger] naked_new(*grid, old(seen)@, house_at(house_type, i), cells, self.size() as int)) ==> progressed(
                old(acc).recorded(),
                final(acc).recorded(),
                old(acc).stops_at_first(),
            ),
            old(acc).recorded().len() <= final(acc).recorded().len(),
            final(seen)@ == old(seen)@ || progressed(old(acc).recorded(), final(acc).recorded(), old(acc).stops_at_first()),
    {
        proof {
            use_type_invariant(self);
        }
        let ghost rec0 = acc.recorded();
        let ghost seen0 = seen@;
        let houses = house_type.houses();
        let mut hi: usize = 0;
        while hi < 9
            invariant
                hi <= 9,
                grid.wf(),
                2 <= self.size() <= 4,
                grows(start, acc.recorded(), |s: Step| self.reports(*grid, s)),
                acc.stops_at_first() == old(acc).stops_at_first(),
                forall|i: int| 0 <= i < 9 ==> #[trigger] houses@[i] < 27,
                forall|i: int| 0 <= i < 9 ==> #[trigger] houses@[i] == house_at(house_type, i),
                rec0 == old(acc).recorded(),
                seen0 == old(seen)@,
                rec0.len() <= acc.recorded().len(),
                !progressed(rec0, acc.recorded(), acc.stops_at_first()) ==> seen@ == seen0,
                !progressed(rec0, acc.recorded(), acc.stops_at_first()) ==> forall|i: int, cells: Seq<u8>|
                    0 <= i < hi ==> !#[trigger] naked_new(*grid, seen0, house_at(house_type, i), cells, self.size() as int),
            decreases 9 - hi,
        {
            let house = houses[hi];
            let empty = grid.house_empty_cells(house);
            let ev = empty.values();
            proof {
                crate::util::indexset::IndexSet::lemma_bounds(empty);
                assert(increasing(ev@));
            }
            let perms = create_permutations(ev, self.degree);
            let mut p: usize = 0;
            while p < perms.len()
                invariant
                    p <= perms@.len(),
                    grid.wf(),
                    house < 27,
                    2 <= self.size() <= 4,
                    forall|c: u8| ev@.contains(c) <==> empty@.contains(c),
                    empty@ == Set::new(|c: u8| in_house(c as int, house as int) && grid.value(c as int) == 0),
                    forall|j: int| 0 <= j < perms@.len() ==> picks(ev@, #[trigger] perms@[j]@, self.size() as int),
                    grows(start, acc.recorded(), |s: Step| self.reports(*grid, s)),
                    acc.stops_at_first() == old(acc).stops_at_first(),
                    forall|c: Seq<u8>| #[trigger] picks(ev@, c, self.size() as int) ==> exists|j: int| 0 <= j < perms@.len() && perms@[j]@ == c,
                    hi < 9,
                    house == house_at(house_type, hi as int),
                    forall|i: int| 0 <= i < 9 ==> #[trigger] houses@[i] == house_at(house_type, i),
                    rec0 == old(acc).recorded(),
                    seen0 == old(seen)@,
                    rec0.len() <= acc.recorded().len(),
                    !progressed(rec0, acc.recorded(), acc.stops_at_first()) ==> seen@ == seen0,
                    !progressed(rec0, acc.recorded(), acc.stops_at_first()) ==> forall|i: int, cells: Seq<u8>|
                        0 <= i < hi ==> !#[trigger] naked_new(*grid, seen0, house_at(house_type, i), cells, self.size() as int),
                    !progressed(rec0, acc.recorded(), acc.stops_at_first()) ==> forall|j: int|
                        0 <= j < p ==> !#[trigger] naked_new(*grid, seen0, house as int, perms@[j]@, self.size() as int),
                decreases perms@.len() - p,
            {
                let cells = &perms[p];
                proof {
                    assert(picks(ev@, cells@, self.size() as int));
                    assert forall|i: int| 0 <= i < cells@.len() implies #[trigger] cells@[i] < 81 && in_house(cells@[i] as int, house as int)
                        && grid.value(cells@[i] as int) == 0 by {
                        assert(ev@.contains(cells@[i]));
                        assert(empty@.contains(cells@[i]));
                    }
                }
                let values = union_of(grid, cells);
                if values.count() == self.degree && !self.has_actionable_lower_degree_subset(grid, cells, house) {
                    if let Some(step) = self.create_for(grid, &values, cells, house) {
                        proof {
                            if exists|i: int| 0 <= i < seen@.len() && (#[trigger] seen@[i])@ == step.remove_candidates@ {
                                let i = choose|i: int| 0 <= i < seen@.len() && (#[trigger] seen@[i])@ == step.remove_candidates@;
                                assert(naked_removals(*grid, cells@, seen@[i]@));
                            }
                        }
                        if !seen_before(seen, &step.remove_candidates) {
                            let copy = clone_cand_list(&step.remove_candidates);
                            seen.push(copy);
                            proof {
                                crate::util::digitset::DigitSet::lemma_bounds(values);
                                assert(naked_cells(*grid, house as int, self.size() as int, cells@));
                                assert(step.pattern(*grid));
                            }
                            let ghost ok = |s: Step| self.reports(*grid, s);
                            if report(acc, Step::NakedSet(step), Ghost(start), Ghost(ok)) {
                                return;
                            }
                        }
                    }
                }
                p = p + 1;
            }
            proof {
                if !progressed(rec0, acc.recorded(), acc.stops_at_first()) {
                    assert forall|i: int, c: Seq<u8>|
                        0 <= i < hi + 1 implies !#[trigger] naked_new(*grid, seen0, house_at(house_type, i), c, self.size() as int) by {
                        if i == hi && naked_new(*grid, seen0, house_at(house_type, i), c, self.size() as int) {
                            assert forall|k: int| 0 <= k < c.len() implies ev@.contains(#[trigger] c[k]) by {
                                assert(empty@.contains(c[k]));
                            }
                            assert(picks(ev@, c, self.size() as int));
                            let j = choose|j: int| 0 <= j < perms@.len() && perms@[j]@ == c;
                        }
                    }
                }
            }
            hi = hi + 1;
        }
    }

    /// Reports naked sets of this size in the rows, then the columns, then the blocks;
    /// a list of removals already reported is not reported again.
    pub fn find_step<A: StepAccumulator>(&self, grid: &Grid, acc: &mut A)
        requires
            grid.wf(),
        ensures
            grows(old(acc).recorded(), final(acc).recorded(), |s: Step| self.reports(*grid, s)),
            final(acc).stops_at_first() == old(acc).stops_at_first(),
            self.finds_in(*grid) ==> progressed(old(acc).recorded(), final(acc).recorded(), old(acc).stops_at_first()),
    {
        let ghost start = acc.recorded();
        proof {
            assert(acc.recorded().subrange(0, start.len() as int) =~= start);
        }
        let mut seen: Vec<Vec<Candidate>> = Vec::new();
        assert(seen@ == Seq::<Vec<Candidate>>::empty());
        self.find_naked_set(HouseType::Row, grid, acc, &mut seen, Ghost(start));
        let ghost r1 = acc.recorded();
        if acc.is_finish() {
            return;
        }
        self.find_naked_set(HouseType::Column, grid, acc, &mut seen, Ghost(start));
        let ghost r2 = acc.recorded();
        proof {
            crate::solver::common::lemma_progress_chain(start, r1, r2, acc.stops_at_first());
        }
        if acc.is_finish() {
            return;
        }
        self.find_naked_set(HouseType::Block, grid, acc, &mut seen, Ghost(start));
        proof {
            crate::solver::common::lemma_progress_chain(start, r1, acc.recorded(), acc.stops_at_first());
            crate::solver::common::lemma_progress_chain(start, r2, acc.recorded(), acc.stops_at_first());
        }
    }

    /// Some row, column or block holds a naked set of this size that removes something
    /// and hides no smaller one that does.
    pub open spec fn finds_in(self, g: Grid) -> bool {
        exists|t: HouseType, i: int, cells: Seq<u8>|
            0 <= i < 9 && #[trigger] naked_new(g, Seq::<Vec<Candidate>>::empty(), house_at(t, i), cells, self.size() as int)
    }
}

/// A copy of a list of cells.
pub(crate) fn clone_cells(v: &Vec<u8>) -> (r: Vec<u8>)
    ensures
        r@ == v@,
{
    let mut r: Vec<u8> = Vec::new();
    let mut i: usize = 0;
    while i < v.len()
        invariant
            i <= v@.len(),
            r@ == v@.subrange(0, i as int),
        decreases v@.len() - i,
    {
        r.push(v[i]);
        assert(r@ =~= v@.subrange(0, i + 1));
        i = i + 1;
    }
    assert(v@.subrange(0, v@.len() as int) =~= v@);
    r
}

/// A copy of a list of candidates.
pub(crate) fn clone_cand_list(v: &Vec<Candidate>) -> (r: Vec<Candidate>)
    ensures
        r@ == v@,
{
    let mut r: Vec<Candidate> = Vec::new();
    let mut i: usize = 0;
    while i < v.len()
        invariant
            i <= v@.len(),
            r@ == v@.subrange(0, i as int),
        decreases v@.len() - i,
    {
        r.push(v[i]);
        assert(r@ =~= v@.subrange(0, i + 1));
        i = i + 1;
    }
    assert(v@.subrange(0, v@.len() as int) =~= v@);
    r
}

} // verus!
