use vstd::prelude::*;
use crate::solver::hidden_set::digit_has_place;
use crate::solver::fish::{bases_placed, meets};
use itertools::Itertools;
use crate::candidate::Candidate;
use crate::grid::Grid;
use crate::grid_constant::{in_house, sees};
use crate::solver::step::{Step, removable, removed, remove_all};
use crate::solver::step_accumulator::StepAccumulator;
use crate::solver::common::{grows, report, cand_list, candidates_of, progressed, lemma_cand_list_distinct};
use crate::solver::fish::{cells_with, candidate_cells_in_houses, cells_that_see_all_fins};
use crate::solver::naked_set::{seen_before, clone_cand_list, clone_cells};
use crate::util::indexset::IndexSet;
use crate::util::permutations::increasing;

verus! {

/// What makes a fish complex.
#[derive(Debug, Clone, Copy, PartialEq, Eq, Hash, Structural)]
pub enum ComplexFishType {
    Franken,
    Mutant,
    Cannibalistic,
}

/// Cells with candidate `v` that lie in two of the houses `hs`.
pub open spec fn repeated(g: Grid, hs: Seq<u8>, v: u8) -> Set<u8> {
    Set::new(
        |c: u8|
            (exists|i: int, j: int|
                0 <= i < j < hs.len() && #[trigger] in_house(c as int, hs[i] as int) && #[trigger] in_house(c as int, hs[j] as int))
                && g.has_cand(c as int, v),
    )
}

/// The fins of a complex fish: base cells outside the covers, and base cells in two
/// bases.
pub open spec fn complex_fins(g: Grid, v: u8, bs: Seq<u8>, cs: Seq<u8>) -> Set<u8> {
    cells_with(g, bs, v).difference(cells_with(g, cs, v)).union(repeated(g, bs, v))
}

/// Cells that lose `v`: cover cells outside the bases, or in two covers and outside the
/// bases, that see every fin.
pub open spec fn complex_targets(g: Grid, v: u8, bs: Seq<u8>, cs: Seq<u8>) -> Set<u8> {
    Set::new(
        |c: u8|
            c < 81 && (cells_with(g, cs, v).difference(cells_with(g, bs, v)).contains(c) || repeated(g, cs, v).difference(
                cells_with(g, bs, v),
            ).contains(c)) && forall|f: u8| #[trigger] complex_fins(g, v, bs, cs).contains(f) ==> sees(f as int, c as int),
    )
}

/// A fish whose base or cover sets mix houses of different kinds.
#[derive(Debug, Clone, PartialEq, Eq, Hash)]
pub struct ComplexFish {
    pub fish_type: ComplexFishType,
    pub degree: u8,
    pub value: u8,
    pub basics: Vec<u8>,
    pub covers: Vec<u8>,
    pub highlight_candidates: Vec<Candidate>,
    pub fins: Vec<Candidate>,
    pub remove_candidates: Vec<Candidate>,
}

impl ComplexFish {
    /// Some bases and covers, different sets of `degree` houses each, form the fish; the
    /// removals are the digit's candidates that can go.
    pub open spec fn pattern(self, g: Grid) -> bool {
        &&& 1 <= self.value <= 9
        &&& 2 <= self.degree <= 4
        &&& self.basics@.len() == self.degree && self.covers@.len() == self.degree
        &&& increasing(self.basics@) && increasing(self.covers@)
        &&& self.basics@ != self.covers@
        &&& forall|i: int| 0 <= i < self.degree ==> #[trigger] self.basics@[i] < 27 && self.covers@[i] < 27
        &&& bases_placed(g, self.value, self.basics@)
        &&& cand_list(self.remove_candidates@, self.value, complex_targets(g, self.value, self.basics@, self.covers@))
        &&& self.remove_candidates@.len() > 0
    }

    pub open spec fn title(self) -> Seq<char> {
        match self.fish_type {
            ComplexFishType::Franken => "Franken Fish"@,
            ComplexFishType::Mutant => "Mutant Fish"@,
            ComplexFishType::Cannibalistic => "Cannibalistic Fish"@,
        }
    }

    pub fn name(&self) -> (r: &'static str)
        ensures
            r@ == self.title(),
    {
        match self.fish_type {
            ComplexFishType::Franken => "Franken Fish",
            ComplexFishType::Mutant => "Mutant Fish",
            ComplexFishType::Cannibalistic => "Cannibalistic Fish",
        }
    }

    pub open spec fn rating(self) -> u32 {
        match self.fish_type {
            ComplexFishType::Franken => 300,
            ComplexFishType::Mutant => 340,
            ComplexFishType::Cannibalistic => 380,
        }
    }

    pub fn difficulty(&self) -> (r: u32)
        ensures
            r == self.rating(),
    {
        match self.fish_type {
            ComplexFishType::Franken => 300,
            ComplexFishType::Mutant => 340,
            ComplexFishType::Cannibalistic => 380,
        }
    }

    /// Removes the candidates.
    pub fn apply(&self, grid: &mut Grid)
        requires
            old(grid).wf(),
            removable(*old(grid), self.remove_candidates@),
        ensures
            final(grid).wf(),
            removed(*old(grid), *final(grid), self.remove_candidates@),
    {
        remove_all(grid, &self.remove_candidates);
    }
}

/// `itertools::Itertools::combinations` on the houses `0..27`: the `k`-element selections
/// of house indices, each in increasing order, every one of them.
#[verifier::external_body]
fn house_combinations(k: usize) -> (r: Vec<Vec<u8>>)
    ensures
        forall|j: int|
            0 <= j < r@.len() ==> (#[trigger] r@[j])@.len() == k && increasing(r@[j]@) && forall|i: int|
                0 <= i < k ==> r@[j]@[i] < 27,
        forall|c: Seq<u8>|
            #[trigger] increasing(c) && c.len() == k && (forall|i: int| 0 <= i < c.len() ==> c[i] < 27) ==> exists|j: int|
                0 <= j < r@.len() && r@[j]@ == c,
{
    (0u8..27).combinations(k).collect()
}

/// The candidate cells of `value` that lie in two of the houses.
fn repeated_cells(grid: &Grid, houses: &Vec<u8>, value: u8) -> (r: IndexSet)
    requires
        grid.wf(),
    ensures
        r@ == repeated(*grid, houses@, value),
{
    let mut seen = IndexSet::new_empty();
    let mut rep = IndexSet::new_empty();
    let mut i: usize = 0;
    while i < houses.len()
        invariant
            i <= houses@.len(),
            grid.wf(),
            seen@ == cells_with(*grid, houses@.subrange(0, i as int), value),
            rep@ == repeated(*grid, houses@.subrange(0, i as int), value),
        decreases houses@.len() - i,
    {
        let next = grid.candidate_cells_in_house(houses[i], value);
        let ghost s0 = seen@;
        let ghost r0 = rep@;
        rep = rep.union(&seen.intersect(&next));
        seen = seen.union(&next);
        proof {
            let pre = houses@.subrange(0, i as int);
            let post = houses@.subrange(0, i + 1);
            assert forall|c: u8| seen@.contains(c) <==> cells_with(*grid, post, value).contains(c) by {
                if cells_with(*grid, post, value).contains(c) {
                    let k = choose|k: int| 0 <= k < post.len() && in_house(c as int, #[trigger] post[k] as int);
                    if k < i {
                        assert(pre[k] == post[k]);
                    }
                }
                if s0.contains(c) {
                    let k = choose|k: int| 0 <= k < pre.len() && in_house(c as int, #[trigger] pre[k] as int);
                    assert(post[k] == pre[k]);
                }
                if next@.contains(c) {
                    assert(post[i as int] == houses@[i as int]);
                }
            }
            assert(seen@ =~= cells_with(*grid, post, value));
            assert forall|c: u8| rep@.contains(c) <==> repeated(*grid, post, value).contains(c) by {
                if repeated(*grid, post, value).contains(c) {
                    let (a, b) = choose|a: int, b: int|
                        0 <= a < b < post.len() && #[trigger] in_house(c as int, post[a] as int) && #[trigger] in_house(c as int, post[b] as int);
                    if b < i {
                        assert(pre[a] == post[a] && pre[b] == post[b]);
                    } else {
                        assert(pre[a] == post[a]);
                        assert(s0.contains(c));
                        assert(next@.contains(c));
                    }
                }
                if r0.contains(c) {
                    let (a, b) = choose|a: int, b: int|
                        0 <= a < b < pre.len() && #[trigger] in_house(c as int, pre[a] as int) && #[trigger] in_house(c as int, pre[b] as int);
                    assert(post[a] == pre[a] && post[b] == pre[b]);
                }
                if s0.contains(c) && next@.contains(c) {
                    let k = choose|k: int| 0 <= k < pre.len() && in_house(c as int, #[trigger] pre[k] as int);
                    assert(post[k] == pre[k]);
                    assert(post[i as int] == houses@[i as int]);
                    assert(in_house(c as int, post[k] as int) && in_house(c as int, post[i as int] as int));
                }
            }
            assert(rep@ =~= repeated(*grid, post, value));
        }
        i = i + 1;
    }
    assert(houses@.subrange(0, houses@.len() as int) =~= houses@);
    rep
}

/// Some house of `hs` lies in `lo..hi`.
pub open spec fn some_between(hs: Seq<u8>, lo: int, hi: int) -> bool {
    exists|i: int| 0 <= i < hs.len() && lo <= #[trigger] hs[i] < hi
}

/// Neither set mixes rows with columns, and some house is a block.
fn is_franken(basics: &Vec<u8>, covers: &Vec<u8>) -> (r: bool)
    ensures
        r == (!(some_between(basics@, 0, 9) && some_between(basics@, 9, 18)) && !(some_between(covers@, 0, 9) && some_between(
            covers@,
            9,
            18,
        )) && (some_between(basics@, 18, 255) || some_between(covers@, 18, 255))),
{
    let mixed_b = has_below(basics, 0, 9) && has_below(basics, 9, 18);
    let mixed_c = has_below(covers, 0, 9) && has_below(covers, 9, 18);
    !mixed_b && !mixed_c && (has_below(basics, 18, 255) || has_below(covers, 18, 255))
}

/// Some element lies in `lo..hi`.
fn has_below(hs: &Vec<u8>, lo: u8, hi: u8) -> (r: bool)
    ensures
        r == exists|i: int| 0 <= i < hs@.len() && lo <= #[trigger] hs@[i] < hi,
{
    let mut i: usize = 0;
    while i < hs.len()
        invariant
            i <= hs@.len(),
            forall|k: int| 0 <= k < i ==> !(lo <= #[trigger] hs@[k] < hi),
        decreases hs@.len() - i,
    {
        if lo <= hs[i] && hs[i] < hi {
            return true;
        }
        i = i + 1;
    }
    false
}

/// Whether every house has a candidate `value` in `core`.
fn all_meet_core(grid: &Grid, houses: &Vec<u8>, value: u8, core: &IndexSet) -> (r: bool)
    requires
        grid.wf(),
    ensures
        r == forall|i: int| 0 <= i < houses@.len() ==> #[trigger] meets(*grid, houses@[i] as int, value, core@),
{
    let mut i: usize = 0;
    while i < houses.len()
        invariant
            i <= houses@.len(),
            grid.wf(),
            forall|k: int| 0 <= k < i ==> #[trigger] meets(*grid, houses@[k] as int, value, core@),
        decreases houses@.len() - i,
    {
        let here = grid.candidate_cells_in_house(houses[i], value).intersect(core);
        if here.is_empty() {
            proof {
                if meets(*grid, houses@[i as int] as int, value, core@) {
                    let c = choose|c: u8| core@.contains(c) && in_house(c as int, houses@[i as int] as int) && #[trigger] grid.has_cand(c as int, value);
                    assert(here@.contains(c));
                }
            }
            return false;
        }
        proof {
            let c = choose|c: u8| here@.contains(c);
            assert(here@.contains(c)) by {
                if !(exists|c: u8| here@.contains(c)) {
                    assert(here@ =~= Set::<u8>::empty());
                }
            }
            assert(grid.has_cand(c as int, value));
        }
        i = i + 1;
    }
    true
}

/// Whether two lists are equal.
fn same_houses(a: &Vec<u8>, b: &Vec<u8>) -> (r: bool)
    ensures
        r == (a@ == b@),
{
    if a.len() != b.len() {
        return false;
    }
    let mut i: usize = 0;
    while i < a.len()
        invariant
            i <= a@.len() == b@.len(),
            forall|k: int| 0 <= k < i ==> a@[k] == b@[k],
        decreases a@.len() - i,
    {
        if a[i] != b[i] {
            return false;
        }
        i = i + 1;
    }
    assert(a@ =~= b@);
    true
}

/// The core of a complex fish: cells with `v` in some base and some cover.
pub open spec fn complex_core(g: Grid, v: u8, bs: Seq<u8>, cs: Seq<u8>) -> Set<u8> {
    cells_with(g, bs, v).intersect(cells_with(g, cs, v))
}

/// A complex fish on digit `v`: `bs` and `cs` are different increasing lists of two to
/// four houses each, every base holds the digit, every base and cover meets the core, the
/// digit leaves some cell, and the list of those removals is not among `seen`.
pub open spec fn complex_new(g: Grid, seen: Seq<Vec<Candidate>>, v: u8, bs: Seq<u8>, cs: Seq<u8>) -> bool {
    &&& 1 <= v <= 9
    &&& 2 <= bs.len() <= 4 && cs.len() == bs.len()
    &&& increasing(bs) && increasing(cs)
    &&& bs != cs
    &&& forall|i: int| 0 <= i < bs.len() ==> #[trigger] bs[i] < 27 && cs[i] < 27
    &&& bases_placed(g, v, bs)
    &&& forall|i: int| 0 <= i < bs.len() ==> #[trigger] meets(g, bs[i] as int, v, complex_core(g, v, bs, cs))
    &&& forall|i: int| 0 <= i < cs.len() ==> #[trigger] meets(g, cs[i] as int, v, complex_core(g, v, bs, cs))
    &&& exists|c: u8| #[trigger] complex_targets(g, v, bs, cs).contains(c)
    &&& forall|i: int| 0 <= i < seen.len() ==> !cand_list(#[trigger] seen[i]@, v, complex_targets(g, v, bs, cs))
}

/// Finds Franken, Mutant and Cannibalistic fish.
#[derive(Debug, Default)]
pub struct ComplexFishFinder;

impl ComplexFishFinder {
    /// Some complex fish removes a candidate.
    pub open spec fn finds_in(self, g: Grid) -> bool {
        exists|v: u8, bs: Seq<u8>, cs: Seq<u8>| #[trigger] complex_new(g, Seq::empty(), v, bs, cs)
    }

    /// Reports complex fish of two to four houses, digit by digit, over every set of base
    /// houses that all hold the digit and every different set of cover houses, when each
    /// base and cover meets the core; removals already reported are skipped. When some
    /// complex fish removes a candidate, a step is reported.
    #[verifier::rlimit(60)]
    pub fn find_step<A: StepAccumulator>(&self, grid: &Grid, acc: &mut A)
        requires
            grid.wf(),
        ensures
            grows(old(acc).recorded(), final(acc).recorded(), |s: Step| s.pattern(*grid) && s is ComplexFish),
            final(acc).stops_at_first() == old(acc).stops_at_first(),
            self.finds_in(*grid) ==> progressed(old(acc).recorded(), final(acc).recorded(), old(acc).stops_at_first()),
    {
        let ghost start = acc.recorded();
        let ghost stop = acc.stops_at_first();
        let ghost ok = |s: Step| s.pattern(*grid) && s is ComplexFish;
        proof {
            assert(acc.recorded().subrange(0, start.len() as int) =~= start);
        }
        let mut seen: Vec<Vec<Candidate>> = Vec::new();
        let ghost seen0 = seen@;
        let mut degree: usize = 2;
        while degree <= 4
            invariant
                2 <= degree <= 5,
                grid.wf(),
                ok == (|s: Step| s.pattern(*grid) && s is ComplexFish),
                grows(start, acc.recorded(), ok),
                start == old(acc).recorded(),
                stop == old(acc).stops_at_first(),
                acc.stops_at_first() == old(acc).stops_at_first(),
                seen0 == Seq::<Vec<Candidate>>::empty(),
                !progressed(start, acc.recorded(), stop) ==> seen@ == seen0,
                !progressed(start, acc.recorded(), stop) ==> forall|v: u8, bs: Seq<u8>, cs: Seq<u8>|
                    bs.len() < degree ==> !#[trigger] complex_new(*grid, seen0, v, bs, cs),
            decreases 5 - degree,
        {
            let combos = house_combinations(degree);
            let mut value: u8 = 1;
            while value <= 9
                invariant
                    1 <= value <= 10,
                    2 <= degree <= 4,
                    grid.wf(),
                    forall|j: int|
                        0 <= j < combos@.len() ==> (#[trigger] combos@[j])@.len() == degree && increasing(combos@[j]@) && forall|i: int|
                            0 <= i < degree ==> combos@[j]@[i] < 27,
                    forall|c: Seq<u8>|
                        #[trigger] increasing(c) && c.len() == degree && (forall|i: int| 0 <= i < c.len() ==> c[i] < 27) ==> exists|j: int|
                            0 <= j < combos@.len() && combos@[j]@ == c,
                    ok == (|s: Step| s.pattern(*grid) && s is ComplexFish),
                    grows(start, acc.recorded(), ok),
                    start == old(acc).recorded(),
                    stop == old(acc).stops_at_first(),
                    acc.stops_at_first() == old(acc).stops_at_first(),
                    seen0 == Seq::<Vec<Candidate>>::empty(),
                    !progressed(start, acc.recorded(), stop) ==> seen@ == seen0,
                    !progressed(start, acc.recorded(), stop) ==> forall|v: u8, bs: Seq<u8>, cs: Seq<u8>|
                        bs.len() < degree ==> !#[trigger] complex_new(*grid, seen0, v, bs, cs),
                    !progressed(start, acc.recorded(), stop) ==> forall|v: u8, bs: Seq<u8>, cs: Seq<u8>|
                        bs.len() == degree && v < value ==> !#[trigger] complex_new(*grid, seen0, v, bs, cs),
                decreases 10 - value,
            {
                let mut bi: usize = 0;
                while bi < combos.len()
                    invariant
                        bi <= combos@.len(),
                        1 <= value <= 9,
                        2 <= degree <= 4,
                        grid.wf(),
                        forall|j: int|
                            0 <= j < combos@.len() ==> (#[trigger] combos@[j])@.len() == degree && increasing(combos@[j]@) && forall|i: int|
                                0 <= i < degree ==> combos@[j]@[i] < 27,
                        forall|c: Seq<u8>|
                            #[trigger] increasing(c) && c.len() == degree && (forall|i: int| 0 <= i < c.len() ==> c[i] < 27) ==> exists|j: int|
                                0 <= j < combos@.len() && combos@[j]@ == c,
                        ok == (|s: Step| s.pattern(*grid) && s is ComplexFish),
                        grows(start, acc.recorded(), ok),
                        start == old(acc).recorded(),
                        stop == old(acc).stops_at_first(),
                        acc.stops_at_first() == old(acc).stops_at_first(),
                        seen0 == Seq::<Vec<Candidate>>::empty(),
                        !progressed(start, acc.recorded(), stop) ==> seen@ == seen0,
                        !progressed(start, acc.recorded(), stop) ==> forall|v: u8, bs: Seq<u8>, cs: Seq<u8>|
                            bs.len() < degree ==> !#[trigger] complex_new(*grid, seen0, v, bs, cs),
                        !progressed(start, acc.recorded(), stop) ==> forall|v: u8, bs: Seq<u8>, cs: Seq<u8>|
                            bs.len() == degree && v < value ==> !#[trigger] complex_new(*grid, seen0, v, bs, cs),
                        !progressed(start, acc.recorded(), stop) ==> forall|j: int, cs: Seq<u8>|
                            0 <= j < bi ==> !#[trigger] complex_new(*grid, seen0, value, combos@[j]@, cs),
                    decreases combos@.len() - bi,
                {
                    let basics = &combos[bi];
                    assert(basics@ == combos@[bi as int]@);
                    let basic_cells = candidate_cells_in_houses(grid, basics, value);
                    let mut empty_base = false;
                    let mut k: usize = 0;
                    while k < basics.len()
                        invariant
                            k <= basics@.len(),
                            grid.wf(),
                            !empty_base ==> forall|j: int| 0 <= j < k ==> digit_has_place(*grid, #[trigger] basics@[j] as int, value),
                            empty_base ==> !bases_placed(*grid, value, basics@),
                        decreases basics@.len() - k,
                    {
                        let here = grid.candidate_cells_in_house(basics[k], value);
                        if here.is_empty() {
                            empty_base = true;
                            proof {
                                if digit_has_place(*grid, basics@[k as int] as int, value) {
                                    let c = choose|c: int| in_house(c, basics@[k as int] as int) && #[trigger] grid.has_cand(c, value);
                                    assert(here@.contains(c as u8));
                                }
                            }
                        } else {
                            proof {
                                assert(here@ != Set::<u8>::empty());
                                let c = choose|c: u8| here@.contains(c);
                                assert(here@.contains(c)) by {
                                    if !(exists|c: u8| here@.contains(c)) {
                                        assert(here@ =~= Set::<u8>::empty());
                                    }
                                }
                                assert(in_house(c as int, basics@[k as int] as int) && grid.has_cand(c as int, value));
                            }
                        }
                        k = k + 1;
                    }
                    if !empty_base {
                        let endo_fins = repeated_cells(grid, basics, value);
                        let mut ci: usize = 0;
                        while ci < combos.len()
                            invariant
                                ci <= combos@.len(),
                                bi < combos@.len(),
                                basics@ == combos@[bi as int]@,
                                1 <= value <= 9,
                                2 <= degree <= 4,
                                grid.wf(),
                                basic_cells@ == cells_with(*grid, basics@, value),
                                bases_placed(*grid, value, basics@),
                                endo_fins@ == repeated(*grid, basics@, value),
                                forall|j: int|
                                    0 <= j < combos@.len() ==> (#[trigger] combos@[j])@.len() == degree && increasing(combos@[j]@)
                                        && forall|i: int| 0 <= i < degree ==> combos@[j]@[i] < 27,
                                forall|c: Seq<u8>|
                                    #[trigger] increasing(c) && c.len() == degree && (forall|i: int| 0 <= i < c.len() ==> c[i] < 27) ==> exists|j: int|
                                        0 <= j < combos@.len() && combos@[j]@ == c,
                                ok == (|s: Step| s.pattern(*grid) && s is ComplexFish),
                                grows(start, acc.recorded(), ok),
                                start == old(acc).recorded(),
                                stop == old(acc).stops_at_first(),
                                acc.stops_at_first() == old(acc).stops_at_first(),
                                seen0 == Seq::<Vec<Candidate>>::empty(),
                                !progressed(start, acc.recorded(), stop) ==> seen@ == seen0,
                                !progressed(start, acc.recorded(), stop) ==> forall|j: int|
                                    0 <= j < ci ==> !#[trigger] complex_new(*grid, seen0, value, basics@, combos@[j]@),
                                !progressed(start, acc.recorded(), stop) ==> forall|v: u8, bs: Seq<u8>, cs: Seq<u8>|
                                    bs.len() < degree ==> !#[trigger] complex_new(*grid, seen0, v, bs, cs),
                                !progressed(start, acc.recorded(), stop) ==> forall|v: u8, bs: Seq<u8>, cs: Seq<u8>|
                                    bs.len() == degree && v < value ==> !#[trigger] complex_new(*grid, seen0, v, bs, cs),
                                !progressed(start, acc.recorded(), stop) ==> forall|j: int, cs: Seq<u8>|
                                    0 <= j < bi ==> !#[trigger] complex_new(*grid, seen0, value, combos@[j]@, cs),
                            decreases combos@.len() - ci,
                        {
                            let covers = &combos[ci];
                            assert(covers@ == combos@[ci as int]@);
                            let ghost cs = covers@;
                            if !same_houses(basics, covers) {
                                let cover_cells = candidate_cells_in_houses(grid, covers, value);
                                let core = basic_cells.intersect(&cover_cells);
                                proof {
                                    assert(core@ =~= complex_core(*grid, value, basics@, cs));
                                }
                                let meet_b = all_meet_core(grid, basics, value, &core);
                                let meet_c = all_meet_core(grid, covers, value, &core);
                                if meet_b && meet_c {
                                    let exo_fins = basic_cells.difference(&cover_cells);
                                    let fins = exo_fins.union(&endo_fins);
                                    let cannibal = repeated_cells(grid, covers, value).difference(&basic_cells);
                                    let mut remove = cover_cells.difference(&basic_cells).union(&cannibal);
                                    if !fins.is_empty() {
                                        let see = cells_that_see_all_fins(&fins);
                                        remove = remove.intersect(&see);
                                    }
                                    proof {
                                        IndexSet::lemma_bounds(remove);
                                        assert(fins@ =~= complex_fins(*grid, value, basics@, covers@));
                                        assert(remove@ =~= complex_targets(*grid, value, basics@, covers@)) by {
                                            assert forall|c: u8| remove@.contains(c) implies c < 81 by {}
                                            if fins@ == Set::<u8>::empty() {
                                                assert forall|c: u8| complex_targets(*grid, value, basics@, covers@).contains(c) implies remove@.contains(c) by {}
                                            }
                                        }
                                        if remove@.len() == 0 {
                                            remove@.lemma_len0_is_empty();
                                        }
                                    }
                                    let removals = candidates_of(&remove, value);
                                    let mut fresh = false;
                                    if removals.len() > 0 {
                                        fresh = !seen_before(&seen, &removals);
                                    }
                                    if fresh {
                                        seen.push(clone_cand_list(&removals));
                                        let fish_type = if !cannibal.is_empty() || !endo_fins.is_empty() {
                                            ComplexFishType::Cannibalistic
                                        } else if is_franken(basics, covers) {
                                            ComplexFishType::Franken
                                        } else {
                                            ComplexFishType::Mutant
                                        };
                                        let fish = ComplexFish {
                                            fish_type,
                                            degree: degree as u8,
                                            value,
                                            basics: clone_cells(basics),
                                            covers: clone_cells(covers),
                                            highlight_candidates: candidates_of(&core, value),
                                            fins: candidates_of(&fins, value),
                                            remove_candidates: removals,
                                        };
                                        proof {
                                            assert(fish.pattern(*grid));
                                        }
                                        if report(acc, Step::ComplexFish(fish), Ghost(start), Ghost(ok)) {
                                            return;
                                        }
                                    } else {
                                        proof {
                                            if complex_new(*grid, seen0, value, basics@, cs) {
                                                let c = choose|c: u8| #[trigger] complex_targets(*grid, value, basics@, cs).contains(c);
                                                assert(remove@.contains(c));
                                                assert(remove@.len() > 0) by {
                                                    if remove@.len() == 0 {
                                                        remove@.lemma_len0_is_empty();
                                                    }
                                                }
                                                assert(seen@ == seen0 ==> false) by {
                                                    if seen@ == seen0 && removals@.len() > 0 {
                                                        let i = choose|i: int| 0 <= i < seen@.len() && (#[trigger] seen@[i])@ == removals@;
                                                    }
                                                }
                                            }
                                        }
                                    }
                                } else {
                                    proof {
                                        if complex_new(*grid, seen0, value, basics@, cs) {
                                            assert(meet_b && meet_c);
                                        }
                                    }
                                }
                            }
                            ci = ci + 1;
                        }
                        proof {
                            assert forall|cs: Seq<u8>| !progressed(start, acc.recorded(), stop) implies !#[trigger] complex_new(
                                *grid,
                                seen0,
                                value,
                                combos@[bi as int]@,
                                cs,
                            ) by {
                                if complex_new(*grid, seen0, value, basics@, cs) {
                                    assert(increasing(cs));
                                    assert(cs.len() == degree);
                                    assert forall|i: int| 0 <= i < cs.len() implies cs[i] < 27 by {
                                        assert(basics@[i] < 27 && cs[i] < 27);
                                    }
                                    let j = choose|j: int| 0 <= j < combos@.len() && combos@[j]@ == cs;
                                    assert(!complex_new(*grid, seen0, value, basics@, combos@[j]@));
                                }
                            }
                        }
                    }
                    bi = bi + 1;
                }
                proof {
                    assert forall|bs: Seq<u8>, cs: Seq<u8>|
                        !progressed(start, acc.recorded(), stop) && bs.len() == degree implies !#[trigger] complex_new(
                        *grid,
                        seen0,
                        value,
                        bs,
                        cs,
                    ) by {
                        if complex_new(*grid, seen0, value, bs, cs) {
                            assert(increasing(bs));
                            assert forall|i: int| 0 <= i < bs.len() implies bs[i] < 27 by {
                                assert(bs[i] < 27 && cs[i] < 27);
                            }
                            let j = choose|j: int| 0 <= j < combos@.len() && combos@[j]@ == bs;
                            assert(!complex_new(*grid, seen0, value, combos@[j]@, cs));
                        }
                    }
                }
                value = value + 1;
            }
            proof {
                assert forall|v: u8, bs: Seq<u8>, cs: Seq<u8>|
                    !progressed(start, acc.recorded(), stop) && bs.len() < degree + 1 implies !#[trigger] complex_new(*grid, seen0, v, bs, cs) by {
                    if complex_new(*grid, seen0, v, bs, cs) && bs.len() == degree {
                        assert(v < 10);
                    }
                }
            }
            degree = degree + 1;
        }
        proof {
            if self.finds_in(*grid) {
                let (v, bs, cs) = choose|v: u8, bs: Seq<u8>, cs: Seq<u8>| #[trigger] complex_new(*grid, Seq::empty(), v, bs, cs);
                assert(complex_new(*grid, seen0, v, bs, cs));
            }
        }
    }
}

} // verus!
