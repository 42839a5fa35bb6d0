use vstd::prelude::*;
use crate::candidate::Candidate;
use crate::grid::Grid;
use crate::grid_constant::{row, col, block, row_of, col_of, block_of, in_house};
use crate::solver::step::Step;
use crate::solver::step_accumulator::StepAccumulator;
use crate::solver::common::{grows, shared_house, house_of_kind, progressed, lemma_progress_chain};
use crate::solver::naked_set::{all_in, union_cands, union_of, vec_has};
use crate::solver::unique::{
    UniqueRectangle, UniqueStep, UniqueType, add_unique_step, find_unique_rectangles, corners_over, corners_ok,
    from_rects, shown, two_extra, present_of, lemma_grows_from_rects, extra_digits, pseudo_naked, pseudo_target,
    pseudo_removals, ur_on, listed_ab,
};
use crate::util::digitset::DigitSet;
use crate::util::permutations::{create_permutations, increasing, picks};

verus! {

/// A unique rectangle of type 3 on corners `p` and digits `a`, `b`: corners `i` and `j`
/// alone have extra candidates and share a line; in a house `h` they share, the cells
/// `cs` complete them into a naked set, and some candidate of `h` can go by it.
pub open spec fn type3_at(g: Grid, p: Seq<u8>, a: u8, b: u8, i: int, j: int, h: int, cs: Seq<u8>) -> bool {
    &&& two_extra(g, p, i, j)
    &&& (row_of(p[i] as int) == row_of(p[j] as int) || col_of(p[i] as int) == col_of(p[j] as int))
    &&& shares_house(p[i] as int, p[j] as int, h)
    &&& pseudo_naked(g, h, p[i], p[j], a, b, cs)
    &&& exists|c: int, v: u8| in_house(c, h) && #[trigger] pseudo_target(g, p[i], p[j], cs, a, b, c, v)
}

/// A unique rectangle of type 3 on digits `a < b` whose corners `p` all hold both
/// digits.
pub open spec fn type3_in(g: Grid, p: Seq<u8>, a: u8, b: u8, i: int, j: int, h: int, cs: Seq<u8>) -> bool {
    &&& 1 <= a < b <= 9
    &&& ur_on(g, p, a, b)
    &&& type3_at(g, p, a, b, i, j, h, cs)
}

/// House `h` is the row, the column or the block of both cells `f` and `s`.
pub open spec fn shares_house(f: int, s: int, h: int) -> bool {
    ||| h == row_of(f) && h == row_of(s)
    ||| h == col_of(f) && h == col_of(s)
    ||| h == block_of(f) && h == block_of(s)
}

/// A type 3 rectangle lies on a rectangle of a complete list.
pub proof fn lemma_type3_listed(g: Grid, urs: Seq<UniqueRectangle>)
    requires
        forall|a: u8, b: u8, p: Seq<u8>| 1 <= a < b <= 9 && #[trigger] ur_on(g, p, a, b) ==> listed_ab(urs, p, a, b),
        exists|p: Seq<u8>, a: u8, b: u8, i: int, j: int, h: int, cs: Seq<u8>| #[trigger] type3_in(g, p, a, b, i, j, h, cs),
    ensures
        exists|k: int, i: int, j: int, h: int, cs: Seq<u8>|
            0 <= k < urs.len() && #[trigger] type3_at(g, urs[k].corners(), urs[k].digit_a(), urs[k].digit_b(), i, j, h, cs),
{
    let (p, a, b, i, j, h, cs) = choose|p: Seq<u8>, a: u8, b: u8, i: int, j: int, h: int, cs: Seq<u8>| #[trigger] type3_in(g, p, a, b, i, j, h, cs);
    assert(listed_ab(urs, p, a, b));
    let k = choose|k: int| 0 <= k < urs.len() && (#[trigger] urs[k]).corners() == p && urs[k].digit_a() == a && urs[k].digit_b() == b;
    assert(type3_at(g, urs[k].corners(), urs[k].digit_a(), urs[k].digit_b(), i, j, h, cs));
}

/// Two corners alone with three or more candidates are determined by the grid.
proof fn lemma_two_extra_unique(g: Grid, p: Seq<u8>, i: int, j: int, i2: int, j2: int)
    requires
        two_extra(g, p, i, j),
        two_extra(g, p, i2, j2),
    ensures
        i == i2 && j == j2,
{
    assert(g.cands(p[i2] as int).len() >= 3 && g.cands(p[j2] as int).len() >= 3);
}

/// Finds unique rectangles of type 3: two corners of one line carry extra candidates and,
/// taken together as one cell, form a naked set with other cells of a house they share.
#[derive(Debug, Default)]
pub struct Unique3Finder {}

impl Unique3Finder {
    /// Some unique rectangle of type 3 removes a candidate of the house that completes it.
    pub open spec fn finds_in(self, g: Grid) -> bool {
        exists|p: Seq<u8>, a: u8, b: u8, i: int, j: int, h: int, cs: Seq<u8>| #[trigger] type3_in(g, p, a, b, i, j, h, cs)
    }

    /// Looks for type 3 among all rectangles of the grid; when one removes a candidate of
    /// the house that completes it, a step is reported.
    pub fn find_unique_type3<A: StepAccumulator>(&self, grid: &Grid, acc: &mut A)
        requires
            grid.wf(),
        ensures
            grows(old(acc).recorded(), final(acc).recorded(), |s: Step| s.pattern(*grid) && s is UniqueStep),
            final(acc).stops_at_first() == old(acc).stops_at_first(),
            self.finds_in(*grid) ==> progressed(old(acc).recorded(), final(acc).recorded(), old(acc).stops_at_first()),
    {
        let ghost start = acc.recorded();
        let rectangles = find_unique_rectangles(grid);
        let mut seen: Vec<Vec<Candidate>> = Vec::new();
        find_steps(grid, &rectangles, acc, &mut seen);
        proof {
            lemma_grows_from_rects(*grid, rectangles@, UniqueType::Type3, start, acc.recorded());
            if self.finds_in(*grid) {
                lemma_type3_listed(*grid, rectangles@);
            }
        }
    }

    /// Looks for type 3 among the given rectangles; when one removes a candidate of the
    /// house that completes it, a step is reported.
    pub fn check_unique_type3<A: StepAccumulator>(&self, grid: &Grid, urs: Vec<UniqueRectangle>, acc: &mut A, _a: u8, _b: u8)
        requires
            grid.wf(),
            corners_ok(urs@),
        ensures
            grows(old(acc).recorded(), final(acc).recorded(), |s: Step| from_rects(*grid, urs@, UniqueType::Type3, s)),
            final(acc).stops_at_first() == old(acc).stops_at_first(),
            forall|k: int, i: int, j: int, h: int, cs: Seq<u8>|
                0 <= k < urs@.len() && #[trigger] type3_at(*grid, urs@[k].corners(), urs@[k].digit_a(), urs@[k].digit_b(), i, j, h, cs)
                    ==> progressed(old(acc).recorded(), final(acc).recorded(), old(acc).stops_at_first()),
    {
        let mut seen: Vec<Vec<Candidate>> = Vec::new();
        find_steps(grid, &urs, acc, &mut seen);
    }
}

/// House `h` first, then each row, column and block that holds every cell of `naked`
/// and is not listed yet.
fn set_houses(h: u8, naked: &Vec<u8>) -> (r: Vec<u8>)
    requires
        h < 27,
        forall|i: int| 0 <= i < naked@.len() ==> #[trigger] naked@[i] < 81,
    ensures
        r@.len() >= 1,
        r@[0] == h,
        forall|q: int| 0 <= q < r@.len() ==> #[trigger] r@[q] < 27,
        forall|q: int, i: int| 1 <= q < r@.len() && 0 <= i < naked@.len() ==> in_house(#[trigger] naked@[i] as int, #[trigger] r@[q] as int),
{
    let mut r: Vec<u8> = Vec::new();
    r.push(h);
    let mut kind: u8 = 0;
    while kind < 3
        invariant
            kind <= 3,
            h < 27,
            forall|i: int| 0 <= i < naked@.len() ==> #[trigger] naked@[i] < 81,
            r@.len() >= 1,
            r@[0] == h,
            forall|q: int| 0 <= q < r@.len() ==> #[trigger] r@[q] < 27,
            forall|q: int, i: int| 1 <= q < r@.len() && 0 <= i < naked@.len() ==> in_house(#[trigger] naked@[i] as int, #[trigger] r@[q] as int),
        decreases 3 - kind,
    {
        match shared_house(naked, kind) {
            Some(ch) => {
                if !vec_has(&r, ch) {
                    let ghost before = r@;
                    r.push(ch);
                    proof {
                        assert forall|q: int, i: int| 1 <= q < r@.len() && 0 <= i < naked@.len() implies in_house(
                            #[trigger] naked@[i] as int,
                            #[trigger] r@[q] as int,
                        ) by {
                            if q < before.len() {
                                assert(r@[q] == before[q]);
                            } else {
                                assert(house_of_kind(naked@[i] as int, kind as int) == ch);
                            }
                        }
                        assert forall|q: int| 0 <= q < r@.len() implies #[trigger] r@[q] < 27 by {
                            if q < before.len() {
                                assert(r@[q] == before[q]);
                            } else {
                                assert(house_of_kind(naked@[0] as int, kind as int) == ch);
                            }
                        }
                    }
                }
            },
            None => {},
        }
        kind = kind + 1;
    }
    r
}

/// The candidates among `digits` of the empty cells outside `naked` of each house of
/// `houses`, house by house, cell by cell.
fn candidates_outside(grid: &Grid, houses: &Vec<u8>, naked: &Vec<u8>, digits: &Vec<u8>) -> (r: Vec<Candidate>)
    requires
        grid.wf(),
    ensures
        forall|k: int|
            0 <= k < r@.len() ==> (#[trigger] r@[k]).0 < 81 && grid.has_cand(r@[k].0 as int, r@[k].1) && !naked@.contains(r@[k].0)
                && digits@.contains(r@[k].1) && exists|q: int| 0 <= q < houses@.len() && in_house(r@[k].0 as int, #[trigger] houses@[q] as int),
        forall|x: int, c: u8, v: u8|
            #![trigger r@.contains(Candidate(c, v)), in_house(c as int, houses@[x] as int)]
            0 <= x < houses@.len() && in_house(c as int, houses@[x] as int) && grid.has_cand(c as int, v) && !naked@.contains(c)
                && digits@.contains(v) ==> r@.contains(Candidate(c, v)),
{
    let mut r: Vec<Candidate> = Vec::new();
    let mut q: usize = 0;
    while q < houses.len()
        invariant
            q <= houses@.len(),
            grid.wf(),
            forall|k: int|
                0 <= k < r@.len() ==> (#[trigger] r@[k]).0 < 81 && grid.has_cand(r@[k].0 as int, r@[k].1) && !naked@.contains(r@[k].0)
                    && digits@.contains(r@[k].1) && exists|x: int| 0 <= x < houses@.len() && in_house(r@[k].0 as int, #[trigger] houses@[x] as int),
            forall|x: int, c: u8, v: u8|
                #![trigger r@.contains(Candidate(c, v)), in_house(c as int, houses@[x] as int)]
                0 <= x < q && in_house(c as int, houses@[x] as int) && grid.has_cand(c as int, v) && !naked@.contains(c)
                    && digits@.contains(v) ==> r@.contains(Candidate(c, v)),
        decreases houses@.len() - q,
    {
        let empty = grid.house_empty_cells(houses[q]);
        let cells = empty.values();
        let mut i: usize = 0;
        while i < cells.len()
            invariant
                i <= cells@.len(),
                q < houses@.len(),
                grid.wf(),
                forall|c: u8| #[trigger] cells@.contains(c) ==> in_house(c as int, houses@[q as int] as int),
                forall|k: int|
                    0 <= k < r@.len() ==> (#[trigger] r@[k]).0 < 81 && grid.has_cand(r@[k].0 as int, r@[k].1) && !naked@.contains(r@[k].0)
                        && digits@.contains(r@[k].1) && exists|x: int| 0 <= x < houses@.len() && in_house(r@[k].0 as int, #[trigger] houses@[x] as int),
                forall|c: u8| cells@.contains(c) <==> empty@.contains(c),
                empty@ == Set::new(|c: u8| in_house(c as int, houses@[q as int] as int) && grid.value(c as int) == 0),
                forall|x: int, c: u8, v: u8|
                    #![trigger r@.contains(Candidate(c, v)), in_house(c as int, houses@[x] as int)]
                    0 <= x < q && in_house(c as int, houses@[x] as int) && grid.has_cand(c as int, v) && !naked@.contains(c)
                        && digits@.contains(v) ==> r@.contains(Candidate(c, v)),
                forall|j: int, v: u8|
                    0 <= j < i && grid.has_cand(cells@[j] as int, v) && !naked@.contains(cells@[j]) && digits@.contains(v)
                        ==> #[trigger] r@.contains(Candidate(cells@[j], v)),
            decreases cells@.len() - i,
        {
            let cell = cells[i];
            assert(cells@.contains(cell));
            if !vec_has(naked, cell) {
                let mut d: usize = 0;
                while d < digits.len()
                    invariant
                        d <= digits@.len(),
                        q < houses@.len(),
                        cell < 81,
                        in_house(cell as int, houses@[q as int] as int),
                        !naked@.contains(cell),
                        grid.wf(),
                        forall|k: int|
                            0 <= k < r@.len() ==> (#[trigger] r@[k]).0 < 81 && grid.has_cand(r@[k].0 as int, r@[k].1)
                                && !naked@.contains(r@[k].0) && digits@.contains(r@[k].1) && exists|x: int|
                                0 <= x < houses@.len() && in_house(r@[k].0 as int, #[trigger] houses@[x] as int),
                        cell == cells@[i as int],
                        forall|x: int, c: u8, v: u8|
                            #![trigger r@.contains(Candidate(c, v)), in_house(c as int, houses@[x] as int)]
                            0 <= x < q && in_house(c as int, houses@[x] as int) && grid.has_cand(c as int, v) && !naked@.contains(c)
                                && digits@.contains(v) ==> r@.contains(Candidate(c, v)),
                        forall|j: int, v: u8|
                            0 <= j < i && grid.has_cand(cells@[j] as int, v) && !naked@.contains(cells@[j]) && digits@.contains(v)
                                ==> #[trigger] r@.contains(Candidate(cells@[j], v)),
                        forall|e: int| 0 <= e < d && grid.has_cand(cell as int, digits@[e]) ==> #[trigger] r@.contains(Candidate(cell, digits@[e])),
                    decreases digits@.len() - d,
                {
                    if grid.cell_has_candidate(cell, digits[d]) {
                        let ghost before = r@;
                        r.push(Candidate(cell, digits[d]));
                        proof {
                            assert forall|k: int| 0 <= k < r@.len() implies (#[trigger] r@[k]).0 < 81 && grid.has_cand(
                                r@[k].0 as int,
                                r@[k].1,
                            ) && !naked@.contains(r@[k].0) && digits@.contains(r@[k].1) && exists|x: int|
                                0 <= x < houses@.len() && in_house(r@[k].0 as int, #[trigger] houses@[x] as int) by {
                                if k < before.len() {
                                    assert(r@[k] == before[k]);
                                } else {
                                    assert(in_house(cell as int, houses@[q as int] as int));
                                    assert(digits@[d as int] == r@[k].1);
                                }
                            }
                            assert forall|y: Candidate| #![trigger r@.contains(y)] before.contains(y) implies r@.contains(y) by {
                                let k = choose|k: int| 0 <= k < before.len() && before[k] == y;
                                assert(r@[k] == before[k]);
                            }
                            assert(r@[before.len() as int] == Candidate(cell, digits@[d as int]));
                            assert(r@.contains(Candidate(cell, digits@[d as int])));
                        }
                    }
                    d = d + 1;
                }
                proof {
                    assert forall|v: u8| grid.has_cand(cell as int, v) && digits@.contains(v) implies #[trigger] r@.contains(Candidate(cell, v)) by {
                        let e = choose|e: int| 0 <= e < digits@.len() && digits@[e] == v;
                        assert(grid.has_cand(cell as int, digits@[e]));
                    }
                }
            }
            i = i + 1;
        }
        proof {
            assert forall|x: int, c: u8, v: u8|
                #![trigger r@.contains(Candidate(c, v)), in_house(c as int, houses@[x] as int)]
                0 <= x < q + 1 && in_house(c as int, houses@[x] as int) && grid.has_cand(c as int, v) && !naked@.contains(c)
                    && digits@.contains(v) implies r@.contains(Candidate(c, v)) by {
                if x == q {
                    assert(empty@.contains(c));
                    assert(cells@.contains(c));
                    let j = choose|j: int| 0 <= j < cells@.len() && cells@[j] == c;
                    assert(grid.has_cand(cells@[j] as int, v));
                }
            }
        }
        q = q + 1;
    }
    r
}

/// The candidates among `digits` of the cells of `naked`, cell by cell.
fn candidates_in(grid: &Grid, naked: &Vec<u8>, digits: &Vec<u8>) -> (r: Vec<Candidate>)
    requires
        grid.wf(),
        forall|i: int| 0 <= i < naked@.len() ==> #[trigger] naked@[i] < 81,
    ensures
        forall|k: int| 0 <= k < r@.len() ==> naked@.contains((#[trigger] r@[k]).0) && digits@.contains(r@[k].1)
            && grid.has_cand(r@[k].0 as int, r@[k].1),
        forall|x: int, v: u8|
            0 <= x < naked@.len() && digits@.contains(v) && grid.has_cand(naked@[x] as int, v) ==> #[trigger] r@.contains(Candidate(naked@[x], v)),
{
    let mut r: Vec<Candidate> = Vec::new();
    let mut i: usize = 0;
    while i < naked.len()
        invariant
            i <= naked@.len(),
            grid.wf(),
            forall|x: int| 0 <= x < naked@.len() ==> #[trigger] naked@[x] < 81,
            forall|k: int| 0 <= k < r@.len() ==> naked@.contains((#[trigger] r@[k]).0) && digits@.contains(r@[k].1)
                && grid.has_cand(r@[k].0 as int, r@[k].1),
            forall|x: int, v: u8|
                0 <= x < i && digits@.contains(v) && grid.has_cand(naked@[x] as int, v) ==> #[trigger] r@.contains(Candidate(naked@[x], v)),
        decreases naked@.len() - i,
    {
        let mut d: usize = 0;
        while d < digits.len()
            invariant
                d <= digits@.len(),
                i < naked@.len(),
                grid.wf(),
                forall|x: int| 0 <= x < naked@.len() ==> #[trigger] naked@[x] < 81,
                forall|k: int| 0 <= k < r@.len() ==> naked@.contains((#[trigger] r@[k]).0) && digits@.contains(r@[k].1)
                    && grid.has_cand(r@[k].0 as int, r@[k].1),
                forall|x: int, v: u8|
                    0 <= x < i && digits@.contains(v) && grid.has_cand(naked@[x] as int, v) ==> #[trigger] r@.contains(Candidate(naked@[x], v)),
                forall|e: int|
                    0 <= e < d && grid.has_cand(naked@[i as int] as int, digits@[e]) ==> #[trigger] r@.contains(Candidate(naked@[i as int], digits@[e])),
            decreases digits@.len() - d,
        {
            if grid.cell_has_candidate(naked[i], digits[d]) {
                let ghost before = r@;
                r.push(Candidate(naked[i], digits[d]));
                proof {
                    assert forall|k: int| 0 <= k < r@.len() implies naked@.contains((#[trigger] r@[k]).0) && digits@.contains(r@[k].1)
                        && grid.has_cand(r@[k].0 as int, r@[k].1) by {
                        if k < before.len() {
                            assert(r@[k] == before[k]);
                        } else {
                            assert(naked@[i as int] == r@[k].0);
                            assert(digits@[d as int] == r@[k].1);
                        }
                    }
                    assert forall|y: Candidate| #![trigger r@.contains(y)] before.contains(y) implies r@.contains(y) by {
                        let k = choose|k: int| 0 <= k < before.len() && before[k] == y;
                        assert(r@[k] == before[k]);
                    }
                    assert(r@[before.len() as int] == Candidate(naked@[i as int], digits@[d as int]));
                    assert(r@.contains(Candidate(naked@[i as int], digits@[d as int])));
                }
            }
            d = d + 1;
        }
        proof {
            assert forall|x: int, v: u8|
                0 <= x < i + 1 && digits@.contains(v) && grid.has_cand(naked@[x] as int, v) implies #[trigger] r@.contains(Candidate(naked@[x], v)) by {
                if x == i {
                    let e = choose|e: int| 0 <= e < digits@.len() && digits@[e] == v;
                    assert(grid.has_cand(naked@[i as int] as int, digits@[e]));
                }
            }
        }
        i = i + 1;
    }
    r
}

/// A copy of `v`.
fn copy_cells(v: &Vec<u8>) -> (r: Vec<u8>)
    ensures
        r@ == v@,
{
    let mut r: Vec<u8> = Vec::new();
    let mut i: usize = 0;
    while i < v.len()
        invariant
            i <= v@.len(),
            r@ == v@.subrange(0, i as int),
        decreases v@.len() - i,
    {
        r.push(v[i]);
        assert(r@ =~= v@.subrange(0, i + 1));
        i = i + 1;
    }
    assert(v@.subrange(0, v@.len() as int) =~= v@);
    r
}

/// Looks in house `h` for cells that complete the pseudo-cell `first`, `second` into a
/// naked set, and reports each such set; returns whether the accumulator is done.
fn search_house<A: StepAccumulator>(
    grid: &Grid,
    h: u8,
    ur: UniqueRectangle,
    first: u8,
    second: u8,
    extra: &DigitSet,
    acc: &mut A,
    seen: &mut Vec<Vec<Candidate>>,
    Ghost(start): Ghost<Seq<Step>>,
    Ghost(ok): Ghost<spec_fn(Step) -> bool>,
    Ghost(i): Ghost<int>,
    Ghost(j): Ghost<int>,
) -> (finish: bool)
    requires
        grid.wf(),
        h < 27,
        first < 81,
        second < 81,
        in_house(first as int, h as int),
        in_house(second as int, h as int),
        first == ur.corners()[i],
        second == ur.corners()[j],
        two_extra(*grid, ur.corners(), i, j),
        extra@ == extra_digits(*grid, first, second, ur.digit_a(), ur.digit_b()),
        extra@.finite(),
        2 <= extra@.len() <= 9,
        grows(start, old(acc).recorded(), ok),
        forall|s: Step|
            (s matches Step::UniqueStep(u) && u.unique_type == UniqueType::Type3 && u.remove_candidates@.len() > 0 && shown(
                *grid,
                UniqueType::Type3,
                u.remove_candidates@,
                ur.corners(),
                ur.digit_a(),
                ur.digit_b(),
            )) ==> #[trigger] ok(s),
    ensures
        grows(start, final(acc).recorded(), ok),
        final(acc).stops_at_first() == old(acc).stops_at_first(),
        finish ==> final(acc).stops_at_first(),
        old(acc).recorded().len() <= final(acc).recorded().len(),
        final(seen)@ == old(seen)@ || progressed(old(acc).recorded(), final(acc).recorded(), old(acc).stops_at_first()),
        finish ==> progressed(old(acc).recorded(), final(acc).recorded(), old(acc).stops_at_first()),
        old(seen)@.len() == 0 && (exists|cs: Seq<u8>| #[trigger] type3_at(*grid, ur.corners(), ur.digit_a(), ur.digit_b(), i, j, h as int, cs))
            ==> progressed(old(acc).recorded(), final(acc).recorded(), old(acc).stops_at_first()),
{
    let ghost a = ur.digit_a();
    let ghost b = ur.digit_b();
    let ghost stop = acc.stops_at_first();
    let ghost rec0 = acc.recorded();
    let ghost seen0 = seen@;
    let degree = extra.count();
    let mut empty = grid.house_empty_cells(h);
    empty.remove(first);
    empty.remove(second);
    let vals = empty.values();
    proof {
        assert forall|x: int, y: int| 0 <= x < y < vals@.len() implies vals@[x] < vals@[y] by {}
    }
    let ghost vs = vals@;
    let perms = create_permutations(vals, degree - 1);
    let digits = extra.values();
    let mut pi: usize = 0;
    while pi < perms.len()
        invariant
            pi <= perms@.len(),
            grid.wf(),
            h < 27,
            first < 81,
            second < 81,
            in_house(first as int, h as int),
            in_house(second as int, h as int),
            first == ur.corners()[i],
            second == ur.corners()[j],
            a == ur.digit_a(),
            b == ur.digit_b(),
            two_extra(*grid, ur.corners(), i, j),
            extra@ == extra_digits(*grid, first, second, a, b),
            extra@.finite(),
            degree as nat == extra@.len(),
            2 <= degree <= 9,
            forall|v: u8| digits@.contains(v) <==> extra@.contains(v),
            forall|c: u8| vs.contains(c) <==> empty@.contains(c),
            empty@ == Set::new(|c: u8| in_house(c as int, h as int) && grid.value(c as int) == 0).remove(first).remove(second),
            forall|q: int| 0 <= q < perms@.len() ==> picks(vs, #[trigger] perms@[q]@, degree - 1),
            forall|c: Seq<u8>| #[trigger] picks(vs, c, degree - 1) ==> exists|q: int| 0 <= q < perms@.len() && perms@[q]@ == c,
            grows(start, acc.recorded(), ok),
            acc.stops_at_first() == stop,
            stop == old(acc).stops_at_first(),
            rec0 == old(acc).recorded(),
            seen0 == old(seen)@,
            rec0.len() <= acc.recorded().len(),
            !progressed(rec0, acc.recorded(), stop) ==> seen@ == seen0,
            seen0.len() == 0 && !progressed(rec0, acc.recorded(), stop) ==> forall|q: int|
                0 <= q < pi ==> !#[trigger] type3_at(*grid, ur.corners(), a, b, i, j, h as int, perms@[q]@),
            forall|s: Step|
                (s matches Step::UniqueStep(u) && u.unique_type == UniqueType::Type3 && u.remove_candidates@.len() > 0 && shown(
                    *grid,
                    UniqueType::Type3,
                    u.remove_candidates@,
                    ur.corners(),
                    a,
                    b,
                )) ==> #[trigger] ok(s),
        decreases perms@.len() - pi,
    {
        let cs = copy_cells(&perms[pi]);
        assert(picks(vs, cs@, degree - 1));
        assert forall|x: int| 0 <= x < cs@.len() implies #[trigger] cs@[x] < 81 && in_house(cs@[x] as int, h as int)
            && grid.value(cs@[x] as int) == 0 && cs@[x] != first && cs@[x] != second by {
            assert(vs.contains(cs@[x]));
            assert(empty@.contains(cs@[x]));
        }
        let sub = union_of(grid, &cs);
        let ghost rec_b = acc.recorded();
        if sub == *extra {
            let mut naked = copy_cells(&cs);
            naked.push(first);
            naked.push(second);
            assert(naked@ =~= cs@.push(first).push(second));
            assert forall|x: int| 0 <= x < naked@.len() implies #[trigger] naked@[x] < 81 by {
                if x < cs@.len() {
                    assert(naked@[x] == cs@[x]);
                }
            }
            let rhouses = set_houses(h, &naked);
            let remove = candidates_outside(grid, &rhouses, &naked, &digits);
            let fin = candidates_in(grid, &naked, &digits);
            let step = UniqueStep {
                unique_type: UniqueType::Type3,
                highlight_candidates: ur.candidates(),
                remove_candidates: remove,
                fin_candidates: fin,
            };
            proof {
                assert(pseudo_naked(*grid, h as int, first, second, a, b, cs@)) by {
                    assert(sub@ == extra@);
                }
                assert forall|s: Step|
                    (s matches Step::UniqueStep(u) && u.unique_type == step.unique_type && u.remove_candidates@.len() > 0
                        && present_of(*grid, u.remove_candidates@, step.remove_candidates@)) implies #[trigger] ok(s) by {
                    let u = s->UniqueStep_0;
                    let rm = u.remove_candidates@;
                    assert forall|k: int| 0 <= k < rm.len() implies pseudo_target(
                        *grid,
                        first,
                        second,
                        cs@,
                        a,
                        b,
                        (#[trigger] rm[k]).0 as int,
                        rm[k].1,
                    ) by {
                        assert(step.remove_candidates@.contains(rm[k]));
                        let x = choose|x: int| 0 <= x < step.remove_candidates@.len() && step.remove_candidates@[x] == rm[k];
                        let c = rm[k].0;
                        assert(!naked@.contains(c));
                        if cs@.contains(c) {
                            let y = choose|y: int| 0 <= y < cs@.len() && cs@[y] == c;
                            assert(naked@[y] == c);
                        }
                        assert(naked@[naked@.len() - 2] == first);
                        assert(naked@[naked@.len() - 1] == second);
                        let q = choose|q: int| 0 <= q < rhouses@.len() && in_house(c as int, #[trigger] rhouses@[q] as int);
                        let hh = rhouses@[q] as int;
                        if q == 0 {
                            assert(all_in(cs@, hh));
                        } else {
                            assert(in_house(naked@[naked@.len() - 2] as int, hh));
                            assert(in_house(naked@[naked@.len() - 1] as int, hh));
                            assert forall|y: int| 0 <= y < cs@.len() implies in_house(#[trigger] cs@[y] as int, hh) by {
                                assert(naked@[y] == cs@[y]);
                                assert(in_house(naked@[y] as int, rhouses@[q] as int));
                            }
                        }
                        assert(in_house(c as int, hh) && all_in(cs@, hh) && in_house(first as int, hh) && in_house(second as int, hh));
                    }
                    assert(pseudo_removals(*grid, first, second, cs@, a, b, rm));
                    assert(shown(*grid, UniqueType::Type3, rm, ur.corners(), a, b));
                }
            }
            proof {
                if seen0.len() == 0 && !progressed(rec0, rec_b, stop) && type3_at(*grid, ur.corners(), a, b, i, j, h as int, cs@) {
                    let (c, v) = choose|c: int, v: u8| in_house(c, h as int) && #[trigger] pseudo_target(*grid, first, second, cs@, a, b, c, v);
                    assert(rhouses@[0] == h);
                    assert(!naked@.contains(c as u8)) by {
                        if naked@.contains(c as u8) {
                            let y = choose|y: int| 0 <= y < naked@.len() && naked@[y] == c as u8;
                            if y < cs@.len() {
                                assert(cs@.contains(c as u8));
                            }
                        }
                    }
                    assert(digits@.contains(v));
                    assert(in_house((c as u8) as int, rhouses@[0] as int));
                    assert(remove@.contains(Candidate(c as u8, v)));
                    let x = choose|x: int| 0 <= x < remove@.len() && remove@[x] == Candidate(c as u8, v);
                    assert(step.remove_candidates@[x].0 < 81 && grid.has_cand(step.remove_candidates@[x].0 as int, step.remove_candidates@[x].1));
                    assert(seen@.len() == 0);
                }
            }
            let finish = add_unique_step(grid, step, seen, acc, Ghost(start), Ghost(ok));
            proof {
                lemma_progress_chain(rec0, rec_b, acc.recorded(), stop);
            }
            if finish {
                return true;
            }
        } else {
            proof {
                if type3_at(*grid, ur.corners(), a, b, i, j, h as int, cs@) {
                    use_type_invariant(&sub);
                    use_type_invariant(extra);
                    assert(sub@ =~= extra@);
                    DigitSet::lemma_view_eq(sub, *extra);
                }
            }
        }
        pi = pi + 1;
    }
    proof {
        if seen0.len() == 0 && !progressed(rec0, acc.recorded(), stop) {
            assert forall|cs: Seq<u8>| !#[trigger] type3_at(*grid, ur.corners(), a, b, i, j, h as int, cs) by {
                if type3_at(*grid, ur.corners(), a, b, i, j, h as int, cs) {
                    assert forall|k: int| 0 <= k < cs.len() implies vs.contains(#[trigger] cs[k]) by {
                        assert(empty@.contains(cs[k]));
                    }
                    assert(picks(vs, cs, degree - 1));
                    let q = choose|q: int| 0 <= q < perms@.len() && perms@[q]@ == cs;
                    assert(!type3_at(*grid, ur.corners(), a, b, i, j, h as int, perms@[q]@));
                }
            }
        }
    }
    false
}

/// Reports, rectangle by rectangle, the naked sets completed by the two corners of one
/// line with extra candidates; stops once the accumulator is done.
pub(crate) fn find_steps<A: StepAccumulator>(
    grid: &Grid,
    rectangles: &Vec<UniqueRectangle>,
    acc: &mut A,
    seen: &mut Vec<Vec<Candidate>>,
)
    requires
        grid.wf(),
        corners_ok(rectangles@),
    ensures
        grows(old(acc).recorded(), final(acc).recorded(), |s: Step| from_rects(*grid, rectangles@, UniqueType::Type3, s)),
        final(acc).stops_at_first() == old(acc).stops_at_first(),
        final(seen)@ == old(seen)@ || progressed(old(acc).recorded(), final(acc).recorded(), old(acc).stops_at_first()),
        forall|k: int, i: int, j: int, h: int, cs: Seq<u8>|
            0 <= k < rectangles@.len() && old(seen)@.len() == 0 && #[trigger] type3_at(
                *grid,
                rectangles@[k].corners(),
                rectangles@[k].digit_a(),
                rectangles@[k].digit_b(),
                i,
                j,
                h,
                cs,
            ) ==> progressed(old(acc).recorded(), final(acc).recorded(), old(acc).stops_at_first()),
{
    let ghost start = acc.recorded();
    let ghost stop = acc.stops_at_first();
    let ghost seen0 = seen@;
    let ghost ok = |s: Step| from_rects(*grid, rectangles@, UniqueType::Type3, s);
    proof {
        assert(acc.recorded().subrange(0, start.len() as int) =~= start);
    }
    let mut idx: usize = 0;
    while idx < rectangles.len()
        invariant
            idx <= rectangles@.len(),
            grid.wf(),
            corners_ok(rectangles@),
            ok == (|s: Step| from_rects(*grid, rectangles@, UniqueType::Type3, s)),
            grows(start, acc.recorded(), ok),
            acc.stops_at_first() == stop,
            start == old(acc).recorded(),
            stop == old(acc).stops_at_first(),
            seen0 == old(seen)@,
            !progressed(start, acc.recorded(), stop) ==> seen@ == seen0,
            seen0.len() == 0 && !progressed(start, acc.recorded(), stop) ==> forall|k: int, i: int, j: int, h: int, cs: Seq<u8>|
                0 <= k < idx ==> !#[trigger] type3_at(
                    *grid,
                    rectangles@[k].corners(),
                    rectangles@[k].digit_a(),
                    rectangles@[k].digit_b(),
                    i,
                    j,
                    h,
                    cs,
                ),
        decreases rectangles@.len() - idx,
    {
        let ur = rectangles[idx];
        let (a, b) = ur.values();
        let cells = ur.cells();
        assert(forall|i: int| 0 <= i < 4 ==> #[trigger] cells@[i] < 81) by {
            assert forall|i: int| 0 <= i < 4 implies #[trigger] cells@[i] < 81 by {
                assert(rectangles@[idx as int].corners()[i] < 81);
            }
        }
        let over = corners_over(grid, cells, 2);
        if over.len() == 2 {
            let i = over[0];
            let j = over[1];
            let first = cells[i];
            let second = cells[j];
            proof {
                assert(two_extra(*grid, ur.corners(), i as int, j as int)) by {
                    assert(over@.contains(i) && over@.contains(j));
                    assert forall|k: int| 0 <= k < 4 && k != i && k != j implies grid.cands(#[trigger] ur.corners()[k] as int).len() < 3 by {
                        if over@.contains(k as usize) {
                            let x = choose|x: int| 0 <= x < over@.len() && over@[x] == k as usize;
                        }
                    }
                }
                assert(rectangles@[idx as int] == ur);
            }
            if row(first) == row(second) || col(first) == col(second) {
                let mut extra = grid.get_cell_candidate(first).union(&grid.get_cell_candidate(second));
                extra.remove(a);
                extra.remove(b);
                proof {
                    DigitSet::lemma_bounds(extra);
                }
                if extra.count() >= 2 {
                    let mut houses: Vec<u8> = Vec::new();
                    if row(first) == row(second) {
                        houses.push(row(first));
                    }
                    if col(first) == col(second) {
                        houses.push(col(first));
                    }
                    if block(first) == block(second) {
                        houses.push(block(first));
                    }
                    assert(forall|q: int| 0 <= q < houses@.len() ==> #[trigger] houses@[q] < 27 && in_house(first as int, houses@[q] as int)
                        && in_house(second as int, houses@[q] as int));
                    proof {
                        assert forall|hh: int| #[trigger] shares_house(first as int, second as int, hh) implies exists|x: int|
                            0 <= x < houses@.len() && houses@[x] as int == hh by {
                            if hh == row_of(first as int) && hh == row_of(second as int) {
                                assert(houses@[0] as int == hh);
                            } else if hh == col_of(first as int) && hh == col_of(second as int) {
                                if row_of(first as int) == row_of(second as int) {
                                    assert(houses@[1] as int == hh);
                                } else {
                                    assert(houses@[0] as int == hh);
                                }
                            } else {
                                assert(houses@[houses@.len() - 1] as int == hh);
                            }
                        }
                    }
                    let mut q: usize = 0;
                    while q < houses.len()
                        invariant
                            q <= houses@.len(),
                            idx < rectangles@.len(),
                            rectangles@[idx as int] == ur,
                            ur.corners() == cells@,
                            (a, b) == (ur.digit_a(), ur.digit_b()),
                            i < j < 4,
                            first == cells@[i as int],
                            second == cells@[j as int],
                            first < 81,
                            second < 81,
                            two_extra(*grid, ur.corners(), i as int, j as int),
                            extra@ == extra_digits(*grid, first, second, a, b),
                            extra@.finite(),
                            2 <= extra@.len() <= 9,
                            forall|x: int| 0 <= x < houses@.len() ==> #[trigger] houses@[x] < 27 && in_house(first as int, houses@[x] as int)
                                && in_house(second as int, houses@[x] as int),
                            grid.wf(),
                            ok == (|s: Step| from_rects(*grid, rectangles@, UniqueType::Type3, s)),
                            grows(start, acc.recorded(), ok),
                            acc.stops_at_first() == stop,
                            start == old(acc).recorded(),
                            stop == old(acc).stops_at_first(),
                            seen0 == old(seen)@,
                            !progressed(start, acc.recorded(), stop) ==> seen@ == seen0,
                            seen0.len() == 0 && !progressed(start, acc.recorded(), stop) ==> forall|k: int, i2: int, j2: int, h: int, cs: Seq<u8>|
                                0 <= k < idx ==> !#[trigger] type3_at(
                                    *grid,
                                    rectangles@[k].corners(),
                                    rectangles@[k].digit_a(),
                                    rectangles@[k].digit_b(),
                                    i2,
                                    j2,
                                    h,
                                    cs,
                                ),
                            seen0.len() == 0 && !progressed(start, acc.recorded(), stop) ==> forall|x: int, cs: Seq<u8>|
                                0 <= x < q ==> !#[trigger] type3_at(*grid, ur.corners(), a, b, i as int, j as int, houses@[x] as int, cs),
                        decreases houses@.len() - q,
                    {
                        let ghost rec_b = acc.recorded();
                        let finish = search_house(grid, houses[q], ur, first, second, &extra, acc, seen, Ghost(start), Ghost(ok), Ghost(i as int), Ghost(j as int));
                        proof {
                            lemma_progress_chain(start, rec_b, acc.recorded(), stop);
                        }
                        if finish {
                            return;
                        }
                        q = q + 1;
                    }
                    proof {
                        if seen0.len() == 0 && !progressed(start, acc.recorded(), stop) {
                            assert forall|i2: int, j2: int, hh: int, cs: Seq<u8>| !#[trigger] type3_at(
                                *grid,
                                rectangles@[idx as int].corners(),
                                rectangles@[idx as int].digit_a(),
                                rectangles@[idx as int].digit_b(),
                                i2,
                                j2,
                                hh,
                                cs,
                            ) by {
                                if type3_at(*grid, ur.corners(), a, b, i2, j2, hh, cs) {
                                    lemma_two_extra_unique(*grid, ur.corners(), i as int, j as int, i2, j2);
                                    let x = choose|x: int| 0 <= x < houses@.len() && houses@[x] as int == hh;
                                    assert(!type3_at(*grid, ur.corners(), a, b, i as int, j as int, houses@[x] as int, cs));
                                }
                            }
                        }
                    }
                } else {
                    proof {
                        assert forall|i2: int, j2: int, hh: int, cs: Seq<u8>| !#[trigger] type3_at(
                                *grid,
                                rectangles@[idx as int].corners(),
                                rectangles@[idx as int].digit_a(),
                                rectangles@[idx as int].digit_b(),
                                i2,
                                j2,
                                hh,
                                cs,
                            ) by {
                            if type3_at(*grid, ur.corners(), a, b, i2, j2, hh, cs) {
                            lemma_two_extra_unique(*grid, ur.corners(), i as int, j as int, i2, j2);
                            }
                        }
                    }
                }
            } else {
                proof {
                    assert forall|i2: int, j2: int, hh: int, cs: Seq<u8>| !#[trigger] type3_at(
                                *grid,
                                rectangles@[idx as int].corners(),
                                rectangles@[idx as int].digit_a(),
                                rectangles@[idx as int].digit_b(),
                                i2,
                                j2,
                                hh,
                                cs,
                            ) by {
                        if type3_at(*grid, ur.corners(), a, b, i2, j2, hh, cs) {
                            lemma_two_extra_unique(*grid, ur.corners(), i as int, j as int, i2, j2);
                        }
                    }
                }
            }
        } else {
            proof {
                assert forall|i2: int, j2: int, hh: int, cs: Seq<u8>| !#[trigger] type3_at(
                                *grid,
                                rectangles@[idx as int].corners(),
                                rectangles@[idx as int].digit_a(),
                                rectangles@[idx as int].digit_b(),
                                i2,
                                j2,
                                hh,
                                cs,
                            ) by {
                    if type3_at(*grid, ur.corners(), a, b, i2, j2, hh, cs) {
                            assert(over@.contains(i2 as usize) && over@.contains(j2 as usize));
                            let x = choose|x: int| 0 <= x < over@.len() && over@[x] == i2 as usize;
                            let y = choose|y: int| 0 <= y < over@.len() && over@[y] == j2 as usize;
                            if over@.len() > 2 {
                                assert(over@[0] < over@[1] < over@[2]);
                                assert forall|m: int| 0 <= m < 3 implies over@[m] == i2 as usize || over@[m] == j2 as usize by {
                                    let k = over@[m] as int;
                                    assert(over@.contains(over@[m]));
                                    assert(grid.cands(cells@[k] as int).len() > 2);
                                    assert(cells@[k] == ur.corners()[k]);
                                }
                            }
                            if over@.len() == 1 {
                                assert(x == 0 && y == 0);
                            }
                    }
                }
            }
        }
        idx = idx + 1;
    }
}

} // verus!
