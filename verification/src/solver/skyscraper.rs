use vstd::prelude::*;
use crate::candidate::Candidate;
use crate::grid::{Grid, HouseType};
use crate::grid_constant::{in_house, row_of, col_of, sees};
use crate::solver::step::{Step, removable, removed, remove_all};
use crate::solver::step_accumulator::StepAccumulator;
use crate::solver::common::{grows, report, cand_list, house_of_kind, progressed};
use crate::solver::locked_candidate::{cand_cells, lemma_house_count};
use crate::solver::naked_set::{seen_before, clone_cand_list};
use crate::solver::wings::{seen_by_all, seen_removals};
use crate::solver::xywing::clone_list;
use crate::util::permutations::{create_permutations, increasing, picks};

verus! {

/// Digit `v` has two places in each of the parallel lines `h1` and `h2`: the bases `b1`,
/// `b2` share the cross line `s`, the fins `f1`, `f2` do not.
pub open spec fn sky(g: Grid, v: u8, h1: int, h2: int, s: int, b1: u8, f1: u8, b2: u8, f2: u8) -> bool {
    &&& 1 <= v <= 9
    &&& h1 != h2
    &&& ((h1 < 9 && h2 < 9 && 9 <= s < 18) || (9 <= h1 < 18 && 9 <= h2 < 18 && 0 <= s < 9))
    &&& cand_cells(g, h1, v) == set![b1, f1] && b1 != f1
    &&& cand_cells(g, h2, v) == set![b2, f2] && b2 != f2
    &&& in_house(b1 as int, s) && in_house(b2 as int, s)
    &&& !in_house(f1 as int, s) && !in_house(f2 as int, s)
}

/// The line crossing cell `c`: its column when the lines are rows, its row otherwise.
pub open spec fn cross_line(c: int, rows: bool) -> int {
    if rows {
        col_of(c)
    } else {
        row_of(c)
    }
}

/// A skyscraper on the lines `h1 < h2` whose fins lie on different cross lines, that
/// removes a candidate, and whose removal list is not among `seen`.
pub open spec fn sky_new(
    g: Grid,
    seen: Seq<Vec<Candidate>>,
    v: u8,
    h1: int,
    h2: int,
    s: int,
    b1: u8,
    f1: u8,
    b2: u8,
    f2: u8,
) -> bool {
    &&& sky(g, v, h1, h2, s, b1, f1, b2, f2)
    &&& h1 < h2
    &&& cross_line(f1 as int, h1 < 9) != cross_line(f2 as int, h1 < 9)
    &&& exists|c: u8| #[trigger] fin_sight(g, f1, f2, v).contains(c)
    &&& forall|i: int| 0 <= i < seen.len() ==> !cand_list(#[trigger] seen[i]@, v, fin_sight(g, f1, f2, v))
}

/// The cells holding `v` that see both fins.
pub open spec fn fin_sight(g: Grid, f1: u8, f2: u8, v: u8) -> Set<u8> {
    seen_by_all(g, seq![f1, f2], v)
}

/// `now` extends `before` by lists each different from every list before it.
pub open spec fn new_lists(before: Seq<Vec<Candidate>>, now: Seq<Vec<Candidate>>) -> bool {
    &&& before.len() <= now.len()
    &&& now.subrange(0, before.len() as int) == before
    &&& forall|i: int, j: int| #![trigger now[i], now[j]] 0 <= j < i < now.len() && before.len() <= i ==> now[j]@ != now[i]@
}

/// The skyscrapers recorded after `start` remove, in order, the lists of `seen` that
/// follow its first `from` entries.
pub open spec fn removals_listed(start: Seq<Step>, now: Seq<Step>, from: int, seen: Seq<Vec<Candidate>>) -> bool {
    &&& start.len() <= now.len()
    &&& now.len() - start.len() <= seen.len() - from
    &&& forall|k: int|
        0 <= k < now.len() - start.len() ==> (#[trigger] now[start.len() + k] matches Step::Skyscraper(sk) && sk.remove_candidates@
            == seen[from + k]@)
}

/// Two lines whose places for a digit line up at one end: one of the other ends holds
/// the digit.
#[derive(Debug, PartialEq, Clone, Eq, Hash)]
pub struct Skyscraper {
    pub value: u8,
    pub remove_candidates: Vec<Candidate>,
    pub highlight_candidates: Vec<Candidate>,
    pub fin_candidates: Vec<Candidate>,
}

impl Skyscraper {
    /// Some two lines form a skyscraper on the digit; the removals are its candidates in
    /// the cells seeing both fins; the fins and the bases are listed by increasing cell.
    pub open spec fn pattern(self, g: Grid) -> bool {
        exists|h1: int, h2: int, s: int, b1: u8, f1: u8, b2: u8, f2: u8|
            #[trigger] sky(g, self.value, h1, h2, s, b1, f1, b2, f2) && cand_list(
                self.remove_candidates@,
                self.value,
                seen_by_all(g, seq![f1, f2], self.value),
            ) && self.remove_candidates@.len() > 0 && self.fin_candidates@ == (if f1 < f2 {
                seq![Candidate(f1, self.value), Candidate(f2, self.value)]
            } else {
                seq![Candidate(f2, self.value), Candidate(f1, self.value)]
            }) && self.highlight_candidates@ == (if b1 < b2 {
                seq![Candidate(b1, self.value), Candidate(b2, self.value)]
            } else {
                seq![Candidate(b2, self.value), Candidate(b1, self.value)]
            })
    }

    /// Removes the candidates.
    pub fn apply(&self, grid: &mut Grid)
        requires
            old(grid).wf(),
            self.remove_candidates@.len() > 0,
            removable(*old(grid), self.remove_candidates@),
        ensures
            final(grid).wf(),
            removed(*old(grid), *final(grid), self.remove_candidates@),
    {
        remove_all(grid, &self.remove_candidates);
    }

    /// Describes the step.
    pub fn explain(&self) -> (r: String)
        ensures
            r@ == "<h3>Skyscraper</h3>"@,
    {
        "<h3>Skyscraper</h3>".to_owned()
    }
}

/// The cross line of a cell: its column for rows, its row for columns.
fn cross(cell: u8, rows: bool) -> (h: u8)
    requires
        cell < 81,
    ensures
        h == (if rows { col_of(cell as int) } else { row_of(cell as int) }),
        rows ==> 9 <= h < 18,
        !rows ==> h < 9,
{
    if rows {
        crate::grid_constant::col(cell)
    } else {
        crate::grid_constant::row(cell)
    }
}

/// Two different cells of one row (or column) lie in different columns (rows).
proof fn lemma_cross_differs(a: u8, b: u8, h: int, rows: bool)
    requires
        a < 81,
        b < 81,
        a != b,
        in_house(a as int, h),
        in_house(b as int, h),
        rows ==> 0 <= h < 9,
        !rows ==> 9 <= h < 18,
    ensures
        (if rows { col_of(a as int) } else { row_of(a as int) }) != (if rows { col_of(b as int) } else { row_of(b as int) }),
{
    assert(0 <= (a as int) / 9 < 9);
    assert(0 <= (b as int) / 9 < 9);
    assert(0 <= (a as int) / 27 < 3);
    assert(0 <= (b as int) / 27 < 3);
}

/// A cell of a row (column) lies in a given column (row) exactly when that is its column
/// (row).
proof fn lemma_cross_member(c: u8, s: int, rows: bool)
    requires
        c < 81,
        rows ==> 9 <= s < 18,
        !rows ==> 0 <= s < 9,
    ensures
        in_house(c as int, s) <==> s == (if rows { col_of(c as int) } else { row_of(c as int) }),
{
    assert(0 <= (c as int) / 9 < 9);
    assert(0 <= (c as int) / 27 < 3);
}

/// The cells seeing two cells do not depend on their order.
proof fn lemma_seen_by_swap(g: Grid, a: u8, b: u8, v: u8)
    ensures
        seen_by_all(g, seq![a, b], v) == seen_by_all(g, seq![b, a], v),
{
    let x = seq![a, b];
    let y = seq![b, a];
    assert(x[0] == a && x[1] == b && y[0] == b && y[1] == a);
    assert forall|c: u8| #[trigger] seen_by_all(g, x, v).contains(c) <==> seen_by_all(g, y, v).contains(c) by {
        if seen_by_all(g, x, v).contains(c) {
            assert(sees(x[0] as int, c as int) && sees(x[1] as int, c as int));
            assert forall|i: int| 0 <= i < y.len() implies sees(#[trigger] y[i] as int, c as int) by {
                if i == 0 {
                    assert(y[i] == x[1]);
                } else {
                    assert(y[i] == x[0]);
                }
            }
        }
        if seen_by_all(g, y, v).contains(c) {
            assert(sees(y[0] as int, c as int) && sees(y[1] as int, c as int));
            assert forall|i: int| 0 <= i < x.len() implies sees(#[trigger] x[i] as int, c as int) by {
                if i == 0 {
                    assert(x[i] == y[1]);
                } else {
                    assert(x[i] == y[0]);
                }
            }
        }
    }
    assert(seen_by_all(g, x, v) =~= seen_by_all(g, y, v));
}

/// On a skyscraper whose lines list their places for the digit in `c1` and `c2` (in
/// increasing order), each list holds the base and the fin of its line; the bases lie on
/// the shared cross line, the fins off it and apart.
proof fn lemma_sky_places(
    g: Grid,
    seen: Seq<Vec<Candidate>>,
    v: u8,
    h1: int,
    h2: int,
    s: int,
    b1: u8,
    f1: u8,
    b2: u8,
    f2: u8,
    c1: Seq<u8>,
    c2: Seq<u8>,
)
    requires
        sky_new(g, seen, v, h1, h2, s, b1, f1, b2, f2),
        forall|c: u8| c1.contains(c) <==> cand_cells(g, h1, v).contains(c),
        forall|c: u8| c2.contains(c) <==> cand_cells(g, h2, v).contains(c),
        c1.len() == cand_cells(g, h1, v).len(),
        c2.len() == cand_cells(g, h2, v).len(),
        forall|i: int, j: int| 0 <= i < j < c1.len() ==> c1[i] < c1[j],
        forall|i: int, j: int| 0 <= i < j < c2.len() ==> c2[i] < c2[j],
    ensures
        c1.len() == 2,
        c2.len() == 2,
        (c1[0] == b1 && c1[1] == f1) || (c1[0] == f1 && c1[1] == b1),
        (c2[0] == b2 && c2[1] == f2) || (c2[0] == f2 && c2[1] == b2),
        b1 < 81 && f1 < 81 && b2 < 81 && f2 < 81,
        cross_line(b1 as int, h1 < 9) == s,
        cross_line(b2 as int, h1 < 9) == s,
        cross_line(f1 as int, h1 < 9) != s,
        cross_line(f2 as int, h1 < 9) != s,
        cross_line(f1 as int, h1 < 9) != cross_line(f2 as int, h1 < 9),
{
    assert(set![b1, f1].len() == 2);
    assert(set![b2, f2].len() == 2);
    assert(cand_cells(g, h1, v).contains(b1) && cand_cells(g, h1, v).contains(f1));
    assert(cand_cells(g, h2, v).contains(b2) && cand_cells(g, h2, v).contains(f2));
    assert(c1.contains(c1[0]) && c1.contains(c1[1]));
    assert(c2.contains(c2[0]) && c2.contains(c2[1]));
    assert(c1.contains(b1) && c1.contains(f1));
    assert(c2.contains(b2) && c2.contains(f2));
    lemma_cross_member(b1, s, h1 < 9);
    lemma_cross_member(f1, s, h1 < 9);
    lemma_cross_member(b2, s, h1 < 9);
    lemma_cross_member(f2, s, h1 < 9);
}

/// The lines of a skyscraper each hold the digit twice, so a list of every such line of
/// their kind holds both.
proof fn lemma_line_listed(
    g: Grid,
    seen: Seq<Vec<Candidate>>,
    v: u8,
    h1: int,
    h2: int,
    s: int,
    b1: u8,
    f1: u8,
    b2: u8,
    f2: u8,
    base: u8,
    lines: Seq<u8>,
)
    requires
        g.wf(),
        sky_new(g, seen, v, h1, h2, s, b1, f1, b2, f2),
        base == (if h1 < 9 { 0u8 } else { 9u8 }),
        forall|h: u8| base <= h < base + 9 && g.house_count(h as int, v) == 2 ==> lines.contains(h),
    ensures
        0 <= h1 < h2 < 18,
        lines.contains(h1 as u8),
        lines.contains(h2 as u8),
{
    lemma_house_count(g, h1, v);
    lemma_house_count(g, h2, v);
    assert(set![b1, f1].len() == 2);
    assert(set![b2, f2].len() == 2);
    assert(cand_cells(g, h1, v).contains(b1));
    assert(cand_cells(g, h2, v).contains(b2));
    assert(g.house_count((h1 as u8) as int, v) == 2);
    assert(g.house_count((h2 as u8) as int, v) == 2);
}

/// Finds skyscrapers.
#[derive(Debug, Default)]
pub struct SkyscraperFinder {}

impl SkyscraperFinder {
    /// Some skyscraper on two rows or on two columns removes a candidate.
    pub open spec fn finds_in(self, g: Grid) -> bool {
        exists|v: u8, h1: int, h2: int, s: int, b1: u8, f1: u8, b2: u8, f2: u8|
            #[trigger] sky_new(g, Seq::empty(), v, h1, h2, s, b1, f1, b2, f2)
    }

    /// Reports skyscrapers on pairs of rows (or of columns), digit by digit; removals
    /// already reported are skipped. Every skyscraper of that kind whose removals are new
    /// gets its removals reported, unless the accumulator wanted one step and has it.
    #[verifier::rlimit(80)]
    pub fn find_skyscraper<A: StepAccumulator>(
        &self,
        house_type: HouseType,
        grid: &Grid,
        acc: &mut A,
        seen: &mut Vec<Vec<Candidate>>,
        Ghost(start): Ghost<Seq<Step>>,
    )
        requires
            grid.wf(),
            house_type != HouseType::Block,
            grows(start, old(acc).recorded(), |s: Step| s.pattern(*grid) && s is Skyscraper),
        ensures
            grows(start, final(acc).recorded(), |s: Step| s.pattern(*grid) && s is Skyscraper),
            final(acc).stops_at_first() == old(acc).stops_at_first(),
            old(acc).recorded().len() <= final(acc).recorded().len(),
            final(seen)@ == old(seen)@ || progressed(old(acc).recorded(), final(acc).recorded(), old(acc).stops_at_first()),
            new_lists(old(seen)@, final(seen)@),
            removals_listed(old(acc).recorded(), final(acc).recorded(), old(seen)@.len() as int, final(seen)@),
            (exists|v: u8, h1: int, h2: int, s: int, b1: u8, f1: u8, b2: u8, f2: u8|
                #[trigger] sky_new(*grid, old(seen)@, v, h1, h2, s, b1, f1, b2, f2) && (h1 < 9) == (house_type is Row))
                ==> progressed(old(acc).recorded(), final(acc).recorded(), old(acc).stops_at_first()),
    {
        let rows = house_type == HouseType::Row;
        let base: u8 = if rows { 0 } else { 9 };
        let ghost ok = |s: Step| s.pattern(*grid) && s is Skyscraper;
        let ghost rec0 = acc.recorded();
        let ghost stops = acc.stops_at_first();
        let ghost seen0 = seen@;
        proof {
            assert(seen@.subrange(0, seen0.len() as int) =~= seen0);
        }
        let mut value: u8 = 1;
        while value <= 9
            invariant
                1 <= value <= 10,
                grid.wf(),
                rows == (house_type is Row),
                base == (if rows { 0u8 } else { 9u8 }),
                ok == (|s: Step| s.pattern(*grid) && s is Skyscraper),
                grows(start, acc.recorded(), ok),
                acc.stops_at_first() == stops,
                stops == old(acc).stops_at_first(),
                rec0 == old(acc).recorded(),
                seen0 == old(seen)@,
                rec0.len() <= acc.recorded().len(),
                new_lists(seen0, seen@),
                removals_listed(rec0, acc.recorded(), seen0.len() as int, seen@),
                acc.recorded().len() - rec0.len() == seen@.len() - seen0.len(),
                !progressed(rec0, acc.recorded(), stops) ==> seen@ == seen0,
                !progressed(rec0, acc.recorded(), stops) ==> forall|v: u8, h1: int, h2: int, s: int, b1: u8, f1: u8, b2: u8, f2: u8|
                    v < value && (h1 < 9) == rows ==> !#[trigger] sky_new(*grid, seen0, v, h1, h2, s, b1, f1, b2, f2),
            decreases 10 - value,
        {
            let mut lines: Vec<u8> = Vec::new();
            let mut i: u8 = 0;
            while i < 9
                invariant
                    i <= 9,
                    1 <= value <= 9,
                    grid.wf(),
                    base == (if rows { 0u8 } else { 9u8 }),
                    increasing(lines@),
                    forall|k: int| 0 <= k < lines@.len() ==> base <= #[trigger] lines@[k] < base + i,
                    forall|h: u8| base <= h < base + i && grid.house_count(h as int, value) == 2 ==> lines@.contains(h),
                decreases 9 - i,
            {
                let h = base + i;
                let ghost before = lines@;
                if grid.get_house_candidate_count(h, value) == 2 {
                    lines.push(h);
                    proof {
                        assert(lines@[lines@.len() - 1] == h);
                    }
                }
                proof {
                    assert forall|x: u8| base <= x < base + i + 1 && grid.house_count(x as int, value) == 2 implies lines@.contains(x) by {
                        if x < base + i {
                            assert(before.contains(x));
                            let k = choose|k: int| 0 <= k < before.len() && before[k] == x;
                            assert(lines@[k] == x);
                        } else {
                            assert(lines@[lines@.len() - 1] == x);
                        }
                    }
                }
                i = i + 1;
            }
            let ghost lines_all = lines@;
            if lines.len() >= 2 {
                let pairs = create_permutations(lines, 2);
                let mut p: usize = 0;
                while p < pairs.len()
                    invariant
                        p <= pairs@.len(),
                        1 <= value <= 9,
                        grid.wf(),
                        rows == (house_type is Row),
                        base == (if rows { 0u8 } else { 9u8 }),
                        ok == (|s: Step| s.pattern(*grid) && s is Skyscraper),
                        forall|j: int| 0 <= j < pairs@.len() ==> picks(lines_all, #[trigger] pairs@[j]@, 2),
                        forall|c: Seq<u8>| #[trigger] picks(lines_all, c, 2) ==> exists|j: int| 0 <= j < pairs@.len() && pairs@[j]@ == c,
                        forall|k: int| 0 <= k < lines_all.len() ==> base <= #[trigger] lines_all[k] < base + 9,
                        forall|h: u8| base <= h < base + 9 && grid.house_count(h as int, value) == 2 ==> lines_all.contains(h),
                        grows(start, acc.recorded(), ok),
                        acc.stops_at_first() == stops,
                        stops == old(acc).stops_at_first(),
                        rec0 == old(acc).recorded(),
                        seen0 == old(seen)@,
                        rec0.len() <= acc.recorded().len(),
                        new_lists(seen0, seen@),
                        removals_listed(rec0, acc.recorded(), seen0.len() as int, seen@),
                        acc.recorded().len() - rec0.len() == seen@.len() - seen0.len(),
                        !progressed(rec0, acc.recorded(), stops) ==> seen@ == seen0,
                        !progressed(rec0, acc.recorded(), stops) ==> forall|v: u8, h1: int, h2: int, s: int, b1: u8, f1: u8, b2: u8, f2: u8|
                            v < value && (h1 < 9) == rows ==> !#[trigger] sky_new(*grid, seen0, v, h1, h2, s, b1, f1, b2, f2),
                        !progressed(rec0, acc.recorded(), stops) ==> forall|j: int, s: int, b1: u8, f1: u8, b2: u8, f2: u8|
                            0 <= j < p ==> !#[trigger] sky_new(*grid, seen0, value, pairs@[j]@[0] as int, pairs@[j]@[1] as int, s, b1, f1, b2, f2),
                    decreases pairs@.len() - p,
                {
                    let pair = &pairs[p];
                    proof {
                        assert(picks(lines_all, pair@, 2));
                        assert(lines_all.contains(pair@[0]));
                        assert(lines_all.contains(pair@[1]));
                    }
                    let h1 = pair[0];
                    let h2 = pair[1];
                    proof {
                        let k1 = choose|k: int| 0 <= k < lines_all.len() && lines_all[k] == h1;
                        let k2 = choose|k: int| 0 <= k < lines_all.len() && lines_all[k] == h2;
                        assert(lines_all[k1] == h1);
                        assert(lines_all[k2] == h2);
                        assert(h1 < h2);
                    }
                    let ghost rec_b = acc.recorded();
                    let s1 = grid.candidate_cells_in_house(h1, value);
                    let s2 = grid.candidate_cells_in_house(h2, value);
                    let c1 = s1.values();
                    let c2 = s2.values();
                    proof {
                        assert(s1@ =~= cand_cells(*grid, h1 as int, value));
                        assert(s2@ =~= cand_cells(*grid, h2 as int, value));
                    }
                    if c1.len() == 2 && c2.len() == 2 {
                        proof {
                            crate::util::indexset::IndexSet::lemma_bounds(s1);
                            crate::util::indexset::IndexSet::lemma_bounds(s2);
                            assert(s1@.contains(c1@[0]) && s1@.contains(c1@[1]));
                            assert(s2@.contains(c2@[0]) && s2@.contains(c2@[1]));
                        }
                        let x0 = cross(c1[0], rows);
                        let x1 = cross(c1[1], rows);
                        let y0 = cross(c2[0], rows);
                        let y1 = cross(c2[1], rows);
                        let m00 = x0 == y0;
                        let m01 = x0 == y1;
                        let m10 = x1 == y0;
                        let m11 = x1 == y1;
                        let count: u8 = (if m00 { 1u8 } else { 0u8 }) + (if m01 { 1u8 } else { 0u8 }) + (if m10 { 1u8 } else { 0u8 })
                            + (if m11 { 1u8 } else { 0u8 });
                        if count == 1 {
                            let bi: usize = if m00 || m01 { 0 } else { 1 };
                            let bj: usize = if m00 || m10 { 0 } else { 1 };
                            let share = if bi == 0 { x0 } else { x1 };
                            let ba = c1[bi];
                            let fa = c1[1 - bi];
                            let bb = c2[bj];
                            let fb = c2[1 - bj];
                            let (f_lo, f_hi) = if fa < fb { (fa, fb) } else { (fb, fa) };
                            let mut fins_cells: Vec<u8> = Vec::new();
                            fins_cells.push(f_lo);
                            fins_cells.push(f_hi);
                            let rm = seen_removals(grid, &fins_cells, value);
                            proof {
                                assert(fins_cells@ =~= seq![f_lo, f_hi]);
                                lemma_seen_by_swap(*grid, fa, fb, value);
                                assert(seen_by_all(*grid, fins_cells@, value) == seen_by_all(*grid, seq![fa, fb], value));
                            }
                            let mut fresh = false;
                            if rm.len() > 0 {
                                fresh = !seen_before(seen, &rm);
                            }
                            if fresh {
                                let ghost seen_b = seen@;
                                let ghost rec_p = acc.recorded();
                                seen.push(clone_cand_list(&rm));
                                proof {
                                    assert(seen@.subrange(0, seen0.len() as int) =~= seen_b.subrange(0, seen0.len() as int));
                                    assert forall|i: int, j: int| #![trigger seen@[i], seen@[j]]
                                        0 <= j < i < seen@.len() && seen0.len() <= i implies seen@[j]@ != seen@[i]@ by {
                                        if i == seen_b.len() {
                                            assert(seen@[j] == seen_b[j]);
                                        } else {
                                            assert(seen@[j] == seen_b[j] && seen@[i] == seen_b[i]);
                                        }
                                    }
                                }
                                let mut fins: Vec<Candidate> = Vec::new();
                                fins.push(Candidate::new(f_lo, value));
                                fins.push(Candidate::new(f_hi, value));
                                let mut highlight: Vec<Candidate> = Vec::new();
                                if ba < bb {
                                    highlight.push(Candidate::new(ba, value));
                                    highlight.push(Candidate::new(bb, value));
                                } else {
                                    highlight.push(Candidate::new(bb, value));
                                    highlight.push(Candidate::new(ba, value));
                                }
                                let step = Skyscraper { value, remove_candidates: clone_list(&rm), highlight_candidates: highlight, fin_candidates: fins };
                                proof {
                                    assert(c1@[0] < c1@[1]);
                                    assert(c2@[0] < c2@[1]);
                                    assert(s1@ =~= set![c1@[0], c1@[1]]) by {
                                        assert forall|c: u8| s1@.contains(c) implies c == c1@[0] || c == c1@[1] by {
                                            assert(c1@.contains(c));
                                        }
                                    }
                                    assert(s2@ =~= set![c2@[0], c2@[1]]) by {
                                        assert forall|c: u8| s2@.contains(c) implies c == c2@[0] || c == c2@[1] by {
                                            assert(c2@.contains(c));
                                        }
                                    }
                                    let sh = share as int;
                                    lemma_cross_differs(c1@[0], c1@[1], h1 as int, rows);
                                    lemma_cross_differs(c2@[0], c2@[1], h2 as int, rows);
                                    lemma_cross_member(ba, sh, rows);
                                    lemma_cross_member(bb, sh, rows);
                                    lemma_cross_member(fa, sh, rows);
                                    lemma_cross_member(fb, sh, rows);
                                    assert(set![ba, fa] =~= set![c1@[0], c1@[1]]);
                                    assert(set![bb, fb] =~= set![c2@[0], c2@[1]]);
                                    assert(sky(*grid, value, h1 as int, h2 as int, sh, ba, fa, bb, fb));
                                    assert(step.remove_candidates@ == rm@);
                                    assert(step.value == value);
                                    assert(step.fin_candidates@ =~= seq![Candidate(f_lo, value), Candidate(f_hi, value)]);
                                    if ba < bb {
                                        assert(step.highlight_candidates@ =~= seq![Candidate(ba, value), Candidate(bb, value)]);
                                    } else {
                                        assert(step.highlight_candidates@ =~= seq![Candidate(bb, value), Candidate(ba, value)]);
                                    }
                                    assert(cand_list(step.remove_candidates@, value, seen_by_all(*grid, seq![fa, fb], value)));
                                    assert(step.pattern(*grid));
                                }
                                let finish = report(acc, Step::Skyscraper(step), Ghost(start), Ghost(ok));
                                proof {
                                    assert forall|k: int| 0 <= k < acc.recorded().len() - rec0.len() implies (#[trigger] acc.recorded()[rec0.len() + k] matches Step::Skyscraper(sk)
                                        && sk.remove_candidates@ == seen@[seen0.len() + k]@) by {
                                        if rec0.len() + k < rec_p.len() {
                                            assert(acc.recorded()[rec0.len() + k] == rec_p[rec0.len() + k]);
                                            assert(seen@[seen0.len() + k] == seen_b[seen0.len() + k]);
                                        }
                                    }
                                }
                                if finish {
                                    return;
                                }
                            } else {
                                proof {
                                    assert forall|s: int, b1: u8, f1: u8, b2: u8, f2: u8|
                                        !progressed(rec0, acc.recorded(), stops) implies !#[trigger] sky_new(
                                        *grid,
                                        seen0,
                                        value,
                                        h1 as int,
                                        h2 as int,
                                        s,
                                        b1,
                                        f1,
                                        b2,
                                        f2,
                                    ) by {
                                        if sky_new(*grid, seen0, value, h1 as int, h2 as int, s, b1, f1, b2, f2) {
                                            lemma_sky_places(*grid, seen0, value, h1 as int, h2 as int, s, b1, f1, b2, f2, c1@, c2@);
                                            assert(ba == b1 && fa == f1 && bb == b2 && fb == f2);
                                            let c = choose|c: u8| #[trigger] fin_sight(*grid, f1, f2, value).contains(c);
                                            assert(seen_by_all(*grid, seq![f1, f2], value).contains(c));
                                            if rm@.len() > 0 {
                                                let k = choose|k: int| 0 <= k < seen@.len() && (#[trigger] seen@[k])@ == rm@;
                                                assert(seen0[k]@ == rm@);
                                                assert(!cand_list(seen0[k]@, value, seen_by_all(*grid, seq![f1, f2], value)));
                                            }
                                        }
                                    }
                                }
                            }
                        } else {
                            proof {
                                assert forall|s: int, b1: u8, f1: u8, b2: u8, f2: u8|
                                    !progressed(rec0, acc.recorded(), stops) implies !#[trigger] sky_new(
                                    *grid,
                                    seen0,
                                    value,
                                    h1 as int,
                                    h2 as int,
                                    s,
                                    b1,
                                    f1,
                                    b2,
                                    f2,
                                ) by {
                                    if sky_new(*grid, seen0, value, h1 as int, h2 as int, s, b1, f1, b2, f2) {
                                        lemma_sky_places(*grid, seen0, value, h1 as int, h2 as int, s, b1, f1, b2, f2, c1@, c2@);
                                    }
                                }
                            }
                        }
                    } else {
                        proof {
                            assert forall|s: int, b1: u8, f1: u8, b2: u8, f2: u8|
                                !progressed(rec0, acc.recorded(), stops) implies !#[trigger] sky_new(
                                *grid,
                                seen0,
                                value,
                                h1 as int,
                                h2 as int,
                                s,
                                b1,
                                f1,
                                b2,
                                f2,
                            ) by {
                                if sky_new(*grid, seen0, value, h1 as int, h2 as int, s, b1, f1, b2, f2) {
                                    lemma_sky_places(*grid, seen0, value, h1 as int, h2 as int, s, b1, f1, b2, f2, c1@, c2@);
                                }
                            }
                        }
                    }
                    p = p + 1;
                }
                proof {
                    assert forall|h1: int, h2: int, s: int, b1: u8, f1: u8, b2: u8, f2: u8|
                        !progressed(rec0, acc.recorded(), stops) && (h1 < 9) == rows implies !#[trigger] sky_new(
                        *grid,
                        seen0,
                        value,
                        h1,
                        h2,
                        s,
                        b1,
                        f1,
                        b2,
                        f2,
                    ) by {
                        if sky_new(*grid, seen0, value, h1, h2, s, b1, f1, b2, f2) {
                            lemma_line_listed(*grid, seen0, value, h1, h2, s, b1, f1, b2, f2, base, lines_all);
                            let c = seq![h1 as u8, h2 as u8];
                            assert(picks(lines_all, c, 2));
                            let j = choose|j: int| 0 <= j < pairs@.len() && pairs@[j]@ == c;
                            assert(pairs@[j]@[0] == h1 as u8 && pairs@[j]@[1] == h2 as u8);
                            assert(!sky_new(*grid, seen0, value, pairs@[j]@[0] as int, pairs@[j]@[1] as int, s, b1, f1, b2, f2));
                        }
                    }
                }
            } else {
                proof {
                    assert forall|h1: int, h2: int, s: int, b1: u8, f1: u8, b2: u8, f2: u8|
                        (h1 < 9) == rows implies !#[trigger] sky_new(*grid, seen0, value, h1, h2, s, b1, f1, b2, f2) by {
                        if sky_new(*grid, seen0, value, h1, h2, s, b1, f1, b2, f2) {
                            lemma_line_listed(*grid, seen0, value, h1, h2, s, b1, f1, b2, f2, base, lines_all);
                            let k1 = choose|k: int| 0 <= k < lines_all.len() && lines_all[k] == h1 as u8;
                            let k2 = choose|k: int| 0 <= k < lines_all.len() && lines_all[k] == h2 as u8;
                            assert(lines_all[k1] != lines_all[k2]);
                        }
                    }
                }
            }
            value = value + 1;
        }
    }

    /// Reports skyscrapers on rows, then on columns. When some skyscraper removes a
    /// candidate, a step is reported.
    pub fn find_step<A: StepAccumulator>(&self, grid: &Grid, acc: &mut A)
        requires
            grid.wf(),
        ensures
            grows(old(acc).recorded(), final(acc).recorded(), |s: Step| s.pattern(*grid) && s is Skyscraper),
            final(acc).stops_at_first() == old(acc).stops_at_first(),
            self.finds_in(*grid) ==> progressed(old(acc).recorded(), final(acc).recorded(), old(acc).stops_at_first()),
    {
        let ghost start = acc.recorded();
        proof {
            assert(acc.recorded().subrange(0, start.len() as int) =~= start);
        }
        let mut seen: Vec<Vec<Candidate>> = Vec::new();
        let ghost seen0 = seen@;
        self.find_skyscraper(HouseType::Row, grid, acc, &mut seen, Ghost(start));
        let ghost mid = acc.recorded();
        if acc.is_finish() {
            return;
        }
        self.find_skyscraper(HouseType::Column, grid, acc, &mut seen, Ghost(start));
        proof {
            if self.finds_in(*grid) {
                let (v, h1, h2, s, b1, f1, b2, f2) = choose|v: u8, h1: int, h2: int, s: int, b1: u8, f1: u8, b2: u8, f2: u8|
                    #[trigger] sky_new(*grid, Seq::empty(), v, h1, h2, s, b1, f1, b2, f2);
                assert(seen0 =~= Seq::<Vec<Candidate>>::empty());
                assert(sky_new(*grid, seen0, v, h1, h2, s, b1, f1, b2, f2));
                if !progressed(start, mid, acc.stops_at_first()) {
                    assert(sky_new(*grid, seen0, v, h1, h2, s, b1, f1, b2, f2));
                }
            }
        }
    }
}

} // verus!
