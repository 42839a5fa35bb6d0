use vstd::prelude::*;
use vstd::string::StringExecFns;
use crate::candidate::Candidate;
use crate::grid::Grid;
use crate::grid_constant::{row_of, col_of, block_of, in_house, sees};
use crate::solver::step::{Step, removable, removed, remove_all};
use crate::solver::step_accumulator::StepAccumulator;
use crate::solver::common::{grows, report, progressed, lemma_progress_chain};
use crate::solver::unique_1::type1_new;
use crate::solver::unique_3::{type3_at, type3_in, lemma_type3_listed};
use crate::solver::unique_4::type4_at;
use crate::solver::unique_6::type6_at;
use crate::solver::naked_set::{sorted_cands, cand_before, seen_before, clone_cand_list, all_in, union_cands};
use crate::util::permutations::{create_permutations, increasing, picks};

verus! {

/// Which uniqueness pattern a step uses.
#[derive(Debug, PartialEq, Eq, Clone, Copy, Hash, Structural)]
pub enum UniqueType {
    Type1,
    Type2,
    Type3,
    Type4,
    Type5,
    Type6,
}

/// How many different values among four.
pub open spec fn distinct4(a: int, b: int, c: int, d: int) -> int {
    1 + (if b != a { 1int } else { 0int }) + (if c != a && c != b { 1int } else { 0int }) + (if d != a && d != b && d != c {
        1int
    } else {
        0int
    })
}

/// Four corners of a rectangle on two rows and two columns, in reading order, spread
/// over exactly two blocks.
pub open spec fn ur_shape(p: Seq<u8>) -> bool {
    &&& p.len() == 4
    &&& p[0] < p[1] < p[2] < p[3] < 81
    &&& row_of(p[0] as int) == row_of(p[1] as int) && row_of(p[2] as int) == row_of(p[3] as int)
    &&& col_of(p[0] as int) == col_of(p[2] as int) && col_of(p[1] as int) == col_of(p[3] as int)
    &&& distinct4(block_of(p[0] as int), block_of(p[1] as int), block_of(p[2] as int), block_of(p[3] as int)) == 2
}

/// A rectangle on digits `a` and `b` whose corners are empty.
pub open spec fn ur_floor(g: Grid, p: Seq<u8>, a: u8, b: u8) -> bool {
    &&& ur_shape(p)
    &&& 1 <= a <= 9 && 1 <= b <= 9 && a != b
    &&& forall|i: int| 0 <= i < 4 ==> g.value(#[trigger] p[i] as int) == 0
}

/// `l` lists, ordered, exactly the candidates of `want` that are in the grid.
pub open spec fn present_of(g: Grid, l: Seq<Candidate>, want: Seq<Candidate>) -> bool {
    &&& sorted_cands(l)
    &&& forall|i: int| 0 <= i < l.len() ==> want.contains(#[trigger] l[i]) && l[i].0 < 81 && g.has_cand(l[i].0 as int, l[i].1)
    &&& forall|i: int| 0 <= i < want.len() && (#[trigger] want[i]).0 < 81 && g.has_cand(want[i].0 as int, want[i].1) ==> l.contains(want[i])
}

/// Corner `k` is the only one with more than two candidates.
pub open spec fn one_extra(g: Grid, p: Seq<u8>, k: int) -> bool {
    &&& 0 <= k < 4
    &&& g.cands(p[k] as int).len() > 2
    &&& forall|j: int| 0 <= j < 4 && j != k ==> g.cands(#[trigger] p[j] as int).len() <= 2
}

/// Corners `i < j` are the only ones with three or more candidates.
pub open spec fn two_extra(g: Grid, p: Seq<u8>, i: int, j: int) -> bool {
    &&& 0 <= i < j < 4
    &&& g.cands(p[i] as int).len() >= 3 && g.cands(p[j] as int).len() >= 3
    &&& forall|k: int| 0 <= k < 4 && k != i && k != j ==> g.cands(#[trigger] p[k] as int).len() < 3
}

/// In house `h` (holding `f` and `s`), digit `a` has no place besides `f` and `s`.
pub open spec fn locked_pair(g: Grid, h: int, f: u8, s: u8, a: u8) -> bool {
    &&& 0 <= h < 27
    &&& in_house(f as int, h) && in_house(s as int, h)
    &&& forall|c: int| 0 <= c < 81 && in_house(c, h) && c != f && c != s ==> !#[trigger] g.has_cand(c, a)
}

/// One of the digits is locked to `f` and `s` in house `h`, and the removals are the
/// other digit there.
pub open spec fn locked_side(g: Grid, h: int, f: u8, s: u8, a: u8, b: u8, rm: Seq<Candidate>) -> bool {
    ||| locked_pair(g, h, f, s, a) && present_of(g, rm, seq![Candidate(f, b), Candidate(s, b)])
    ||| locked_pair(g, h, f, s, b) && present_of(g, rm, seq![Candidate(f, a), Candidate(s, a)])
}

/// Digit `a` has no candidate outside the corners `p` in the rows and columns of the
/// diagonal corners `f` and `s`.
pub open spec fn absent_around(g: Grid, p: Seq<u8>, f: u8, s: u8, a: u8) -> bool {
    forall|c: int|
        0 <= c < 81 && (row_of(c) == row_of(f as int) || row_of(c) == row_of(s as int) || col_of(c) == col_of(f as int)
            || col_of(c) == col_of(s as int)) && !p.contains(c as u8) ==> !#[trigger] g.has_cand(c, a)
}

/// One of the digits has no other place in the lines of `f` and `s`, and the removals
/// are that digit there.
pub open spec fn absent_side(g: Grid, p: Seq<u8>, f: u8, s: u8, a: u8, b: u8, rm: Seq<Candidate>) -> bool {
    ||| absent_around(g, p, f, s, a) && present_of(g, rm, seq![Candidate(f, a), Candidate(s, a)])
    ||| absent_around(g, p, f, s, b) && present_of(g, rm, seq![Candidate(f, b), Candidate(s, b)])
}

/// The candidates of corners `f` and `s` besides the rectangle's digits `a` and `b`.
pub open spec fn extra_digits(g: Grid, f: u8, s: u8, a: u8, b: u8) -> Set<u8> {
    g.cands(f as int).union(g.cands(s as int)).remove(a).remove(b)
}

/// The empty cells `cs` of house `h`, other than `f` and `s` (both in `h`), have as
/// candidates exactly the extra digits of `f` and `s`, one digit more than there are
/// cells: with `f` and `s` as one pseudo-cell they form a naked set.
pub open spec fn pseudo_naked(g: Grid, h: int, f: u8, s: u8, a: u8, b: u8, cs: Seq<u8>) -> bool {
    &&& 0 <= h < 27
    &&& in_house(f as int, h) && in_house(s as int, h)
    &&& extra_digits(g, f, s, a, b).finite()
    &&& extra_digits(g, f, s, a, b).len() >= 2
    &&& cs.len() + 1 == extra_digits(g, f, s, a, b).len()
    &&& increasing(cs)
    &&& forall|k: int| 0 <= k < cs.len() ==> in_house(#[trigger] cs[k] as int, h) && g.value(cs[k] as int) == 0 && cs[k] != f && cs[k] != s
    &&& union_cands(g, cs) == extra_digits(g, f, s, a, b)
}

/// Candidate `v` of cell `c` can go: `v` is an extra digit, and `c` lies outside the
/// naked set of `cs` with the pseudo-cell `f`, `s`, in a house that holds all of them.
pub open spec fn pseudo_target(g: Grid, f: u8, s: u8, cs: Seq<u8>, a: u8, b: u8, c: int, v: u8) -> bool {
    &&& 0 <= c < 81
    &&& g.has_cand(c, v)
    &&& extra_digits(g, f, s, a, b).contains(v)
    &&& !cs.contains(c as u8) && c != f && c != s
    &&& exists|hh: int| 0 <= hh < 27 && #[trigger] in_house(c, hh) && all_in(cs, hh) && in_house(f as int, hh) && in_house(s as int, hh)
}

/// The removals are ordered, and each can go by [`pseudo_target`].
pub open spec fn pseudo_removals(g: Grid, f: u8, s: u8, cs: Seq<u8>, a: u8, b: u8, rm: Seq<Candidate>) -> bool {
    &&& sorted_cands(rm)
    &&& forall|k: int| 0 <= k < rm.len() ==> pseudo_target(g, f, s, cs, a, b, (#[trigger] rm[k]).0 as int, rm[k].1)
}

/// The removals `rm` follow from corners `p` with digits `a` and `b` by the reasoning of
/// type `t`: type 1, one corner with extra candidates loses the two digits; type 3, two
/// corners of one line with extra candidates act as one cell of a naked set, whose digits
/// leave the other cells of the houses holding the set; type 4, two
/// corners with extras, where one digit is locked to them in a house they share, lose the
/// other digit; type 6, two diagonal corners with extras lose a digit that has no other
/// place in their rows and columns.
pub open spec fn shown(g: Grid, t: UniqueType, rm: Seq<Candidate>, p: Seq<u8>, a: u8, b: u8) -> bool {
    match t {
        UniqueType::Type1 => exists|k: int|
            #[trigger] one_extra(g, p, k) && present_of(g, rm, seq![Candidate(p[k], a), Candidate(p[k], b)]),
        UniqueType::Type3 => exists|i: int, j: int, h: int, cs: Seq<u8>|
            #[trigger] two_extra(g, p, i, j) && #[trigger] pseudo_naked(g, h, p[i], p[j], a, b, cs) && pseudo_removals(
                g,
                p[i],
                p[j],
                cs,
                a,
                b,
                rm,
            ),
        UniqueType::Type4 => exists|i: int, j: int, h: int|
            #[trigger] two_extra(g, p, i, j) && #[trigger] locked_side(g, h, p[i], p[j], a, b, rm),
        UniqueType::Type6 => exists|i: int, j: int|
            #[trigger] two_extra(g, p, i, j) && row_of(p[i] as int) != row_of(p[j] as int) && col_of(p[i] as int) != col_of(
                p[j] as int,
            ) && absent_side(g, p, p[i], p[j], a, b, rm),
        _ => false,
    }
}

/// A deduction that keeps a rectangle of two digits from being a deadly pattern.
#[derive(Debug, PartialEq, Clone, Eq, Hash)]
pub struct UniqueStep {
    pub unique_type: UniqueType,
    pub highlight_candidates: Vec<Candidate>,
    pub remove_candidates: Vec<Candidate>,
    pub fin_candidates: Vec<Candidate>,
}

impl UniqueStep {
    /// Some rectangle on two digits, with empty corners, shows the step's removals (see
    /// [`shown`]); only candidates still in the grid are listed.
    pub open spec fn pattern(self, g: Grid) -> bool {
        &&& self.remove_candidates@.len() > 0
        &&& exists|p: Seq<u8>, a: u8, b: u8|
            #![trigger ur_floor(g, p, a, b), shown(g, self.unique_type, self.remove_candidates@, p, a, b)]
            ur_floor(g, p, a, b) && shown(g, self.unique_type, self.remove_candidates@, p, a, b)
    }

    /// Removes the candidates.
    pub fn apply(&self, grid: &mut Grid)
        requires
            old(grid).wf(),
            self.remove_candidates@.len() > 0,
            removable(*old(grid), self.remove_candidates@),
        ensures
            final(grid).wf(),
            removed(*old(grid), *final(grid), self.remove_candidates@),
    {
        remove_all(grid, &self.remove_candidates);
    }

    pub open spec fn title(self) -> Seq<char> {
        match self.unique_type {
            UniqueType::Type1 => "Unique Rectangle Type 1"@,
            UniqueType::Type2 => "Unique Rectangle Type 2"@,
            UniqueType::Type3 => "Unique Rectangle Type 3"@,
            UniqueType::Type4 => "Unique Rectangle Type 4"@,
            UniqueType::Type5 => "Unique Rectangle Type 5"@,
            UniqueType::Type6 => "Unique Rectangle Type 6"@,
        }
    }

    pub fn name(&self) -> (r: &'static str)
        ensures
            r@ == self.title(),
    {
        match self.unique_type {
            UniqueType::Type1 => "Unique Rectangle Type 1",
            UniqueType::Type2 => "Unique Rectangle Type 2",
            UniqueType::Type3 => "Unique Rectangle Type 3",
            UniqueType::Type4 => "Unique Rectangle Type 4",
            UniqueType::Type5 => "Unique Rectangle Type 5",
            UniqueType::Type6 => "Unique Rectangle Type 6",
        }
    }

    /// Describes the step.
    pub fn explain(&self) -> (r: String)
        ensures
            r@ == "<h3>"@ + self.title() + "</h3>"@,
    {
        let mut s = String::from_str("<h3>");
        s.append(self.name());
        s.append("</h3>");
        s
    }
}

/// Four cells and two digits that may form a deadly pattern.
#[derive(Debug, Clone, Copy)]
pub struct UniqueRectangle {
    points: [u8; 4],
    a: u8,
    b: u8,
}

impl UniqueRectangle {
    pub closed spec fn corners(self) -> Seq<u8> {
        self.points@
    }

    pub closed spec fn digit_a(self) -> u8 {
        self.a
    }

    pub closed spec fn digit_b(self) -> u8 {
        self.b
    }

    pub fn cells(&self) -> (r: [u8; 4])
        ensures
            r@ == self.corners(),
    {
        self.points
    }

    pub fn new(points: [u8; 4], a: u8, b: u8) -> (r: Self)
        ensures
            r.corners() == points@,
            r.digit_a() == a,
            r.digit_b() == b,
    {
        UniqueRectangle { points, a, b }
    }

    /// The two digits of each corner, corner by corner.
    pub fn candidates(&self) -> (r: Vec<Candidate>)
        ensures
            r@.len() == 8,
            forall|i: int|
                0 <= i < 4 ==> r@[2 * i] == Candidate(self.corners()[i], self.digit_a()) && r@[2 * i + 1] == Candidate(
                    self.corners()[i],
                    self.digit_b(),
                ),
    {
        let mut r: Vec<Candidate> = Vec::new();
        let mut i: usize = 0;
        while i < 4
            invariant
                i <= 4,
                r@.len() == 2 * i,
                forall|k: int|
                    0 <= k < i ==> r@[2 * k] == Candidate(self.points@[k], self.a) && r@[2 * k + 1] == Candidate(
                        self.points@[k],
                        self.b,
                    ),
            decreases 4 - i,
        {
            r.push(Candidate::new(self.points[i], self.a));
            r.push(Candidate::new(self.points[i], self.b));
            i = i + 1;
        }
        r
    }

    pub fn values(&self) -> (r: (u8, u8))
        ensures
            r == (self.digit_a(), self.digit_b()),
    {
        (self.a, self.b)
    }
}

/// The four corners for rows `r0 < r1` and columns `c0 < c1` (counted from zero), and
/// whether they span exactly two blocks.
fn rectangle(r0: u8, r1: u8, c0: u8, c1: u8) -> (r: ([u8; 4], bool))
    requires
        r0 < r1 < 9,
        c0 < c1 < 9,
    ensures
        r.0@ == seq![9 * r0 + c0, 9 * r0 + c1, 9 * r1 + c0, 9 * r1 + c1].map_values(|x: int| x as u8),
        r.1 == ur_shape(r.0@),
{
    let cells: [u8; 4] = [9 * r0 + c0, 9 * r0 + c1, 9 * r1 + c0, 9 * r1 + c1];
    let b0 = crate::grid_constant::block(cells[0]);
    let b1 = crate::grid_constant::block(cells[1]);
    let b2 = crate::grid_constant::block(cells[2]);
    let b3 = crate::grid_constant::block(cells[3]);
    let n: u8 = 1 + (if b1 != b0 { 1u8 } else { 0u8 }) + (if b2 != b0 && b2 != b1 { 1u8 } else { 0u8 }) + (if b3 != b0 && b3
        != b1 && b3 != b2 {
        1u8
    } else {
        0u8
    });
    proof {
        assert(cells@ =~= seq![9 * r0 + c0, 9 * r0 + c1, 9 * r1 + c0, 9 * r1 + c1].map_values(|x: int| x as u8));
        assert(row_of(cells@[0] as int) == r0 && row_of(cells@[1] as int) == r0);
        assert(row_of(cells@[2] as int) == r1 && row_of(cells@[3] as int) == r1);
        assert(col_of(cells@[0] as int) == 9 + c0 && col_of(cells@[2] as int) == 9 + c0);
        assert(col_of(cells@[1] as int) == 9 + c1 && col_of(cells@[3] as int) == 9 + c1);
    }
    (cells, n == 2)
}

/// The corners of the rectangle on rows `r0`, `r1` and columns `c0`, `c1`.
pub open spec fn rect_seq(r0: int, r1: int, c0: int, c1: int) -> Seq<u8> {
    seq![9 * r0 + c0, 9 * r0 + c1, 9 * r1 + c0, 9 * r1 + c1].map_values(|x: int| x as u8)
}

/// A rectangle across two blocks whose four corners have `a` and `b` as candidates.
pub open spec fn ur_on(g: Grid, p: Seq<u8>, a: u8, b: u8) -> bool {
    &&& ur_shape(p)
    &&& forall|i: int| 0 <= i < 4 ==> g.has_cand(#[trigger] p[i] as int, a) && g.has_cand(p[i] as int, b)
}

/// Some rectangle of `urs` has corners `p`.
pub open spec fn in_list(urs: Seq<UniqueRectangle>, p: Seq<u8>) -> bool {
    exists|k: int| 0 <= k < urs.len() && (#[trigger] urs[k]).corners() == p
}

/// Rows, then columns, `(R0, R1, C0, C1)` come before `(r0, r1, c0, c1)`.
pub open spec fn lex_before(rr0: int, rr1: int, cc0: int, cc1: int, r0: int, r1: int, c0: int, c1: int) -> bool {
    rr0 < r0 || (rr0 == r0 && (rr1 < r1 || (rr1 == r1 && (cc0 < c0 || (cc0 == c0 && cc1 < c1)))))
}

/// Every rectangle on `a` and `b` before `(r0, r1, c0, c1)` is listed in `urs`.
pub open spec fn covered(g: Grid, a: u8, b: u8, urs: Seq<UniqueRectangle>, r0: int, r1: int, c0: int, c1: int) -> bool {
    forall|rr0: int, rr1: int, cc0: int, cc1: int|
        0 <= rr0 < rr1 < 9 && 0 <= cc0 < cc1 < 9 && lex_before(rr0, rr1, cc0, cc1, r0, r1, c0, c1) && #[trigger] ur_on(
            g,
            rect_seq(rr0, rr1, cc0, cc1),
            a,
            b,
        ) ==> in_list(urs, rect_seq(rr0, rr1, cc0, cc1))
}

/// A rectangle's corners are those of its rows and columns.
pub proof fn lemma_rect_coords(p: Seq<u8>) -> (q: (int, int, int, int))
    requires
        ur_shape(p),
    ensures
        0 <= q.0 < q.1 < 9,
        0 <= q.2 < q.3 < 9,
        p == rect_seq(q.0, q.1, q.2, q.3),
{
    let r0 = p[0] / 9;
    let r1 = p[2] / 9;
    let c0 = p[0] % 9;
    let c1 = p[1] % 9;
    assert(p[1] / 9 == r0 && p[3] / 9 == r1);
    assert(p[2] % 9 == c0 && p[3] % 9 == c1);
    assert(p[0] == 9 * r0 + c0);
    assert(p[1] == 9 * r0 + c1);
    assert(p[2] == 9 * r1 + c0);
    assert(p[3] == 9 * r1 + c1);
    assert(r0 < r1) by {
        if r1 <= r0 {
            assert(p[1] < p[2]);
        }
    }
    assert(p =~= rect_seq(r0 as int, r1 as int, c0 as int, c1 as int));
    (r0 as int, r1 as int, c0 as int, c1 as int)
}

/// Some rectangle of `urs` on digits `a` and `b` has corners `p`.
pub open spec fn listed_ab(urs: Seq<UniqueRectangle>, p: Seq<u8>, a: u8, b: u8) -> bool {
    exists|k: int| 0 <= k < urs.len() && (#[trigger] urs[k]).corners() == p && urs[k].digit_a() == a && urs[k].digit_b() == b
}

/// A rectangle across two blocks on `a` and `b` whose corners may all still take both
/// digits, one corner lacking one of them as a candidate.
pub open spec fn ur_missing(g: Grid, p: Seq<u8>, a: u8, b: u8) -> bool {
    &&& ur_shape(p)
    &&& forall|i: int| 0 <= i < 4 ==> can_hold(g, #[trigger] p[i] as int, a) && can_hold(g, p[i] as int, b)
    &&& exists|i: int| 0 <= i < 4 && !(g.has_cand(#[trigger] p[i] as int, a) && g.has_cand(p[i] as int, b))
}

/// Every such rectangle on `a` and `b` before `(r0, r1, c0, c1)` is listed in `urs`.
pub open spec fn covered_missing(g: Grid, a: u8, b: u8, urs: Seq<UniqueRectangle>, r0: int, r1: int, c0: int, c1: int) -> bool {
    forall|rr0: int, rr1: int, cc0: int, cc1: int|
        0 <= rr0 < rr1 < 9 && 0 <= cc0 < cc1 < 9 && lex_before(rr0, rr1, cc0, cc1, r0, r1, c0, c1) && #[trigger] ur_missing(
            g,
            rect_seq(rr0, rr1, cc0, cc1),
            a,
            b,
        ) ==> listed_ab(urs, rect_seq(rr0, rr1, cc0, cc1), a, b)
}

/// Listing keeps what is listed.
proof fn lemma_listed_push(urs: Seq<UniqueRectangle>, x: UniqueRectangle)
    ensures
        forall|p: Seq<u8>, a: u8, b: u8| listed_ab(urs, p, a, b) ==> #[trigger] listed_ab(urs.push(x), p, a, b),
        listed_ab(urs.push(x), x.corners(), x.digit_a(), x.digit_b()),
{
    assert forall|p: Seq<u8>, a: u8, b: u8| listed_ab(urs, p, a, b) implies #[trigger] listed_ab(urs.push(x), p, a, b) by {
        let k = choose|k: int| 0 <= k < urs.len() && (#[trigger] urs[k]).corners() == p && urs[k].digit_a() == a && urs[k].digit_b() == b;
        assert(urs.push(x)[k] == urs[k]);
    }
    assert(urs.push(x)[urs.len() as int] == x);
}

/// Listing keeps what is listed.
proof fn lemma_in_list_push(urs: Seq<UniqueRectangle>, x: UniqueRectangle)
    ensures
        forall|p: Seq<u8>| in_list(urs, p) ==> #[trigger] in_list(urs.push(x), p),
        in_list(urs.push(x), x.corners()),
{
    assert forall|p: Seq<u8>| in_list(urs, p) implies #[trigger] in_list(urs.push(x), p) by {
        let k = choose|k: int| 0 <= k < urs.len() && (#[trigger] urs[k]).corners() == p;
        assert(urs.push(x)[k] == urs[k]);
    }
    assert(urs.push(x)[urs.len() as int] == x);
}

/// Every rectangle on `a` and `b` whose four corners have both digits as candidates, over
/// pairs of rows and then pairs of columns in increasing order.
pub fn find_unique(grid: &Grid, a: u8, b: u8) -> (r: Vec<UniqueRectangle>)
    requires
        grid.wf(),
    ensures
        forall|k: int|
            0 <= k < r@.len() ==> ur_shape((#[trigger] r@[k]).corners()) && r@[k].digit_a() == a && r@[k].digit_b() == b
                && forall|i: int| 0 <= i < 4 ==> grid.has_cand(#[trigger] r@[k].corners()[i] as int, a) && grid.has_cand(
                    r@[k].corners()[i] as int,
                    b,
                ),
        forall|p: Seq<u8>| #[trigger] ur_on(*grid, p, a, b) ==> in_list(r@, p),
{
    let mut urs: Vec<UniqueRectangle> = Vec::new();
    let mut r0: u8 = 0;
    while r0 < 9
        invariant
            r0 <= 9,
            grid.wf(),
            forall|k: int|
                0 <= k < urs@.len() ==> ur_shape((#[trigger] urs@[k]).corners()) && urs@[k].digit_a() == a && urs@[k].digit_b()
                    == b && forall|i: int| 0 <= i < 4 ==> grid.has_cand(#[trigger] urs@[k].corners()[i] as int, a) && grid.has_cand(
                    urs@[k].corners()[i] as int,
                    b,
                ),
            covered(*grid, a, b, urs@, r0 as int, 0, 0, 0),
        decreases 9 - r0,
    {
        let mut r1: u8 = r0 + 1;
        while r1 < 9
            invariant
                r0 < r1 <= 9,
                grid.wf(),
                forall|k: int|
                    0 <= k < urs@.len() ==> ur_shape((#[trigger] urs@[k]).corners()) && urs@[k].digit_a() == a && urs@[k].digit_b()
                        == b && forall|i: int| 0 <= i < 4 ==> grid.has_cand(#[trigger] urs@[k].corners()[i] as int, a) && grid.has_cand(
                        urs@[k].corners()[i] as int,
                        b,
                    ),
                covered(*grid, a, b, urs@, r0 as int, r1 as int, 0, 0),
            decreases 9 - r1,
        {
            let mut c0: u8 = 0;
            while c0 < 9
                invariant
                    c0 <= 9,
                    r0 < r1 < 9,
                    grid.wf(),
                    forall|k: int|
                        0 <= k < urs@.len() ==> ur_shape((#[trigger] urs@[k]).corners()) && urs@[k].digit_a() == a
                            && urs@[k].digit_b() == b && forall|i: int|
                            0 <= i < 4 ==> grid.has_cand(#[trigger] urs@[k].corners()[i] as int, a) && grid.has_cand(
                                urs@[k].corners()[i] as int,
                                b,
                            ),
                    covered(*grid, a, b, urs@, r0 as int, r1 as int, c0 as int, 0),
                decreases 9 - c0,
            {
                let mut c1: u8 = c0 + 1;
                while c1 < 9
                    invariant
                        c0 < c1 <= 9,
                        r0 < r1 < 9,
                        grid.wf(),
                        forall|k: int|
                            0 <= k < urs@.len() ==> ur_shape((#[trigger] urs@[k]).corners()) && urs@[k].digit_a() == a
                                && urs@[k].digit_b() == b && forall|i: int|
                                0 <= i < 4 ==> grid.has_cand(#[trigger] urs@[k].corners()[i] as int, a) && grid.has_cand(
                                    urs@[k].corners()[i] as int,
                                    b,
                                ),
                        covered(*grid, a, b, urs@, r0 as int, r1 as int, c0 as int, c1 as int),
                    decreases 9 - c1,
                {
                    let (cells, two_blocks) = rectangle(r0, r1, c0, c1);
                    if two_blocks {
                        let mut all = true;
                        let mut i: usize = 0;
                        while i < 4
                            invariant
                                i <= 4,
                                grid.wf(),
                                forall|q: int| 0 <= q < 4 ==> #[trigger] cells@[q] < 81,
                                all == forall|q: int| 0 <= q < i ==> grid.has_cand(#[trigger] cells@[q] as int, a) && grid.has_cand(
                                    cells@[q] as int,
                                    b,
                                ),
                            decreases 4 - i,
                        {
                            if !grid.cell_has_candidate(cells[i], a) || !grid.cell_has_candidate(cells[i], b) {
                                all = false;
                            }
                            i = i + 1;
                        }
                        if all {
                            let ur = UniqueRectangle::new(cells, a, b);
                            proof {
                                lemma_in_list_push(urs@, ur);
                            }
                            urs.push(ur);
                        }
                    }
                    proof {
                        assert(cells@ == rect_seq(r0 as int, r1 as int, c0 as int, c1 as int));
                        assert(covered(*grid, a, b, urs@, r0 as int, r1 as int, c0 as int, c1 + 1)) by {
                            assert forall|rr0: int, rr1: int, cc0: int, cc1: int|
                                0 <= rr0 < rr1 < 9 && 0 <= cc0 < cc1 < 9 && lex_before(rr0, rr1, cc0, cc1, r0 as int, r1 as int, c0 as int, c1 + 1)
                                    && #[trigger] ur_on(*grid, rect_seq(rr0, rr1, cc0, cc1), a, b) implies in_list(
                                urs@,
                                rect_seq(rr0, rr1, cc0, cc1),
                            ) by {
                                if rr0 == r0 && rr1 == r1 && cc0 == c0 && cc1 == c1 {
                                    assert(ur_shape(cells@));
                                    assert forall|q: int| 0 <= q < 4 implies grid.has_cand(#[trigger] cells@[q] as int, a) && grid.has_cand(
                                        cells@[q] as int,
                                        b,
                                    ) by {
                                        assert(rect_seq(rr0, rr1, cc0, cc1)[q] == cells@[q]);
                                    }
                                }
                            }
                        }
                    }
                    c1 = c1 + 1;
                }
                c0 = c0 + 1;
            }
            r1 = r1 + 1;
        }
        r0 = r0 + 1;
    }
    proof {
        assert forall|p: Seq<u8>| #[trigger] ur_on(*grid, p, a, b) implies in_list(urs@, p) by {
            let q = lemma_rect_coords(p);
            assert(ur_on(*grid, rect_seq(q.0, q.1, q.2, q.3), a, b));
        }
    }
    urs
}

/// The corners of each rectangle are cells of the grid.
pub open spec fn corners_ok(rects: Seq<UniqueRectangle>) -> bool {
    forall|k: int, i: int| 0 <= k < rects.len() && 0 <= i < 4 ==> (#[trigger] rects[k].corners()[i]) < 81
}

/// Each rectangle has empty corners, two blocks, and two different digits.
pub open spec fn all_floors(g: Grid, rects: Seq<UniqueRectangle>) -> bool {
    forall|k: int| 0 <= k < rects.len() ==> ur_floor(g, (#[trigger] rects[k]).corners(), rects[k].digit_a(), rects[k].digit_b())
}

/// `s` is a step of type `t` whose removals one of the rectangles shows.
pub open spec fn from_rects(g: Grid, rects: Seq<UniqueRectangle>, t: UniqueType, s: Step) -> bool {
    &&& s matches Step::UniqueStep(u)
    &&& u.unique_type == t
    &&& u.remove_candidates@.len() > 0
    &&& exists|k: int|
        0 <= k < rects.len() && shown(g, t, u.remove_candidates@, (#[trigger] rects[k]).corners(), rects[k].digit_a(), rects[k].digit_b())
}

/// A step shown by a rectangle with empty corners is a uniqueness step of the grid.
pub proof fn lemma_from_rects(g: Grid, rects: Seq<UniqueRectangle>, t: UniqueType, s: Step)
    requires
        all_floors(g, rects),
        from_rects(g, rects, t, s),
    ensures
        s.pattern(g),
        s is UniqueStep,
{
    let u = s->UniqueStep_0;
    let k = choose|k: int|
        0 <= k < rects.len() && shown(g, t, u.remove_candidates@, (#[trigger] rects[k]).corners(), rects[k].digit_a(), rects[k].digit_b());
    let r = rects[k];
    assert(ur_floor(g, r.corners(), r.digit_a(), r.digit_b()));
    assert(shown(g, u.unique_type, u.remove_candidates@, r.corners(), r.digit_a(), r.digit_b()));
}

/// The steps of one kind drawn from rectangles with empty corners are uniqueness steps.
pub proof fn lemma_grows_from_rects(g: Grid, rects: Seq<UniqueRectangle>, t: UniqueType, start: Seq<Step>, now: Seq<Step>)
    requires
        all_floors(g, rects),
        grows(start, now, |s: Step| from_rects(g, rects, t, s)),
    ensures
        grows(start, now, |s: Step| s.pattern(g) && s is UniqueStep),
{
    assert forall|i: int| start.len() <= i < now.len() implies #[trigger] now[i].pattern(g) && now[i] is UniqueStep by {
        lemma_from_rects(g, rects, t, now[i]);
    }
}

/// Whether `l` holds candidate `(c, v)`.
fn holds_cand(l: &Vec<Candidate>, c: u8, v: u8) -> (r: bool)
    ensures
        r == l@.contains(Candidate(c, v)),
{
    let mut i: usize = 0;
    while i < l.len()
        invariant
            i <= l@.len(),
            forall|k: int| 0 <= k < i ==> l@[k] != Candidate(c, v),
        decreases l@.len() - i,
    {
        if l[i].0 == c && l[i].1 == v {
            assert(l@[i as int] == Candidate(c, v));
            return true;
        }
        i = i + 1;
    }
    false
}

/// The candidates of `want` still in the grid, ordered by cell and digit, each once.
pub(crate) fn present_sorted(grid: &Grid, want: &Vec<Candidate>) -> (r: Vec<Candidate>)
    requires
        grid.wf(),
    ensures
        present_of(*grid, r@, want@),
{
    proof {
        grid.lemma_wf();
    }
    let mut r: Vec<Candidate> = Vec::new();
    let mut c: u8 = 0;
    while c < 81
        invariant
            c <= 81,
            grid.wf(),
            sorted_cands(r@),
            forall|i: int| 0 <= i < r@.len() ==> want@.contains(#[trigger] r@[i]) && r@[i].0 < c && grid.has_cand(r@[i].0 as int, r@[i].1),
            forall|i: int|
                0 <= i < want@.len() && (#[trigger] want@[i]).0 < c && grid.has_cand(want@[i].0 as int, want@[i].1) ==> r@.contains(want@[i]),
        decreases 81 - c,
    {
        proof {
            grid.lemma_wf();
        }
        let mut v: u8 = 1;
        while v <= 9
            invariant
                1 <= v <= 10,
                c < 81,
                grid.wf(),
                sorted_cands(r@),
                forall|i: int|
                    0 <= i < r@.len() ==> want@.contains(#[trigger] r@[i]) && (r@[i].0 < c || (r@[i].0 == c && r@[i].1 < v))
                        && grid.has_cand(r@[i].0 as int, r@[i].1),
                forall|i: int|
                    0 <= i < want@.len() && ((#[trigger] want@[i]).0 < c || (want@[i].0 == c && want@[i].1 < v)) && grid.has_cand(
                        want@[i].0 as int,
                        want@[i].1,
                    ) ==> r@.contains(want@[i]),
            decreases 10 - v,
        {
            if grid.cell_has_candidate(c, v) && holds_cand(want, c, v) {
                let ghost before = r@;
                r.push(Candidate(c, v));
                proof {
                    assert(r@[before.len() as int] == Candidate(c, v));
                    assert forall|i: int|
                        0 <= i < want@.len() && ((#[trigger] want@[i]).0 < c || (want@[i].0 == c && want@[i].1 < v + 1))
                            && grid.has_cand(want@[i].0 as int, want@[i].1) implies r@.contains(want@[i]) by {
                        if want@[i].0 == c && want@[i].1 == v {
                            assert(r@[before.len() as int] == want@[i]);
                        } else {
                            let j = choose|j: int| 0 <= j < before.len() && before[j] == want@[i];
                            assert(r@[j] == want@[i]);
                        }
                    }
                }
            }
            v = v + 1;
        }
        proof {
            grid.lemma_wf();
            assert forall|i: int|
                0 <= i < want@.len() && (#[trigger] want@[i]).0 < c + 1 && grid.has_cand(want@[i].0 as int, want@[i].1) implies r@.contains(
                want@[i],
            ) by {
                if want@[i].0 == c {
                    assert(grid.cands(c as int).contains(want@[i].1));
                }
            }
        }
        c = c + 1;
    }
    r
}

/// `l` without the candidates listed in `rm`, in order.
pub open spec fn drop_listed(l: Seq<Candidate>, rm: Seq<Candidate>) -> Seq<Candidate>
    decreases l.len(),
{
    if l.len() == 0 {
        l
    } else if rm.contains(l.last()) {
        drop_listed(l.drop_last(), rm)
    } else {
        drop_listed(l.drop_last(), rm).push(l.last())
    }
}

/// The candidates of `l` not listed in `rm`, in order.
pub(crate) fn without_listed(l: &Vec<Candidate>, rm: &Vec<Candidate>) -> (r: Vec<Candidate>)
    ensures
        r@ == drop_listed(l@, rm@),
{
    let mut r: Vec<Candidate> = Vec::new();
    let mut i: usize = 0;
    while i < l.len()
        invariant
            i <= l@.len(),
            r@ == drop_listed(l@.subrange(0, i as int), rm@),
        decreases l@.len() - i,
    {
        let ghost pre = l@.subrange(0, i as int + 1);
        assert(pre.drop_last() =~= l@.subrange(0, i as int));
        if !holds_cand(rm, l[i].0, l[i].1) {
            r.push(l[i]);
        }
        i = i + 1;
    }
    assert(l@.subrange(0, l@.len() as int) =~= l@);
    r
}

/// The indices of the corners with more than `limit` candidates, in increasing order.
pub(crate) fn corners_over(grid: &Grid, cells: [u8; 4], limit: u8) -> (r: Vec<usize>)
    requires
        grid.wf(),
        forall|i: int| 0 <= i < 4 ==> #[trigger] cells@[i] < 81,
    ensures
        forall|x: int, y: int| 0 <= x < y < r@.len() ==> r@[x] < r@[y],
        forall|x: int| 0 <= x < r@.len() ==> r@[x] < 4,
        forall|j: int| 0 <= j < 4 ==> (r@.contains(j as usize) <==> grid.cands(#[trigger] cells@[j] as int).len() > limit),
{
    let mut r: Vec<usize> = Vec::new();
    let mut i: usize = 0;
    while i < 4
        invariant
            i <= 4,
            grid.wf(),
            forall|q: int| 0 <= q < 4 ==> #[trigger] cells@[q] < 81,
            forall|x: int, y: int| 0 <= x < y < r@.len() ==> r@[x] < r@[y],
            forall|x: int| 0 <= x < r@.len() ==> r@[x] < i,
            forall|j: int| 0 <= j < i ==> (r@.contains(j as usize) <==> grid.cands(#[trigger] cells@[j] as int).len() > limit),
        decreases 4 - i,
    {
        let n = grid.get_cell_candidate(cells[i]).count();
        let ghost before = r@;
        if n > limit {
            r.push(i);
            assert(r@[r@.len() - 1] == i);
        }
        assert forall|j: int| 0 <= j < i + 1 implies (r@.contains(j as usize) <==> grid.cands(#[trigger] cells@[j] as int).len() > limit) by {
            if j < i {
                if before.contains(j as usize) {
                    let x = choose|x: int| 0 <= x < before.len() && before[x] == j as usize;
                    assert(r@[x] == j as usize);
                }
                if r@.contains(j as usize) {
                    let x = choose|x: int| 0 <= x < r@.len() && r@[x] == j as usize;
                    assert(x < before.len());
                    assert(before[x] == j as usize);
                }
            } else {
                if r@.contains(j as usize) {
                    let x = choose|x: int| 0 <= x < r@.len() && r@[x] == j as usize;
                    assert(x == before.len());
                }
            }
        }
        i = i + 1;
    }
    r
}

/// Keeps the removals still in the grid, ordered, and hands the step on unless it
/// removes nothing or repeats earlier removals; reports whether the accumulator is done.
pub(crate) fn add_unique_step<A: StepAccumulator>(
    grid: &Grid,
    step: UniqueStep,
    seen: &mut Vec<Vec<Candidate>>,
    acc: &mut A,
    Ghost(start): Ghost<Seq<Step>>,
    Ghost(ok): Ghost<spec_fn(Step) -> bool>,
) -> (finish: bool)
    requires
        grid.wf(),
        grows(start, old(acc).recorded(), ok),
        forall|s: Step|
            (s matches Step::UniqueStep(u) && u.unique_type == step.unique_type && u.remove_candidates@.len() > 0
                && present_of(*grid, u.remove_candidates@, step.remove_candidates@)) ==> #[trigger] ok(s),
    ensures
        grows(start, final(acc).recorded(), ok),
        final(acc).stops_at_first() == old(acc).stops_at_first(),
        finish ==> final(acc).stops_at_first(),
        (exists|i: int| 0 <= i < step.remove_candidates@.len() && (#[trigger] step.remove_candidates@[i]).0 < 81 && grid.has_cand(
            step.remove_candidates@[i].0 as int,
            step.remove_candidates@[i].1,
        )) && (forall|i: int|
            0 <= i < old(seen)@.len() ==> !present_of(*grid, (#[trigger] old(seen)@[i])@, step.remove_candidates@)) ==> progressed(
            old(acc).recorded(),
            final(acc).recorded(),
            old(acc).stops_at_first(),
        ) && finish == old(acc).stops_at_first(),
        !(exists|i: int| 0 <= i < step.remove_candidates@.len() && (#[trigger] step.remove_candidates@[i]).0 < 81 && grid.has_cand(
            step.remove_candidates@[i].0 as int,
            step.remove_candidates@[i].1,
        )) ==> final(acc).recorded() == old(acc).recorded() && !finish,
        old(acc).recorded().len() <= final(acc).recorded().len(),
        final(seen)@ == old(seen)@ || progressed(old(acc).recorded(), final(acc).recorded(), old(acc).stops_at_first()),
        finish ==> progressed(old(acc).recorded(), final(acc).recorded(), old(acc).stops_at_first()),
{
    let rm = present_sorted(grid, &step.remove_candidates);
    proof {
        if exists|i: int| 0 <= i < step.remove_candidates@.len() && (#[trigger] step.remove_candidates@[i]).0 < 81 && grid.has_cand(
            step.remove_candidates@[i].0 as int,
            step.remove_candidates@[i].1,
        ) {
            let i = choose|i: int| 0 <= i < step.remove_candidates@.len() && (#[trigger] step.remove_candidates@[i]).0 < 81 && grid.has_cand(
                step.remove_candidates@[i].0 as int,
                step.remove_candidates@[i].1,
            );
            assert(rm@.contains(step.remove_candidates@[i]));
        } else if rm@.len() > 0 {
            assert(step.remove_candidates@.contains(rm@[0]));
            let i = choose|i: int| 0 <= i < step.remove_candidates@.len() && step.remove_candidates@[i] == rm@[0];
        }
        if exists|i: int| 0 <= i < seen@.len() && (#[trigger] seen@[i])@ == rm@ {
            let i = choose|i: int| 0 <= i < seen@.len() && (#[trigger] seen@[i])@ == rm@;
            assert(present_of(*grid, seen@[i]@, step.remove_candidates@));
        }
    }
    if rm.len() == 0 || seen_before(seen, &rm) {
        return false;
    }
    seen.push(clone_cand_list(&rm));
    let out = UniqueStep {
        unique_type: step.unique_type,
        highlight_candidates: step.highlight_candidates,
        remove_candidates: rm,
        fin_candidates: step.fin_candidates,
    };
    report(acc, Step::UniqueStep(out), Ghost(start), Ghost(ok))
}

/// The rectangles of [`find_unique`] are unique-rectangle floors when the digits differ.
proof fn lemma_found_floors(g: Grid, found: Seq<UniqueRectangle>, a: u8, b: u8)
    requires
        g.wf(),
        1 <= a <= 9,
        1 <= b <= 9,
        a != b,
        forall|k: int|
            0 <= k < found.len() ==> ur_shape((#[trigger] found[k]).corners()) && found[k].digit_a() == a && found[k].digit_b() == b
                && forall|i: int| 0 <= i < 4 ==> g.has_cand(#[trigger] found[k].corners()[i] as int, a) && g.has_cand(
                    found[k].corners()[i] as int,
                    b,
                ),
    ensures
        all_floors(g, found),
        corners_ok(found),
{
    assert forall|k: int| 0 <= k < found.len() implies ur_floor(g, (#[trigger] found[k]).corners(), found[k].digit_a(), found[k].digit_b()) by {
        assert forall|i: int| 0 <= i < 4 implies g.value(#[trigger] found[k].corners()[i] as int) == 0 by {
            assert(g.has_cand(found[k].corners()[i] as int, a));
        }
    }
    assert forall|k: int, i: int| 0 <= k < found.len() && 0 <= i < 4 implies (#[trigger] found[k].corners()[i]) < 81 by {
        assert(ur_shape(found[k].corners()));
    }
}

/// The rectangles of every pair of digits `a < b`, pair by pair in increasing order,
/// each as [`find_unique`] lists them.
pub fn find_unique_rectangles(grid: &Grid) -> (r: Vec<UniqueRectangle>)
    requires
        grid.wf(),
    ensures
        all_floors(*grid, r@),
        corners_ok(r@),
        forall|k: int|
            0 <= k < r@.len() ==> (#[trigger] r@[k]).digit_a() < r@[k].digit_b() && forall|i: int|
                0 <= i < 4 ==> grid.has_cand(#[trigger] r@[k].corners()[i] as int, r@[k].digit_a()) && grid.has_cand(
                    r@[k].corners()[i] as int,
                    r@[k].digit_b(),
                ),
        forall|a: u8, b: u8, p: Seq<u8>| 1 <= a < b <= 9 && #[trigger] ur_on(*grid, p, a, b) ==> listed_ab(r@, p, a, b),
{
    let mut values: Vec<u8> = Vec::new();
    let mut d: u8 = 1;
    while d <= 9
        invariant
            1 <= d <= 10,
            values@.len() == d - 1,
            forall|i: int| 0 <= i < values@.len() ==> #[trigger] values@[i] == i + 1,
        decreases 10 - d,
    {
        values.push(d);
        d = d + 1;
    }
    assert(increasing(values@));
    let ghost vals = values@;
    let pairs = create_permutations(values, 2);
    let mut urs: Vec<UniqueRectangle> = Vec::new();
    let mut j: usize = 0;
    while j < pairs.len()
        invariant
            j <= pairs@.len(),
            grid.wf(),
            forall|i: int| 0 <= i < vals.len() ==> #[trigger] vals[i] == i + 1,
            vals.len() == 9,
            forall|q: int| 0 <= q < pairs@.len() ==> picks(vals, #[trigger] pairs@[q]@, 2),
            all_floors(*grid, urs@),
            corners_ok(urs@),
            forall|k: int|
                0 <= k < urs@.len() ==> (#[trigger] urs@[k]).digit_a() < urs@[k].digit_b() && forall|i: int|
                    0 <= i < 4 ==> grid.has_cand(#[trigger] urs@[k].corners()[i] as int, urs@[k].digit_a()) && grid.has_cand(
                        urs@[k].corners()[i] as int,
                        urs@[k].digit_b(),
                    ),
            forall|q: int, p: Seq<u8>|
                0 <= q < j && #[trigger] ur_on(*grid, p, pairs@[q]@[0], pairs@[q]@[1]) ==> listed_ab(
                    urs@,
                    p,
                    pairs@[q]@[0],
                    pairs@[q]@[1],
                ),
        decreases pairs@.len() - j,
    {
        assert(picks(vals, pairs@[j as int]@, 2));
        let a = pairs[j][0];
        let b = pairs[j][1];
        assert(vals.contains(a) && vals.contains(b));
        let found = find_unique(grid, a, b);
        proof {
            lemma_found_floors(*grid, found@, a, b);
        }
        let mut i: usize = 0;
        while i < found.len()
            invariant
                i <= found@.len(),
                grid.wf(),
                a < b,
                all_floors(*grid, found@),
                corners_ok(found@),
                forall|k: int|
                    0 <= k < found@.len() ==> ur_shape((#[trigger] found@[k]).corners()) && found@[k].digit_a() == a
                        && found@[k].digit_b() == b && forall|q: int|
                        0 <= q < 4 ==> grid.has_cand(#[trigger] found@[k].corners()[q] as int, a) && grid.has_cand(
                            found@[k].corners()[q] as int,
                            b,
                        ),
                all_floors(*grid, urs@),
                corners_ok(urs@),
                forall|k: int|
                    0 <= k < urs@.len() ==> (#[trigger] urs@[k]).digit_a() < urs@[k].digit_b() && forall|q: int|
                        0 <= q < 4 ==> grid.has_cand(#[trigger] urs@[k].corners()[q] as int, urs@[k].digit_a()) && grid.has_cand(
                            urs@[k].corners()[q] as int,
                            urs@[k].digit_b(),
                        ),
                j < pairs@.len(),
                a == pairs@[j as int]@[0] && b == pairs@[j as int]@[1],
                forall|q: int, p: Seq<u8>|
                    0 <= q < j && #[trigger] ur_on(*grid, p, pairs@[q]@[0], pairs@[q]@[1]) ==> listed_ab(
                        urs@,
                        p,
                        pairs@[q]@[0],
                        pairs@[q]@[1],
                    ),
                forall|k: int| 0 <= k < i ==> listed_ab(urs@, (#[trigger] found@[k]).corners(), a, b),
            decreases found@.len() - i,
        {
            let ghost before = urs@;
            urs.push(found[i]);
            proof {
                lemma_listed_push(before, found@[i as int]);
                assert(urs@[before.len() as int] == found@[i as int]);
                assert forall|k: int| 0 <= k < urs@.len() implies ur_floor(
                    *grid,
                    (#[trigger] urs@[k]).corners(),
                    urs@[k].digit_a(),
                    urs@[k].digit_b(),
                ) by {
                    if k < before.len() {
                        assert(urs@[k] == before[k]);
                    }
                }
                assert forall|k: int, q: int| 0 <= k < urs@.len() && 0 <= q < 4 implies (#[trigger] urs@[k].corners()[q]) < 81 by {
                    if k < before.len() {
                        assert(urs@[k] == before[k]);
                    }
                }
            }
            i = i + 1;
        }
        proof {
            assert forall|q: int, p: Seq<u8>|
                0 <= q < j + 1 && #[trigger] ur_on(*grid, p, pairs@[q]@[0], pairs@[q]@[1]) implies listed_ab(
                    urs@,
                    p,
                    pairs@[q]@[0],
                    pairs@[q]@[1],
                ) by {
                if q == j {
                    assert(ur_on(*grid, p, a, b));
                    let k = choose|k: int| 0 <= k < found@.len() && (#[trigger] found@[k]).corners() == p;
                    assert(listed_ab(urs@, found@[k].corners(), a, b));
                }
            }
        }
        j = j + 1;
    }
    proof {
        assert forall|a: u8, b: u8, p: Seq<u8>| 1 <= a < b <= 9 && #[trigger] ur_on(*grid, p, a, b) implies listed_ab(urs@, p, a, b) by {
            let ab = seq![a, b];
            assert(vals[a - 1] == a && vals[b - 1] == b);
            assert(picks(vals, ab, 2));
            let q = choose|q: int| 0 <= q < pairs@.len() && pairs@[q]@ == ab;
            assert(ur_on(*grid, p, pairs@[q]@[0], pairs@[q]@[1]));
        }
    }
    urs
}

/// Cell `c` is empty and may still take `v`: it has the candidate, or no given peer
/// holds `v`.
pub open spec fn can_hold(g: Grid, c: int, v: u8) -> bool {
    &&& g.value(c) == 0
    &&& g.has_cand(c, v) || forall|b: int| #[trigger] sees(c, b) && g.given(b) ==> g.value(b) != v
}

fn can_hold_ur_candidate(grid: &Grid, cell: u8, value: u8) -> (r: bool)
    requires
        grid.wf(),
        cell < 81,
    ensures
        r == can_hold(*grid, cell as int, value),
{
    if grid.get_value(cell) != 0 {
        return false;
    }
    if grid.cell_has_candidate(cell, value) {
        return true;
    }
    let buddies = crate::grid_constant::get_cell_buddies(cell);
    let mut b: u8 = 0;
    while b < 81
        invariant
            b <= 81,
            cell < 81,
            grid.wf(),
            buddies@ == crate::grid_constant::peers(cell as int),
            grid.value(cell as int) == 0,
            !grid.has_cand(cell as int, value),
            forall|x: int| 0 <= x < b && #[trigger] sees(cell as int, x) && grid.given(x) ==> grid.value(x) != value,
        decreases 81 - b,
    {
        if buddies.contains(b) && grid.cell_is_given(b) && grid.get_value(b) == value {
            assert(sees(cell as int, b as int));
            return false;
        }
        b = b + 1;
    }
    true
}

/// Each corner may take both digits.
fn corners_can_hold(grid: &Grid, cells: [u8; 4], a: u8, b: u8) -> (r: bool)
    requires
        grid.wf(),
        forall|i: int| 0 <= i < 4 ==> #[trigger] cells@[i] < 81,
    ensures
        r == forall|i: int| 0 <= i < 4 ==> can_hold(*grid, #[trigger] cells@[i] as int, a) && can_hold(*grid, cells@[i] as int, b),
{
    let mut i: usize = 0;
    while i < 4
        invariant
            i <= 4,
            grid.wf(),
            forall|q: int| 0 <= q < 4 ==> #[trigger] cells@[q] < 81,
            forall|q: int| 0 <= q < i ==> can_hold(*grid, #[trigger] cells@[q] as int, a) && can_hold(*grid, cells@[q] as int, b),
        decreases 4 - i,
    {
        if !can_hold_ur_candidate(grid, cells[i], a) || !can_hold_ur_candidate(grid, cells[i], b) {
            return false;
        }
        i = i + 1;
    }
    true
}

/// Some corner lacks one of the digits as a candidate.
fn corner_lacks(grid: &Grid, cells: [u8; 4], a: u8, b: u8) -> (r: bool)
    requires
        grid.wf(),
        forall|i: int| 0 <= i < 4 ==> #[trigger] cells@[i] < 81,
    ensures
        r == exists|i: int| 0 <= i < 4 && !(grid.has_cand(#[trigger] cells@[i] as int, a) && grid.has_cand(cells@[i] as int, b)),
{
    let mut i: usize = 0;
    while i < 4
        invariant
            i <= 4,
            grid.wf(),
            forall|q: int| 0 <= q < 4 ==> #[trigger] cells@[q] < 81,
            forall|q: int| 0 <= q < i ==> grid.has_cand(#[trigger] cells@[q] as int, a) && grid.has_cand(cells@[q] as int, b),
        decreases 4 - i,
    {
        if !grid.cell_has_candidate(cells[i], a) || !grid.cell_has_candidate(cells[i], b) {
            assert(!(grid.has_cand(cells@[i as int] as int, a) && grid.has_cand(cells@[i as int] as int, b)));
            return true;
        }
        i = i + 1;
    }
    false
}

/// The rectangles on digits `a < b` whose corners may all take both digits while some
/// corner has lost one of them as a candidate; by digit pair, then rows, then columns.
pub fn find_unique_rectangles_with_missing_candidates(grid: &Grid) -> (r: Vec<UniqueRectangle>)
    requires
        grid.wf(),
    ensures
        all_floors(*grid, r@),
        corners_ok(r@),
        forall|k: int|
            0 <= k < r@.len() ==> (#[trigger] r@[k]).digit_a() < r@[k].digit_b() && (forall|i: int|
                0 <= i < 4 ==> can_hold(*grid, #[trigger] r@[k].corners()[i] as int, r@[k].digit_a()) && can_hold(
                    *grid,
                    r@[k].corners()[i] as int,
                    r@[k].digit_b(),
                )) && exists|i: int|
                0 <= i < 4 && !(grid.has_cand(#[trigger] r@[k].corners()[i] as int, r@[k].digit_a()) && grid.has_cand(
                    r@[k].corners()[i] as int,
                    r@[k].digit_b(),
                )),
        forall|a: u8, b: u8, p: Seq<u8>| 1 <= a < b <= 9 && #[trigger] ur_missing(*grid, p, a, b) ==> listed_ab(r@, p, a, b),
{
    let mut values: Vec<u8> = Vec::new();
    let mut d: u8 = 1;
    while d <= 9
        invariant
            1 <= d <= 10,
            values@.len() == d - 1,
            forall|i: int| 0 <= i < values@.len() ==> #[trigger] values@[i] == i + 1,
        decreases 10 - d,
    {
        values.push(d);
        d = d + 1;
    }
    assert(increasing(values@));
    let ghost vals = values@;
    let pairs = create_permutations(values, 2);
    let mut urs: Vec<UniqueRectangle> = Vec::new();
    let mut j: usize = 0;
    while j < pairs.len()
        invariant
            j <= pairs@.len(),
            grid.wf(),
            forall|i: int| 0 <= i < vals.len() ==> #[trigger] vals[i] == i + 1,
            vals.len() == 9,
            forall|q: int| 0 <= q < pairs@.len() ==> picks(vals, #[trigger] pairs@[q]@, 2),
            all_floors(*grid, urs@),
            corners_ok(urs@),
            forall|k: int|
                0 <= k < urs@.len() ==> (#[trigger] urs@[k]).digit_a() < urs@[k].digit_b() && (forall|i: int|
                    0 <= i < 4 ==> can_hold(*grid, #[trigger] urs@[k].corners()[i] as int, urs@[k].digit_a()) && can_hold(
                        *grid,
                        urs@[k].corners()[i] as int,
                        urs@[k].digit_b(),
                    )) && exists|i: int|
                    0 <= i < 4 && !(grid.has_cand(#[trigger] urs@[k].corners()[i] as int, urs@[k].digit_a()) && grid.has_cand(
                        urs@[k].corners()[i] as int,
                        urs@[k].digit_b(),
                    )),
            forall|q: int, p: Seq<u8>|
                0 <= q < j && #[trigger] ur_missing(*grid, p, pairs@[q]@[0], pairs@[q]@[1]) ==> listed_ab(
                    urs@,
                    p,
                    pairs@[q]@[0],
                    pairs@[q]@[1],
                ),
        decreases pairs@.len() - j,
    {
        assert(picks(vals, pairs@[j as int]@, 2));
        let a = pairs[j][0];
        let b = pairs[j][1];
        assert(vals.contains(a) && vals.contains(b));
        let mut r0: u8 = 0;
        while r0 < 9
            invariant
                r0 <= 9,
                grid.wf(),
                1 <= a < b <= 9,
                all_floors(*grid, urs@),
                corners_ok(urs@),
                forall|k: int|
                    0 <= k < urs@.len() ==> (#[trigger] urs@[k]).digit_a() < urs@[k].digit_b() && (forall|i: int|
                        0 <= i < 4 ==> can_hold(*grid, #[trigger] urs@[k].corners()[i] as int, urs@[k].digit_a()) && can_hold(
                            *grid,
                            urs@[k].corners()[i] as int,
                            urs@[k].digit_b(),
                        )) && exists|i: int|
                        0 <= i < 4 && !(grid.has_cand(#[trigger] urs@[k].corners()[i] as int, urs@[k].digit_a())
                            && grid.has_cand(urs@[k].corners()[i] as int, urs@[k].digit_b())),
                j < pairs@.len(),
                a == pairs@[j as int]@[0] && b == pairs@[j as int]@[1],
                forall|q: int, p: Seq<u8>|
                0 <= q < j && #[trigger] ur_missing(*grid, p, pairs@[q]@[0], pairs@[q]@[1]) ==> listed_ab(
                    urs@,
                    p,
                    pairs@[q]@[0],
                    pairs@[q]@[1],
                ),
                covered_missing(*grid, a, b, urs@, r0 as int, 0, 0, 0),
            decreases 9 - r0,
        {
            let mut r1: u8 = r0 + 1;
            while r1 < 9
                invariant
                    r0 < r1 <= 9,
                    grid.wf(),
                    1 <= a < b <= 9,
                    all_floors(*grid, urs@),
                    corners_ok(urs@),
                    forall|k: int|
                        0 <= k < urs@.len() ==> (#[trigger] urs@[k]).digit_a() < urs@[k].digit_b() && (forall|i: int|
                            0 <= i < 4 ==> can_hold(*grid, #[trigger] urs@[k].corners()[i] as int, urs@[k].digit_a())
                                && can_hold(*grid, urs@[k].corners()[i] as int, urs@[k].digit_b())) && exists|i: int|
                            0 <= i < 4 && !(grid.has_cand(#[trigger] urs@[k].corners()[i] as int, urs@[k].digit_a())
                                && grid.has_cand(urs@[k].corners()[i] as int, urs@[k].digit_b())),
                j < pairs@.len(),
                a == pairs@[j as int]@[0] && b == pairs@[j as int]@[1],
                forall|q: int, p: Seq<u8>|
                0 <= q < j && #[trigger] ur_missing(*grid, p, pairs@[q]@[0], pairs@[q]@[1]) ==> listed_ab(
                    urs@,
                    p,
                    pairs@[q]@[0],
                    pairs@[q]@[1],
                ),
                covered_missing(*grid, a, b, urs@, r0 as int, r1 as int, 0, 0),
                decreases 9 - r1,
            {
                let mut c0: u8 = 0;
                while c0 < 9
                    invariant
                        c0 <= 9,
                        r0 < r1 < 9,
                        grid.wf(),
                        1 <= a < b <= 9,
                        all_floors(*grid, urs@),
                        corners_ok(urs@),
                        forall|k: int|
                            0 <= k < urs@.len() ==> (#[trigger] urs@[k]).digit_a() < urs@[k].digit_b() && (forall|i: int|
                                0 <= i < 4 ==> can_hold(*grid, #[trigger] urs@[k].corners()[i] as int, urs@[k].digit_a())
                                    && can_hold(*grid, urs@[k].corners()[i] as int, urs@[k].digit_b())) && exists|i: int|
                                0 <= i < 4 && !(grid.has_cand(#[trigger] urs@[k].corners()[i] as int, urs@[k].digit_a())
                                    && grid.has_cand(urs@[k].corners()[i] as int, urs@[k].digit_b())),
                j < pairs@.len(),
                a == pairs@[j as int]@[0] && b == pairs@[j as int]@[1],
                forall|q: int, p: Seq<u8>|
                0 <= q < j && #[trigger] ur_missing(*grid, p, pairs@[q]@[0], pairs@[q]@[1]) ==> listed_ab(
                    urs@,
                    p,
                    pairs@[q]@[0],
                    pairs@[q]@[1],
                ),
                covered_missing(*grid, a, b, urs@, r0 as int, r1 as int, c0 as int, 0),
                    decreases 9 - c0,
                {
                    let mut c1: u8 = c0 + 1;
                    while c1 < 9
                        invariant
                            c0 < c1 <= 9,
                            r0 < r1 < 9,
                            grid.wf(),
                            1 <= a < b <= 9,
                            all_floors(*grid, urs@),
                            corners_ok(urs@),
                            forall|k: int|
                                0 <= k < urs@.len() ==> (#[trigger] urs@[k]).digit_a() < urs@[k].digit_b() && (forall|i: int|
                                    0 <= i < 4 ==> can_hold(*grid, #[trigger] urs@[k].corners()[i] as int, urs@[k].digit_a())
                                        && can_hold(*grid, urs@[k].corners()[i] as int, urs@[k].digit_b())) && exists|i: int|
                                    0 <= i < 4 && !(grid.has_cand(#[trigger] urs@[k].corners()[i] as int, urs@[k].digit_a())
                                        && grid.has_cand(urs@[k].corners()[i] as int, urs@[k].digit_b())),
                j < pairs@.len(),
                a == pairs@[j as int]@[0] && b == pairs@[j as int]@[1],
                forall|q: int, p: Seq<u8>|
                0 <= q < j && #[trigger] ur_missing(*grid, p, pairs@[q]@[0], pairs@[q]@[1]) ==> listed_ab(
                    urs@,
                    p,
                    pairs@[q]@[0],
                    pairs@[q]@[1],
                ),
                covered_missing(*grid, a, b, urs@, r0 as int, r1 as int, c0 as int, c1 as int),
                        decreases 9 - c1,
                    {
                        let (cells, two_blocks) = rectangle(r0, r1, c0, c1);
                        if two_blocks && corners_can_hold(grid, cells, a, b) && corner_lacks(grid, cells, a, b) {
                            let ghost before = urs@;
                            let ur = UniqueRectangle::new(cells, a, b);
                            urs.push(ur);
                            proof {
                                lemma_listed_push(before, ur);
                                assert(urs@[before.len() as int] == ur);
                                assert(ur_floor(*grid, ur.corners(), a, b)) by {
                                    assert forall|i: int| 0 <= i < 4 implies grid.value(#[trigger] ur.corners()[i] as int) == 0 by {
                                        assert(can_hold(*grid, cells@[i] as int, a));
                                    }
                                }
                                assert forall|k: int| 0 <= k < urs@.len() implies ur_floor(
                                    *grid,
                                    (#[trigger] urs@[k]).corners(),
                                    urs@[k].digit_a(),
                                    urs@[k].digit_b(),
                                ) by {
                                    if k < before.len() {
                                        assert(urs@[k] == before[k]);
                                    }
                                }
                                assert forall|k: int, q: int| 0 <= k < urs@.len() && 0 <= q < 4 implies (#[trigger] urs@[k].corners()[q]) < 81 by {
                                    if k < before.len() {
                                        assert(urs@[k] == before[k]);
                                    }
                                }
                                assert forall|k: int|
                                    0 <= k < urs@.len() implies (#[trigger] urs@[k]).digit_a() < urs@[k].digit_b() && (forall|i: int|
                                        0 <= i < 4 ==> can_hold(*grid, #[trigger] urs@[k].corners()[i] as int, urs@[k].digit_a())
                                            && can_hold(*grid, urs@[k].corners()[i] as int, urs@[k].digit_b())) && exists|i: int|
                                        0 <= i < 4 && !(grid.has_cand(#[trigger] urs@[k].corners()[i] as int, urs@[k].digit_a())
                                            && grid.has_cand(urs@[k].corners()[i] as int, urs@[k].digit_b())) by {
                                    if k < before.len() {
                                        assert(urs@[k] == before[k]);
                                    } else {
                                        assert(urs@[k] == ur);
                                    }
                                }
                            }
                        }
                        proof {
                            assert(cells@ == rect_seq(r0 as int, r1 as int, c0 as int, c1 as int));
                            assert forall|rr0: int, rr1: int, cc0: int, cc1: int|
                                0 <= rr0 < rr1 < 9 && 0 <= cc0 < cc1 < 9 && lex_before(rr0, rr1, cc0, cc1, r0 as int, r1 as int, c0 as int, c1 + 1)
                                    && #[trigger] ur_missing(*grid, rect_seq(rr0, rr1, cc0, cc1), a, b) implies listed_ab(
                                urs@,
                                rect_seq(rr0, rr1, cc0, cc1),
                                a,
                                b,
                            ) by {
                                if rr0 == r0 && rr1 == r1 && cc0 == c0 && cc1 == c1 {
                                    assert(ur_shape(cells@));
                                    assert forall|q: int| 0 <= q < 4 implies can_hold(*grid, #[trigger] cells@[q] as int, a) && can_hold(
                                        *grid,
                                        cells@[q] as int,
                                        b,
                                    ) by {
                                        assert(rect_seq(rr0, rr1, cc0, cc1)[q] == cells@[q]);
                                    }
                                    let q = choose|q: int|
                                        0 <= q < 4 && !(grid.has_cand(#[trigger] rect_seq(rr0, rr1, cc0, cc1)[q] as int, a) && grid.has_cand(
                                            rect_seq(rr0, rr1, cc0, cc1)[q] as int,
                                            b,
                                        ));
                                    assert(rect_seq(rr0, rr1, cc0, cc1)[q] == cells@[q]);
                                }
                            }
                        }
                        c1 = c1 + 1;
                    }
                    c0 = c0 + 1;
                }
                r1 = r1 + 1;
            }
            r0 = r0 + 1;
        }
        proof {
            assert forall|q: int, p: Seq<u8>|
                0 <= q < j + 1 && #[trigger] ur_missing(*grid, p, pairs@[q]@[0], pairs@[q]@[1]) implies listed_ab(
                    urs@,
                    p,
                    pairs@[q]@[0],
                    pairs@[q]@[1],
                ) by {
                if q == j {
                    let rc = lemma_rect_coords(p);
                    assert(ur_missing(*grid, rect_seq(rc.0, rc.1, rc.2, rc.3), a, b));
                }
            }
        }
        j = j + 1;
    }
    proof {
        assert forall|a: u8, b: u8, p: Seq<u8>| 1 <= a < b <= 9 && #[trigger] ur_missing(*grid, p, a, b) implies listed_ab(urs@, p, a, b) by {
            let ab = seq![a, b];
            assert(vals[a - 1] == a && vals[b - 1] == b);
            assert(picks(vals, ab, 2));
            let q = choose|q: int| 0 <= q < pairs@.len() && pairs@[q]@ == ab;
            assert(ur_missing(*grid, p, pairs@[q]@[0], pairs@[q]@[1]));
        }
    }
    urs
}

/// Steps recorded in two runs, each meeting `ok`, together meet `ok`.
proof fn lemma_grows_chain(start: Seq<Step>, mid: Seq<Step>, now: Seq<Step>, ok: spec_fn(Step) -> bool)
    requires
        grows(start, mid, ok),
        grows(mid, now, ok),
    ensures
        grows(start, now, ok),
{
    assert(now.subrange(0, start.len() as int) =~= mid.subrange(0, start.len() as int)) by {
        assert forall|i: int| 0 <= i < start.len() implies now[i] == mid[i] by {
            assert(now.subrange(0, mid.len() as int)[i] == mid[i]);
        }
    }
    assert forall|i: int| start.len() <= i < now.len() implies ok(#[trigger] now[i]) by {
        if i < mid.len() {
            assert(now.subrange(0, mid.len() as int)[i] == mid[i]);
        }
    }
}

/// Tries types 1, 3, 4 and 6 on the rectangles whose corners all have both digits, each
/// list of removals reported once; stops once the accumulator is done.
#[derive(Debug, Default)]
pub struct UniquenessFinder {}

impl UniquenessFinder {
    /// The grid has a unique rectangle of type 1 that removes a candidate, one of type 3
    /// that removes a candidate of the house that completes it, or one of type 4 or 6 that
    /// removes a candidate.
    pub open spec fn finds_in(self, g: Grid) -> bool {
        ||| exists|p: Seq<u8>, a: u8, b: u8, k: int| #[trigger] type1_new(g, Seq::empty(), p, a, b, k)
        ||| exists|p: Seq<u8>, a: u8, b: u8, i: int, j: int, h: int, cs: Seq<u8>| #[trigger] type3_in(g, p, a, b, i, j, h, cs)
        ||| exists|p: Seq<u8>, a: u8, b: u8, i: int, j: int, h: int|
            1 <= a < b <= 9 && ur_on(g, p, a, b) && #[trigger] type4_at(g, p, a, b, i, j, h)
        ||| exists|p: Seq<u8>, a: u8, b: u8, i: int, j: int, v: u8|
            1 <= a < b <= 9 && ur_on(g, p, a, b) && #[trigger] type6_at(g, p, a, b, i, j, v)
    }

    /// Tries types 1, 3, 4 and 6 on every unique rectangle of the grid; when one of them
    /// removes a candidate, a step is reported.
    pub fn find_step<A: StepAccumulator>(&self, grid: &Grid, acc: &mut A)
        requires
            grid.wf(),
        ensures
            grows(old(acc).recorded(), final(acc).recorded(), |s: Step| s.pattern(*grid) && s is UniqueStep),
            final(acc).stops_at_first() == old(acc).stops_at_first(),
            self.finds_in(*grid) ==> progressed(old(acc).recorded(), final(acc).recorded(), old(acc).stops_at_first()),
    {
        let rectangles = find_unique_rectangles(grid);
        run_types(grid, &rectangles, acc);
        proof {
            if exists|p: Seq<u8>, a: u8, b: u8, i: int, j: int, h: int, cs: Seq<u8>| #[trigger] type3_in(*grid, p, a, b, i, j, h, cs) {
                lemma_type3_listed(*grid, rectangles@);
            }
            if exists|p: Seq<u8>, a: u8, b: u8, k: int| #[trigger] type1_new(*grid, Seq::empty(), p, a, b, k) {
                let (p, a, b, k) = choose|p: Seq<u8>, a: u8, b: u8, k: int| #[trigger] type1_new(*grid, Seq::empty(), p, a, b, k);
                assert(ur_on(*grid, p, a, b));
                assert(listed_ab(rectangles@, p, a, b));
                let j = choose|j: int| 0 <= j < rectangles@.len() && (#[trigger] rectangles@[j]).corners() == p && rectangles@[j].digit_a() == a && rectangles@[j].digit_b() == b;
                assert(type1_new(*grid, Seq::empty(), rectangles@[j].corners(), rectangles@[j].digit_a(), rectangles@[j].digit_b(), k));
            }
            if exists|p: Seq<u8>, a: u8, b: u8, i: int, j: int, h: int|
                1 <= a < b <= 9 && ur_on(*grid, p, a, b) && #[trigger] type4_at(*grid, p, a, b, i, j, h) {
                let (p, a, b, i, j, h) = choose|p: Seq<u8>, a: u8, b: u8, i: int, j: int, h: int|
                    1 <= a < b <= 9 && ur_on(*grid, p, a, b) && #[trigger] type4_at(*grid, p, a, b, i, j, h);
                assert(listed_ab(rectangles@, p, a, b));
                let k = choose|k: int| 0 <= k < rectangles@.len() && (#[trigger] rectangles@[k]).corners() == p && rectangles@[k].digit_a() == a && rectangles@[k].digit_b() == b;
                assert(type4_at(*grid, rectangles@[k].corners(), rectangles@[k].digit_a(), rectangles@[k].digit_b(), i, j, h));
            }
            if exists|p: Seq<u8>, a: u8, b: u8, i: int, j: int, v: u8|
                1 <= a < b <= 9 && ur_on(*grid, p, a, b) && #[trigger] type6_at(*grid, p, a, b, i, j, v) {
                let (p, a, b, i, j, v) = choose|p: Seq<u8>, a: u8, b: u8, i: int, j: int, v: u8|
                    1 <= a < b <= 9 && ur_on(*grid, p, a, b) && #[trigger] type6_at(*grid, p, a, b, i, j, v);
                assert(listed_ab(rectangles@, p, a, b));
                let k = choose|k: int| 0 <= k < rectangles@.len() && (#[trigger] rectangles@[k]).corners() == p && rectangles@[k].digit_a() == a && rectangles@[k].digit_b() == b;
                assert(type6_at(*grid, rectangles@[k].corners(), rectangles@[k].digit_a(), rectangles@[k].digit_b(), i, j, v));
            }
        }
    }
}

/// Tries types 1, 3, 4 and 6 on the rectangles that may still hold both digits in every
/// corner though some corner has lost one of them; stops once the accumulator is done.
#[derive(Debug, Default)]
pub struct MissingCandidatesUniquenessFinder;

/// A unique rectangle of type 3 on digits `a < b` whose corners may all take both digits
/// though some corner has lost one of them.
pub open spec fn type3_missing(g: Grid, p: Seq<u8>, a: u8, b: u8, i: int, j: int, h: int, cs: Seq<u8>) -> bool {
    &&& 1 <= a < b <= 9
    &&& ur_missing(g, p, a, b)
    &&& type3_at(g, p, a, b, i, j, h, cs)
}

impl MissingCandidatesUniquenessFinder {
    /// Some such rectangle of type 3 removes a candidate of the house that completes it, or
    /// one of type 4 or 6 removes a candidate.
    pub open spec fn finds_in(self, g: Grid) -> bool {
        ||| exists|p: Seq<u8>, a: u8, b: u8, i: int, j: int, h: int, cs: Seq<u8>| #[trigger] type3_missing(g, p, a, b, i, j, h, cs)
        ||| exists|p: Seq<u8>, a: u8, b: u8, i: int, j: int, h: int|
            1 <= a < b <= 9 && ur_missing(g, p, a, b) && #[trigger] type4_at(g, p, a, b, i, j, h)
        ||| exists|p: Seq<u8>, a: u8, b: u8, i: int, j: int, v: u8|
            1 <= a < b <= 9 && ur_missing(g, p, a, b) && #[trigger] type6_at(g, p, a, b, i, j, v)
    }

    /// Tries types 1, 3, 4 and 6 on the rectangles that have lost candidates; when one of
    /// type 3, 4 or 6 removes a candidate (of type 3: of the house that completes it), a
    /// step is reported.
    pub fn find_step<A: StepAccumulator>(&self, grid: &Grid, acc: &mut A)
        requires
            grid.wf(),
        ensures
            grows(old(acc).recorded(), final(acc).recorded(), |s: Step| s.pattern(*grid) && s is UniqueStep),
            final(acc).stops_at_first() == old(acc).stops_at_first(),
            self.finds_in(*grid) ==> progressed(old(acc).recorded(), final(acc).recorded(), old(acc).stops_at_first()),
    {
        let rectangles = find_unique_rectangles_with_missing_candidates(grid);
        run_types(grid, &rectangles, acc);
        proof {
            if exists|p: Seq<u8>, a: u8, b: u8, i: int, j: int, h: int|
                1 <= a < b <= 9 && ur_missing(*grid, p, a, b) && #[trigger] type4_at(*grid, p, a, b, i, j, h) {
                let (p, a, b, i, j, h) = choose|p: Seq<u8>, a: u8, b: u8, i: int, j: int, h: int|
                    1 <= a < b <= 9 && ur_missing(*grid, p, a, b) && #[trigger] type4_at(*grid, p, a, b, i, j, h);
                assert(listed_ab(rectangles@, p, a, b));
                let k = choose|k: int| 0 <= k < rectangles@.len() && (#[trigger] rectangles@[k]).corners() == p && rectangles@[k].digit_a() == a && rectangles@[k].digit_b() == b;
                assert(type4_at(*grid, rectangles@[k].corners(), rectangles@[k].digit_a(), rectangles@[k].digit_b(), i, j, h));
            }
            if exists|p: Seq<u8>, a: u8, b: u8, i: int, j: int, v: u8|
                1 <= a < b <= 9 && ur_missing(*grid, p, a, b) && #[trigger] type6_at(*grid, p, a, b, i, j, v) {
                let (p, a, b, i, j, v) = choose|p: Seq<u8>, a: u8, b: u8, i: int, j: int, v: u8|
                    1 <= a < b <= 9 && ur_missing(*grid, p, a, b) && #[trigger] type6_at(*grid, p, a, b, i, j, v);
                assert(listed_ab(rectangles@, p, a, b));
                let k = choose|k: int| 0 <= k < rectangles@.len() && (#[trigger] rectangles@[k]).corners() == p && rectangles@[k].digit_a() == a && rectangles@[k].digit_b() == b;
                assert(type6_at(*grid, rectangles@[k].corners(), rectangles@[k].digit_a(), rectangles@[k].digit_b(), i, j, v));
            }
            if exists|p: Seq<u8>, a: u8, b: u8, i: int, j: int, h: int, cs: Seq<u8>| #[trigger] type3_missing(*grid, p, a, b, i, j, h, cs) {
                let (p, a, b, i, j, h, cs) = choose|p: Seq<u8>, a: u8, b: u8, i: int, j: int, h: int, cs: Seq<u8>|
                    #[trigger] type3_missing(*grid, p, a, b, i, j, h, cs);
                assert(listed_ab(rectangles@, p, a, b));
                let k = choose|k: int|
                    0 <= k < rectangles@.len() && (#[trigger] rectangles@[k]).corners() == p && rectangles@[k].digit_a() == a
                        && rectangles@[k].digit_b() == b;
                assert(type3_at(*grid, rectangles@[k].corners(), rectangles@[k].digit_a(), rectangles@[k].digit_b(), i, j, h, cs));
            }
        }
    }
}

/// Types 1, 3, 4 and 6 in turn over `rectangles`, sharing the removals already reported.
fn run_types<A: StepAccumulator>(grid: &Grid, rectangles: &Vec<UniqueRectangle>, acc: &mut A)
    requires
        grid.wf(),
        all_floors(*grid, rectangles@),
        corners_ok(rectangles@),
    ensures
        grows(old(acc).recorded(), final(acc).recorded(), |s: Step| s.pattern(*grid) && s is UniqueStep),
        final(acc).stops_at_first() == old(acc).stops_at_first(),
        forall|j: int, k: int|
            0 <= j < rectangles@.len() && #[trigger] type1_new(
                *grid,
                Seq::empty(),
                rectangles@[j].corners(),
                rectangles@[j].digit_a(),
                rectangles@[j].digit_b(),
                k,
            ) ==> progressed(old(acc).recorded(), final(acc).recorded(), old(acc).stops_at_first()),
        forall|k: int, i: int, j: int, h: int, cs: Seq<u8>|
            0 <= k < rectangles@.len() && #[trigger] type3_at(
                *grid,
                rectangles@[k].corners(),
                rectangles@[k].digit_a(),
                rectangles@[k].digit_b(),
                i,
                j,
                h,
                cs,
            ) ==> progressed(old(acc).recorded(), final(acc).recorded(), old(acc).stops_at_first()),
        forall|k: int, i: int, j: int, h: int|
            0 <= k < rectangles@.len() && #[trigger] type4_at(
                *grid,
                rectangles@[k].corners(),
                rectangles@[k].digit_a(),
                rectangles@[k].digit_b(),
                i,
                j,
                h,
            ) ==> progressed(old(acc).recorded(), final(acc).recorded(), old(acc).stops_at_first()),
        forall|k: int, i: int, j: int, v: u8|
            0 <= k < rectangles@.len() && #[trigger] type6_at(
                *grid,
                rectangles@[k].corners(),
                rectangles@[k].digit_a(),
                rectangles@[k].digit_b(),
                i,
                j,
                v,
            ) ==> progressed(old(acc).recorded(), final(acc).recorded(), old(acc).stops_at_first()),
{
    let ghost start = acc.recorded();
    let ghost stops = acc.stops_at_first();
    let ghost ok = |s: Step| s.pattern(*grid) && s is UniqueStep;
    let mut seen: Vec<Vec<Candidate>> = Vec::new();
    proof {
        assert(seen@ =~= Seq::<Vec<Candidate>>::empty());
    }
    crate::solver::unique_1::find_steps(grid, rectangles, acc, &mut seen);
    let ghost mid1 = acc.recorded();
    let ghost t1 = exists|j: int, k: int|
        0 <= j < rectangles@.len() && #[trigger] type1_new(
            *grid,
            Seq::empty(),
            rectangles@[j].corners(),
            rectangles@[j].digit_a(),
            rectangles@[j].digit_b(),
            k,
        );
    proof {
        lemma_grows_from_rects(*grid, rectangles@, UniqueType::Type1, start, mid1);
        assert(t1 ==> progressed(start, mid1, stops));
    }
    if acc.is_finish() {
        return;
    }
    let ghost seen1 = seen@;
    crate::solver::unique_3::find_steps(grid, rectangles, acc, &mut seen);
    let ghost mid3 = acc.recorded();
    proof {
        lemma_grows_from_rects(*grid, rectangles@, UniqueType::Type3, mid1, mid3);
        lemma_grows_chain(start, mid1, mid3, ok);
        lemma_progress_chain(start, mid1, mid3, stops);
        assert(!progressed(start, mid1, stops) ==> seen1.len() == 0);
    }
    if acc.is_finish() {
        return;
    }
    let ghost seen3 = seen@;
    crate::solver::unique_4::find_steps(grid, rectangles, acc, &mut seen);
    let ghost mid2 = acc.recorded();
    proof {
        lemma_grows_from_rects(*grid, rectangles@, UniqueType::Type4, mid3, mid2);
        lemma_grows_chain(start, mid3, mid2, ok);
        lemma_progress_chain(start, mid1, mid3, stops);
        assert(!progressed(start, mid3, stops) ==> seen3.len() == 0);
    }
    if acc.is_finish() {
        return;
    }
    let ghost seen4 = seen@;
    crate::solver::unique_6::find_steps(grid, rectangles, acc, &mut seen);
    proof {
        lemma_grows_from_rects(*grid, rectangles@, UniqueType::Type6, mid2, acc.recorded());
        lemma_grows_chain(start, mid2, acc.recorded(), ok);
        lemma_progress_chain(start, mid1, mid3, stops);
        lemma_progress_chain(start, mid3, mid2, stops);
        lemma_progress_chain(start, mid2, acc.recorded(), stops);
        assert(!progressed(start, mid2, stops) ==> seen4.len() == 0);
    }
}

} // verus!
