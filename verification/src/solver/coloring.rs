use vstd::prelude::*;
use itertools::Itertools;
use crate::candidate::Candidate;
use crate::grid::Grid;
use crate::grid_constant::{in_house, sees, cells_see};
use crate::solver::step::{Step, removable, removed, remove_all};
use crate::solver::step_accumulator::StepAccumulator;
use crate::solver::common::{grows, report};
use crate::solver::naked_set::sorted_cands;
use crate::util::indexset::IndexSet;
use crate::solver::brute_force::{searchable, solves};
use crate::solver::soundness::{lemma_digit_in_candidate_cell, lemma_same_house_sees};

verus! {

/// How a colouring removes candidates.
#[derive(Debug, Clone, Copy, PartialEq, Eq, Hash, Structural)]
pub enum ColoringType {
    Trap,
    Wrap,
    Multi,
}

/// The two colours of a chain of conjugate pairs of one digit, and what they remove.
#[derive(Debug, Clone, PartialEq, Eq, Hash)]
pub struct ColoringStep {
    pub coloring_type: ColoringType,
    pub color_a: Vec<Candidate>,
    pub color_b: Vec<Candidate>,
    pub remove_candidates: Vec<Candidate>,
}

/// Cell `c` is one of the cells of `l`.
pub open spec fn lists_cell(l: Seq<Candidate>, c: int) -> bool {
    exists|i: int| 0 <= i < l.len() && (#[trigger] l[i]).0 == c
}

/// Some cell of `l` sees cell `c`.
pub open spec fn seen_from(l: Seq<Candidate>, c: int) -> bool {
    exists|i: int| 0 <= i < l.len() && sees((#[trigger] l[i]).0 as int, c)
}

/// Two cells of `l` see each other.
pub open spec fn self_seeing(l: Seq<Candidate>) -> bool {
    exists|i: int, j: int| 0 <= i < l.len() && 0 <= j < l.len() && sees((#[trigger] l[i]).0 as int, (#[trigger] l[j]).0 as int)
}

/// The candidates of `l` are of digit `v`, in cells holding it as a candidate, ordered by
/// cell.
pub open spec fn digit_cells(g: Grid, l: Seq<Candidate>, v: u8) -> bool {
    &&& sorted_cands(l)
    &&& forall|i: int| 0 <= i < l.len() ==> (#[trigger] l[i]).1 == v && l[i].0 < 81 && g.has_cand(l[i].0 as int, v)
}

/// In `s`, every cell of `l` holds digit `v`.
pub open spec fn all_hold(s: Seq<u8>, l: Seq<Candidate>, v: u8) -> bool {
    forall|i: int| 0 <= i < l.len() ==> s[(#[trigger] l[i]).0 as int] == v
}

/// In `s`, no cell of `l` holds digit `v`.
pub open spec fn none_hold(s: Seq<u8>, l: Seq<Candidate>, v: u8) -> bool {
    forall|i: int| 0 <= i < l.len() ==> s[(#[trigger] l[i]).0 as int] != v
}

/// In every solution of the grid, the cells of one list all hold `v` and those of the
/// other none.
pub open spec fn alternate(g: Grid, v: u8, la: Seq<Candidate>, lb: Seq<Candidate>) -> bool {
    forall|s: Seq<u8>|
        searchable(g) && #[trigger] solves(g, s) ==> (all_hold(s, la, v) && none_hold(s, lb, v)) || (none_hold(s, la, v)
            && all_hold(s, lb, v))
}

/// In every solution of the grid, the cells of one of the lists all hold `v`.
pub open spec fn either_holds(g: Grid, v: u8, la: Seq<Candidate>, lb: Seq<Candidate>) -> bool {
    forall|s: Seq<u8>| searchable(g) && #[trigger] solves(g, s) ==> all_hold(s, la, v) || all_hold(s, lb, v)
}

impl ColoringStep {
    /// Both colours and the removals are candidates of one digit, ordered by cell. A wrap
    /// has colours of which, in every solution, one holds the digit throughout and the
    /// other nowhere, and removes a colour two of whose cells see each other; a trap (of
    /// one chain, or of two chains joined where colours see each other) has colours of
    /// which one holds the digit throughout in every solution, and removes the digit from
    /// cells outside both colours that see a cell of each.
    pub open spec fn pattern(self, g: Grid) -> bool {
        exists|v: u8|
            #![trigger digit_cells(g, self.remove_candidates@, v)]
            {
                &&& 1 <= v <= 9
                &&& self.remove_candidates@.len() > 0
                &&& digit_cells(g, self.color_a@, v)
                &&& digit_cells(g, self.color_b@, v)
                &&& digit_cells(g, self.remove_candidates@, v)
                &&& match self.coloring_type {
                    ColoringType::Wrap => {
                        &&& alternate(g, v, self.color_a@, self.color_b@)
                        &&& (self_seeing(self.color_a@) && forall|i: int|
                            0 <= i < self.remove_candidates@.len() ==> lists_cell(self.color_a@, (#[trigger] self.remove_candidates@[i]).0 as int))
                            || (self_seeing(self.color_b@) && forall|i: int|
                            0 <= i < self.remove_candidates@.len() ==> lists_cell(self.color_b@, (#[trigger] self.remove_candidates@[i]).0 as int))
                    },
                    _ => {
                        &&& either_holds(g, v, self.color_a@, self.color_b@)
                        &&& forall|i: int|
                            0 <= i < self.remove_candidates@.len() ==> {
                                let c = (#[trigger] self.remove_candidates@[i]).0 as int;
                                &&& !lists_cell(self.color_a@, c)
                                &&& !lists_cell(self.color_b@, c)
                                &&& seen_from(self.color_a@, c)
                                &&& seen_from(self.color_b@, c)
                            }
                    },
                }
            }
    }

    pub open spec fn title(self) -> Seq<char> {
        match self.coloring_type {
            ColoringType::Trap => "Color Trap"@,
            ColoringType::Wrap => "Color Wrap"@,
            ColoringType::Multi => "Multi Colors"@,
        }
    }

    pub open spec fn rating(self) -> u32 {
        match self.coloring_type {
            ColoringType::Trap => 270,
            ColoringType::Wrap => 280,
            ColoringType::Multi => 300,
        }
    }

    pub fn name(&self) -> (r: &'static str)
        ensures
            r@ == self.title(),
    {
        match self.coloring_type {
            ColoringType::Trap => "Color Trap",
            ColoringType::Wrap => "Color Wrap",
            ColoringType::Multi => "Multi Colors",
        }
    }

    pub fn difficulty(&self) -> (r: u32)
        ensures
            r == self.rating(),
    {
        match self.coloring_type {
            ColoringType::Trap => 270,
            ColoringType::Wrap => 280,
            ColoringType::Multi => 300,
        }
    }

    /// Removes the candidates.
    pub fn apply(&self, grid: &mut Grid)
        requires
            old(grid).wf(),
            self.remove_candidates@.len() > 0,
            removable(*old(grid), self.remove_candidates@),
        ensures
            final(grid).wf(),
            removed(*old(grid), *final(grid), self.remove_candidates@),
    {
        remove_all(grid, &self.remove_candidates);
    }
}

/// Cells `c` and `d` are the only two cells of some house with candidate `v`.
pub open spec fn conjugate(g: Grid, v: u8, c: int, d: int) -> bool {
    exists|h: int|
        0 <= h < 27 && #[trigger] in_house(c, h) && in_house(d, h) && c != d && (forall|e: int|
            #[trigger] in_house(e, h) && g.has_cand(e, v) ==> e == c || e == d)
}

/// For each cell, the cells it forms a conjugate pair with, for digit `value`.
fn links_of(grid: &Grid, value: u8) -> (r: Vec<IndexSet>)
    requires
        grid.wf(),
    ensures
        r@.len() == 81,
        forall|c: int, d: u8| 0 <= c < 81 && #[trigger] r@[c]@.contains(d) ==> grid.has_cand(c, value) && grid.has_cand(d as int, value)
            && d < 81 && d != c && conjugate(*grid, value, c, d as int),
{
    let mut links: Vec<IndexSet> = Vec::new();
    let mut i: usize = 0;
    while i < 81
        invariant
            i <= 81,
            links@.len() == i,
            forall|k: int| 0 <= k < i ==> (#[trigger] links@[k])@ == Set::<u8>::empty(),
        decreases 81 - i,
    {
        links.push(IndexSet::new_empty());
        i = i + 1;
    }
    let mut house: u8 = 0;
    while house < 27
        invariant
            house <= 27,
            grid.wf(),
            links@.len() == 81,
            forall|c: int, d: u8| 0 <= c < 81 && #[trigger] links@[c]@.contains(d) ==> grid.has_cand(c, value) && grid.has_cand(
                d as int,
                value,
            ) && d < 81 && d != c && conjugate(*grid, value, c, d as int),
        decreases 27 - house,
    {
        let set = grid.candidate_cells_in_house(house, value);
        let cells = set.values();
        if cells.len() == 2 {
            let c0 = cells[0];
            let c1 = cells[1];
            assert(cells@.contains(c0) && cells@.contains(c1));
            assert(c0 < c1);
            proof {
                assert(in_house(c0 as int, house as int) && in_house(c1 as int, house as int));
                assert forall|e: int| #[trigger] in_house(e, house as int) && grid.has_cand(e, value) implies e == c0 || e == c1 by {
                    assert(set@.contains(e as u8));
                    assert(cells@.contains(e as u8));
                    let k = choose|k: int| 0 <= k < cells@.len() && cells@[k] == e as u8;
                }
                assert(conjugate(*grid, value, c0 as int, c1 as int));
                assert(conjugate(*grid, value, c1 as int, c0 as int));
            }
            let mut s0 = links[c0 as usize];
            s0.add(c1);
            links.set(c0 as usize, s0);
            let mut s1 = links[c1 as usize];
            s1.add(c0);
            links.set(c1 as usize, s1);
        }
        house = house + 1;
    }
    links
}

/// In a solution, exactly one of two conjugate cells holds the digit.
pub proof fn lemma_conjugate_solution(g: Grid, v: u8, c: int, d: int, s: Seq<u8>)
    requires
        searchable(g),
        solves(g, s),
        1 <= v <= 9,
        conjugate(g, v, c, d),
        g.has_cand(c, v),
    ensures
        (s[c] == v) != (s[d] == v),
{
    let h = choose|h: int|
        0 <= h < 27 && #[trigger] in_house(c, h) && in_house(d, h) && c != d && (forall|e: int|
            #[trigger] in_house(e, h) && g.has_cand(e, v) ==> e == c || e == d);
    let e = lemma_digit_in_candidate_cell(g, s, h, v, c);
    assert(e == c || e == d);
    lemma_same_house_sees(c, d, h);
}

/// In `s`, every cell of `x` holds digit `v`.
pub open spec fn cells_hold(s: Seq<u8>, x: Set<u8>, v: u8) -> bool {
    forall|c: u8| #[trigger] x.contains(c) ==> s[c as int] == v
}

/// In `s`, no cell of `x` holds digit `v`.
pub open spec fn cells_lack(s: Seq<u8>, x: Set<u8>, v: u8) -> bool {
    forall|c: u8| #[trigger] x.contains(c) ==> s[c as int] != v
}

/// In every solution of the grid, the cells of one colour all hold `v` and those of the
/// other none.
pub open spec fn colours_alternate(g: Grid, v: u8, a: Set<u8>, b: Set<u8>) -> bool {
    forall|s: Seq<u8>|
        searchable(g) && #[trigger] solves(g, s) ==> (cells_hold(s, a, v) && cells_lack(s, b, v)) || (cells_lack(s, a, v)
            && cells_hold(s, b, v))
}

/// In every solution of the grid, the cells of one of the colours all hold `v`.
pub open spec fn colours_either(g: Grid, v: u8, a: Set<u8>, b: Set<u8>) -> bool {
    forall|s: Seq<u8>| searchable(g) && #[trigger] solves(g, s) ==> cells_hold(s, a, v) || cells_hold(s, b, v)
}

/// In every solution, the cells of `a` hold `v` just where `start` does, and those of `b`
/// just where it does not.
pub open spec fn parity(g: Grid, v: u8, start: u8, a: Set<u8>, b: Set<u8>) -> bool {
    forall|s: Seq<u8>|
        searchable(g) && #[trigger] solves(g, s) ==> (forall|x: u8| a.contains(x) ==> (s[x as int] == v) == (s[start as int] == v))
            && (forall|x: u8| b.contains(x) ==> (s[x as int] == v) != (s[start as int] == v))
}

/// Every cell of `s` has candidate `v`.
pub open spec fn carries(g: Grid, v: u8, s: Set<u8>) -> bool {
    forall|c: u8| #[trigger] s.contains(c) ==> c < 81 && g.has_cand(c as int, v)
}

/// The links of every cell join cells with candidate `v`.
pub open spec fn links_ok(g: Grid, v: u8, links: Seq<IndexSet>) -> bool {
    &&& 1 <= v <= 9
    &&& links.len() == 81
    &&& forall|c: int, d: u8| 0 <= c < 81 && #[trigger] links[c]@.contains(d) ==> g.has_cand(c, v) && g.has_cand(d as int, v) && d < 81
        && conjugate(g, v, c, d as int)
}

/// The first cell of each chain of links, chains in order of their first cell.
fn component_starts(links: &Vec<IndexSet>, Ghost(g): Ghost<Grid>, Ghost(v): Ghost<u8>) -> (r: Vec<u8>)
    requires
        links_ok(g, v, links@),
    ensures
        forall|k: int| 0 <= k < r@.len() ==> #[trigger] r@[k] < 81 && g.has_cand(r@[k] as int, v),
        forall|k: int| 0 <= k < r@.len() ==> (#[trigger] links@[r@[k] as int])@ != Set::<u8>::empty(),
        forall|a: int, b: int| 0 <= a < b < r@.len() ==> r@[a] < r@[b],
        r@.len() == 0 <==> forall|c: int| 0 <= c < 81 ==> (#[trigger] links@[c])@ == Set::<u8>::empty(),
        r@.len() > 0 ==> forall|c: int| 0 <= c < r@[0] ==> (#[trigger] links@[c])@ == Set::<u8>::empty(),
{
    let mut seen = IndexSet::new_empty();
    let mut starts: Vec<u8> = Vec::new();
    let mut start: u8 = 0;
    while start < 81
        invariant
            start <= 81,
            links_ok(g, v, links@),
            forall|k: int| 0 <= k < starts@.len() ==> #[trigger] starts@[k] < 81 && g.has_cand(starts@[k] as int, v),
            forall|k: int| 0 <= k < starts@.len() ==> (#[trigger] links@[starts@[k] as int])@ != Set::<u8>::empty(),
            forall|k: int| 0 <= k < starts@.len() ==> #[trigger] starts@[k] < start,
            forall|a: int, b: int| 0 <= a < b < starts@.len() ==> starts@[a] < starts@[b],
            starts@.len() == 0 ==> seen@ == Set::<u8>::empty(),
            starts@.len() == 0 ==> forall|c: int| 0 <= c < start ==> (#[trigger] links@[c])@ == Set::<u8>::empty(),
            starts@.len() > 0 ==> forall|c: int| 0 <= c < starts@[0] ==> (#[trigger] links@[c])@ == Set::<u8>::empty(),
        decreases 81 - start,
    {
        if !links[start as usize].is_empty() && !seen.contains(start) {
            proof {
                IndexSet::lemma_bounds(links@[start as int]);
                if !(exists|d: u8| links@[start as int]@.contains(d)) {
                    assert(links@[start as int]@ =~= Set::<u8>::empty());
                }
                let d = choose|d: u8| links@[start as int]@.contains(d);
                assert(links@[start as int]@.contains(d));
            }
            let ghost sb = starts@;
            starts.push(start);
            proof {
                IndexSet::lemma_bounds(seen);
                assert forall|k: int| 0 <= k < starts@.len() implies (#[trigger] links@[starts@[k] as int])@ != Set::<u8>::empty() by {
                    if k < sb.len() {
                        assert(starts@[k] == sb[k]);
                    }
                }
                assert forall|a: int, b: int| 0 <= a < b < starts@.len() implies starts@[a] < starts@[b] by {
                    if b < sb.len() {
                        assert(starts@[a] == sb[a] && starts@[b] == sb[b]);
                    } else {
                        assert(starts@[a] == sb[a]);
                        assert(sb[a] < start);
                    }
                }
                if sb.len() > 0 {
                    assert(starts@[0] == sb[0]);
                }
            }
            let ghost base = seen@;
            seen.add(start);
            let mut queue: Vec<u8> = Vec::new();
            queue.push(start);
            let mut head: usize = 0;
            proof {
                IndexSet::lemma_bounds(seen);
            }
            while head < queue.len()
                invariant
                    head <= queue@.len(),
                    links_ok(g, v, links@),
                    base.finite(),
                    seen@.finite(),
                    seen@.len() <= 81,
                    queue@.len() + base.len() <= seen@.len(),
                    forall|k: int| 0 <= k < queue@.len() ==> #[trigger] queue@[k] < 81,
                decreases 81 - head,
            {
                let cell = queue[head];
                head = head + 1;
                let next = links[cell as usize].values();
                let mut i: usize = 0;
                while i < next.len()
                    invariant
                        i <= next@.len(),
                        head <= queue@.len(),
                        links_ok(g, v, links@),
                        cell < 81,
                        forall|x: u8| next@.contains(x) ==> links@[cell as int]@.contains(x),
                        base.finite(),
                        seen@.finite(),
                        seen@.len() <= 81,
                        queue@.len() + base.len() <= seen@.len(),
                        forall|k: int| 0 <= k < queue@.len() ==> #[trigger] queue@[k] < 81,
                    decreases next@.len() - i,
                {
                    let x = next[i];
                    assert(next@.contains(x));
                    if !seen.contains(x) {
                        seen.add(x);
                        proof {
                            IndexSet::lemma_bounds(seen);
                        }
                        queue.push(x);
                    }
                    i = i + 1;
                }
            }
        }
        start = start + 1;
    }
    proof {
        if starts@.len() > 0 {
            assert((links@[starts@[0] as int])@ != Set::<u8>::empty());
        }
    }
    starts
}

/// The two colours of the chain of links through `start`, from a search that starts
/// with `start` in the first colour and gives each newly reached cell the colour
/// opposite to the cell it was reached from.
fn color_component(links: &Vec<IndexSet>, start: u8, Ghost(g): Ghost<Grid>, Ghost(v): Ghost<u8>) -> (r: (IndexSet, IndexSet))
    requires
        links_ok(g, v, links@),
        start < 81,
        g.has_cand(start as int, v),
    ensures
        carries(g, v, r.0@),
        carries(g, v, r.1@),
        r.0@.contains(start),
        colours_alternate(g, v, r.0@, r.1@),
{
    let mut a = IndexSet::new_empty();
    a.add(start);
    let mut b = IndexSet::new_empty();
    let mut queue: Vec<(u8, bool)> = Vec::new();
    queue.push((start, true));
    let mut head: usize = 0;
    proof {
        IndexSet::lemma_bounds(a);
        IndexSet::lemma_bounds(b);
    }
    while head < queue.len()
        invariant
            head <= queue@.len(),
            links_ok(g, v, links@),
            a@.contains(start),
            carries(g, v, a@),
            carries(g, v, b@),
            a@.finite() && b@.finite(),
            a@.len() <= 81 && b@.len() <= 81,
            queue@.len() <= a@.len() + b@.len(),
            forall|k: int| 0 <= k < queue@.len() ==> (#[trigger] queue@[k]).0 < 81,
            forall|k: int|
                0 <= k < queue@.len() ==> if (#[trigger] queue@[k]).1 {
                    a@.contains(queue@[k].0)
                } else {
                    b@.contains(queue@[k].0)
                },
            parity(g, v, start, a@, b@),
        decreases 162 - head,
    {
        let (cell, is_a) = queue[head];
        assert(queue@[head as int] == (cell, is_a));
        head = head + 1;
        let next = links[cell as usize].values();
        let mut i: usize = 0;
        while i < next.len()
            invariant
                i <= next@.len(),
                head <= queue@.len(),
                links_ok(g, v, links@),
                cell < 81,
                is_a ==> a@.contains(cell),
                !is_a ==> b@.contains(cell),
                forall|x: u8| next@.contains(x) ==> links@[cell as int]@.contains(x),
                a@.contains(start),
                carries(g, v, a@),
                carries(g, v, b@),
                a@.finite() && b@.finite(),
                a@.len() <= 81 && b@.len() <= 81,
                queue@.len() <= a@.len() + b@.len(),
                forall|k: int| 0 <= k < queue@.len() ==> (#[trigger] queue@[k]).0 < 81,
                forall|k: int|
                    0 <= k < queue@.len() ==> if (#[trigger] queue@[k]).1 {
                        a@.contains(queue@[k].0)
                    } else {
                        b@.contains(queue@[k].0)
                    },
                parity(g, v, start, a@, b@),
            decreases next@.len() - i,
        {
            let x = next[i];
            assert(next@.contains(x));
            assert(links@[cell as int]@.contains(x));
            if is_a {
                if !b.contains(x) {
                    let ghost b0 = b@;
                    b.add(x);
                    proof {
                        IndexSet::lemma_bounds(b);
                        assert forall|s: Seq<u8>| searchable(g) && #[trigger] solves(g, s) implies (forall|y: u8|
                            a@.contains(y) ==> (s[y as int] == v) == (s[start as int] == v)) && (forall|y: u8|
                            b@.contains(y) ==> (s[y as int] == v) != (s[start as int] == v)) by {
                            lemma_conjugate_solution(g, v, cell as int, x as int, s);
                            assert(parity(g, v, start, a@, b0));
                        }
                    }
                    queue.push((x, false));
                }
            } else {
                if !a.contains(x) {
                    let ghost a0 = a@;
                    a.add(x);
                    proof {
                        IndexSet::lemma_bounds(a);
                        assert forall|s: Seq<u8>| searchable(g) && #[trigger] solves(g, s) implies (forall|y: u8|
                            a@.contains(y) ==> (s[y as int] == v) == (s[start as int] == v)) && (forall|y: u8|
                            b@.contains(y) ==> (s[y as int] == v) != (s[start as int] == v)) by {
                            lemma_conjugate_solution(g, v, cell as int, x as int, s);
                            assert(parity(g, v, start, a0, b@));
                        }
                    }
                    queue.push((x, true));
                }
            }
            i = i + 1;
        }
    }
    proof {
        assert forall|s: Seq<u8>| searchable(g) && #[trigger] solves(g, s) implies (cells_hold(s, a@, v) && cells_lack(s, b@, v))
            || (cells_lack(s, a@, v) && cells_hold(s, b@, v)) by {
            assert(parity(g, v, start, a@, b@));
        }
    }
    (a, b)
}

/// Two cells of `s` see each other.
pub open spec fn set_self_seeing(s: Set<u8>) -> bool {
    exists|x: u8, y: u8| s.contains(x) && s.contains(y) && #[trigger] sees(x as int, y as int)
}

/// Some cell of `s` sees cell `c`.
pub open spec fn set_sees(s: Set<u8>, c: int) -> bool {
    exists|x: u8| s.contains(x) && #[trigger] sees(x as int, c)
}

/// Whether some cell of `s` sees `c`.
fn some_sees(s: &IndexSet, c: u8) -> (r: bool)
    requires
        c < 81,
    ensures
        r == set_sees(s@, c as int),
{
    let cells = s.values();
    let mut i: usize = 0;
    while i < cells.len()
        invariant
            i <= cells@.len(),
            c < 81,
            forall|x: u8| cells@.contains(x) <==> s@.contains(x),
            forall|k: int| 0 <= k < i ==> !sees((#[trigger] cells@[k]) as int, c as int),
        decreases cells@.len() - i,
    {
        assert(cells@.contains(cells@[i as int]));
        if cells[i] < 81 && cells_see(cells[i], c) {
            return true;
        }
        i = i + 1;
    }
    proof {
        assert forall|x: u8| s@.contains(x) implies !#[trigger] sees(x as int, c as int) by {
            assert(cells@.contains(x));
            let k = choose|k: int| 0 <= k < cells@.len() && cells@[k] == x;
        }
    }
    false
}

/// Whether two cells of `s` see each other.
fn sees_itself(s: &IndexSet) -> (r: bool)
    ensures
        r == set_self_seeing(s@),
{
    proof {
        IndexSet::lemma_bounds(*s);
    }
    let cells = s.values();
    let mut i: usize = 0;
    while i < cells.len()
        invariant
            i <= cells@.len(),
            forall|x: u8| cells@.contains(x) <==> s@.contains(x),
            forall|x: u8| #[trigger] s@.contains(x) ==> x < 81,
            forall|k: int, y: u8| 0 <= k < i && #[trigger] s@.contains(y) ==> !sees((#[trigger] cells@[k]) as int, y as int),
        decreases cells@.len() - i,
    {
        assert(cells@.contains(cells@[i as int]));
        if some_sees(s, cells[i]) {
            proof {
                let y = choose|y: u8| s@.contains(y) && #[trigger] sees(y as int, cells@[i as int] as int);
                assert(sees(cells@[i as int] as int, y as int));
            }
            return true;
        }
        proof {
            assert forall|y: u8| #[trigger] s@.contains(y) implies !sees(cells@[i as int] as int, y as int) by {
                assert(!sees(y as int, cells@[i as int] as int));
            }
        }
        i = i + 1;
    }
    proof {
        assert forall|x: u8, y: u8| s@.contains(x) && s@.contains(y) implies !#[trigger] sees(x as int, y as int) by {
            assert(cells@.contains(x));
            let k = choose|k: int| 0 <= k < cells@.len() && cells@[k] == x;
        }
    }
    false
}

/// The cells of `s` with candidate `value`.
fn with_candidate(grid: &Grid, s: &IndexSet, value: u8) -> (r: IndexSet)
    requires
        grid.wf(),
    ensures
        r@ == s@.filter(|c: u8| grid.has_cand(c as int, value)),
{
    proof {
        IndexSet::lemma_bounds(*s);
    }
    let mut r = IndexSet::new_empty();
    let mut c: u8 = 0;
    while c < 81
        invariant
            c <= 81,
            grid.wf(),
            forall|x: u8| #[trigger] s@.contains(x) ==> x < 81,
            r@ == s@.filter(|x: u8| x < c && grid.has_cand(x as int, value)),
        decreases 81 - c,
    {
        if s.contains(c) && grid.cell_has_candidate(c, value) {
            r.add(c);
        }
        assert(r@ =~= s@.filter(|x: u8| x < c + 1 && grid.has_cand(x as int, value)));
        c = c + 1;
    }
    assert(r@ =~= s@.filter(|x: u8| grid.has_cand(x as int, value)));
    r
}

/// A colour two of whose cells see each other cannot be true: its cells with the
/// candidate go (colour `a` is looked at first).
fn wrap_removals(grid: &Grid, value: u8, a: &IndexSet, b: &IndexSet) -> (r: IndexSet)
    requires
        grid.wf(),
    ensures
        r@ == (if set_self_seeing(a@) {
            a@.filter(|c: u8| grid.has_cand(c as int, value))
        } else if set_self_seeing(b@) {
            b@.filter(|c: u8| grid.has_cand(c as int, value))
        } else {
            Set::<u8>::empty()
        }),
{
    if sees_itself(a) {
        return with_candidate(grid, a, value);
    }
    if sees_itself(b) {
        return with_candidate(grid, b, value);
    }
    IndexSet::new_empty()
}

/// The cells outside both colours with the candidate that see a cell of each.
pub open spec fn trapped(g: Grid, v: u8, a: Set<u8>, b: Set<u8>) -> Set<u8> {
    Set::new(|c: u8| c < 81 && !a.contains(c) && !b.contains(c) && g.has_cand(c as int, v) && set_sees(a, c as int) && set_sees(b, c as int))
}

/// The cells outside both colours with the candidate that see a cell of each.
fn trap_removals(grid: &Grid, value: u8, a: &IndexSet, b: &IndexSet) -> (r: IndexSet)
    requires
        grid.wf(),
    ensures
        r@ == trapped(*grid, value, a@, b@),
{
    let mut r = IndexSet::new_empty();
    let mut c: u8 = 0;
    while c < 81
        invariant
            c <= 81,
            grid.wf(),
            r@ == trapped(*grid, value, a@, b@).filter(|x: u8| x < c),
        decreases 81 - c,
    {
        if !a.contains(c) && !b.contains(c) && grid.cell_has_candidate(c, value) && some_sees(a, c) && some_sees(b, c) {
            r.add(c);
        }
        assert(r@ =~= trapped(*grid, value, a@, b@).filter(|x: u8| x < c + 1));
        c = c + 1;
    }
    assert(r@ =~= trapped(*grid, value, a@, b@));
    r
}

/// Whether a cell of `a` sees a cell of `b`.
fn colors_see_each_other(a: &IndexSet, b: &IndexSet) -> (r: bool)
    ensures
        r == exists|x: u8, y: u8| a@.contains(x) && b@.contains(y) && #[trigger] sees(x as int, y as int),
{
    proof {
        IndexSet::lemma_bounds(*b);
    }
    let cells = b.values();
    let mut i: usize = 0;
    while i < cells.len()
        invariant
            i <= cells@.len(),
            forall|x: u8| cells@.contains(x) <==> b@.contains(x),
            forall|x: u8| #[trigger] b@.contains(x) ==> x < 81,
            forall|k: int, x: u8| 0 <= k < i && #[trigger] a@.contains(x) ==> !sees(x as int, (#[trigger] cells@[k]) as int),
        decreases cells@.len() - i,
    {
        assert(cells@.contains(cells@[i as int]));
        if some_sees(a, cells[i]) {
            return true;
        }
        i = i + 1;
    }
    proof {
        assert forall|x: u8, y: u8| a@.contains(x) && b@.contains(y) implies !#[trigger] sees(x as int, y as int) by {
            assert(cells@.contains(y));
            let k = choose|k: int| 0 <= k < cells@.len() && cells@[k] == y;
        }
    }
    false
}

/// The candidates of digit `value` in the cells of `s`, ordered by cell.
fn candidates(s: &IndexSet, value: u8) -> (r: Vec<Candidate>)
    ensures
        sorted_cands(r@),
        forall|i: int| 0 <= i < r@.len() ==> (#[trigger] r@[i]).1 == value && s@.contains(r@[i].0),
        forall|c: u8| s@.contains(c) ==> lists_cell(r@, c as int),
        r@.len() == s@.len(),
{
    let cells = s.values();
    let mut r: Vec<Candidate> = Vec::new();
    let mut i: usize = 0;
    while i < cells.len()
        invariant
            i <= cells@.len(),
            forall|x: u8| cells@.contains(x) <==> s@.contains(x),
            forall|x: int, y: int| 0 <= x < y < cells@.len() ==> cells@[x] < cells@[y],
            r@.len() == i,
            forall|k: int| 0 <= k < i ==> (#[trigger] r@[k]) == Candidate(cells@[k], value),
        decreases cells@.len() - i,
    {
        r.push(Candidate::new(cells[i], value));
        i = i + 1;
    }
    proof {
        assert forall|x: int| 0 <= x < r@.len() implies (#[trigger] r@[x]).1 == value && s@.contains(r@[x].0) by {
            assert(cells@.contains(cells@[x]));
        }
        assert forall|c: u8| s@.contains(c) implies lists_cell(r@, c as int) by {
            assert(cells@.contains(c));
            let k = choose|k: int| 0 <= k < cells@.len() && cells@[k] == c;
            assert(r@[k].0 == c);
        }
        assert forall|x: int, y: int| 0 <= x < y < r@.len() implies crate::solver::naked_set::cand_before(#[trigger] r@[x], #[trigger] r@[y]) by {
            assert(r@[x] == Candidate(cells@[x], value));
            assert(r@[y] == Candidate(cells@[y], value));
        }
    }
    r
}

/// `itertools::Itertools::tuple_combinations` on `0..n`: every pair `(i, j)` with
/// `i < j < n`, in lexicographic order.
#[verifier::external_body]
fn index_pairs(n: usize) -> (r: Vec<(usize, usize)>)
    ensures
        forall|k: int| 0 <= k < r@.len() ==> (#[trigger] r@[k]).0 < r@[k].1 < n,
        forall|k: int, l: int| 0 <= k < l < r@.len() ==> (#[trigger] r@[k]).0 < (#[trigger] r@[l]).0 || (r@[k].0 == r@[l].0
            && r@[k].1 < r@[l].1),
        forall|i: usize, j: usize| i < j < n ==> r@.contains((i, j)),
{
    (0..n).tuple_combinations().collect()
}

/// What holds of every cell of a colour holds of a list of its cells.
proof fn lemma_listed(s: Seq<u8>, x: Set<u8>, l: Seq<Candidate>, v: u8)
    requires
        forall|i: int| 0 <= i < l.len() ==> x.contains((#[trigger] l[i]).0),
    ensures
        cells_hold(s, x, v) ==> all_hold(s, l, v),
        cells_lack(s, x, v) ==> none_hold(s, l, v),
{
    assert forall|i: int| 0 <= i < l.len() && cells_hold(s, x, v) implies s[(#[trigger] l[i]).0 as int] == v by {
        assert(x.contains(l[i].0));
    }
    assert forall|i: int| 0 <= i < l.len() && cells_lack(s, x, v) implies s[(#[trigger] l[i]).0 as int] != v by {
        assert(x.contains(l[i].0));
    }
}

/// Colours that alternate have one of them holding the digit, in either order.
proof fn lemma_alternate_either(g: Grid, v: u8, a: Set<u8>, b: Set<u8>)
    requires
        colours_alternate(g, v, a, b),
    ensures
        colours_either(g, v, a, b),
        colours_alternate(g, v, b, a),
{
    assert forall|s: Seq<u8>| searchable(g) && #[trigger] solves(g, s) implies cells_hold(s, a, v) || cells_hold(s, b, v) by {
        assert(colours_alternate(g, v, a, b));
    }
    assert forall|s: Seq<u8>| searchable(g) && #[trigger] solves(g, s) implies (cells_hold(s, b, v) && cells_lack(s, a, v)) || (
    cells_lack(s, b, v) && cells_hold(s, a, v)) by {
        assert(colours_alternate(g, v, a, b));
    }
}

/// Of two chains, when a colour `x` of one sees a colour `y` of the other, the two cannot
/// both hold the digit: one of the opposite colours does.
proof fn lemma_multi_either(g: Grid, v: u8, x: Set<u8>, left: Set<u8>, y: Set<u8>, right: Set<u8>)
    requires
        colours_alternate(g, v, x, left),
        colours_alternate(g, v, y, right),
        exists|p: u8, q: u8| x.contains(p) && y.contains(q) && #[trigger] sees(p as int, q as int),
    ensures
        colours_either(g, v, left, right),
{
    let (p, q) = choose|p: u8, q: u8| x.contains(p) && y.contains(q) && #[trigger] sees(p as int, q as int);
    assert forall|s: Seq<u8>| searchable(g) && #[trigger] solves(g, s) implies cells_hold(s, left, v) || cells_hold(s, right, v) by {
        assert(colours_alternate(g, v, x, left));
        assert(colours_alternate(g, v, y, right));
        if !cells_hold(s, left, v) && !cells_hold(s, right, v) {
            assert(s[p as int] == v);
            assert(s[q as int] == v);
        }
    }
}

/// Reports the colouring of type `ty` with colours `a` and `b` removing the digit from
/// the cells of `removals`; returns whether the accumulator is done.
fn emit<A: StepAccumulator>(
    grid: &Grid,
    value: u8,
    ty: ColoringType,
    a: &IndexSet,
    b: &IndexSet,
    removals: &IndexSet,
    acc: &mut A,
    Ghost(start): Ghost<Seq<Step>>,
    Ghost(ok): Ghost<spec_fn(Step) -> bool>,
) -> (finish: bool)
    requires
        grid.wf(),
        1 <= value <= 9,
        carries(*grid, value, a@),
        carries(*grid, value, b@),
        carries(*grid, value, removals@),
        removals@ != Set::<u8>::empty(),
        ty == ColoringType::Wrap ==> (set_self_seeing(a@) && removals@.subset_of(a@)) || (set_self_seeing(b@) && removals@.subset_of(
            b@,
        )),
        ty != ColoringType::Wrap ==> forall|c: u8|
            #[trigger] removals@.contains(c) ==> !a@.contains(c) && !b@.contains(c) && set_sees(a@, c as int) && set_sees(b@, c as int),
        ty == ColoringType::Wrap ==> colours_alternate(*grid, value, a@, b@),
        ty != ColoringType::Wrap ==> colours_either(*grid, value, a@, b@),
        grows(start, old(acc).recorded(), ok),
        ok == (|s: Step| s.pattern(*grid) && s is Coloring),
    ensures
        grows(start, final(acc).recorded(), ok),
        final(acc).stops_at_first() == old(acc).stops_at_first(),
        finish == final(acc).stops_at_first(),
{
    let color_a = candidates(a, value);
    let color_b = candidates(b, value);
    let remove = candidates(removals, value);
    proof {
        IndexSet::lemma_bounds(*removals);
        if removals@.len() == 0 {
            assert(removals@ =~= Set::<u8>::empty());
        }
    }
    let step = ColoringStep { coloring_type: ty, color_a, color_b, remove_candidates: remove };
    proof {
        let ca = step.color_a@;
        let cb = step.color_b@;
        let rm = step.remove_candidates@;
        assert(digit_cells(*grid, ca, value));
        assert(digit_cells(*grid, cb, value));
        assert(digit_cells(*grid, rm, value));
        if ty == ColoringType::Wrap {
            assert forall|s: Seq<u8>| searchable(*grid) && #[trigger] solves(*grid, s) implies (all_hold(s, ca, value) && none_hold(
                s,
                cb,
                value,
            )) || (none_hold(s, ca, value) && all_hold(s, cb, value)) by {
                assert(colours_alternate(*grid, value, a@, b@));
                lemma_listed(s, a@, ca, value);
                lemma_listed(s, b@, cb, value);
            }
            if set_self_seeing(a@) && removals@.subset_of(a@) {
                let (x, y) = choose|x: u8, y: u8| a@.contains(x) && a@.contains(y) && #[trigger] sees(x as int, y as int);
                let i = choose|i: int| 0 <= i < ca.len() && (#[trigger] ca[i]).0 == x as int;
                let j = choose|j: int| 0 <= j < ca.len() && (#[trigger] ca[j]).0 == y as int;
                assert(sees(ca[i].0 as int, ca[j].0 as int));
                assert forall|k: int| 0 <= k < rm.len() implies lists_cell(ca, (#[trigger] rm[k]).0 as int) by {
                    assert(a@.contains(rm[k].0));
                }
            } else {
                let (x, y) = choose|x: u8, y: u8| b@.contains(x) && b@.contains(y) && #[trigger] sees(x as int, y as int);
                let i = choose|i: int| 0 <= i < cb.len() && (#[trigger] cb[i]).0 == x as int;
                let j = choose|j: int| 0 <= j < cb.len() && (#[trigger] cb[j]).0 == y as int;
                assert(sees(cb[i].0 as int, cb[j].0 as int));
                assert forall|k: int| 0 <= k < rm.len() implies lists_cell(cb, (#[trigger] rm[k]).0 as int) by {
                    assert(b@.contains(rm[k].0));
                }
            }
        } else {
            assert forall|s: Seq<u8>| searchable(*grid) && #[trigger] solves(*grid, s) implies all_hold(s, ca, value) || all_hold(
                s,
                cb,
                value,
            ) by {
                assert(colours_either(*grid, value, a@, b@));
                lemma_listed(s, a@, ca, value);
                lemma_listed(s, b@, cb, value);
            }
            assert forall|k: int| 0 <= k < rm.len() implies {
                let c = (#[trigger] rm[k]).0 as int;
                &&& !lists_cell(ca, c)
                &&& !lists_cell(cb, c)
                &&& seen_from(ca, c)
                &&& seen_from(cb, c)
            } by {
                let c = rm[k].0;
                assert(removals@.contains(c));
                if lists_cell(ca, c as int) {
                    let i = choose|i: int| 0 <= i < ca.len() && (#[trigger] ca[i]).0 == c as int;
                    assert(a@.contains(ca[i].0));
                }
                if lists_cell(cb, c as int) {
                    let i = choose|i: int| 0 <= i < cb.len() && (#[trigger] cb[i]).0 == c as int;
                    assert(b@.contains(cb[i].0));
                }
                let x = choose|x: u8| a@.contains(x) && #[trigger] sees(x as int, c as int);
                let i = choose|i: int| 0 <= i < ca.len() && (#[trigger] ca[i]).0 == x as int;
                let y = choose|y: u8| b@.contains(y) && #[trigger] sees(y as int, c as int);
                let j = choose|j: int| 0 <= j < cb.len() && (#[trigger] cb[j]).0 == y as int;
            }
        }
        assert(step.pattern(*grid));
    }
    report(acc, Step::Coloring(step), Ghost(start), Ghost(ok))
}

/// Finds colourings: for each digit, each chain of conjugate pairs in turn (a wrap, then
/// a trap), then each two chains whose colours see each other (a trap on the opposite
/// colours); stops once the accumulator is done.
#[derive(Debug, Default)]
pub struct ColoringFinder;

impl ColoringFinder {
    pub fn find_step<A: StepAccumulator>(&self, grid: &Grid, acc: &mut A)
        requires
            grid.wf(),
        ensures
            grows(old(acc).recorded(), final(acc).recorded(), |s: Step| s.pattern(*grid) && s is Coloring),
            final(acc).stops_at_first() == old(acc).stops_at_first(),
    {
        let ghost start = acc.recorded();
        let ghost ok = |s: Step| s.pattern(*grid) && s is Coloring;
        proof {
            assert(acc.recorded().subrange(0, start.len() as int) =~= start);
        }
        let mut value: u8 = 1;
        while value <= 9
            invariant
                1 <= value <= 10,
                grid.wf(),
                ok == (|s: Step| s.pattern(*grid) && s is Coloring),
                grows(start, acc.recorded(), ok),
                start == old(acc).recorded(),
                acc.stops_at_first() == old(acc).stops_at_first(),
            decreases 10 - value,
        {
            let links = links_of(grid, value);
            proof {
                assert(links_ok(*grid, value, links@));
            }
            let starts = component_starts(&links, Ghost(*grid), Ghost(value));
            let mut k: usize = 0;
            while k < starts.len()
                invariant
                    k <= starts@.len(),
                    1 <= value <= 9,
                    grid.wf(),
                    links_ok(*grid, value, links@),
                    forall|x: int| 0 <= x < starts@.len() ==> #[trigger] starts@[x] < 81 && grid.has_cand(starts@[x] as int, value),
                    ok == (|s: Step| s.pattern(*grid) && s is Coloring),
                    grows(start, acc.recorded(), ok),
                    start == old(acc).recorded(),
                    acc.stops_at_first() == old(acc).stops_at_first(),
                decreases starts@.len() - k,
            {
                assert(starts@[k as int] < 81 && grid.has_cand(starts@[k as int] as int, value));
                let (a, b) = color_component(&links, starts[k], Ghost(*grid), Ghost(value));
                proof {
                    lemma_alternate_either(*grid, value, a@, b@);
                }
                let wrap = wrap_removals(grid, value, &a, &b);
                if !wrap.is_empty() {
                    if emit(grid, value, ColoringType::Wrap, &a, &b, &wrap, acc, Ghost(start), Ghost(ok)) {
                        return;
                    }
                }
                let trap = trap_removals(grid, value, &a, &b);
                if !trap.is_empty() {
                    if emit(grid, value, ColoringType::Trap, &a, &b, &trap, acc, Ghost(start), Ghost(ok)) {
                        return;
                    }
                }
                k = k + 1;
            }
            let pairs = index_pairs(starts.len());
            let mut p: usize = 0;
            while p < pairs.len()
                invariant
                    p <= pairs@.len(),
                    1 <= value <= 9,
                    grid.wf(),
                    links_ok(*grid, value, links@),
                    forall|x: int| 0 <= x < starts@.len() ==> #[trigger] starts@[x] < 81 && grid.has_cand(starts@[x] as int, value),
                    forall|x: int| 0 <= x < pairs@.len() ==> (#[trigger] pairs@[x]).0 < pairs@[x].1 < starts@.len(),
                    ok == (|s: Step| s.pattern(*grid) && s is Coloring),
                    grows(start, acc.recorded(), ok),
                    start == old(acc).recorded(),
                    acc.stops_at_first() == old(acc).stops_at_first(),
                decreases pairs@.len() - p,
            {
                let (li, ri) = pairs[p];
                assert(pairs@[p as int].0 < pairs@[p as int].1 < starts@.len());
                assert(starts@[li as int] < 81 && grid.has_cand(starts@[li as int] as int, value));
                assert(starts@[ri as int] < 81 && grid.has_cand(starts@[ri as int] as int, value));
                let (la, lb) = color_component(&links, starts[li], Ghost(*grid), Ghost(value));
                let (ra, rb) = color_component(&links, starts[ri], Ghost(*grid), Ghost(value));
                proof {
                    lemma_alternate_either(*grid, value, la@, lb@);
                    lemma_alternate_either(*grid, value, ra@, rb@);
                }
                let mut combo: u8 = 0;
                while combo < 4
                    invariant
                        combo <= 4,
                        1 <= value <= 9,
                        grid.wf(),
                        carries(*grid, value, la@),
                        carries(*grid, value, lb@),
                        carries(*grid, value, ra@),
                        carries(*grid, value, rb@),
                        colours_alternate(*grid, value, la@, lb@),
                        colours_alternate(*grid, value, lb@, la@),
                        colours_alternate(*grid, value, ra@, rb@),
                        colours_alternate(*grid, value, rb@, ra@),
                        ok == (|s: Step| s.pattern(*grid) && s is Coloring),
                        grows(start, acc.recorded(), ok),
                        start == old(acc).recorded(),
                        acc.stops_at_first() == old(acc).stops_at_first(),
                    decreases 4 - combo,
                {
                    let (x, y, left, right) = if combo == 0 {
                        (&la, &ra, &lb, &rb)
                    } else if combo == 1 {
                        (&la, &rb, &lb, &ra)
                    } else if combo == 2 {
                        (&lb, &ra, &la, &rb)
                    } else {
                        (&lb, &rb, &la, &ra)
                    };
                    if colors_see_each_other(x, y) {
                        proof {
                            assert(colours_alternate(*grid, value, x@, left@));
                            assert(colours_alternate(*grid, value, y@, right@));
                            lemma_multi_either(*grid, value, x@, left@, y@, right@);
                        }
                        let trap = trap_removals(grid, value, left, right);
                        if !trap.is_empty() {
                            if emit(grid, value, ColoringType::Multi, left, right, &trap, acc, Ghost(start), Ghost(ok)) {
                                return;
                            }
                        }
                    }
                    combo = combo + 1;
                }
                p = p + 1;
            }
            value = value + 1;
        }
    }
}

} // verus!
