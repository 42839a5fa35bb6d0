use vstd::prelude::*;
use crate::solver::hidden_set::digit_has_place;
use crate::solver::locked_candidate::cand_cells;
use vstd::string::StringExecFns;
use crate::candidate::Candidate;
use crate::grid::{Grid, HouseType};
use crate::grid_constant::{in_house, sees, row_of, col_of, get_cell_buddies, peers};
use crate::solver::step::{Step, removable, removed, remove_all};
use crate::solver::step_accumulator::StepAccumulator;
use crate::solver::common::{grows, report, cand_list, candidates_of, progressed, lemma_progress_chain};
use crate::solver::naked_set::{seen_before, clone_cand_list, clone_cells};
use crate::util::indexset::IndexSet;
use crate::util::permutations::{create_permutations, increasing, picks};

verus! {

/// How many lines a fish spans.
#[derive(Debug, PartialEq, Eq, Hash, Clone, Copy, Structural)]
pub enum FishSize {
    XWing,
    Swordfish,
    Jellyfish,
    Squirmbag,
    Whale,
    Leviathan,
}

pub open spec fn size_degree(s: FishSize) -> u8 {
    match s {
        FishSize::XWing => 2,
        FishSize::Swordfish => 3,
        FishSize::Jellyfish => 4,
        FishSize::Squirmbag => 5,
        FishSize::Whale => 6,
        FishSize::Leviathan => 7,
    }
}

impl FishSize {
    pub fn degree(self) -> (r: u8)
        ensures
            r == size_degree(self),
    {
        match self {
            FishSize::XWing => 2,
            FishSize::Swordfish => 3,
            FishSize::Jellyfish => 4,
            FishSize::Squirmbag => 5,
            FishSize::Whale => 6,
            FishSize::Leviathan => 7,
        }
    }

    pub open spec fn title(self) -> Seq<char> {
        match self {
            FishSize::XWing => "X-Wing"@,
            FishSize::Swordfish => "Swordfish"@,
            FishSize::Jellyfish => "Jellyfish"@,
            FishSize::Squirmbag => "Squirmbag"@,
            FishSize::Whale => "Whale"@,
            FishSize::Leviathan => "Leviathan"@,
        }
    }

    fn name(self) -> (r: &'static str)
        ensures
            r@ == self.title(),
    {
        match self {
            FishSize::XWing => "X-Wing",
            FishSize::Swordfish => "Swordfish",
            FishSize::Jellyfish => "Jellyfish",
            FishSize::Squirmbag => "Squirmbag",
            FishSize::Whale => "Whale",
            FishSize::Leviathan => "Leviathan",
        }
    }
}

/// Whether the fish has fins, and whether its core is degenerate.
#[derive(Debug, PartialEq, Eq, Hash, Clone, Copy, Structural)]
pub enum FishVariant {
    Basic,
    Finned,
    Sashimi,
}

/// A fish's size and variant.
#[derive(Debug, PartialEq, Eq, Hash, Clone, Copy, Structural)]
pub struct FishType {
    pub size: FishSize,
    pub variant: FishVariant,
}

impl FishType {
    /// Finned and sashimi fish span at most four lines.
    pub open spec fn valid(self) -> bool {
        self.variant is Basic || size_degree(self.size) <= 4
    }

    pub fn basic(size: FishSize) -> (r: Self)
        ensures
            r == (FishType { size, variant: FishVariant::Basic }),
    {
        FishType { size, variant: FishVariant::Basic }
    }

    pub fn finned(size: FishSize) -> (r: Self)
        requires
            size_degree(size) <= 4,
        ensures
            r == (FishType { size, variant: FishVariant::Finned }),
    {
        FishType { size, variant: FishVariant::Finned }
    }

    pub fn sashimi(size: FishSize) -> (r: Self)
        requires
            size_degree(size) <= 4,
        ensures
            r == (FishType { size, variant: FishVariant::Sashimi }),
    {
        FishType { size, variant: FishVariant::Sashimi }
    }

    pub fn degree(self) -> (r: u8)
        ensures
            r == size_degree(self.size),
    {
        self.size.degree()
    }
}

/// The cells with candidate `v` in the houses `hs`.
pub open spec fn cells_with(g: Grid, hs: Seq<u8>, v: u8) -> Set<u8> {
    Set::new(|c: u8| (exists|i: int| 0 <= i < hs.len() && in_house(c as int, #[trigger] hs[i] as int)) && g.has_cand(c as int, v))
}

/// The fins: candidate cells of the base lines outside the cover lines.
pub open spec fn fish_fins(g: Grid, v: u8, bs: Seq<u8>, cs: Seq<u8>) -> Set<u8> {
    cells_with(g, bs, v).difference(cells_with(g, cs, v))
}

/// Cells that lose `v`: in the covers, outside the bases, seeing every fin.
pub open spec fn fish_targets(g: Grid, v: u8, bs: Seq<u8>, cs: Seq<u8>) -> Set<u8> {
    Set::new(
        |c: u8|
            cells_with(g, cs, v).contains(c) && !cells_with(g, bs, v).contains(c) && forall|f: u8|
                #[trigger] fish_fins(g, v, bs, cs).contains(f) ==> sees(f as int, c as int),
    )
}

/// Every base line has a candidate of `v`.
pub open spec fn bases_placed(g: Grid, v: u8, bs: Seq<u8>) -> bool {
    forall|i: int| 0 <= i < bs.len() ==> digit_has_place(g, #[trigger] bs[i] as int, v)
}

/// `k` base lines of one kind and `k` cover lines of the other, in increasing order.
pub open spec fn fish_shape(bs: Seq<u8>, cs: Seq<u8>, k: int) -> bool {
    &&& bs.len() == k && cs.len() == k
    &&& increasing(bs) && increasing(cs)
    &&& ((forall|i: int| 0 <= i < k ==> #[trigger] bs[i] < 9 && 9 <= cs[i] < 18) || (forall|i: int|
        0 <= i < k ==> 9 <= #[trigger] bs[i] < 18 && cs[i] < 9))
}

/// A digit's places in some base lines lie in as many cover lines (save the fins), so the
/// digit leaves the rest of the covers (those seeing every fin).
#[derive(Debug, PartialEq, Eq, Hash, Clone)]
pub struct Fish {
    pub remove_candidates: Vec<Candidate>,
    pub highlight_candidates: Vec<Candidate>,
    pub fins: Vec<Candidate>,
    pub basics: Vec<u8>,
    pub covers: Vec<u8>,
    pub value: u8,
    pub fish_type: FishType,
}

impl Fish {
    /// The bases and covers form a fish of the step's size on its digit (without fins for
    /// a basic fish); the removals are the digit's candidates that can go.
    pub open spec fn pattern(self, g: Grid) -> bool {
        &&& self.fish_type.valid()
        &&& 1 <= self.value <= 9
        &&& fish_shape(self.basics@, self.covers@, size_degree(self.fish_type.size) as int)
        &&& bases_placed(g, self.value, self.basics@)
        &&& (self.fish_type.variant is Basic ==> fish_fins(g, self.value, self.basics@, self.covers@) == Set::<u8>::empty())
        &&& cand_list(self.remove_candidates@, self.value, fish_targets(g, self.value, self.basics@, self.covers@))
        &&& self.remove_candidates@.len() > 0
    }

    pub open spec fn rating(self) -> u32 {
        match (self.fish_type.variant, self.fish_type.size) {
            (FishVariant::Basic, FishSize::XWing) => 140,
            (FishVariant::Basic, FishSize::Swordfish) => 150,
            (FishVariant::Basic, FishSize::Jellyfish) => 160,
            (FishVariant::Basic, FishSize::Squirmbag) => 170,
            (FishVariant::Basic, FishSize::Whale) => 180,
            (FishVariant::Basic, FishSize::Leviathan) => 190,
            (FishVariant::Finned, FishSize::XWing) => 150,
            (FishVariant::Finned, FishSize::Swordfish) => 200,
            (FishVariant::Finned, FishSize::Jellyfish) => 250,
            (FishVariant::Sashimi, FishSize::XWing) => 150,
            (FishVariant::Sashimi, FishSize::Swordfish) => 240,
            (FishVariant::Sashimi, FishSize::Jellyfish) => 260,
            _ => 0,
        }
    }

    pub fn difficulty(&self) -> (r: u32)
        requires
            self.fish_type.valid(),
        ensures
            r == self.rating(),
    {
        match (self.fish_type.variant, self.fish_type.size) {
            (FishVariant::Basic, FishSize::XWing) => 140,
            (FishVariant::Basic, FishSize::Swordfish) => 150,
            (FishVariant::Basic, FishSize::Jellyfish) => 160,
            (FishVariant::Basic, FishSize::Squirmbag) => 170,
            (FishVariant::Basic, FishSize::Whale) => 180,
            (FishVariant::Basic, FishSize::Leviathan) => 190,
            (FishVariant::Finned, FishSize::XWing) => 150,
            (FishVariant::Finned, FishSize::Swordfish) => 200,
            (FishVariant::Finned, FishSize::Jellyfish) => 250,
            (FishVariant::Sashimi, FishSize::XWing) => 150,
            (FishVariant::Sashimi, FishSize::Swordfish) => 240,
            (FishVariant::Sashimi, FishSize::Jellyfish) => 260,
            _ => 0,
        }
    }

    /// Removes the candidates.
    pub fn apply(&self, grid: &mut Grid)
        requires
            old(grid).wf(),
            self.remove_candidates@.len() > 0,
            removable(*old(grid), self.remove_candidates@),
        ensures
            final(grid).wf(),
            removed(*old(grid), *final(grid), self.remove_candidates@),
    {
        remove_all(grid, &self.remove_candidates);
    }

    pub open spec fn title(self) -> Seq<char> {
        match (self.fish_type.variant, self.fish_type.size) {
            (FishVariant::Basic, size) => size.title(),
            (FishVariant::Finned, FishSize::XWing) => "Finned X-Wing"@,
            (FishVariant::Finned, FishSize::Swordfish) => "Finned Swordfish"@,
            (FishVariant::Finned, FishSize::Jellyfish) => "Finned Jellyfish"@,
            (FishVariant::Sashimi, FishSize::XWing) => "Sashimi X-Wing"@,
            (FishVariant::Sashimi, FishSize::Swordfish) => "Sashimi Swordfish"@,
            (FishVariant::Sashimi, FishSize::Jellyfish) => "Sashimi Jellyfish"@,
            _ => ""@,
        }
    }

    pub fn name(&self) -> (r: &'static str)
        requires
            self.fish_type.valid(),
        ensures
            r@ == self.title(),
    {
        match (self.fish_type.variant, self.fish_type.size) {
            (FishVariant::Basic, size) => size.name(),
            (FishVariant::Finned, FishSize::XWing) => "Finned X-Wing",
            (FishVariant::Finned, FishSize::Swordfish) => "Finned Swordfish",
            (FishVariant::Finned, FishSize::Jellyfish) => "Finned Jellyfish",
            (FishVariant::Sashimi, FishSize::XWing) => "Sashimi X-Wing",
            (FishVariant::Sashimi, FishSize::Swordfish) => "Sashimi Swordfish",
            (FishVariant::Sashimi, FishSize::Jellyfish) => "Sashimi Jellyfish",
            _ => "",
        }
    }

    /// Describes the step.
    pub fn explain(&self) -> (r: String)
        requires
            self.fish_type.valid(),
        ensures
            r@ == "<h3>"@ + self.title() + "</h3>"@,
    {
        let mut s = String::from_str("<h3>");
        s.append(self.name());
        s.append("</h3>");
        s
    }
}

/// The cells with candidate `value` in the houses `houses`.
pub(crate) fn candidate_cells_in_houses(grid: &Grid, houses: &Vec<u8>, value: u8) -> (r: IndexSet)
    requires
        grid.wf(),
    ensures
        r@ == cells_with(*grid, houses@, value),
{
    let mut r = IndexSet::new_empty();
    let mut i: usize = 0;
    while i < houses.len()
        invariant
            i <= houses@.len(),
            grid.wf(),
            r@ == cells_with(*grid, houses@.subrange(0, i as int), value),
        decreases houses@.len() - i,
    {
        let ghost before = r@;
        let cs = grid.candidate_cells_in_house(houses[i], value);
        r = r.union(&cs);
        proof {
            let pre = houses@.subrange(0, i as int);
            let post = houses@.subrange(0, i + 1);
            assert forall|c: u8| r@.contains(c) <==> cells_with(*grid, post, value).contains(c) by {
                if cells_with(*grid, post, value).contains(c) {
                    let k = choose|k: int| 0 <= k < post.len() && in_house(c as int, #[trigger] post[k] as int);
                    if k < i {
                        assert(pre[k] == post[k]);
                    }
                }
                if before.contains(c) {
                    let k = choose|k: int| 0 <= k < pre.len() && in_house(c as int, #[trigger] pre[k] as int);
                    assert(post[k] == pre[k]);
                }
                if cs@.contains(c) {
                    assert(post[i as int] == houses@[i as int]);
                }
            }
            assert(r@ =~= cells_with(*grid, post, value));
        }
        i = i + 1;
    }
    assert(houses@.subrange(0, houses@.len() as int) =~= houses@);
    r
}

/// The row (or column) of `cell`.
fn line_of(cell: u8, rows: bool) -> (h: u8)
    requires
        cell < 81,
    ensures
        h == (if rows { row_of(cell as int) } else { col_of(cell as int) }),
{
    if rows {
        crate::grid_constant::row(cell)
    } else {
        crate::grid_constant::col(cell)
    }
}

/// Some cell of `cells` lies in house `h`.
pub open spec fn line_used(cells: Set<u8>, h: u8) -> bool {
    exists|c: u8| cells.contains(c) && #[trigger] in_house(c as int, h as int)
}

/// The rows (or columns) holding some cell of `cells`, in increasing order.
fn houses_for_cells(cells: &IndexSet, rows: bool) -> (r: Vec<u8>)
    ensures
        increasing(r@),
        forall|i: int| 0 <= i < r@.len() ==> (if rows { #[trigger] r@[i] < 9 } else { 9 <= r@[i] < 18 }),
        forall|i: int| 0 <= i < r@.len() ==> line_used(cells@, #[trigger] r@[i]),
        forall|c: u8| #[trigger] cells@.contains(c) ==> exists|i: int| 0 <= i < r@.len() && in_house(c as int, r@[i] as int),
{
    let cv = cells.values();
    proof {
        IndexSet::lemma_bounds(*cells);
    }
    let base: u8 = if rows { 0 } else { 9 };
    let mut r: Vec<u8> = Vec::new();
    let mut h: u8 = 0;
    while h < 9
        invariant
            h <= 9,
            base == (if rows { 0u8 } else { 9u8 }),
            forall|c: u8| cv@.contains(c) <==> cells@.contains(c),
            forall|c: u8| #[trigger] cells@.contains(c) ==> c < 81,
            increasing(r@),
            forall|i: int| 0 <= i < r@.len() ==> base <= #[trigger] r@[i] < base + h,
            forall|i: int| 0 <= i < r@.len() ==> line_used(cells@, #[trigger] r@[i]),
            forall|c: u8|
                #[trigger] cells@.contains(c) && (if rows { row_of(c as int) } else { col_of(c as int) }) < base + h ==> exists|i: int|
                    0 <= i < r@.len() && in_house(c as int, r@[i] as int),
        decreases 9 - h,
    {
        let mut found = false;
        let mut k: usize = 0;
        while k < cv.len()
            invariant
                k <= cv@.len(),
                h < 9,
                forall|c: u8| cv@.contains(c) <==> cells@.contains(c),
                forall|c: u8| #[trigger] cells@.contains(c) ==> c < 81,
                base == (if rows { 0u8 } else { 9u8 }),
                found == exists|q: int| 0 <= q < k && (if rows { row_of(cv@[q] as int) } else { col_of(cv@[q] as int) }) == base + h,
            decreases cv@.len() - k,
        {
            assert(cv@.contains(cv@[k as int]));
            if line_of(cv[k], rows) == base + h {
                found = true;
            }
            k = k + 1;
        }
        let ghost r0 = r@;
        if found {
            proof {
                let q = choose|q: int| 0 <= q < cv@.len() && (if rows { row_of(cv@[q] as int) } else { col_of(cv@[q] as int) }) == base + h;
                assert(cv@.contains(cv@[q]));
                assert(cells@.contains(cv@[q]) && in_house(cv@[q] as int, (base + h) as int));
                assert(line_used(cells@, (base + h) as u8));
            }
            r.push(base + h);
        }
        proof {
            assert forall|c: u8|
                #[trigger] cells@.contains(c) && (if rows { row_of(c as int) } else { col_of(c as int) }) < base + h + 1 implies exists|i: int|
                0 <= i < r@.len() && in_house(c as int, r@[i] as int) by {
                if (if rows { row_of(c as int) } else { col_of(c as int) }) < base + h {
                    let i = choose|i: int| 0 <= i < r0.len() && in_house(c as int, r0[i] as int);
                    assert(r@[i] == r0[i]);
                } else {
                    assert(cv@.contains(c));
                    let q = choose|q: int| 0 <= q < cv@.len() && cv@[q] == c;
                    assert(found);
                    assert(r@[r@.len() - 1] == base + h);
                }
            }
            assert forall|i: int| 0 <= i < r@.len() implies line_used(cells@, #[trigger] r@[i]) by {
                if i < r0.len() {
                    assert(r@[i] == r0[i]);
                }
            }
        }
        h = h + 1;
    }
    proof {
        assert forall|c: u8| #[trigger] cells@.contains(c) implies exists|i: int| 0 <= i < r@.len() && in_house(c as int, r@[i] as int) by {
            assert(0 <= (c as int) / 9 < 9);
        }
    }
    r
}

/// House `h` has a cell of `cells` with candidate `v`.
pub open spec fn meets(g: Grid, h: int, v: u8, cells: Set<u8>) -> bool {
    exists|c: u8| cells.contains(c) && in_house(c as int, h) && #[trigger] g.has_cand(c as int, v)
}

/// Every house of `houses` has a candidate `value` among `cells`.
fn houses_participate(grid: &Grid, houses: &Vec<u8>, value: u8, cells: &IndexSet) -> (r: bool)
    requires
        grid.wf(),
    ensures
        r == forall|i: int| 0 <= i < houses@.len() ==> #[trigger] meets(*grid, houses@[i] as int, value, cells@),
{
    let mut i: usize = 0;
    while i < houses.len()
        invariant
            i <= houses@.len(),
            grid.wf(),
            forall|k: int| 0 <= k < i ==> #[trigger] meets(*grid, houses@[k] as int, value, cells@),
        decreases houses@.len() - i,
    {
        let here = grid.candidate_cells_in_house(houses[i], value).intersect(cells);
        if here.is_empty() {
            proof {
                if meets(*grid, houses@[i as int] as int, value, cells@) {
                    let c = choose|c: u8| cells@.contains(c) && in_house(c as int, houses@[i as int] as int) && #[trigger] grid.has_cand(c as int, value);
                    assert(here@.contains(c));
                }
            }
            return false;
        }
        proof {
            let c = choose|c: u8| here@.contains(c);
            assert(here@.contains(c)) by {
                if !(exists|c: u8| here@.contains(c)) {
                    assert(here@ =~= Set::<u8>::empty());
                }
            }
            assert(grid.has_cand(c as int, value));
        }
        i = i + 1;
    }
    true
}

/// The cells that see every fin (none when there are no fins).
pub(crate) fn cells_that_see_all_fins(fins: &IndexSet) -> (r: IndexSet)
    ensures
        fins@ != Set::<u8>::empty() ==> r@ == Set::new(|c: u8| c < 81 && forall|f: u8| #[trigger] fins@.contains(f) ==> sees(f as int, c as int)),
{
    let fv = fins.values();
    if fv.len() == 0 {
        proof {
            if exists|f: u8| fins@.contains(f) {
                let f = choose|f: u8| fins@.contains(f);
                assert(fv@.contains(f));
            } else {
                assert(fins@ =~= Set::<u8>::empty());
            }
        }
        return IndexSet::new_empty();
    }
    proof {
        IndexSet::lemma_bounds(*fins);
        assert(fv@.contains(fv@[0]));
    }
    let mut r = get_cell_buddies(fv[0]);
    let mut i: usize = 1;
    while i < fv.len()
        invariant
            1 <= i <= fv@.len(),
            forall|f: u8| fv@.contains(f) <==> fins@.contains(f),
            forall|f: u8| #[trigger] fins@.contains(f) ==> f < 81,
            r@ == Set::new(|c: u8| c < 81 && forall|k: int| 0 <= k < i ==> sees(#[trigger] fv@[k] as int, c as int)),
        decreases fv@.len() - i,
    {
        assert(fv@.contains(fv@[i as int]));
        let ghost before = r@;
        r = r.intersect(&get_cell_buddies(fv[i]));
        proof {
            assert(r@ =~= Set::new(|c: u8| c < 81 && forall|k: int| 0 <= k < i + 1 ==> sees(#[trigger] fv@[k] as int, c as int))) by {
                assert forall|c: u8| r@.contains(c) implies c < 81 && forall|k: int| 0 <= k < i + 1 ==> sees(#[trigger] fv@[k] as int, c as int) by {
                    assert(before.contains(c));
                }
            }
        }
        i = i + 1;
    }
    proof {
        assert(r@ =~= Set::new(|c: u8| c < 81 && forall|f: u8| #[trigger] fins@.contains(f) ==> sees(f as int, c as int))) by {
            assert forall|c: u8| r@.contains(c) implies forall|f: u8| #[trigger] fins@.contains(f) ==> sees(f as int, c as int) by {
                assert forall|f: u8| #[trigger] fins@.contains(f) implies sees(f as int, c as int) by {
                    assert(fv@.contains(f));
                    let k = choose|k: int| 0 <= k < fv@.len() && fv@[k] == f;
                    assert(sees(fv@[k] as int, c as int));
                }
            }
            assert forall|c: u8| c < 81 && (forall|f: u8| #[trigger] fins@.contains(f) ==> sees(f as int, c as int)) implies r@.contains(c) by {
                assert forall|k: int| 0 <= k < fv@.len() implies sees(#[trigger] fv@[k] as int, c as int) by {
                    assert(fv@.contains(fv@[k]));
                }
            }
        }
    }
    r
}

/// House `h` holds exactly one cell of `core` with candidate `v`.
pub open spec fn single_core(g: Grid, h: int, v: u8, core: Set<u8>) -> bool {
    cand_cells(g, h, v).intersect(core).len() == 1
}

/// `cs` lists, in increasing order, lines of one kind (rows when `rows`) that each hold
/// some cell of `cells`, and together hold all of them.
#[verifier::opaque]
pub open spec fn cover_lines(cells: Set<u8>, cs: Seq<u8>, rows: bool) -> bool {
    &&& increasing(cs)
    &&& forall|i: int| 0 <= i < cs.len() ==> (if rows { #[trigger] cs[i] < 9 } else { 9 <= cs[i] < 18 })
    &&& forall|i: int| 0 <= i < cs.len() ==> line_used(cells, #[trigger] cs[i])
    &&& forall|c: u8| #[trigger] cells.contains(c) ==> exists|i: int| 0 <= i < cs.len() && in_house(c as int, cs[i] as int)
}

/// The lines of one kind (rows when `rows`) holding cells of `cells`, in increasing
/// order.
fn cover_lines_of(cells: &IndexSet, rows: bool) -> (r: Vec<u8>)
    ensures
        cover_lines(cells@, r@, rows),
        forall|i: int| 0 <= i < r@.len() ==> (if rows { #[trigger] r@[i] < 9 } else { 9 <= r@[i] < 18 }),
        increasing(r@),
        forall|c: u8| #[trigger] cells@.contains(c) ==> exists|i: int| 0 <= i < r@.len() && in_house(c as int, r@[i] as int),
{
    let r = houses_for_cells(cells, rows);
    proof {
        reveal(cover_lines);
    }
    r
}

/// The `d < k` base lines `sub` of `bs` form a smaller fish inside `core`: their core
/// cells lie in the `d` lines `lc` of the cover kind (rows when `rows`), which hold other
/// cells with `v`.
pub open spec fn sub_fish(g: Grid, v: u8, bs: Seq<u8>, core: Set<u8>, k: int, rows: bool, sub: Seq<u8>, lc: Seq<u8>) -> bool {
    &&& 2 <= sub.len() < k
    &&& picks(bs, sub, sub.len() as int)
    &&& cover_lines(cells_with(g, sub, v).intersect(core), lc, rows)
    &&& lc.len() == sub.len()
    &&& exists|c: u8| #[trigger] cells_with(g, lc, v).contains(c) && !cells_with(g, sub, v).intersect(core).contains(c)
}

/// Some of the base lines `bs` form a smaller fish inside `core`.
pub open spec fn hides_fish(g: Grid, v: u8, bs: Seq<u8>, core: Set<u8>, k: int, rows: bool) -> bool {
    exists|sub: Seq<u8>, lc: Seq<u8>| #[trigger] sub_fish(g, v, bs, core, k, rows, sub, lc)
}

/// A basic fish of `k` lines on digit `v`: the `k` base lines `bs`, each with a place for
/// `v`, hold their places in `k` lines of the other kind, the covers; no base or cover
/// line holds a single one of those places and no smaller fish hides among them; the
/// digit leaves some other cell of the covers, and the list of those removals is not
/// among `seen`. (The covers are the lines that hold the places: any list of them in
/// increasing order is the one meant.)
pub open spec fn basic_new(g: Grid, seen: Seq<Vec<Candidate>>, v: u8, bs: Seq<u8>, k: int) -> bool {
    &&& 1 <= v <= 9
    &&& bs.len() == k && k >= 2
    &&& increasing(bs)
    &&& ((forall|i: int| 0 <= i < k ==> #[trigger] bs[i] < 9) || (forall|i: int| 0 <= i < k ==> 9 <= #[trigger] bs[i] < 18))
    &&& bases_placed(g, v, bs)
    &&& forall|i: int| 0 <= i < k ==> !#[trigger] single_core(g, bs[i] as int, v, cells_with(g, bs, v))
    &&& !hides_fish(g, v, bs, cells_with(g, bs, v), k, covers_are_rows(bs))
    &&& forall|cs: Seq<u8>| #[trigger] cover_lines(cells_with(g, bs, v), cs, covers_are_rows(bs)) ==> basic_covers(g, seen, v, bs, cs, k)
}

/// The covers of bases `bs` are rows when the bases are columns.
pub open spec fn covers_are_rows(bs: Seq<u8>) -> bool {
    9 <= bs[0]
}

/// What [`basic_new`] asks of the covers `cs`.
pub open spec fn basic_covers(g: Grid, seen: Seq<Vec<Candidate>>, v: u8, bs: Seq<u8>, cs: Seq<u8>, k: int) -> bool {
    &&& cs.len() == k
    &&& forall|i: int| 0 <= i < k ==> !#[trigger] single_core(g, cs[i] as int, v, cells_with(g, bs, v))
    &&& exists|c: u8| #[trigger] fish_targets(g, v, bs, cs).contains(c)
    &&& forall|i: int| 0 <= i < seen.len() ==> !cand_list(#[trigger] seen[i]@, v, fish_targets(g, v, bs, cs))
}

/// The core of a fish: the places of `v` in both the bases `bs` and the covers `cs`.
pub open spec fn fish_core(g: Grid, v: u8, bs: Seq<u8>, cs: Seq<u8>) -> Set<u8> {
    cells_with(g, bs, v).intersect(cells_with(g, cs, v))
}

/// A finned fish of `k` lines on digit `v`: `k` base lines `bs` and `k` cover lines `cs`
/// of the other kind, in increasing order, each with a place for `v`; every base and
/// cover line holds a place of the core; some places of the bases lie outside the covers
/// (the fins); no line holds a single core cell and no smaller fish hides in the core; the
/// digit leaves some cell of the covers outside the bases that sees every fin, and the
/// list of those removals is not among `seen`.
pub open spec fn finned_new(g: Grid, seen: Seq<Vec<Candidate>>, v: u8, bs: Seq<u8>, cs: Seq<u8>, k: int) -> bool {
    &&& 1 <= v <= 9
    &&& k >= 2
    &&& fish_shape(bs, cs, k)
    &&& bases_placed(g, v, bs)
    &&& bases_placed(g, v, cs)
    &&& forall|i: int| 0 <= i < k ==> #[trigger] meets(g, bs[i] as int, v, fish_core(g, v, bs, cs))
    &&& forall|i: int| 0 <= i < k ==> #[trigger] meets(g, cs[i] as int, v, fish_core(g, v, bs, cs))
    &&& fish_fins(g, v, bs, cs) != Set::<u8>::empty()
    &&& forall|i: int| 0 <= i < k ==> !#[trigger] single_core(g, bs[i] as int, v, fish_core(g, v, bs, cs))
    &&& forall|i: int| 0 <= i < k ==> !#[trigger] single_core(g, cs[i] as int, v, fish_core(g, v, bs, cs))
    &&& !hides_fish(g, v, bs, fish_core(g, v, bs, cs), k, cs[0] < 9)
    &&& exists|c: u8| #[trigger] fish_targets(g, v, bs, cs).contains(c)
    &&& forall|i: int| 0 <= i < seen.len() ==> !cand_list(#[trigger] seen[i]@, v, fish_targets(g, v, bs, cs))
}

/// On the bases `bs`, a fish of type `kind` (basic or finned) removes a candidate, with a
/// list of removals not among `seen`.
pub open spec fn new_fish(kind: FishType, g: Grid, seen: Seq<Vec<Candidate>>, v: u8, bs: Seq<u8>) -> bool {
    if kind.variant is Basic {
        basic_new(g, seen, v, bs, size_degree(kind.size) as int)
    } else if kind.variant is Finned {
        exists|cs: Seq<u8>| #[trigger] finned_new(g, seen, v, bs, cs, size_degree(kind.size) as int)
    } else {
        false
    }
}

/// The grid has a basic or finned fish of type `kind` that removes a candidate.
pub open spec fn fish_finds(kind: FishType, g: Grid) -> bool {
    exists|v: u8, bs: Seq<u8>| #[trigger] new_fish(kind, g, Seq::empty(), v, bs)
}

/// A witness of a smaller fish in the core.
proof fn lemma_sub_fish(
    g: Grid,
    v: u8,
    bs: Seq<u8>,
    core: Set<u8>,
    k: int,
    rows: bool,
    sub: Seq<u8>,
    lc: Seq<u8>,
    lower_cells: Set<u8>,
    extra: Set<u8>,
)
    requires
        picks(bs, sub, sub.len() as int),
        2 <= sub.len() < k,
        lower_cells == cells_with(g, sub, v).intersect(core),
        cover_lines(lower_cells, lc, rows),
        lc.len() == sub.len(),
        extra == cells_with(g, lc, v).difference(lower_cells),
        extra != Set::<u8>::empty(),
    ensures
        hides_fish(g, v, bs, core, k, rows),
{
    let c = choose|c: u8| extra.contains(c);
    assert(extra.contains(c)) by {
        if !(exists|c: u8| extra.contains(c)) {
            assert(extra =~= Set::<u8>::empty());
        }
    }
    assert(cells_with(g, lc, v).contains(c) && !lower_cells.contains(c));
    assert(sub_fish(g, v, bs, core, k, rows, sub, lc));
}

/// The `d`-element selections of the lines `basics`.
fn sub_lines(basics: &Vec<u8>, d: u8) -> (r: Vec<Vec<u8>>)
    requires
        increasing(basics@),
        d <= 9,
    ensures
        forall|j: int| 0 <= j < r@.len() ==> picks(basics@, #[trigger] r@[j]@, d as int),
{
    create_permutations(clone_cells(basics), d)
}

/// A smaller fish hides in the core, or some line holds a single core cell.
fn core_is_degenerate(grid: &Grid, value: u8, basics: &Vec<u8>, covers: &Vec<u8>, core_cells: &IndexSet, degree: u8) -> (r: bool)
    requires
        grid.wf(),
        increasing(basics@),
        basics@.len() <= 9,
    ensures
        r ==> (exists|i: int| 0 <= i < basics@.len() && #[trigger] single_core(*grid, basics@[i] as int, value, core_cells@))
            || (exists|i: int| 0 <= i < covers@.len() && #[trigger] single_core(*grid, covers@[i] as int, value, core_cells@))
            || hides_fish(*grid, value, basics@, core_cells@, degree as int, covers@.len() > 0 && covers@[0] < 9),
{
    let mut i: usize = 0;
    while i < basics.len()
        invariant
            i <= basics@.len(),
            grid.wf(),
        decreases basics@.len() - i,
    {
        let here = grid.candidate_cells_in_house(basics[i], value).intersect(core_cells);
        if here.count() == 1 {
            proof {
                assert(here@ =~= cand_cells(*grid, basics@[i as int] as int, value).intersect(core_cells@));
                assert(single_core(*grid, basics@[i as int] as int, value, core_cells@));
            }
            return true;
        }
        i = i + 1;
    }
    let mut i: usize = 0;
    while i < covers.len()
        invariant
            i <= covers@.len(),
            grid.wf(),
        decreases covers@.len() - i,
    {
        let here = grid.candidate_cells_in_house(covers[i], value).intersect(core_cells);
        if here.count() == 1 {
            proof {
                assert(here@ =~= cand_cells(*grid, covers@[i as int] as int, value).intersect(core_cells@));
                assert(single_core(*grid, covers@[i as int] as int, value, core_cells@));
            }
            return true;
        }
        i = i + 1;
    }
    let cover_rows = covers.len() > 0 && covers[0] < 9;
    let mut d: u8 = 2;
    while d < degree && d <= 9
        invariant
            2 <= d,
            grid.wf(),
            increasing(basics@),
            cover_rows == (covers@.len() > 0 && covers@[0] < 9),
        decreases degree - d,
    {
        let lower = sub_lines(basics, d);
        let mut p: usize = 0;
        while p < lower.len()
            invariant
                p <= lower@.len(),
                grid.wf(),
                2 <= d < degree,
                cover_rows == (covers@.len() > 0 && covers@[0] < 9),
                forall|j: int| 0 <= j < lower@.len() ==> picks(basics@, #[trigger] lower@[j]@, d as int),
            decreases lower@.len() - p,
        {
            let lower_cells = candidate_cells_in_houses(grid, &lower[p], value).intersect(core_cells);
            let lower_covers = cover_lines_of(&lower_cells, cover_rows);
            if lower_covers.len() == d as usize {
                let lower_cover_cells = candidate_cells_in_houses(grid, &lower_covers, value);
                let extra = lower_cover_cells.difference(&lower_cells);
                if !extra.is_empty() {
                    proof {
                        assert(picks(basics@, lower@[p as int]@, d as int));
                        lemma_sub_fish(
                            *grid,
                            value,
                            basics@,
                            core_cells@,
                            degree as int,
                            cover_rows,
                            lower@[p as int]@,
                            lower_covers@,
                            lower_cells@,
                            extra@,
                        );
                    }
                    return true;
                }
            }
            p = p + 1;
        }
        d = d + 1;
    }
    false
}

/// The houses of one kind (rows when `rows`) with a candidate `value`.
fn lines_with(grid: &Grid, rows: bool, value: u8) -> (r: Vec<u8>)
    requires
        grid.wf(),
    ensures
        increasing(r@),
        forall|i: int| 0 <= i < r@.len() ==> (if rows { #[trigger] r@[i] < 9 } else { 9 <= r@[i] < 18 }),
        bases_placed(*grid, value, r@),
        forall|h: u8|
            (if rows { h < 9 } else { 9 <= h < 18 }) && #[trigger] digit_has_place(*grid, h as int, value) ==> r@.contains(h),
{
    let base: u8 = if rows { 0 } else { 9 };
    let mut r: Vec<u8> = Vec::new();
    let mut i: u8 = 0;
    while i < 9
        invariant
            i <= 9,
            grid.wf(),
            base == (if rows { 0u8 } else { 9u8 }),
            increasing(r@),
            forall|k: int| 0 <= k < r@.len() ==> base <= #[trigger] r@[k] < base + i,
            bases_placed(*grid, value, r@),
            forall|h: u8| base <= h < base + i && #[trigger] digit_has_place(*grid, h as int, value) ==> r@.contains(h),
        decreases 9 - i,
    {
        let here = grid.candidate_cells_in_house(base + i, value);
        proof {
            if digit_has_place(*grid, (base + i) as int, value) {
                let c = choose|c: int| in_house(c, (base + i) as int) && #[trigger] grid.has_cand(c, value);
                assert(here@.contains(c as u8));
            }
        }
        if !here.is_empty() {
            proof {
                let c = choose|c: u8| here@.contains(c);
                assert(here@.contains(c)) by {
                    if !(exists|c: u8| here@.contains(c)) {
                        assert(here@ =~= Set::<u8>::empty());
                    }
                }
                assert(digit_has_place(*grid, (base + i) as int, value)) by {
                    assert(in_house(c as int, (base + i) as int) && grid.has_cand(c as int, value));
                }
            }
            let ghost before = r@;
            r.push(base + i);
            proof {
                assert forall|k: int| 0 <= k < r@.len() implies digit_has_place(*grid, #[trigger] r@[k] as int, value) by {
                    if k < before.len() {
                        assert(r@[k] == before[k]);
                    }
                }
                assert forall|h: u8| base <= h < base + i + 1 && #[trigger] digit_has_place(*grid, h as int, value) implies r@.contains(h) by {
                    if h < base + i {
                        let k = choose|k: int| 0 <= k < before.len() && before[k] == h;
                        assert(r@[k] == before[k]);
                    } else {
                        assert(r@[before.len() as int] == h);
                    }
                }
            }
        }
        i = i + 1;
    }
    r
}

/// Finds fish of one type.
pub struct FishFinder {
    fish_type: FishType,
}

impl FishFinder {
    pub fn new(fish_type: FishType) -> (r: Self)
        requires
            fish_type.valid(),
        ensures
            r.kind() == fish_type,
    {
        FishFinder { fish_type }
    }

    pub closed spec fn kind(self) -> FishType {
        self.fish_type
    }

    #[verifier::type_invariant]
    spec fn inv(self) -> bool {
        self.fish_type.valid()
    }

    /// The finder looks for basic fish.
    pub open spec fn basic(self) -> bool {
        self.kind().variant is Basic
    }

    /// The grid has a basic or finned fish of the finder's kind that removes a candidate.
    pub open spec fn finds_in(self, g: Grid) -> bool {
        fish_finds(self.kind(), g)
    }

    /// What this finder reports.
    pub open spec fn reports(self, g: Grid, s: Step) -> bool {
        s.pattern(g) && (s matches Step::Fish(f) && f.fish_type == self.kind())
    }

    fn add_step<A: StepAccumulator>(
        &self,
        grid: &Grid,
        acc: &mut A,
        seen: &mut Vec<Vec<Candidate>>,
        value: u8,
        basics: Vec<u8>,
        covers: Vec<u8>,
        highlight_cells: &IndexSet,
        fin_cells: &IndexSet,
        remove_cells: &IndexSet,
        Ghost(start): Ghost<Seq<Step>>,
    )
        requires
            grid.wf(),
            self.kind().valid(),
            1 <= value <= 9,
            fish_shape(basics@, covers@, size_degree(self.kind().size) as int),
            bases_placed(*grid, value, basics@),
            self.kind().variant is Basic ==> fish_fins(*grid, value, basics@, covers@) == Set::<u8>::empty(),
            remove_cells@ == fish_targets(*grid, value, basics@, covers@),
            grows(start, old(acc).recorded(), |s: Step| self.reports(*grid, s)),
        ensures
            grows(start, final(acc).recorded(), |s: Step| self.reports(*grid, s)),
            final(acc).stops_at_first() == old(acc).stops_at_first(),
            remove_cells@ != Set::<u8>::empty() && (forall|i: int|
                0 <= i < old(seen)@.len() ==> !cand_list((#[trigger] old(seen)@[i])@, value, remove_cells@)) ==> progressed(
                old(acc).recorded(),
                final(acc).recorded(),
                old(acc).stops_at_first(),
            ),
            remove_cells@ == Set::<u8>::empty() ==> final(acc).recorded() == old(acc).recorded(),
            old(acc).recorded().len() <= final(acc).recorded().len(),
            final(seen)@ == old(seen)@ || progressed(old(acc).recorded(), final(acc).recorded(), old(acc).stops_at_first()),
    {
        if remove_cells.is_empty() {
            return;
        }
        let rm = candidates_of(remove_cells, value);
        proof {
            IndexSet::lemma_bounds(*remove_cells);
            if remove_cells@.len() == 0 {
                remove_cells@.lemma_len0_is_empty();
            }
        }
        if seen_before(seen, &rm) {
            proof {
                let i = choose|i: int| 0 <= i < seen@.len() && (#[trigger] seen@[i])@ == rm@;
                assert(cand_list(seen@[i]@, value, remove_cells@));
            }
            return;
        }
        seen.push(clone_cand_list(&rm));
        let fish = Fish {
            remove_candidates: rm,
            highlight_candidates: candidates_of(highlight_cells, value),
            fins: candidates_of(fin_cells, value),
            basics,
            covers,
            value,
            fish_type: self.fish_type,
        };
        proof {
            assert(fish.pattern(*grid));
        }
        let ghost ok = |s: Step| self.reports(*grid, s);
        report(acc, Step::Fish(fish), Ghost(start), Ghost(ok));
    }

    fn find_basic_fish<A: StepAccumulator>(
        &self,
        cover_rows: bool,
        grid: &Grid,
        acc: &mut A,
        seen: &mut Vec<Vec<Candidate>>,
        value: u8,
        basic_houses: &Vec<u8>,
        basic_cells: &IndexSet,
        Ghost(start): Ghost<Seq<Step>>,
    )
        requires
            grid.wf(),
            self.kind().valid(),
            self.kind().variant is Basic,
            1 <= value <= 9,
            basic_houses@.len() == size_degree(self.kind().size),
            increasing(basic_houses@),
            forall|i: int| 0 <= i < basic_houses@.len() ==> (if cover_rows { 9 <= #[trigger] basic_houses@[i] < 18 } else { basic_houses@[i] < 9 }),
            basic_cells@ == cells_with(*grid, basic_houses@, value),
            bases_placed(*grid, value, basic_houses@),
            grows(start, old(acc).recorded(), |s: Step| self.reports(*grid, s)),
        ensures
            grows(start, final(acc).recorded(), |s: Step| self.reports(*grid, s)),
            final(acc).stops_at_first() == old(acc).stops_at_first(),
            old(acc).recorded().len() <= final(acc).recorded().len(),
            final(seen)@ == old(seen)@ || progressed(old(acc).recorded(), final(acc).recorded(), old(acc).stops_at_first()),
            basic_new(*grid, old(seen)@, value, basic_houses@, size_degree(self.kind().size) as int) ==> progressed(
                old(acc).recorded(),
                final(acc).recorded(),
                old(acc).stops_at_first(),
            ),
    {
        let covers = cover_lines_of(basic_cells, cover_rows);
        proof {
            if basic_houses@.len() > 0 {
                assert(covers_are_rows(basic_houses@) == cover_rows);
            }
        }
        let degree = self.fish_type.degree();
        if covers.len() != degree as usize {
            proof {
                if basic_new(*grid, old(seen)@, value, basic_houses@, size_degree(self.kind().size) as int) {
                    assert(basic_covers(*grid, old(seen)@, value, basic_houses@, covers@, size_degree(self.kind().size) as int));
                }
            }
            return;
        }
        let degenerate = core_is_degenerate(grid, value, basic_houses, &covers, basic_cells, degree);
        if degenerate {
            proof {
                if basic_new(*grid, old(seen)@, value, basic_houses@, size_degree(self.kind().size) as int) {
                    assert(basic_covers(*grid, old(seen)@, value, basic_houses@, covers@, size_degree(self.kind().size) as int));
                }
            }
            return;
        }
        let cover_cells = candidate_cells_in_houses(grid, &covers, value);
        let remove = cover_cells.difference(basic_cells);
        let fins = IndexSet::new_empty();
        proof {
            assert forall|c: u8| !#[trigger] fish_fins(*grid, value, basic_houses@, covers@).contains(c) by {
                if basic_cells@.contains(c) {
                    let i = choose|i: int| 0 <= i < covers@.len() && in_house(c as int, covers@[i] as int);
                    assert(cover_cells@.contains(c));
                }
            }
            assert(fish_fins(*grid, value, basic_houses@, covers@) =~= Set::<u8>::empty());
            assert(remove@ =~= fish_targets(*grid, value, basic_houses@, covers@));
            if basic_new(*grid, old(seen)@, value, basic_houses@, size_degree(self.kind().size) as int) {
                assert(basic_covers(*grid, old(seen)@, value, basic_houses@, covers@, size_degree(self.kind().size) as int));
                let c = choose|c: u8| #[trigger] fish_targets(*grid, value, basic_houses@, covers@).contains(c);
                assert(remove@.contains(c));
            }
        }
        self.add_step(grid, acc, seen, value, clone_cells(basic_houses), covers, basic_cells, &fins, &remove, Ghost(start));
    }

    fn find_finned_or_sashimi_fish<A: StepAccumulator>(
        &self,
        cover_rows: bool,
        grid: &Grid,
        acc: &mut A,
        seen: &mut Vec<Vec<Candidate>>,
        value: u8,
        basic_houses: &Vec<u8>,
        basic_cells: &IndexSet,
        Ghost(start): Ghost<Seq<Step>>,
    )
        requires
            grid.wf(),
            self.kind().valid(),
            !(self.kind().variant is Basic),
            1 <= value <= 9,
            basic_houses@.len() == size_degree(self.kind().size),
            increasing(basic_houses@),
            forall|i: int| 0 <= i < basic_houses@.len() ==> (if cover_rows { 9 <= #[trigger] basic_houses@[i] < 18 } else { basic_houses@[i] < 9 }),
            basic_cells@ == cells_with(*grid, basic_houses@, value),
            bases_placed(*grid, value, basic_houses@),
            grows(start, old(acc).recorded(), |s: Step| self.reports(*grid, s)),
        ensures
            grows(start, final(acc).recorded(), |s: Step| self.reports(*grid, s)),
            final(acc).stops_at_first() == old(acc).stops_at_first(),
            old(acc).recorded().len() <= final(acc).recorded().len(),
            final(seen)@ == old(seen)@ || progressed(old(acc).recorded(), final(acc).recorded(), old(acc).stops_at_first()),
            self.kind().variant is Finned && (exists|cs: Seq<u8>|
                #[trigger] finned_new(*grid, old(seen)@, value, basic_houses@, cs, size_degree(self.kind().size) as int)) ==> progressed(
                old(acc).recorded(),
                final(acc).recorded(),
                old(acc).stops_at_first(),
            ),
    {
        let ghost rec0 = acc.recorded();
        let ghost stops = acc.stops_at_first();
        let ghost seen0 = seen@;
        let ghost k = size_degree(self.kind().size) as int;
        let covers_all = lines_with(grid, cover_rows, value);
        let perms = create_permutations(covers_all, self.fish_type.degree());
        let mut p: usize = 0;
        while p < perms.len()
            invariant
                rec0 == old(acc).recorded(),
                stops == old(acc).stops_at_first(),
                seen0 == old(seen)@,
                k == size_degree(self.kind().size) as int,
                forall|c: Seq<u8>| #[trigger] picks(covers_all@, c, k) ==> exists|j: int| 0 <= j < perms@.len() && perms@[j]@ == c,
                forall|h: u8|
                    (if cover_rows { h < 9 } else { 9 <= h < 18 }) && #[trigger] digit_has_place(*grid, h as int, value) ==> covers_all@.contains(h),
                !progressed(rec0, acc.recorded(), stops) && self.kind().variant is Finned ==> forall|j: int|
                    0 <= j < p ==> !#[trigger] finned_new(*grid, seen0, value, basic_houses@, perms@[j]@, k),
                p <= perms@.len(),
                grid.wf(),
                self.kind().valid(),
                !(self.kind().variant is Basic),
                1 <= value <= 9,
                basic_houses@.len() == size_degree(self.kind().size),
                increasing(basic_houses@),
                forall|i: int| 0 <= i < basic_houses@.len() ==> (if cover_rows { 9 <= #[trigger] basic_houses@[i] < 18 } else { basic_houses@[i] < 9 }),
                forall|i: int| 0 <= i < covers_all@.len() ==> (if cover_rows { #[trigger] covers_all@[i] < 9 } else { 9 <= covers_all@[i] < 18 }),
                forall|j: int| 0 <= j < perms@.len() ==> picks(covers_all@, #[trigger] perms@[j]@, size_degree(self.kind().size) as int),
                basic_cells@ == cells_with(*grid, basic_houses@, value),
                bases_placed(*grid, value, basic_houses@),
                grows(start, acc.recorded(), |s: Step| self.reports(*grid, s)),
                acc.stops_at_first() == old(acc).stops_at_first(),
                old(acc).recorded().len() <= acc.recorded().len(),
                seen@ == old(seen)@ || progressed(old(acc).recorded(), acc.recorded(), old(acc).stops_at_first()),
            decreases perms@.len() - p,
        {
            let covers = clone_cells(&perms[p]);
            proof {
                assert(picks(covers_all@, covers@, size_degree(self.kind().size) as int));
                assert forall|i: int| 0 <= i < covers@.len() implies (if cover_rows { #[trigger] covers@[i] < 9 } else { 9 <= covers@[i] < 18 }) by {
                    assert(covers_all@.contains(covers@[i]));
                }
            }
            let cover_cells = candidate_cells_in_houses(grid, &covers, value);
            let core_cells = basic_cells.intersect(&cover_cells);
            let ghost cs = covers@;
            let ghost rec_b = acc.recorded();
            proof {
                assert(core_cells@ == fish_core(*grid, value, basic_houses@, cs));
                assert(cs == perms@[p as int]@);
            }
            let part_b = houses_participate(grid, basic_houses, value, &core_cells);
            let part_c = houses_participate(grid, &covers, value, &core_cells);
            if part_b && part_c {
                let fins = basic_cells.difference(&cover_cells);
                if !fins.is_empty() {
                    let degenerate = core_is_degenerate(grid, value, basic_houses, &covers, &core_cells, self.fish_type.degree());
                    let finned = matches!(self.fish_type.variant, FishVariant::Finned);
                    if !((finned && degenerate) || (!finned && !degenerate)) {
                        let see = cells_that_see_all_fins(&fins);
                        let remove = cover_cells.difference(basic_cells).intersect(&see);
                        proof {
                            assert(fins@ =~= fish_fins(*grid, value, basic_houses@, covers@));
                            assert(remove@ =~= fish_targets(*grid, value, basic_houses@, covers@));
                            if finned_new(*grid, seen0, value, basic_houses@, cs, k) {
                                let c = choose|c: u8| #[trigger] fish_targets(*grid, value, basic_houses@, cs).contains(c);
                                assert(remove@.contains(c));
                            }
                        }
                        self.add_step(grid, acc, seen, value, clone_cells(basic_houses), covers, &core_cells, &fins, &remove, Ghost(start));
                        if acc.is_finish() {
                            return;
                        }
                    } else {
                        proof {
                            if self.kind().variant is Finned && finned_new(*grid, seen0, value, basic_houses@, cs, k) {
                                assert(degenerate);
                            }
                        }
                    }
                } else {
                    proof {
                        assert(fins@ =~= fish_fins(*grid, value, basic_houses@, cs));
                    }
                }
            }
            p = p + 1;
        }
        proof {
            assert forall|cs: Seq<u8>|
                !progressed(rec0, acc.recorded(), stops) && self.kind().variant is Finned implies !#[trigger] finned_new(
                *grid,
                seen0,
                value,
                basic_houses@,
                cs,
                k,
            ) by {
                if finned_new(*grid, seen0, value, basic_houses@, cs, k) {
                    assert forall|i: int| 0 <= i < cs.len() implies covers_all@.contains(#[trigger] cs[i]) by {
                        assert(digit_has_place(*grid, cs[i] as int, value));
                        assert(fish_shape(basic_houses@, cs, k));
                        assert((basic_houses@[i] < 9 && 9 <= cs[i] < 18) || (9 <= basic_houses@[i] < 18 && cs[i] < 9));
                        assert(if cover_rows { 9 <= basic_houses@[i] < 18 } else { basic_houses@[i] < 9 });
                        assert(if cover_rows { cs[i] < 9 } else { 9 <= cs[i] < 18 });
                    }
                    assert(picks(covers_all@, cs, k));
                    let j = choose|j: int| 0 <= j < perms@.len() && perms@[j]@ == cs;
                    assert(!finned_new(*grid, seen0, value, basic_houses@, perms@[j]@, k));
                }
            }
        }
    }

    fn find_fish<A: StepAccumulator>(
        &self,
        basic_rows: bool,
        grid: &Grid,
        acc: &mut A,
        seen: &mut Vec<Vec<Candidate>>,
        Ghost(start): Ghost<Seq<Step>>,
    )
        requires
            grid.wf(),
            grows(start, old(acc).recorded(), |s: Step| self.reports(*grid, s)),
        ensures
            grows(start, final(acc).recorded(), |s: Step| self.reports(*grid, s)),
            final(acc).stops_at_first() == old(acc).stops_at_first(),
            old(acc).recorded().len() <= final(acc).recorded().len(),
            final(seen)@ == old(seen)@ || progressed(old(acc).recorded(), final(acc).recorded(), old(acc).stops_at_first()),
            (exists|v: u8, bs: Seq<u8>| #[trigger] new_fish(self.kind(), *grid, old(seen)@, v, bs) && (bs[0] < 9) == basic_rows)
                ==> progressed(old(acc).recorded(), final(acc).recorded(), old(acc).stops_at_first()),
    {
        proof {
            use_type_invariant(self);
        }
        let ghost rec0 = acc.recorded();
        let ghost stops = acc.stops_at_first();
        let ghost seen0 = seen@;
        let mut value: u8 = 1;
        while value <= 9
            invariant
                1 <= value <= 10,
                grid.wf(),
                self.kind().valid(),
                grows(start, acc.recorded(), |s: Step| self.reports(*grid, s)),
                acc.stops_at_first() == stops,
                stops == old(acc).stops_at_first(),
                rec0 == old(acc).recorded(),
                seen0 == old(seen)@,
                rec0.len() <= acc.recorded().len(),
                !progressed(rec0, acc.recorded(), stops) ==> seen@ == seen0,
                !progressed(rec0, acc.recorded(), stops) ==> forall|v: u8, bs: Seq<u8>|
                    v < value && (bs[0] < 9) == basic_rows ==> !#[trigger] new_fish(self.kind(), *grid, seen0, v, bs),
            decreases 10 - value,
        {
            let basics = lines_with(grid, basic_rows, value);
            let perms = create_permutations(basics, self.fish_type.degree());
            let mut p: usize = 0;
            while p < perms.len()
                invariant
                    p <= perms@.len(),
                    grid.wf(),
                    1 <= value <= 9,
                    self.kind().valid(),
                    forall|i: int| 0 <= i < basics@.len() ==> (if basic_rows { #[trigger] basics@[i] < 9 } else { 9 <= basics@[i] < 18 }),
                    forall|j: int| 0 <= j < perms@.len() ==> picks(basics@, #[trigger] perms@[j]@, size_degree(self.kind().size) as int),
                    forall|c: Seq<u8>| #[trigger] picks(basics@, c, size_degree(self.kind().size) as int) ==> exists|j: int|
                        0 <= j < perms@.len() && perms@[j]@ == c,
                    forall|h: u8|
                        (if basic_rows { h < 9 } else { 9 <= h < 18 }) && #[trigger] digit_has_place(*grid, h as int, value) ==> basics@.contains(h),
                    bases_placed(*grid, value, basics@),
                    grows(start, acc.recorded(), |s: Step| self.reports(*grid, s)),
                    acc.stops_at_first() == stops,
                    stops == old(acc).stops_at_first(),
                    rec0 == old(acc).recorded(),
                    seen0 == old(seen)@,
                    rec0.len() <= acc.recorded().len(),
                    !progressed(rec0, acc.recorded(), stops) ==> seen@ == seen0,
                    !progressed(rec0, acc.recorded(), stops) ==> forall|v: u8, bs: Seq<u8>|
                        v < value && (bs[0] < 9) == basic_rows ==> !#[trigger] new_fish(self.kind(), *grid, seen0, v, bs),
                    !progressed(rec0, acc.recorded(), stops) ==> forall|j: int|
                        0 <= j < p ==> !#[trigger] new_fish(self.kind(), *grid, seen0, value, perms@[j]@),
                decreases perms@.len() - p,
            {
                let basic_houses = &perms[p];
                proof {
                    assert(picks(basics@, basic_houses@, size_degree(self.kind().size) as int));
                    assert forall|i: int| 0 <= i < basic_houses@.len() implies (if !basic_rows { 9 <= #[trigger] basic_houses@[i] < 18 } else { basic_houses@[i] < 9 }) by {
                        assert(basics@.contains(basic_houses@[i]));
                    }
                    assert forall|i: int| 0 <= i < basic_houses@.len() implies digit_has_place(*grid, #[trigger] basic_houses@[i] as int, value) by {
                        assert(basics@.contains(basic_houses@[i]));
                        let k = choose|k: int| 0 <= k < basics@.len() && basics@[k] == basic_houses@[i];
                        assert(digit_has_place(*grid, basics@[k] as int, value));
                    }
                }
                let ghost rec_b = acc.recorded();
                let ghost seen_b = seen@;
                let basic_cells = candidate_cells_in_houses(grid, basic_houses, value);
                match self.fish_type.variant {
                    FishVariant::Basic => {
                        self.find_basic_fish(!basic_rows, grid, acc, seen, value, basic_houses, &basic_cells, Ghost(start));
                    },
                    _ => {
                        self.find_finned_or_sashimi_fish(!basic_rows, grid, acc, seen, value, basic_houses, &basic_cells, Ghost(start));
                    },
                }
                proof {
                    lemma_progress_chain(rec0, rec_b, acc.recorded(), stops);
                }
                if acc.is_finish() {
                    return;
                }
                p = p + 1;
            }
            proof {
                assert forall|bs: Seq<u8>|
                    !progressed(rec0, acc.recorded(), stops) && (bs[0] < 9) == basic_rows implies !#[trigger] new_fish(
                    self.kind(),
                    *grid,
                    seen0,
                    value,
                    bs,
                ) by {
                    if new_fish(self.kind(), *grid, seen0, value, bs) {
                        if !(self.kind().variant is Basic) {
                            let cs = choose|cs: Seq<u8>| #[trigger] finned_new(*grid, seen0, value, bs, cs, size_degree(self.kind().size) as int);
                            assert(finned_new(*grid, seen0, value, bs, cs, size_degree(self.kind().size) as int));
                            assert(bs[0] < 9 || 9 <= bs[0]);
                        }
                        assert forall|i: int| 0 <= i < bs.len() implies basics@.contains(#[trigger] bs[i]) by {
                            assert(digit_has_place(*grid, bs[i] as int, value));
                            assert(bs[0] < 9 || 9 <= bs[0]);
                        }
                        assert(picks(basics@, bs, size_degree(self.kind().size) as int));
                        let j = choose|j: int| 0 <= j < perms@.len() && perms@[j]@ == bs;
                        assert(!new_fish(self.kind(), *grid, seen0, value, perms@[j]@));
                    }
                }
            }
            value = value + 1;
        }
    }

    /// Reports fish with rows as bases and columns as covers, then the other way round;
    /// removals already reported are skipped.
    pub fn find_step<A: StepAccumulator>(&self, grid: &Grid, acc: &mut A)
        requires
            grid.wf(),
        ensures
            grows(old(acc).recorded(), final(acc).recorded(), |s: Step| self.reports(*grid, s)),
            final(acc).stops_at_first() == old(acc).stops_at_first(),
            self.finds_in(*grid) ==> progressed(old(acc).recorded(), final(acc).recorded(), old(acc).stops_at_first()),
    {
        let ghost start = acc.recorded();
        proof {
            assert(acc.recorded().subrange(0, start.len() as int) =~= start);
        }
        let mut seen: Vec<Vec<Candidate>> = Vec::new();
        let ghost seen0 = seen@;
        self.find_fish(true, grid, acc, &mut seen, Ghost(start));
        let ghost mid = acc.recorded();
        if acc.is_finish() {
            return;
        }
        self.find_fish(false, grid, acc, &mut seen, Ghost(start));
        proof {
            lemma_progress_chain(start, mid, acc.recorded(), acc.stops_at_first());
            if self.finds_in(*grid) {
                let (v, bs) = choose|v: u8, bs: Seq<u8>| #[trigger] new_fish(self.kind(), *grid, Seq::empty(), v, bs);
                assert(seen0 =~= Seq::<Vec<Candidate>>::empty());
                if self.kind().variant is Finned {
                    let cs = choose|cs: Seq<u8>| #[trigger] finned_new(*grid, Seq::empty(), v, bs, cs, size_degree(self.kind().size) as int);
                    assert(finned_new(*grid, seen0, v, bs, cs, size_degree(self.kind().size) as int));
                }
                assert(new_fish(self.kind(), *grid, seen0, v, bs));
            }
        }
    }
}

} // verus!
