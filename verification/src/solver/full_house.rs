use vstd::prelude::*;
use vstd::string::StringExecFns;
use crate::candidate::Candidate;
use crate::grid::Grid;
use crate::grid_constant::{in_house, get_cell_house};
use crate::solver::step::{Step, placeable, placed};
use crate::solver::step_accumulator::StepAccumulator;
use crate::solver::common::progressed;
use crate::util::format_step::{push_cell, push_number, cell_text, number_text};

verus! {

/// The last empty cell of a house takes the house's missing digit.
#[derive(Debug, PartialEq, Clone, Eq, Hash)]
pub struct FullHouse {
    pub cell: u8,
    pub house: u8,
    pub value: u8,
}

/// `cell` is the only empty cell of `house`.
pub open spec fn last_empty(g: Grid, house: int, cell: int) -> bool {
    &&& in_house(cell, house)
    &&& g.value(cell) == 0
    &&& forall|c: int| #[trigger] in_house(c, house) && c != cell ==> g.value(c) != 0
}

/// No cell of `house` holds `value`.
pub open spec fn missing_in(g: Grid, house: int, value: u8) -> bool {
    forall|c: int| #[trigger] in_house(c, house) ==> g.value(c) != value
}

impl FullHouse {
    pub fn new(cell: u8, house: u8, value: u8) -> (r: Self)
        ensures
            r == (FullHouse { cell, house, value }),
    {
        FullHouse { cell, house, value }
    }

    /// `cell` is the last empty cell of `house`, `value` a digit the house lacks and a
    /// candidate of the cell.
    pub open spec fn pattern(self, g: Grid) -> bool {
        &&& self.house < 27
        &&& last_empty(g, self.house as int, self.cell as int)
        &&& 1 <= self.value <= 9
        &&& missing_in(g, self.house as int, self.value)
        &&& g.has_cand(self.cell as int, self.value)
    }

    /// Writes the digit into the cell.
    pub fn apply(&self, grid: &mut Grid)
        requires
            old(grid).wf(),
            placeable(*old(grid), Candidate(self.cell, self.value)),
        ensures
            final(grid).wf(),
            placed(*old(grid), *final(grid), Candidate(self.cell, self.value)),
    {
        let ok = grid.set_value(self.cell, self.value, false);
    }

    pub open spec fn text(self) -> Seq<char> {
        "<h3>Full House</h3> <p>cell <b>"@ + cell_text(self.cell as int) + "</b> is last empty of house <b>"@
            + number_text(self.house as int) + "</b>  and only missing digit is <b>"@ + number_text(
            self.value as int,
        ) + "</b> </p>"@
    }

    /// Describes the step.
    pub fn explain(&self) -> (r: String)
        requires
            self.cell < 81,
            self.house < 27,
            self.value <= 9,
        ensures
            r@ == self.text(),
    {
        let mut s = String::from_str("<h3>Full House</h3> <p>cell <b>");
        push_cell(&mut s, self.cell);
        s.append("</b> is last empty of house <b>");
        push_number(&mut s, self.house);
        s.append("</b>  and only missing digit is <b>");
        push_number(&mut s, self.value);
        s.append("</b> </p>");
        s
    }
}

/// The digit `1..=9` that no cell of `house` holds, if there is one (the smallest).
fn missing_value(grid: &Grid, house: u8) -> (r: Option<u8>)
    requires
        grid.wf(),
        house < 27,
    ensures
        r matches Some(v) ==> 1 <= v <= 9 && missing_in(*grid, house as int, v) && forall|w: u8|
            1 <= w < v ==> !missing_in(*grid, house as int, w),
        r is None ==> forall|w: u8| 1 <= w <= 9 ==> !missing_in(*grid, house as int, w),
{
    let mut v: u8 = 1;
    while v <= 9
        invariant
            1 <= v <= 10,
            grid.wf(),
            house < 27,
            forall|w: u8| 1 <= w < v ==> !missing_in(*grid, house as int, w),
        decreases 10 - v,
    {
        let mut found = false;
        let mut c: u8 = 0;
        while c < 81
            invariant
                c <= 81,
                grid.wf(),
                found <==> exists|b: int| 0 <= b < c && in_house(b, house as int) && grid.value(b) == v,
            decreases 81 - c,
        {
            if crate::grid_constant::cell_in_house(c, house) && grid.get_value(c) == v {
                found = true;
            }
            c = c + 1;
        }
        if !found {
            return Some(v);
        }
        proof {
            let b = choose|b: int| 0 <= b < 81 && in_house(b, house as int) && grid.value(b) == v;
            assert(in_house(b, house as int));
        }
        v = v + 1;
    }
    None
}

/// House `h` has a single empty cell, and the smallest digit the house lacks is a
/// candidate there.
pub open spec fn full_house_in(g: Grid, h: int) -> bool {
    exists|cell: int, v: u8|
        last_empty(g, h, cell) && 1 <= v <= 9 && missing_in(g, h, v) && (forall|w: u8| 1 <= w < v ==> !missing_in(g, h, w))
            && #[trigger] g.has_cand(cell, v)
}

/// Through house `h`, cell `c` is the last empty cell and `v` the smallest digit the house
/// lacks, a candidate of the cell.
pub open spec fn yields_full(g: Grid, h: int, c: int, v: u8) -> bool {
    last_empty(g, h, c) && 1 <= v <= 9 && missing_in(g, h, v) && (forall|w: u8| 1 <= w < v ==> !missing_in(g, h, w))
        && g.has_cand(c, v)
}

/// `h` is the first house through which cell `c` and digit `v` come out.
pub open spec fn first_full_house(g: Grid, h: int, c: int, v: u8) -> bool {
    yields_full(g, h, c, v) && forall|k: int| 0 <= k < h ==> !#[trigger] yields_full(g, k, c, v)
}

/// Two full-house steps name the same cell and digit.
pub open spec fn same_full(a: Step, b: Step) -> bool {
    a matches Step::FullHouse(x) && b matches Step::FullHouse(y) && x.cell == y.cell && x.value == y.value
}

/// Finds full houses.
#[derive(Debug, Default)]
pub struct FullHouseFinder {}

impl FullHouseFinder {
    /// Reports, house by house, each last empty cell with the digit its house lacks (the
    /// smallest one) when that digit is still a candidate of the cell; a cell and digit
    /// found through several houses is reported once.
    pub fn find_step<A: StepAccumulator>(&self, grid: &Grid, acc: &mut A)
        requires
            grid.wf(),
        ensures
            final(acc).stops_at_first() == old(acc).stops_at_first(),
            old(acc).recorded().len() <= final(acc).recorded().len(),
            final(acc).recorded().subrange(0, old(acc).recorded().len() as int) == old(acc).recorded(),
            forall|i: int|
                old(acc).recorded().len() <= i < final(acc).recorded().len() ==> (#[trigger] final(acc).recorded()[i]).pattern(*grid)
                    && final(acc).recorded()[i] is FullHouse,
            (exists|h: int| 0 <= h < 27 && #[trigger] full_house_in(*grid, h)) ==> progressed(
                old(acc).recorded(),
                final(acc).recorded(),
                old(acc).stops_at_first(),
            ),
            forall|i: int|
                old(acc).recorded().len() <= i < final(acc).recorded().len() ==> (#[trigger] final(acc).recorded()[i] matches Step::FullHouse(
                    f,
                ) && first_full_house(*grid, f.house as int, f.cell as int, f.value)),
            forall|i: int, j: int|
                old(acc).recorded().len() <= i < j < final(acc).recorded().len() ==> !same_full(
                    #[trigger] final(acc).recorded()[i],
                    #[trigger] final(acc).recorded()[j],
                ),
    {
        let mut seen: Vec<Candidate> = Vec::new();
        let ghost start = acc.recorded();
        let mut house: u8 = 0;
        while house < 27
            invariant
                house <= 27,
                grid.wf(),
                acc.stops_at_first() == old(acc).stops_at_first(),
                start == old(acc).recorded(),
                start.len() <= acc.recorded().len(),
                acc.recorded().subrange(0, start.len() as int) == start,
                forall|i: int|
                    start.len() <= i < acc.recorded().len() ==> (#[trigger] acc.recorded()[i]).pattern(*grid)
                        && acc.recorded()[i] is FullHouse,
                seen@.len() > 0 ==> progressed(start, acc.recorded(), acc.stops_at_first()),
                !progressed(start, acc.recorded(), acc.stops_at_first()) ==> forall|h: int| 0 <= h < house ==> !#[trigger] full_house_in(*grid, h),
                forall|i: int|
                    start.len() <= i < acc.recorded().len() ==> (#[trigger] acc.recorded()[i] matches Step::FullHouse(f)
                        && first_full_house(*grid, f.house as int, f.cell as int, f.value) && f.house < house && seen@.contains(
                        Candidate(f.cell, f.value),
                    )),
                forall|i: int, j: int|
                    start.len() <= i < j < acc.recorded().len() ==> !same_full(
                        #[trigger] acc.recorded()[i],
                        #[trigger] acc.recorded()[j],
                    ),
                forall|h: int, c: int, v: u8| 0 <= h < house && #[trigger] yields_full(*grid, h, c, v) ==> seen@.contains(Candidate(c as u8, v)),
            decreases 27 - house,
        {
            let empty = grid.house_empty_cells(house);
            proof {
                if full_house_in(*grid, house as int) {
                    let (c0, v0) = choose|cell: int, v: u8|
                        last_empty(*grid, house as int, cell) && 1 <= v <= 9 && missing_in(*grid, house as int, v) && (forall|w: u8|
                            1 <= w < v ==> !missing_in(*grid, house as int, w)) && #[trigger] grid.has_cand(cell, v);
                    assert(0 <= c0 < 81);
                    assert forall|x: u8| empty@.contains(x) <==> set![c0 as u8].contains(x) by {
                        if empty@.contains(x) && x as int != c0 {
                            assert(in_house(x as int, house as int));
                        }
                    }
                    assert(empty@ =~= set![c0 as u8]);
                }
            }
            if empty.count() == 1 {
                let cell = match empty.first() {
                    Some(c) => c,
                    None => {
                        house = house + 1;
                        continue;
                    },
                };
                match missing_value(grid, house) {
                    Some(value) => {
                        let cand = Candidate::new(cell, value);
                        let mut dup = false;
                        let mut k: usize = 0;
                        while k < seen.len()
                            invariant
                                k <= seen@.len(),
                                dup ==> seen@.len() > 0,
                                dup <==> exists|q: int| 0 <= q < k && seen@[q] == cand,
                                cand.0 == cell && cand.1 == value,
                            decreases seen@.len() - k,
                        {
                            if seen[k].0 == cell && seen[k].1 == value {
                                dup = true;
                            }
                            proof {
                                assert(seen@[k as int] == cand <==> (seen@[k as int].0 == cell && seen@[k as int].1 == value));
                                if exists|q: int| 0 <= q < k + 1 && seen@[q] == cand {
                                    let q = choose|q: int| 0 <= q < k + 1 && seen@[q] == cand;
                                    if q < k {
                                        assert(exists|q: int| 0 <= q < k && seen@[q] == cand);
                                    }
                                }
                            }
                            k = k + 1;
                        }
                        let ghost seen_before = seen@;
                        if grid.get_cell_candidate(cell).contains(value) && !dup {
                            seen.push(cand);
                            proof {
                                assert forall|y: Candidate| #![trigger seen@.contains(y)] seen_before.contains(y) implies seen@.contains(y) by {
                                    let q = choose|q: int| 0 <= q < seen_before.len() && seen_before[q] == y;
                                    assert(seen@[q] == seen_before[q]);
                                }
                                assert(seen@[seen_before.len() as int] == cand);
                                assert(seen@.contains(cand));
                                assert(!seen_before.contains(cand));
                            }
                            proof {
                                grid.lemma_wf();
                                assert forall|c: int| #[trigger] in_house(c, house as int) && c != cell implies grid.value(c)
                                    != 0 by {
                                    if grid.value(c) == 0 {
                                        assert(empty@.contains(c as u8));
                                        crate::util::indexset::IndexSet::lemma_bounds(empty);
                                        crate::util::indexset::lemma_set_single(empty@, cell, c as u8);
                                    }
                                }
                            }
                            let step = Step::FullHouse(FullHouse::new(cell, house, value));
                            let ghost before = acc.recorded();
                            let finish = acc.add_step(step);
                            proof {
                                if !(acc.stops_at_first() && before.len() > 0) {
                                    assert(acc.recorded() == before.push(step));
                                    assert(acc.recorded().subrange(0, start.len() as int) =~= before.subrange(
                                        0,
                                        start.len() as int,
                                    ));
                                }
                            }
                            if finish {
                                return;
                            }
                        }
                    },
                    None => {},
                }
            }
            house = house + 1;
        }
    }
}

/// The empty cells of house `h`.
pub open spec fn empty_cells_of(g: Grid, h: int) -> Set<u8> {
    Set::new(|c: u8| in_house(c as int, h) && g.value(c as int) == 0)
}

/// Some house of `cell` has a single empty cell.
pub open spec fn full_house_cell(g: Grid, cell: int) -> bool {
    exists|h: int| #[trigger] in_house(cell, h) && empty_cells_of(g, h).len() == 1
}

/// Whether some house of `cell` has a single empty cell.
pub fn cell_is_full_house(grid: &Grid, cell: u8) -> (r: bool)
    requires
        grid.wf(),
        cell < 81,
    ensures
        r == full_house_cell(*grid, cell as int),
{
    let houses = get_cell_house(cell);
    let mut i: usize = 0;
    while i < 3
        invariant
            i <= 3,
            grid.wf(),
            cell < 81,
            houses@ == seq![crate::grid_constant::row_of(cell as int) as u8, crate::grid_constant::col_of(cell as int) as u8,
                crate::grid_constant::block_of(cell as int) as u8],
            forall|h: int| in_house(cell as int, h) <==> (h == houses@[0] || h == houses@[1] || h == houses@[2]),
            forall|j: int| 0 <= j < i ==> empty_cells_of(*grid, houses@[j] as int).len() != 1,
        decreases 3 - i,
    {
        let e = grid.house_empty_cells(houses[i]);
        assert(e@ =~= empty_cells_of(*grid, houses@[i as int] as int));
        if e.count() == 1 {
            assert(in_house(cell as int, houses@[i as int] as int));
            return true;
        }
        i = i + 1;
    }
    proof {
        if full_house_cell(*grid, cell as int) {
            let h = choose|h: int| #[trigger] in_house(cell as int, h) && empty_cells_of(*grid, h).len() == 1;
            assert(h == houses@[0] || h == houses@[1] || h == houses@[2]);
        }
    }
    false
}

} // verus!
