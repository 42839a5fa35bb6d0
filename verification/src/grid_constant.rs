use vstd::prelude::*;
use crate::util::indexset::IndexSet;

verus! {

/// Row house (0..9) of cell `c`.
pub open spec fn row_of(c: int) -> int {
    c / 9
}

/// Column house (9..18) of cell `c`.
pub open spec fn col_of(c: int) -> int {
    9 + c % 9
}

/// Block house (18..27) of cell `c`.
pub open spec fn block_of(c: int) -> int {
    18 + (c / 27) * 3 + (c % 9) / 3
}

/// Cell `c` belongs to house `h`.
pub open spec fn in_house(c: int, h: int) -> bool {
    0 <= c < 81 && (row_of(c) == h || col_of(c) == h || block_of(c) == h)
}

/// Two distinct cells share a house.
pub open spec fn sees(a: int, b: int) -> bool {
    0 <= a < 81 && 0 <= b < 81 && a != b && (row_of(a) == row_of(b) || col_of(a) == col_of(b)
        || block_of(a) == block_of(b))
}

/// The cells of house `h`.
pub open spec fn house_cells(h: int) -> Set<u8> {
    Set::new(|c: u8| in_house(c as int, h))
}

/// The cells that see cell `c`.
pub open spec fn peers(c: int) -> Set<u8> {
    Set::new(|b: u8| sees(c, b as int))
}

pub fn row(cell: u8) -> (r: u8)
    requires
        cell < 81,
    ensures
        r as int == row_of(cell as int),
        r < 9,
{
    cell / 9
}

pub fn col(cell: u8) -> (r: u8)
    requires
        cell < 81,
    ensures
        r as int == col_of(cell as int),
        9 <= r < 18,
{
    9 + cell % 9
}

pub fn block(cell: u8) -> (r: u8)
    requires
        cell < 81,
    ensures
        r as int == block_of(cell as int),
        18 <= r < 27,
{
    18 + (cell / 27) * 3 + (cell % 9) / 3
}

/// The cell at the crossing of row house `r` and column house `c`.
pub fn cell_index(r: u8, c: u8) -> (cell: u8)
    requires
        r < 9,
        9 <= c < 18,
    ensures
        cell == 9 * r + (c - 9),
        cell < 81,
        row_of(cell as int) == r,
        col_of(cell as int) == c,
{
    9 * r + (c - 9)
}

pub fn cell_in_house(cell: u8, house: u8) -> (r: bool)
    requires
        cell < 81,
    ensures
        r == in_house(cell as int, house as int),
{
    row(cell) == house || col(cell) == house || block(cell) == house
}

pub fn cells_see(a: u8, b: u8) -> (r: bool)
    requires
        a < 81,
        b < 81,
    ensures
        r == sees(a as int, b as int),
{
    a != b && (row(a) == row(b) || col(a) == col(b) || block(a) == block(b))
}

/// The three houses of a cell: its row, column and block.
pub fn get_cell_house(cell: u8) -> (r: [u8; 3])
    requires
        cell < 81,
    ensures
        r@ == seq![row_of(cell as int) as u8, col_of(cell as int) as u8, block_of(cell as int) as u8],
        forall|h: int| in_house(cell as int, h) <==> (h == r@[0] || h == r@[1] || h == r@[2]),
{
    [row(cell), col(cell), block(cell)]
}

/// The nine cells of a house.
pub fn get_house_cell_set(house: u8) -> (s: IndexSet)
    ensures
        s@ == house_cells(house as int),
{
    let mut s = IndexSet::new_empty();
    let mut c: u8 = 0;
    while c < 81
        invariant
            c <= 81,
            s@ == Set::new(|x: u8| x < c && in_house(x as int, house as int)),
        decreases 81 - c,
    {
        if cell_in_house(c, house) {
            s.add(c);
        }
        proof {
            assert(s@ =~= Set::new(|x: u8| x < c + 1 && in_house(x as int, house as int)));
        }
        c = c + 1;
    }
    assert(s@ =~= house_cells(house as int));
    s
}

/// The twenty cells that share a house with `cell`.
pub fn get_cell_buddies(cell: u8) -> (s: IndexSet)
    requires
        cell < 81,
    ensures
        s@ == peers(cell as int),
{
    let mut s = IndexSet::new_empty();
    let mut c: u8 = 0;
    while c < 81
        invariant
            c <= 81,
            cell < 81,
            s@ == Set::new(|x: u8| x < c && sees(cell as int, x as int)),
        decreases 81 - c,
    {
        if cells_see(cell, c) {
            s.add(c);
        }
        proof {
            assert(s@ =~= Set::new(|x: u8| x < c + 1 && sees(cell as int, x as int)));
        }
        c = c + 1;
    }
    assert(s@ =~= peers(cell as int));
    s
}

} // verus!
