use vstd::prelude::*;

verus! {

/// Symmetries a puzzle's clues can follow.
#[derive(Debug, Clone, Copy, PartialEq, Eq, Structural)]
pub enum Symmetry {
    Verital,
    Horizontal,
    Diagonal,
    AntiDiagonal,
    BiDiagonal,
    Orthogonal,
    Rotational180,
    Rotational90,
    Full,
    Full32,
}

/// The cells paired by a half turn of the grid: cell `c` with cell `80 - c`, the centre
/// alone, for `c` from 0 to 40.
pub fn rotational_180_orbits() -> (r: Vec<Vec<u8>>)
    ensures
        r@.len() == 41,
        forall|c: int| 0 <= c < 40 ==> (#[trigger] r@[c])@ == seq![c as u8, (80 - c) as u8],
        r@[40]@ == seq![40u8],
{
    let mut orbits: Vec<Vec<u8>> = Vec::new();
    let mut cell: u8 = 0;
    while cell <= 40
        invariant
            cell <= 41,
            orbits@.len() == cell,
            forall|c: int| 0 <= c < cell && c < 40 ==> (#[trigger] orbits@[c])@ == seq![c as u8, (80 - c) as u8],
            cell > 40 ==> orbits@[40]@ == seq![40u8],
        decreases 41 - cell,
    {
        let opposite = 80 - cell;
        let mut orbit: Vec<u8> = Vec::new();
        orbit.push(cell);
        if cell != opposite {
            orbit.push(opposite);
        }
        orbits.push(orbit);
        cell = cell + 1;
    }
    orbits
}

} // verus!
