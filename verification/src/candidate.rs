use vstd::prelude::*;

verus! {

/// A candidate: a digit (`value`) pencilled into a cell.
#[derive(Debug, Clone, Copy, PartialEq, Eq, Hash, Structural)]
pub struct Candidate(pub u8, pub u8);

impl Candidate {
    pub fn new(cell: u8, value: u8) -> (c: Self)
        ensures
            c.0 == cell,
            c.1 == value,
    {
        Candidate(cell, value)
    }

    pub fn cell(&self) -> (r: u8)
        ensures
            r == self.0,
    {
        self.0
    }

    pub fn value(&self) -> (r: u8)
        ensures
            r == self.1,
    {
        self.1
    }
}

} // verus!
