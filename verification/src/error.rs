use vstd::prelude::*;

verus! {

/// Errors reported by the library.
#[derive(Debug)]
pub enum SudokuError {
    /// The input does not describe a valid sudoku.
    InvalidInput(String),
    /// The grid's candidates or values contradict each other.
    GridStateError(String),
    /// No puzzle could be generated in time.
    GenerateFailed,
}

impl SudokuError {
    /// An input error carrying `text`.
    pub fn invalid_input(text: &str) -> (e: SudokuError)
        ensures
            e is InvalidInput,
    {
        SudokuError::InvalidInput(text.to_owned())
    }

    /// A grid state error carrying `text`.
    pub fn grid_state(text: &str) -> (e: SudokuError)
        ensures
            e is GridStateError,
    {
        SudokuError::GridStateError(text.to_owned())
    }
}

} // verus!
