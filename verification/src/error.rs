use vstd::prelude::*;

verus! {

/// What can go wrong while reading or solving a board.
#[derive(Debug, PartialEq)]
pub enum SudokuError {
    RuntimeError(String),
    ParseError(String),
    InvalidState,
}

} // verus!
