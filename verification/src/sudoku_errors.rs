//! Error values surfaced by the solver and the board facade.

use vstd::prelude::*;

verus! {

/// The board, as currently seeded, admits no consistent digit assignment:
/// either the givens already contradict each other, or backtracking
/// exhausted every alternative.
#[derive(Debug, Clone, Copy, PartialEq, Eq, Structural)]
pub struct ErrorNoSolution;

impl ErrorNoSolution {
    /// A human-readable description of the failure.
    pub fn message(&self) -> (s: String)
        ensures
            s@ == "Sudoku has no valid solution"@,
    {
        "Sudoku has no valid solution".to_string()
    }
}

} // verus!
