//! A verified solver for standard 9x9 Sudoku puzzles.
//!
//! The solver follows the classic constraint-propagation-plus-search design:
//! a puzzle string is parsed into a per-cell candidate mapping, the two
//! propagation rules (peer exclusion and sole candidate placement) reduce the
//! mapping, and a backtracking search resolves whatever ambiguity remains.
//! A separate formatter renders a puzzle string as a boxed text grid.

use vstd::prelude::*;
use vstd::string::StringExecFns;

pub mod cands;
pub mod engine;
pub mod format;
pub mod grid;
pub mod laws;
pub mod solver;
pub mod topology;

pub use engine::Sudoku;

verus! {

/// The ways a solve or display call can fail.
#[derive(Clone, Copy, Debug, PartialEq, Eq, Structural)]
pub enum PuzzleError {
    /// The input, after filtering to the allowed alphabet, is not 81 characters.
    InvalidGrid,
    /// Propagation proved that the puzzle admits no solution.
    Contradiction,
    /// The search finished without contradiction but the final check failed.
    Unsolved,
}

impl PuzzleError {
    /// The user-facing message for this error.
    pub fn message(&self) -> (r: String)
        ensures
            *self == PuzzleError::InvalidGrid ==> r@ == (
            "Invalid Grid. Provide a string of 81 digits with 0 or . for empties.")@,
            *self == PuzzleError::Contradiction ==> r@ == (
            "A contradiction occurred. The puzzle is unsolvable.")@,
            *self == PuzzleError::Unsolved ==> r@ == ("The puzzle is unsolvable.")@,
    {
        match self {
            PuzzleError::InvalidGrid => String::from_str(
                "Invalid Grid. Provide a string of 81 digits with 0 or . for empties.",
            ),
            PuzzleError::Contradiction => String::from_str(
                "A contradiction occurred. The puzzle is unsolvable.",
            ),
            PuzzleError::Unsolved => String::from_str("The puzzle is unsolvable."),
        }
    }
}

} // verus!
