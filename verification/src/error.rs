//! The ways in which solving a puzzle can fail.

use vstd::prelude::*;

verus! {

/// Why an operation on a puzzle gave no result.
#[derive(Clone, Copy, Debug, PartialEq, Eq, Structural)]
pub enum SolveError {
    /// Some cell was left without a possible digit, or a cage asked for a
    /// number of cells and a sum that no set of distinct digits has.
    Contradiction,
    /// The cages handed in name a cell that does not exist, name a cell
    /// twice, or do not cover every cell exactly once.
    MalformedPuzzle,
    /// The search went deeper than its limit of nested guesses.
    RecursionExhausted,
}

} // verus!
