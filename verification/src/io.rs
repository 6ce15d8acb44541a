//! The plain form in which a puzzle is handed in and out.

use vstd::prelude::*;

verus! {

/// A cage as it is written down: its sum and its cells, in any order.
#[derive(Debug, Clone, PartialEq, Eq)]
pub struct SerializableCage {
    pub sum: usize,
    pub cell_indices: Vec<usize>,
}

/// A puzzle as it is written down: the digit of each of the 81 cells, row by
/// row, with 0 for a cell that is not known, and the cages.
#[derive(Debug, Clone, PartialEq, Eq)]
pub struct SerializablePuzzle {
    pub cell_values: Vec<usize>,
    pub cages: Vec<SerializableCage>,
}

} // verus!
