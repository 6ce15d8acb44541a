//! Killer Sudoku: constraint propagation and search over cell domains and
//! cages, with the contracts of every operation stated and proved.

pub mod cage;
pub mod cell;
pub mod combinations;
pub mod derive;
pub mod error;
pub mod generator;
pub mod grid;
pub mod index_set;
pub mod io;
pub mod model;
pub mod partition;
pub mod puzzle;
pub mod render;
pub mod restrict;
pub mod util;
