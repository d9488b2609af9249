//! A 9x9 Sudoku solving engine: a bit-packed candidate tracker and a
//! backtracking search that maintains the tracker incrementally as it
//! explores and retracts placements.

pub mod model;
pub mod solver;
pub mod tracker;
