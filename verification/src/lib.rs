//! The movement engine of the 2048 sliding-tile puzzle.
//!
//! A row of the grid is a sequence of tile values in which `0` stands for an
//! empty cell. A move compacts a row toward one of its ends, merges adjacent
//! equal tiles, and compacts again; the four directions of the grid reduce to
//! the two row operations by transposition. A move that changed the grid is
//! followed by one new tile on a randomly chosen empty cell.

pub mod row;
pub mod row_laws;
pub mod grid;
pub mod grid_laws;
pub mod board;
pub mod control;
mod random;
