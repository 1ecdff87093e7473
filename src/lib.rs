//! Rules engine of a Minesweeper-style game: the board with its lazy mine
//! placement, uncovering, flood fill and chords, and the stage controller
//! that drives it from per-tick input.

pub mod counting;
pub mod flood;
pub mod grid;
pub mod minefield;
pub mod random;
pub mod state;
pub mod theorems;
