//! An expectimax player for the 2048 sliding-tile game, over a board packed
//! into one 64-bit word.
//!
//! - `board`: the packed board, transpose, empty cells, placing a tile.
//! - `line`: one row of four cells, how it slides and merges, its score.
//! - `heuristic`: the static evaluation of a row, in fixed point.
//! - `tables`: per-row tables for all 65536 rows; moves and scores of boards.
//! - `search`: expectimax with an adaptive depth limit and a per-search cache.
//! - `random`: random tiles.

pub mod board;
pub mod line;
pub mod heuristic;
pub mod tables;
pub mod search;
pub mod random;
