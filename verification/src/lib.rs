//! Board-logic core of a grid-based mine-detection puzzle.
//!
//! The library owns the ground truth of one round: which cells hold a
//! bomb, each safe cell's adjacent-bomb count, and which cells are
//! still covered or flagged by the player.  It drives the reveal
//! algorithm, including the zero-neighbor flood fill and the chorded
//! reveal that trusts the player's marks.  A presentation layer issues
//! intents (reveal, toggle a mark, start a game, find a safe cell) and
//! receives back the affected cell coordinates.

pub mod board;
pub mod coordinates;
pub mod counting;
pub mod rng;
pub mod tile_map;
