//! Rules engine for a two-player disc-flipping board game on an 8x8 grid.
//!
//! The board is stored as a 10x10 grid: the inner 8x8 area is playable and a
//! one-cell ring of wall cells surrounds it, so that the flip scans never need
//! explicit bounds checks. `board` holds the grid, legality and flip logic,
//! `player` the two participant variants (human and greedy computer), and
//! `information` the per-turn summary handed to a front end.

pub mod board;
pub mod information;
pub mod player;
