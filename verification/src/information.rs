//! The per-turn summary a front end displays: whose turn it is and the two
//! stone counts.

use crate::board::Stone;
use vstd::prelude::*;

verus! {

/// Whose turn it is and how many stones each side has on the board.
pub struct Information {
    pub tern_stone: Stone,
    pub black_n: usize,
    pub white_n: usize,
}

impl Default for Information {
    /// The summary before the first turn: black to move, no counts taken yet.
    fn default() -> (r: Self)
        ensures
            r.tern_stone == Stone::Black,
            r.black_n == 0,
            r.white_n == 0,
    {
        Self { tern_stone: Stone::Black, black_n: 0, white_n: 0 }
    }
}

} // verus!
