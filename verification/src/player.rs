//! The two turn participants: a human, who plays the cell recorded from
//! outside input, and a computer, which greedily plays the cell that flips
//! the most stones.

use crate::board::{place_spec, playable, spec_reversible_n, Board, Cell, Stone};
use vstd::prelude::*;

verus! {

/// `(r1, c1)` comes before `(r2, c2)` in row-major scan order.
pub open spec fn before_cell(r1: int, c1: int, r2: int, c2: int) -> bool {
    r1 < r2 || (r1 == r2 && c1 < c2)
}

/// `(bi, bj)` is the cell the greedy strategy picks for `s` on `b`: its flip
/// count is maximal, and every earlier cell in scan order does strictly
/// worse, so ties go to the lowest row, then the lowest column.
pub open spec fn is_best(b: Seq<Seq<Cell>>, s: Stone, bi: int, bj: int) -> bool {
    &&& playable(bi, bj)
    &&& forall|r: int, c: int|
        playable(r, c) ==> #[trigger] spec_reversible_n(b, s, r, c) <= spec_reversible_n(
            b,
            s,
            bi,
            bj,
        )
    &&& forall|r: int, c: int|
        playable(r, c) && before_cell(r, c, bi, bj) ==> #[trigger] spec_reversible_n(b, s, r, c)
            < spec_reversible_n(b, s, bi, bj)
}

/// Greedy selection is deterministic: on a given board, for a given color,
/// at most one cell satisfies `is_best`, so the computer always picks the
/// same cell.
pub proof fn lemma_best_unique(b: Seq<Seq<Cell>>, s: Stone, r1: int, c1: int, r2: int, c2: int)
    requires
        is_best(b, s, r1, c1),
        is_best(b, s, r2, c2),
    ensures
        r1 == r2,
        c1 == c2,
{
    if before_cell(r1, c1, r2, c2) {
        assert(spec_reversible_n(b, s, r1, c1) < spec_reversible_n(b, s, r2, c2));
        assert(spec_reversible_n(b, s, r2, c2) <= spec_reversible_n(b, s, r1, c1));
    } else if before_cell(r2, c2, r1, c1) {
        assert(spec_reversible_n(b, s, r2, c2) < spec_reversible_n(b, s, r1, c1));
        assert(spec_reversible_n(b, s, r1, c1) <= spec_reversible_n(b, s, r2, c2));
    }
}

/// A turn participant. A human holds the pending target cell recorded from
/// input, if any; a computer holds only its color.
#[derive(Clone, Copy)]
pub enum Player {
    Human { stone: Stone, idx: Option<(usize, usize)> },
    Computer { stone: Stone },
}

impl Player {
    /// The color this participant plays.
    pub open spec fn stone_spec(&self) -> Stone {
        match *self {
            Player::Human { stone, .. } => stone,
            Player::Computer { stone, .. } => stone,
        }
    }

    pub fn new_human(stone: Stone) -> (p: Self)
        ensures
            p == (Player::Human { stone, idx: None::<(usize, usize)> }),
    {
        Self::Human { stone, idx: None }
    }

    pub fn new_computer(stone: Stone) -> (p: Self)
        ensures
            p == (Player::Computer { stone }),
    {
        Self::Computer { stone }
    }

    /// The color this participant plays.
    pub fn stone(&self) -> (s: Stone)
        ensures
            s == self.stone_spec(),
    {
        match self {
            Player::Human { stone, .. } => *stone,
            Player::Computer { stone, .. } => *stone,
        }
    }

    /// Record the grid cell a front end mapped an input event to as the
    /// pending target. A computer ignores input.
    pub fn record_input(&mut self, i: usize, j: usize)
        ensures
            match *old(self) {
                Player::Human { stone, .. } => *final(self) == (Player::Human {
                    stone,
                    idx: Some((i, j)),
                }),
                Player::Computer { .. } => *final(self) == *old(self),
            },
    {
        match *self {
            Player::Human { stone, .. } => {
                *self = Player::Human { stone, idx: Some((i, j)) };
            },
            Player::Computer { .. } => {},
        }
    }

    /// Attempt one move against `board`; the result says whether a stone was
    /// placed, so whether the turn should advance.
    ///
    /// A human plays the pending target cell, which is consumed whether or
    /// not the move is legal; an illegal or missing target is a silent pass.
    /// A computer scans all playable cells in row-major order and plays the
    /// first cell of greatest flip count, or passes without touching the
    /// board when no cell flips anything.
    pub fn put_stone(&mut self, board: &mut Board) -> (moved: bool)
        requires
            old(board).wf(),
        ensures
            final(board).wf(),
            match *old(self) {
                Player::Human { stone, idx } => {
                    &&& *final(self) == (Player::Human { stone, idx: None::<(usize, usize)> })
                    &&& match idx {
                        Some((i, j)) => {
                            if playable(i as int, j as int) && spec_reversible_n(
                                old(board)@,
                                stone,
                                i as int,
                                j as int,
                            ) > 0 {
                                moved && final(board)@ == place_spec(
                                    old(board)@,
                                    stone,
                                    i as int,
                                    j as int,
                                )
                            } else {
                                !moved && final(board)@ == old(board)@
                            }
                        },
                        None => !moved && final(board)@ == old(board)@,
                    }
                },
                Player::Computer { stone } => {
                    &&& *final(self) == *old(self)
                    &&& moved == exists|r: int, c: int|
                        playable(r, c) && #[trigger] spec_reversible_n(old(board)@, stone, r, c)
                            > 0
                    &&& moved ==> exists|r: int, c: int|
                        #[trigger] is_best(old(board)@, stone, r, c) && final(board)@
                            == place_spec(old(board)@, stone, r, c)
                    &&& !moved ==> final(board)@ == old(board)@
                },
            },
    {
        match *self {
            Player::Human { stone, idx } => {
                *self = Player::Human { stone, idx: None };
                match idx {
                    Some((i, j)) => {
                        if 1 <= i && i <= 8 && 1 <= j && j <= 8 {
                            board.place(stone, i, j)
                        } else {
                            false
                        }
                    },
                    None => false,
                }
            },
            Player::Computer { stone } => {
                let mut bi: usize = 1;
                let mut bj: usize = 1;
                let mut bn: usize = board.reversible_n(stone, 1, 1);
                let mut r: usize = 1;
                while r <= 8
                    invariant
                        board.wf(),
                        board@ == old(board)@,
                        1 <= r <= 9,
                        1 <= bi <= 8,
                        1 <= bj <= 8,
                        bn == spec_reversible_n(board@, stone, bi as int, bj as int),
                        forall|a: int, e: int|
                            playable(a, e) && before_cell(a, e, r as int, 1)
                                ==> #[trigger] spec_reversible_n(board@, stone, a, e) <= bn,
                        forall|a: int, e: int|
                            playable(a, e) && before_cell(a, e, bi as int, bj as int)
                                ==> #[trigger] spec_reversible_n(board@, stone, a, e) < bn,
                    decreases 9 - r,
                {
                    let mut c: usize = 1;
                    while c <= 8
                        invariant
                            board.wf(),
                            board@ == old(board)@,
                            1 <= r <= 8,
                            1 <= c <= 9,
                            1 <= bi <= 8,
                            1 <= bj <= 8,
                            bn == spec_reversible_n(board@, stone, bi as int, bj as int),
                            forall|a: int, e: int|
                                playable(a, e) && before_cell(a, e, r as int, c as int)
                                    ==> #[trigger] spec_reversible_n(board@, stone, a, e) <= bn,
                            forall|a: int, e: int|
                                playable(a, e) && before_cell(a, e, bi as int, bj as int)
                                    ==> #[trigger] spec_reversible_n(board@, stone, a, e) < bn,
                        decreases 9 - c,
                    {
                        let m = board.reversible_n(stone, r, c);
                        if m > bn {
                            bi = r;
                            bj = c;
                            bn = m;
                        }
                        c = c + 1;
                    }
                    r = r + 1;
                }
                if bn != 0 {
                    let ghost b0 = board@;
                    let placed = board.place(stone, bi, bj);
                    proof {
                        assert(is_best(b0, stone, bi as int, bj as int));
                    }
                    placed
                } else {
                    proof {
                        assert(forall|a: int, e: int|
                            playable(a, e) ==> #[trigger] spec_reversible_n(board@, stone, a, e)
                                == 0);
                    }
                    false
                }
            },
        }
    }
}

} // verus!
