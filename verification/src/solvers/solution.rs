//! A game found by a search, with the moves that led to it.

use std::collections::VecDeque;
use vstd::prelude::*;
use crate::board::{Board, BoardView};
use crate::game::{better, is_finished_game};

verus! {

/// A board and the moves, as text, by which a search came to it.
pub struct Solution {
    pub actions: VecDeque<String>,
    pub board: Board,
}

impl Solution {
    /// The solution that consists of `board` and no move.
    pub fn new(board: Board) -> (solution: Solution)
        ensures
            solution.board == board,
            solution.actions@.len() == 0,
    {
        Solution { actions: VecDeque::new(), board }
    }
}

/// Whether `best`, where there is one, is a finished game that began at
/// `start`.
pub open spec fn is_best_so_far(best: Option<Board>, start: BoardView) -> bool {
    match best {
        Some(game) => game.wf() && is_finished_game(start, game@),
        None => true,
    }
}

/// The game that `best` holds, where it holds one, as mathematical values.
pub open spec fn best_view(best: Option<Board>) -> Option<BoardView> {
    match best {
        Some(game) => Some(game@),
        None => None,
    }
}

/// Keeps the better of `best` and the finished game `probe`: the first one
/// met, and later ones that score more.
pub(crate) fn keep_best(best: Option<Board>, probe: Board, Ghost(start): Ghost<BoardView>) -> (kept:
    Option<Board>)
    requires
        is_best_so_far(best, start),
        probe.wf(),
        is_finished_game(start, probe@),
    ensures
        is_best_so_far(kept, start),
        kept is Some,
        kept->0@ == better(best_view(best), probe@),
        kept->0@.score >= probe@.score,
        best matches Some(game) ==> kept->0@.score >= game@.score,
{
    match best {
        Some(game) => {
            if probe.get_score() > game.get_score() {
                Some(probe)
            } else {
                Some(game)
            }
        },
        None => Some(probe),
    }
}

} // verus!
