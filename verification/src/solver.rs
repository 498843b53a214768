//! The search that the crate offers by default.

use rand::rngs::StdRng;
use vstd::prelude::*;
use crate::board::{Board, BoardView};
use crate::game::is_finished_game;
use crate::grid::COLOR_COUNT;
use crate::solvers::tabucolor::{_solve, ITERATIONS};
use crate::text::actions_text;

verus! {

/// Searches the games that begin at `initial_state` in a tree, with
/// [`ITERATIONS`] games played to their end, and returns the moves as text,
/// and the score, of the best of them; see
/// [`_solve`](crate::solvers::tabucolor::_solve) for the part of `select`,
/// `policy` and `rng`.
pub fn solve<S: Fn(u64, Vec<(u64, u128, u32)>) -> usize, P: Fn([u8; COLOR_COUNT], u32) -> i8>(
    initial_state: &Board,
    select: &S,
    policy: &P,
    rng: &mut StdRng,
) -> (answer: (String, u32))
    requires
        initial_state.wf(),
        forall|visited: u64, stats: Vec<(u64, u128, u32)>| call_requires(select, (visited, stats)),
        forall|counts: [u8; COLOR_COUNT], drawn: u32| call_requires(policy, (counts, drawn)),
    ensures
        exists|best: BoardView|
            #![auto]
            is_finished_game(initial_state@, best) && answer.0@ == actions_text(best.actions)
                && answer.1 == best.score,
{
    let answer = _solve(initial_state, ITERATIONS, select, policy, rng);
    proof {
        let best = choose|best: BoardView|
            #![auto]
            is_finished_game(initial_state@, best) && answer.0@ == actions_text(best.actions)
                && answer.1 == best.score;
        assert(is_finished_game(initial_state@, best) && answer.0@ == actions_text(best.actions)
            && answer.1 == best.score);
    }
    answer
}

} // verus!
