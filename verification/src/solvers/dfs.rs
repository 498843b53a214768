//! Exhaustive search, depth first.

use std::collections::{HashSet, VecDeque};
use vstd::prelude::*;
use crate::board::{Board, BoardView, field_hash};
use crate::game::{
    all_began_at, all_children_met, better, hash_among, hash_faithful, lemma_children_met,
    lemma_reachable_self, lemma_reachable_step, lemma_search_done, lemma_terminal_stays, moves_of,
    none_scores_more, reachable, tops_every_end,
};
use crate::grid::{after_removal, in_area, is_terminal, tiles};
use crate::laws::lemma_moves_unique;
use crate::region::{
    are_moves_of, lemma_listed_move, lemma_move_removable, lemma_moves_or_terminal, RegionView,
    views,
};
use crate::solvers::solution::Solution;
use crate::text::{cell_string, join_strings, joined, texts_from};

verus! {

/// The strings of a list as sequences of characters.
pub open spec fn string_views(strings: Seq<String>) -> Seq<Seq<char>> {
    Seq::new(strings.len(), |k: int| strings[k]@)
}

/// Whether `solution` is what a search from `start` holds as its best:
/// a game that began at `start`, together with the texts of the moves made
/// since; a finished game where one was `found`, and `start` itself before.
pub open spec fn is_answer_to(solution: Solution, start: Board, found: bool) -> bool {
    &&& solution.board.wf()
    &&& reachable(start@, solution.board@)
    &&& solution.board@.actions.len() >= start@.actions.len()
    &&& string_views(solution.actions@) == texts_from(
        solution.board@.actions,
        start@.actions.len() as int,
    )
    &&& if found {
        is_terminal(solution.board@.cells)
    } else {
        solution.board@ == start@
    }
}

/// Whether `game` is a game that began at `start`, has the hash `h` and at
/// least `least` tiles.
pub open spec fn is_entered(start: BoardView, h: u64, least: nat, game: BoardView) -> bool {
    reachable(start, game) && field_hash(game.cells) == h && tiles(game.cells) >= least
}

/// Unless a finished game was found, every hash met is the hash of a game
/// with at least `least` tiles: of one whose search is still going on.
pub open spec fn all_entered(start: BoardView, visited: Set<u64>, least: nat, found: bool) -> bool {
    forall|h: u64| #[trigger]
        visited.contains(h) ==> found || exists|game: BoardView|
            #[trigger] is_entered(start, h, least, game)
}

/// A game that is entered is met, and what was met before stays so for the
/// search of it.
proof fn lemma_entered(start: BoardView, visited: Set<u64>, least: nat, found: bool, game: BoardView)
    requires
        all_entered(start, visited, least, found),
        reachable(start, game),
        tiles(game.cells) <= least,
    ensures
        all_entered(start, visited.insert(field_hash(game.cells)), tiles(game.cells), found),
{
    assert forall|h: u64| #[trigger] visited.insert(field_hash(game.cells)).contains(h) implies found
        || exists|other: BoardView| #[trigger] is_entered(start, h, tiles(game.cells), other) by {
        if h == field_hash(game.cells) {
            assert(is_entered(start, h, tiles(game.cells), game));
        } else if !found {
            let other = choose|other: BoardView| #[trigger] is_entered(start, h, least, other);
            assert(is_entered(start, h, tiles(game.cells), other));
        }
    }
}

/// Where hashes are faithful, a game whose hash was met while no game with
/// so few tiles was being searched shows that a finished game was found.
proof fn lemma_met_before(
    start: BoardView,
    visited: Set<u64>,
    least: nat,
    found: bool,
    game: BoardView,
)
    requires
        hash_faithful(start),
        all_entered(start, visited, least, found),
        reachable(start, game),
        visited.contains(field_hash(game.cells)),
        tiles(game.cells) < least,
    ensures
        found,
{
    if !found {
        let other = choose|other: BoardView|
            #[trigger] is_entered(start, field_hash(game.cells), least, other);
        assert(other.cells == game.cells);
    }
}

/// A search on its way: the hashes of the fields met and the best finished
/// game so far.
#[verifier::ext_equal]
pub struct Hunt {
    pub visited: Set<u64>,
    pub best: Option<BoardView>,
}

/// The search after the game `state` has been searched: a game without a
/// move is held against the best so far; of another, the moves are made in
/// their order, see [`hunted_from`].
pub open spec fn hunted(hunt: Hunt, state: BoardView) -> Hunt
    decreases tiles(state.cells), 1int, 0int,
{
    let moves = moves_of(state.cells);
    if moves.len() == 0 {
        Hunt { visited: hunt.visited, best: Some(better(hunt.best, state)) }
    } else {
        hunted_from(hunt, state, moves, 0)
    }
}

/// The search after the moves of `state` from place `k` on have been made,
/// one after the other: a game to which a move leads is left out where the
/// hash of its field was met before; otherwise the hash joins the hashes met
/// and the game is searched before the next move is made.  A move leaves
/// fewer tiles; the definition asks for it so that it comes to an end.
pub open spec fn hunted_from(hunt: Hunt, state: BoardView, moves: Seq<RegionView>, k: int) -> Hunt
    decreases tiles(state.cells), 0int, moves.len() - k,
{
    if 0 <= k < moves.len() {
        let child = state.after_play(moves[k]);
        let hash = field_hash(child.cells);
        let next = if hunt.visited.contains(hash) || tiles(child.cells) >= tiles(state.cells) {
            hunt
        } else {
            hunted(Hunt { visited: hunt.visited.insert(hash), best: hunt.best }, child)
        };
        hunted_from(next, state, moves, k + 1)
    } else {
        hunt
    }
}

/// The best finished game that the solution holds, where the search has
/// `found` one.
pub open spec fn best_of(solution: Solution, found: bool) -> Option<BoardView> {
    if found {
        Some(solution.board@)
    } else {
        None
    }
}

/// Every hash met is the hash of a game searched or of one whose search is
/// going on.
pub open spec fn hashes_placed(visited: Set<u64>, done: Seq<BoardView>, open: Seq<BoardView>) -> bool {
    forall|h: u64| #[trigger] visited.contains(h) ==> hash_among(done, h) || hash_among(open, h)
}

/// A game whose search begins is one whose search is going on.
proof fn lemma_placed_enter(
    visited: Set<u64>,
    done: Seq<BoardView>,
    open: Seq<BoardView>,
    game: BoardView,
)
    requires
        hashes_placed(visited, done, open),
    ensures
        hashes_placed(visited.insert(field_hash(game.cells)), done, open.push(game)),
{
    let wider = open.push(game);
    assert(wider[open.len() as int] == game);
    assert forall|h: u64| #[trigger] visited.insert(field_hash(game.cells)).contains(h) implies hash_among(
        done,
        h,
    ) || hash_among(wider, h) by {
        if visited.contains(h) && !hash_among(done, h) {
            let k = choose|k: int| 0 <= k < open.len() && field_hash((#[trigger] open[k]).cells) == h;
            assert(wider[k] == open[k]);
        }
    }
}

/// A game whose search ends is a game searched.
proof fn lemma_placed_leave(
    visited: Set<u64>,
    done: Seq<BoardView>,
    open: Seq<BoardView>,
    game: BoardView,
)
    requires
        hashes_placed(visited, done, open.push(game)),
    ensures
        hashes_placed(visited, done.push(game), open),
{
    let wider = open.push(game);
    let more = done.push(game);
    assert(more[done.len() as int] == game);
    assert forall|h: u64| #[trigger] visited.contains(h) implies hash_among(more, h) || hash_among(
        open,
        h,
    ) by {
        if hash_among(done, h) {
            let k = choose|k: int| 0 <= k < done.len() && field_hash((#[trigger] done[k]).cells) == h;
            assert(more[k] == done[k]);
        } else {
            let k = choose|k: int|
                0 <= k < wider.len() && field_hash((#[trigger] wider[k]).cells) == h;
            if k < open.len() {
                assert(wider[k] == open[k]);
            }
        }
    }
}

/// Searches the games that begin at `initial_state`, depth first, for a
/// finished one with a high score, and returns the moves that lead to it
/// from `initial_state` as text, with `;` between them.
///
/// A game without a move is kept if it is the first such game met or scores
/// more than the one kept.  Of another game each move is made on a copy, in
/// the order of the scan, and the copy is searched at once unless the hash
/// of its field was met before.  The answer is the game kept at the end;
/// without one, it is `initial_state`.  Where hashes are faithful, the
/// search meets every field on which a game can end, and the answer scores
/// no less than the games it met there.
pub fn dfs_solve(initial_state: &Board) -> (actions: String)
    requires
        initial_state.wf(),
    ensures
        ({
            let end = hunted(Hunt { visited: Set::empty(), best: None }, initial_state@);
            let best = match end.best {
                Some(game) => game,
                None => initial_state@,
            };
            &&& actions@ == joined(
                texts_from(best.actions, initial_state@.actions.len() as int),
                seq![';'],
            )
            &&& reachable(initial_state@, best)
            &&& is_terminal(best.cells) || best == initial_state@
            &&& hash_faithful(initial_state@) ==> is_terminal(best.cells) && tops_every_end(
                initial_state@,
                best,
            )
        }),
        is_terminal(initial_state@.cells) ==> actions@ == Seq::<char>::empty(),
{
    let ghost start = initial_state@;
    let mut best_solution: Solution = Solution::new(initial_state.clone());
    let mut visited: HashSet<u64> = HashSet::new();
    let mut actions: VecDeque<String> = VecDeque::new();
    let mut count: u64 = 0;

    proof {
        lemma_reachable_self(start);
        assert(string_views(best_solution.actions@) =~= texts_from(
            start.actions,
            start.actions.len() as int,
        ));
        assert(string_views(actions@) =~= texts_from(start.actions, start.actions.len() as int));
    }
    let Ghost(done) = inner_dfs(
        &mut visited,
        &mut actions,
        &mut best_solution,
        initial_state,
        &mut count,
        initial_state,
        Ghost(Seq::empty()),
        Ghost(Seq::empty()),
    );

    proof {
        let best = best_solution.board@;
        if is_terminal(start.cells) {
            initial_state.lemma_valid();
            lemma_terminal_stays(start, best);
            assert(texts_from(start.actions, start.actions.len() as int) =~= Seq::<
                Seq<char>,
            >::empty());
        }
        if hash_faithful(start) {
            assert forall|h: u64| #[trigger] visited@.contains(h) implies hash_among(done, h) by {
                assert(!hash_among(Seq::<BoardView>::empty(), h));
            }
            assert(done[done.len() - 1].cells == start.cells);
            lemma_search_done(start, visited@, done, best);
        }
        reveal_strlit(";");
        assert(";"@ =~= seq![';']);
    }
    let moves = deque_to_vec(&best_solution.actions);
    assert(Seq::new(moves@.len(), |a: int| moves@[a]@) =~= string_views(
        best_solution.actions@,
    ));
    join_strings(&moves, ";")
}

/// The strings of a queue, front first.
fn deque_to_vec(strings: &VecDeque<String>) -> (list: Vec<String>)
    ensures
        list@.len() == strings@.len(),
        forall|k: int| 0 <= k < list@.len() ==> (#[trigger] list@[k])@ == strings@[k]@,
{
    let mut list: Vec<String> = Vec::new();
    let mut k: usize = 0;
    while k < strings.len()
        invariant
            k <= strings@.len(),
            list@.len() == k,
            forall|a: int| 0 <= a < k ==> (#[trigger] list@[a])@ == strings@[a]@,
        decreases strings@.len() - k,
    {
        list.push(strings[k].clone());
        k += 1;
    }
    list
}

/// Searches on from `state`, to which the moves on the stack `actions` have
/// led, and keeps in `best_solution` the best finished game met; `count`
/// counts the finished games, as far as it can count.  `open` are the games
/// whose search is going on, `done` those searched; the games searched
/// afterwards are returned.
fn inner_dfs(
    visited: &mut HashSet<u64>,
    actions: &mut VecDeque<String>,
    best_solution: &mut Solution,
    state: &Board,
    count: &mut u64,
    start: &Board,
    Ghost(open): Ghost<Seq<BoardView>>,
    Ghost(done): Ghost<Seq<BoardView>>,
) -> (out: Ghost<Seq<BoardView>>)
    requires
        start.wf(),
        state.wf(),
        reachable(start@, state@),
        state@.actions.len() >= start@.actions.len(),
        string_views(old(actions)@) == texts_from(state@.actions, start@.actions.len() as int),
        is_answer_to(*old(best_solution), *start, *old(count) > 0),
        hash_faithful(start@) ==> all_entered(
            start@,
            old(visited)@,
            tiles(state@.cells),
            *old(count) > 0,
        ),
        hashes_placed(old(visited)@, done, open.push(state@)),
        all_began_at(start@, done),
        all_children_met(done, old(visited)@),
        none_scores_more(done, best_of(*old(best_solution), *old(count) > 0)),
    ensures
        final(actions)@ == old(actions)@,
        is_answer_to(*final(best_solution), *start, *final(count) > 0),
        hash_faithful(start@) ==> *final(count) > 0,
        *old(count) > 0 ==> *final(count) > 0,
        hashes_placed(final(visited)@, out@, open),
        all_began_at(start@, out@),
        all_children_met(out@, final(visited)@),
        none_scores_more(out@, best_of(*final(best_solution), *final(count) > 0)),
        out@.len() > 0,
        out@[out@.len() - 1] == state@,
        old(visited)@.subset_of(final(visited)@),
        (Hunt {
            visited: final(visited)@,
            best: best_of(*final(best_solution), *final(count) > 0),
        }) == hunted(
            Hunt { visited: old(visited)@, best: best_of(*old(best_solution), *old(count) > 0) },
            state@,
        ),
    decreases tiles(state@.cells),
{
    let ghost faithful = hash_faithful(start@);
    let ghost entry = Hunt {
        visited: visited@,
        best: best_of(*best_solution, *count > 0),
    };
    let ghost now = state@;
    let all_regions = state.compute_all_regions();
    let ghost moves = views(all_regions@);
    proof {
        state.lemma_valid();
        lemma_moves_or_terminal(now.cells, moves);
        lemma_moves_unique(now.cells, moves, moves_of(now.cells));
    }
    if all_regions.len() == 0 {
        if *count == 0 || state.get_score() > best_solution.board.get_score() {
            best_solution.board = state.clone();
            best_solution.actions = actions.clone();
            assert(string_views(best_solution.actions@) =~= string_views(actions@));
        }
        if *count < u64::MAX {
            *count += 1;
        }
        proof {
            assert((Hunt { visited: visited@, best: best_of(*best_solution, *count > 0) })
                =~= hunted(entry, now));
        }
    }
    let ghost stack = actions@;
    let ghost counted = *count;
    let ghost target = hunted(entry, now);
    let ghost mut acc = done;
    let ghost seen = visited@;
    let mut k: usize = 0;
    while k < all_regions.len()
        invariant
            start.wf(),
            state.wf(),
            now == state@,
            moves == views(all_regions@),
            faithful == hash_faithful(start@),
            reachable(start@, state@),
            state@.actions.len() >= start@.actions.len(),
            are_moves_of(state@.cells, all_regions@),
            k <= all_regions@.len(),
            actions@ == stack,
            string_views(stack) == texts_from(state@.actions, start@.actions.len() as int),
            is_answer_to(*best_solution, *start, *count > 0),
            faithful ==> all_entered(start@, visited@, tiles(state@.cells), *count > 0),
            faithful && k > 0 ==> *count > 0,
            counted > 0 ==> *count > 0,
            hashes_placed(visited@, acc, open.push(now)),
            all_began_at(start@, acc),
            all_children_met(acc, visited@),
            none_scores_more(acc, best_of(*best_solution, *count > 0)),
            seen.subset_of(visited@),
            forall|j: int|
                0 <= j < k ==> visited@.contains(
                    field_hash(after_removal(now.cells, (#[trigger] moves[j]).positions)),
                ),
            all_regions@.len() > 0 ==> hunted_from(
                Hunt { visited: visited@, best: best_of(*best_solution, *count > 0) },
                now,
                moves,
                k as int,
            ) == target,
            all_regions@.len() == 0 ==> (Hunt {
                visited: visited@,
                best: best_of(*best_solution, *count > 0),
            }) == target && *count > 0 && now.score <= best_solution.board@.score,
        decreases all_regions@.len() - k,
    {
        let region = &all_regions[k];
        let mut copy = state.clone();
        let ghost current = Hunt { visited: visited@, best: best_of(*best_solution, *count > 0) };
        proof {
            state.lemma_valid();
            assert(moves[k as int] == region@);
            lemma_move_removable(region@, state@.cells);
            lemma_listed_move(state@.cells, moves, k as int);
            lemma_reachable_step(start@, state@, region@);
            assert(in_area(region@.positions[0] as int));
        }
        copy.play_region(region);

        let hash_value = copy.state_hash();
        if !visited.contains(&hash_value) {
            proof {
                if faithful {
                    lemma_entered(start@, visited@, tiles(state@.cells), *count > 0, copy@);
                }
                lemma_placed_enter(visited@, acc, open.push(now), copy@);
            }
            visited.insert(hash_value);

            actions.push_back(cell_string(region.first_position));
            proof {
                let from = start@.actions.len() as int;
                let sooner = texts_from(state@.actions, from);
                let later = texts_from(copy@.actions, from);
                assert(string_views(stack).len() == sooner.len());
                assert(copy@.actions == state@.actions.push(region@.first_position));
                assert(later.len() == sooner.len() + 1);
                assert forall|a: int| 0 <= a < later.len() implies string_views(actions@)[a]
                    == later[a] by {
                    if a < stack.len() {
                        assert(actions@[a] == stack[a]);
                        assert(string_views(stack)[a] == sooner[a]);
                        assert(copy@.actions[from + a] == state@.actions[from + a]);
                    } else {
                        assert(copy@.actions[from + a] == region@.first_position);
                    }
                }
                assert(string_views(actions@) =~= later);
            }
            let Ghost(more) = inner_dfs(
                visited,
                actions,
                best_solution,
                &copy,
                count,
                start,
                Ghost(open.push(now)),
                Ghost(acc),
            );
            proof {
                acc = more;
            }
            actions.pop_back();
            assert(actions@ =~= stack);
        } else {
            proof {
                if faithful {
                    lemma_met_before(start@, visited@, tiles(state@.cells), *count > 0, copy@);
                }
            }
        }
        proof {
            assert(hunted_from(current, now, moves, k as int) == hunted_from(
                Hunt { visited: visited@, best: best_of(*best_solution, *count > 0) },
                now,
                moves,
                k + 1,
            ));
        }
        k += 1;
    }
    proof {
        lemma_placed_leave(visited@, acc, open, now);
        lemma_children_met(acc, visited@, now, moves);
        let out = acc.push(now);
        assert forall|j: int| 0 <= j < out.len() implies reachable(start@, #[trigger] out[j]) by {
            if j < acc.len() {
                assert(out[j] == acc[j]);
            }
        }
        assert forall|j: int|
            0 <= j < out.len() && is_terminal((#[trigger] out[j]).cells) implies best_of(
            *best_solution,
            *count > 0,
        ) is Some && out[j].score <= best_of(*best_solution, *count > 0)->0.score by {
            if j < acc.len() {
                assert(out[j] == acc[j]);
            }
        }
    }
    Ghost(acc.push(now))
}

} // verus!
