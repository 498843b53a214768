//! Exhaustive search, breadth first.

use std::collections::{HashSet, VecDeque};
use vstd::prelude::*;
use crate::board::{Board, BoardView, field_hash};
use crate::game::{
    all_began_at, all_children_met, better, hash_among, hash_faithful, lemma_children_met,
    lemma_reachable_self, lemma_reachable_step, lemma_search_done, lemma_terminal_stays, moves_of,
    none_scores_more, reachable, tops_every_end,
};
use crate::grid::{after_removal, is_terminal, tiles};
use crate::laws::lemma_moves_unique;
use crate::region::{
    are_moves_of, lemma_listed_move, lemma_move_removable, lemma_moves_or_terminal, RegionView,
    views,
};
use crate::solvers::solution::{best_view, is_best_so_far, keep_best};
use crate::text::{joined, texts_from};

verus! {

/// A search on its way: the games that wait to be searched, the hashes of
/// the fields met, and the best finished game so far.
#[verifier::ext_equal]
pub struct Search {
    pub queue: Seq<BoardView>,
    pub visited: Set<u64>,
    pub best: Option<BoardView>,
}

/// The search after the games to which the moves from place `k` on lead
/// from `board` have been offered to it, one after the other: a game whose
/// field has a hash met before is left out, another joins the end of the
/// queue, and its hash the hashes met.
pub open spec fn offered(search: Search, board: BoardView, moves: Seq<RegionView>, k: int) -> Search
    decreases moves.len() - k,
{
    if 0 <= k < moves.len() {
        let child = board.after_play(moves[k]);
        let hash = field_hash(child.cells);
        let next = if search.visited.contains(hash) {
            search
        } else {
            Search {
                queue: search.queue.push(child),
                visited: search.visited.insert(hash),
                best: search.best,
            }
        };
        offered(next, board, moves, k + 1)
    } else {
        search
    }
}

/// The search after the first game of the queue has been searched: a game
/// without a move is held against the best so far; of another, the games
/// to which its moves lead are offered in the order of the moves.
pub open spec fn searched(search: Search) -> Search {
    let board = search.queue[0];
    let rest = Search {
        queue: search.queue.subrange(1, search.queue.len() as int),
        visited: search.visited,
        best: search.best,
    };
    let moves = moves_of(board.cells);
    if moves.len() == 0 {
        Search { queue: rest.queue, visited: rest.visited, best: Some(better(search.best, board)) }
    } else {
        offered(rest, board, moves, 0)
    }
}

/// The search that begins with `start` alone in the queue, after `rounds`
/// games have been searched, or all if they are fewer.
pub open spec fn search_after(start: BoardView, rounds: nat) -> Search
    decreases rounds,
{
    if rounds == 0 {
        Search { queue: seq![start], visited: Set::empty(), best: None }
    } else {
        let before = search_after(start, (rounds - 1) as nat);
        if before.queue.len() == 0 {
            before
        } else {
            searched(before)
        }
    }
}

/// What a search answers with: the best finished game, and `start` where it
/// met none.
pub open spec fn found_by(search: Search, start: BoardView) -> BoardView {
    match search.best {
        Some(game) => game,
        None => start,
    }
}

/// The boards of a queue as mathematical values.
pub open spec fn game_views(queue: Seq<Board>) -> Seq<BoardView> {
    Seq::new(queue.len(), |k: int| queue[k]@)
}

/// The state of the search that the queue, the hashes and the best board
/// make up.
pub open spec fn state_of(queue: Seq<Board>, visited: Set<u64>, best: Option<Board>) -> Search {
    Search { queue: game_views(queue), visited, best: best_view(best) }
}

/// Every board in the queue is a game that began at `start`.
pub open spec fn all_reachable(start: BoardView, queue: Seq<Board>) -> bool {
    forall|k: int| 0 <= k < queue.len() ==> (#[trigger] queue[k]).wf() && reachable(start, queue[k]@)
}

/// Whether a board with fewer than `t` tiles waits in the queue.
pub open spec fn waits_below(queue: Seq<Board>, t: nat) -> bool {
    exists|j: int| 0 <= j < queue.len() && tiles((#[trigger] queue[j])@.cells) < t
}

/// Whether `h` is the hash of a board that waits in the queue, of one that
/// was searched, or of the one that is being searched.
pub open spec fn is_known(queue: Seq<Board>, done: Seq<BoardView>, now: Option<BoardView>, h: u64) -> bool {
    ||| exists|j: int| 0 <= j < queue.len() && field_hash((#[trigger] queue[j])@.cells) == h
    ||| exists|k: int| 0 <= k < done.len() && field_hash((#[trigger] done[k]).cells) == h
    ||| (now matches Some(board) && field_hash(board.cells) == h)
}

/// Every hash met is the hash of a board that the search knows.
pub open spec fn hashes_known(
    visited: Set<u64>,
    queue: Seq<Board>,
    done: Seq<BoardView>,
    now: Option<BoardView>,
) -> bool {
    forall|h: u64| #[trigger] visited.contains(h) ==> is_known(queue, done, now, h)
}

/// The search of the game `game` has led on: a finished game was found, or
/// a board with fewer tiles waits, or the board being searched has fewer.
pub open spec fn leads_on(queue: Seq<Board>, now: Option<BoardView>, found: bool, game: BoardView) -> bool {
    ||| found
    ||| waits_below(queue, tiles(game.cells))
    ||| (now matches Some(board) && tiles(board.cells) < tiles(game.cells))
}

/// The search of every game searched so far has led on.
pub open spec fn all_lead_on(
    queue: Seq<Board>,
    done: Seq<BoardView>,
    now: Option<BoardView>,
    found: bool,
) -> bool {
    forall|k: int| 0 <= k < done.len() ==> leads_on(queue, now, found, #[trigger] done[k])
}

/// Taking the first board out of the queue to search it.
proof fn lemma_taken(
    visited: Set<u64>,
    waiting: Seq<Board>,
    done: Seq<BoardView>,
    found: bool,
)
    requires
        waiting.len() > 0,
        hashes_known(visited, waiting, done, None),
    ensures
        hashes_known(visited, waiting.subrange(1, waiting.len() as int), done, Some(waiting[0]@)),
        all_lead_on(waiting, done, None, found) ==> all_lead_on(
            waiting.subrange(1, waiting.len() as int),
            done,
            Some(waiting[0]@),
            found,
        ),
{
    let rest = waiting.subrange(1, waiting.len() as int);
    let now = Some(waiting[0]@);
    assert forall|h: u64| #[trigger] visited.contains(h) implies is_known(rest, done, now, h) by {
        assert(is_known(waiting, done, None, h));
        if exists|j: int| 0 <= j < waiting.len() && field_hash((#[trigger] waiting[j])@.cells) == h {
            let j = choose|j: int|
                0 <= j < waiting.len() && field_hash((#[trigger] waiting[j])@.cells) == h;
            if j > 0 {
                assert(rest[j - 1] == waiting[j]);
            }
        }
    }
    if all_lead_on(waiting, done, None, found) {
        assert forall|k: int| 0 <= k < done.len() implies leads_on(
            rest,
            now,
            found,
            #[trigger] done[k],
        ) by {
            assert(leads_on(waiting, None, found, done[k]));
            if waits_below(waiting, tiles(done[k].cells)) {
                let j = choose|j: int|
                    0 <= j < waiting.len() && tiles((#[trigger] waiting[j])@.cells) < tiles(
                        done[k].cells,
                    );
                if j > 0 {
                    assert(rest[j - 1] == waiting[j]);
                }
            }
        }
    }
}

/// A board that joins the queue is known, and what was known stays known.
proof fn lemma_joined(
    visited: Set<u64>,
    queue: Seq<Board>,
    done: Seq<BoardView>,
    now: BoardView,
    found: bool,
    copy: Board,
)
    requires
        hashes_known(visited, queue, done, Some(now)),
        tiles(copy@.cells) < tiles(now.cells),
    ensures
        hashes_known(visited.insert(field_hash(copy@.cells)), queue.push(copy), done, Some(now)),
        all_lead_on(queue, done, Some(now), found) ==> all_lead_on(
            queue.push(copy),
            done,
            Some(now),
            found,
        ),
        waits_below(queue.push(copy), tiles(now.cells)),
        forall|t: nat| waits_below(queue, t) ==> waits_below(queue.push(copy), t),
{
    let longer = queue.push(copy);
    assert(longer[queue.len() as int] == copy);
    assert forall|t: nat| waits_below(queue, t) implies waits_below(longer, t) by {
        let j = choose|j: int| 0 <= j < queue.len() && tiles((#[trigger] queue[j])@.cells) < t;
        assert(longer[j] == queue[j]);
    }
    assert forall|h: u64| #[trigger] visited.insert(field_hash(copy@.cells)).contains(h) implies is_known(
        longer,
        done,
        Some(now),
        h,
    ) by {
        if visited.contains(h) {
            assert(is_known(queue, done, Some(now), h));
            if exists|j: int| 0 <= j < queue.len() && field_hash((#[trigger] queue[j])@.cells) == h {
                let j = choose|j: int|
                    0 <= j < queue.len() && field_hash((#[trigger] queue[j])@.cells) == h;
                assert(longer[j] == queue[j]);
            }
        }
    }
    if all_lead_on(queue, done, Some(now), found) {
        assert forall|k: int| 0 <= k < done.len() implies leads_on(
            longer,
            Some(now),
            found,
            #[trigger] done[k],
        ) by {
            assert(leads_on(queue, Some(now), found, done[k]));
        }
    }
}

/// A board that is left out because its hash was met leads on all the
/// same, where hashes are faithful: the board with that hash has as many
/// tiles, and the search of it has led on, or it waits.
proof fn lemma_left_out(
    start: BoardView,
    visited: Set<u64>,
    queue: Seq<Board>,
    done: Seq<BoardView>,
    now: BoardView,
    found: bool,
    copy: BoardView,
)
    requires
        hash_faithful(start),
        reachable(start, now),
        reachable(start, copy),
        all_reachable(start, queue),
        all_began_at(start, done),
        hashes_known(visited, queue, done, Some(now)),
        all_lead_on(queue, done, Some(now), found),
        visited.contains(field_hash(copy.cells)),
        tiles(copy.cells) < tiles(now.cells),
    ensures
        found || waits_below(queue, tiles(now.cells)),
{
    let h = field_hash(copy.cells);
    assert(is_known(queue, done, Some(now), h));
    if exists|j: int| 0 <= j < queue.len() && field_hash((#[trigger] queue[j])@.cells) == h {
        let j = choose|j: int| 0 <= j < queue.len() && field_hash((#[trigger] queue[j])@.cells) == h;
        assert(reachable(start, queue[j]@));
        assert(queue[j]@.cells == copy.cells);
    } else if exists|k: int| 0 <= k < done.len() && field_hash((#[trigger] done[k]).cells) == h {
        let k = choose|k: int| 0 <= k < done.len() && field_hash((#[trigger] done[k]).cells) == h;
        assert(reachable(start, done[k]));
        assert(done[k].cells == copy.cells);
        assert(leads_on(queue, Some(now), found, done[k]));
        if waits_below(queue, tiles(done[k].cells)) {
            let j = choose|j: int|
                0 <= j < queue.len() && tiles((#[trigger] queue[j])@.cells) < tiles(done[k].cells);
        }
    } else {
        assert(now.cells == copy.cells);
    }
}

/// A board that has been searched joins the games searched.
proof fn lemma_searched(
    visited: Set<u64>,
    queue: Seq<Board>,
    done: Seq<BoardView>,
    now: BoardView,
    found: bool,
)
    requires
        hashes_known(visited, queue, done, Some(now)),
    ensures
        hashes_known(visited, queue, done.push(now), None),
        all_lead_on(queue, done, Some(now), found) && (found || waits_below(
            queue,
            tiles(now.cells),
        )) ==> all_lead_on(queue, done.push(now), None, found),
{
    let more = done.push(now);
    assert(more[done.len() as int] == now);
    assert forall|h: u64| #[trigger] visited.contains(h) implies is_known(queue, more, None, h) by {
        assert(is_known(queue, done, Some(now), h));
        if exists|k: int| 0 <= k < done.len() && field_hash((#[trigger] done[k]).cells) == h {
            let k = choose|k: int| 0 <= k < done.len() && field_hash((#[trigger] done[k]).cells) == h;
            assert(more[k] == done[k]);
        }
    }
    if all_lead_on(queue, done, Some(now), found) && (found || waits_below(queue, tiles(now.cells))) {
        assert forall|k: int| 0 <= k < more.len() implies leads_on(
            queue,
            None,
            found,
            #[trigger] more[k],
        ) by {
            if k < done.len() {
                assert(more[k] == done[k]);
                assert(leads_on(queue, Some(now), found, done[k]));
                if !found && !waits_below(queue, tiles(done[k].cells)) {
                    let j = choose|j: int|
                        0 <= j < queue.len() && tiles((#[trigger] queue[j])@.cells) < tiles(
                            now.cells,
                        );
                }
            }
        }
    }
}

/// Searches the games that begin at `initial_state`, breadth first, for a
/// finished one with a high score, and returns the moves that lead to it
/// from `initial_state` as text, with `;` between them.
///
/// The games wait in a queue, `initial_state` first.  The first of them is
/// taken out: where it has no move, it is kept if it is the first such game
/// or scores more than the one kept; otherwise each of its moves is made on
/// a copy, in the order of the scan, and the copy joins the queue unless
/// the hash of its field was met before.  The answer is the game kept when
/// the queue is empty; without one, it is `initial_state`.  Where hashes are
/// faithful, the search meets every field on which a game can end, and the
/// answer scores no less than the games it met there.
pub fn bfs_solve(initial_state: &Board) -> (actions: String)
    requires
        initial_state.wf(),
    ensures
        exists|rounds: nat|
            {
                let end = #[trigger] search_after(initial_state@, rounds);
                let best = found_by(end, initial_state@);
                &&& end.queue.len() == 0
                &&& actions@ == joined(
                    texts_from(best.actions, initial_state@.actions.len() as int),
                    seq![';'],
                )
                &&& reachable(initial_state@, best)
                &&& is_terminal(best.cells) || best == initial_state@
                &&& hash_faithful(initial_state@) ==> is_terminal(best.cells) && tops_every_end(
                    initial_state@,
                    best,
                )
            },
        is_terminal(initial_state@.cells) ==> actions@ == Seq::<char>::empty(),
{
    let ghost start = initial_state@;
    let ghost faithful = hash_faithful(start);
    let mut visited: HashSet<u64> = HashSet::new();
    let mut queue: VecDeque<Board> = VecDeque::new();
    queue.push_back(initial_state.clone());
    let mut best_solution: Option<Board> = None;
    let ghost mut done: Seq<BoardView> = Seq::empty();
    let ghost mut rounds: nat = 0;

    proof {
        lemma_reachable_self(start);
        assert(queue@[0]@ == start);
        assert(state_of(queue@, visited@, best_solution) =~= search_after(start, 0));
    }
    while queue.len() > 0
        invariant
            start == initial_state@,
            initial_state.wf(),
            faithful == hash_faithful(start),
            all_reachable(start, queue@),
            all_began_at(start, done),
            is_best_so_far(best_solution, start),
            hashes_known(visited@, queue@, done, None),
            faithful ==> all_lead_on(queue@, done, None, best_solution is Some),
            all_children_met(done, visited@),
            none_scores_more(done, best_view(best_solution)),
            if done.len() == 0 {
                queue@.len() == 1 && queue@[0]@ == start
            } else {
                done[0] == start
            },
            state_of(queue@, visited@, best_solution) == search_after(start, rounds),
            visited@.finite(),
        decreases usize::MAX - visited@.len(), queue@.len(),
    {
        let ghost waiting = queue@;
        let ghost seen = visited@;
        let ghost before = state_of(queue@, visited@, best_solution);
        assert(visited.len() == visited@.len());
        let board = queue.pop_front().unwrap();
        let ghost now = board@;
        let ghost rest = Search {
            queue: before.queue.subrange(1, before.queue.len() as int),
            visited: before.visited,
            best: before.best,
        };
        proof {
            assert(board == waiting[0]);
            assert forall|k: int| 0 <= k < queue@.len() implies (#[trigger] queue@[k]).wf()
                && reachable(start, queue@[k]@) by {
                assert(queue@[k] == waiting[k + 1]);
            }
            lemma_taken(seen, waiting, done, best_solution is Some);
            assert(before.queue[0] == now);
            assert(game_views(queue@) =~= rest.queue);
            assert(state_of(queue@, visited@, best_solution) =~= rest);
        }

        let all_regions = board.compute_all_regions();
        let ghost moves = views(all_regions@);
        proof {
            board.lemma_valid();
            lemma_moves_or_terminal(now.cells, moves);
            lemma_moves_unique(now.cells, moves, moves_of(now.cells));
        }
        if all_regions.len() == 0 {
            best_solution = keep_best(best_solution, board, Ghost(start));
            proof {
                assert forall|k: int| 0 <= k < done.len() implies leads_on(
                    queue@,
                    Some(now),
                    true,
                    #[trigger] done[k],
                ) by {}
                assert(state_of(queue@, visited@, best_solution) =~= searched(before));
            }
        } else {
            let ghost target = offered(rest, now, moves, 0);
            let mut k: usize = 0;
            while k < all_regions.len()
                invariant
                    start == initial_state@,
                    faithful == hash_faithful(start),
                    now == board@,
                    board.wf(),
                    reachable(start, now),
                    moves == views(all_regions@),
                    are_moves_of(board@.cells, all_regions@),
                    all_reachable(start, queue@),
                    all_began_at(start, done),
                    hashes_known(visited@, queue@, done, Some(now)),
                    faithful ==> all_lead_on(queue@, done, Some(now), best_solution is Some),
                    faithful && k > 0 ==> best_solution is Some || waits_below(
                        queue@,
                        tiles(now.cells),
                    ),
                    all_children_met(done, visited@),
                    forall|j: int|
                        0 <= j < k ==> visited@.contains(
                            field_hash(after_removal(now.cells, (#[trigger] moves[j]).positions)),
                        ),
                    offered(state_of(queue@, visited@, best_solution), now, moves, k as int)
                        == target,
                    k <= all_regions@.len(),
                    visited@.finite(),
                    seen.finite(),
                    seen.subset_of(visited@),
                    queue@.len() >= waiting.len() - 1,
                    queue@.len() == waiting.len() - 1 ==> visited@ == seen,
                    queue@.len() > waiting.len() - 1 ==> visited@.len() > seen.len(),
                decreases all_regions@.len() - k,
            {
                let region = &all_regions[k];
                let mut copy = board.clone();
                let ghost current = state_of(queue@, visited@, best_solution);
                proof {
                    board.lemma_valid();
                    assert(moves[k as int] == region@);
                    lemma_move_removable(region@, board@.cells);
                    lemma_listed_move(board@.cells, moves, k as int);
                    lemma_reachable_step(start, board@, region@);
                }
                copy.play_region(region);

                let hash_value = copy.state_hash();
                if !visited.contains(&hash_value) {
                    let ghost had = visited@;
                    let ghost lined = queue@;
                    proof {
                        lemma_joined(had, lined, done, now, best_solution is Some, copy);
                        vstd::set_lib::lemma_len_subset(seen, had);
                    }
                    visited.insert(hash_value);
                    assert(visited@.len() == had.len() + 1);
                    queue.push_back(copy);
                    assert forall|j: int| 0 <= j < queue@.len() implies (#[trigger] queue@[j]).wf()
                        && reachable(start, queue@[j]@) by {
                        if j < lined.len() {
                            assert(queue@[j] == lined[j]);
                        }
                    }
                    proof {
                        assert(game_views(queue@) =~= current.queue.push(copy@));
                        assert(state_of(queue@, visited@, best_solution) =~= Search {
                            queue: current.queue.push(copy@),
                            visited: current.visited.insert(hash_value),
                            best: current.best,
                        });
                    }
                } else {
                    proof {
                        if faithful {
                            lemma_left_out(
                                start,
                                visited@,
                                queue@,
                                done,
                                now,
                                best_solution is Some,
                                copy@,
                            );
                        }
                    }
                }
                proof {
                    assert(offered(current, now, moves, k as int) == offered(
                        state_of(queue@, visited@, best_solution),
                        now,
                        moves,
                        k + 1,
                    ));
                }
                k += 1;
            }
            proof {
                assert(state_of(queue@, visited@, best_solution) == searched(before));
            }
        }
        proof {
            lemma_searched(visited@, queue@, done, now, best_solution is Some);
            lemma_children_met(done, visited@, now, moves);
            assert forall|k: int|
                0 <= k < done.push(now).len() && is_terminal(
                    (#[trigger] done.push(now)[k]).cells,
                ) implies best_view(best_solution) is Some && done.push(now)[k].score <= best_view(
                best_solution,
            )->0.score by {
                if k < done.len() {
                    assert(done.push(now)[k] == done[k]);
                }
            }
            done = done.push(now);
            assert forall|k: int| 0 <= k < done.len() implies reachable(start, #[trigger] done[k]) by {
                if k < done.len() - 1 {
                    assert(done[k] == done.drop_last()[k]);
                }
            }
            rounds = rounds + 1;
            assert(search_after(start, rounds) == searched(search_after(start, (rounds - 1) as nat)));
        }
        assert(visited.len() == visited@.len());
    }

    let from = initial_state.get_actions_len();
    proof {
        if faithful {
            assert(leads_on(queue@, None, best_solution is Some, done[0]));
        }
        assert(queue@ =~= Seq::<Board>::empty());
    }
    match best_solution {
        Some(found) => {
            let actions = found.get_actions_str_from(from);
            proof {
                let best = found@;
                let end = search_after(start, rounds);
                assert(found_by(end, start) == best);
                if is_terminal(start.cells) {
                    initial_state.lemma_valid();
                    lemma_terminal_stays(start, best);
                    assert(texts_from(start.actions, from as int) =~= Seq::<Seq<char>>::empty());
                }
                if faithful {
                    assert forall|h: u64| #[trigger] visited@.contains(h) implies hash_among(
                        done,
                        h,
                    ) by {
                        assert(is_known(queue@, done, None, h));
                    }
                    assert(done[0].cells == start.cells);
                    lemma_search_done(start, visited@, done, best);
                }
            }
            actions
        },
        None => {
            let actions = initial_state.get_actions_str_from(from);
            proof {
                lemma_reachable_self(start);
                let end = search_after(start, rounds);
                assert(found_by(end, start) == start);
                assert(texts_from(start.actions, from as int) =~= Seq::<Seq<char>>::empty());
            }
            actions
        },
    }
}

} // verus!
