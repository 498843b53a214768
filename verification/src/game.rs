//! Sequences of moves and the boards they lead to.

use vstd::prelude::*;
use crate::board::{BoardView, field_hash};
use crate::grid::{after_removal, is_terminal};
use crate::laws::lemma_scan_move_listed;
use crate::region::{are_moves, lemma_move_removable, RegionView};

verus! {

/// The game after the moves `moves`, one after the other.
pub open spec fn after_plays(start: BoardView, moves: Seq<RegionView>) -> BoardView
    decreases moves.len(),
{
    if moves.len() == 0 {
        start
    } else {
        after_plays(start, moves.drop_last()).after_play(moves.last())
    }
}

/// Whether each of `moves` is a move on the field that the moves before it
/// leave, named by the first of its cells in scan order.
pub open spec fn are_legal(start: BoardView, moves: Seq<RegionView>) -> bool
    decreases moves.len(),
{
    moves.len() == 0 || (are_legal(start, moves.drop_last()) && moves.last().is_scan_move_on(
        after_plays(start, moves.drop_last()).cells,
    ))
}

/// Whether moves lead from `start` to `end`.
pub open spec fn reachable(start: BoardView, end: BoardView) -> bool {
    exists|moves: Seq<RegionView>| are_legal(start, moves) && after_plays(start, moves) == end
}

/// Whether `end` is a game that began at `start` and in which no move is
/// left.
pub open spec fn is_finished_game(start: BoardView, end: BoardView) -> bool {
    reachable(start, end) && is_terminal(end.cells)
}

/// Whether the hash of a field tells the field, among the games that began
/// at `start`: no two of them that show different fields have the same
/// hash.
pub open spec fn hash_faithful(start: BoardView) -> bool {
    forall|a: BoardView, b: BoardView|
        #![trigger reachable(start, a), reachable(start, b)]
        reachable(start, a) && reachable(start, b) && field_hash(a.cells) == field_hash(b.cells)
            ==> a.cells == b.cells
}

/// The moves of a field, as a scan finds them.
pub open spec fn moves_of(cells: Seq<i8>) -> Seq<RegionView> {
    choose|moves: Seq<RegionView>| are_moves(cells, moves)
}

/// The better of the best finished game so far and a further one: the
/// first one met, and later ones that score more.
pub open spec fn better(best: Option<BoardView>, probe: BoardView) -> BoardView {
    match best {
        Some(game) => if probe.score > game.score {
            probe
        } else {
            game
        },
        None => probe,
    }
}

/// Whether one of `games` shows the field `cells`.
pub open spec fn shows(games: Seq<BoardView>, cells: Seq<i8>) -> bool {
    exists|k: int| 0 <= k < games.len() && (#[trigger] games[k]).cells == cells
}

/// Whether `games` leave no move out: each move of each of them leads to a
/// field that one of them shows.
pub open spec fn search_complete(games: Seq<BoardView>) -> bool {
    forall|k: int, region: RegionView|
        0 <= k < games.len() && #[trigger] region.is_scan_move_on(games[k].cells) ==> shows(
            games,
            after_removal(games[k].cells, region.positions),
        )
}

/// Whether a finished game that began at `start` ends on the field of `end`
/// and scores no more than `score`.
pub open spec fn is_met_below(start: BoardView, end: BoardView, score: nat) -> bool {
    exists|met: BoardView| #[trigger]
        is_finished_game(start, met) && met.cells == end.cells && met.score <= score
}

/// Whether on every field on which a game that began at `start` can end, a
/// game ends that scores no more than `best`.
pub open spec fn tops_every_end(start: BoardView, best: BoardView) -> bool {
    forall|end: BoardView| #[trigger]
        is_finished_game(start, end) ==> is_met_below(start, end, best.score)
}

/// Games that leave no move out and show the field of `start` show every
/// field to which moves lead from `start`.
pub proof fn lemma_complete_covers(start: BoardView, games: Seq<BoardView>, moves: Seq<RegionView>)
    requires
        search_complete(games),
        shows(games, start.cells),
        are_legal(start, moves),
    ensures
        shows(games, after_plays(start, moves).cells),
    decreases moves.len(),
{
    if moves.len() > 0 {
        lemma_complete_covers(start, games, moves.drop_last());
        let before = after_plays(start, moves.drop_last());
        let k = choose|k: int| 0 <= k < games.len() && (#[trigger] games[k]).cells == before.cells;
        assert(moves.last().is_scan_move_on(games[k].cells));
    }
}

/// Where the games searched leave no move out, show the field of `start`,
/// began at `start`, and the finished ones among them score no more than
/// `best`, `best` tops every end.
pub proof fn lemma_tops_every_end(start: BoardView, games: Seq<BoardView>, best: BoardView)
    requires
        search_complete(games),
        shows(games, start.cells),
        forall|k: int| 0 <= k < games.len() ==> reachable(start, #[trigger] games[k]),
        forall|k: int|
            0 <= k < games.len() && is_terminal((#[trigger] games[k]).cells) ==> games[k].score
                <= best.score,
    ensures
        tops_every_end(start, best),
{
    assert forall|end: BoardView| #[trigger] is_finished_game(start, end) implies is_met_below(
        start,
        end,
        best.score,
    ) by {
        let moves = choose|moves: Seq<RegionView>|
            are_legal(start, moves) && after_plays(start, moves) == end;
        lemma_complete_covers(start, games, moves);
        let k = choose|k: int| 0 <= k < games.len() && (#[trigger] games[k]).cells == end.cells;
        assert(is_finished_game(start, games[k]) && games[k].cells == end.cells && games[k].score
            <= best.score);
    }
}

/// The games searched so far began at `start`.
pub open spec fn all_began_at(start: BoardView, done: Seq<BoardView>) -> bool {
    forall|k: int| 0 <= k < done.len() ==> reachable(start, #[trigger] done[k])
}

/// The hash of every field to which a move leads from a game searched was
/// met.
pub open spec fn all_children_met(done: Seq<BoardView>, visited: Set<u64>) -> bool {
    forall|k: int, region: RegionView|
        0 <= k < done.len() && #[trigger] region.is_scan_move_on(done[k].cells)
            ==> visited.contains(field_hash(after_removal(done[k].cells, region.positions)))
}

/// No finished game among the games searched scores more than the best.
pub open spec fn none_scores_more(done: Seq<BoardView>, best: Option<BoardView>) -> bool {
    forall|k: int|
        0 <= k < done.len() && is_terminal((#[trigger] done[k]).cells) ==> best is Some
            && done[k].score <= best->0.score
}

/// A game whose moves have all been offered joins the games searched.
pub proof fn lemma_children_met(
    done: Seq<BoardView>,
    visited: Set<u64>,
    now: BoardView,
    moves: Seq<RegionView>,
)
    requires
        now.valid(),
        are_moves(now.cells, moves),
        all_children_met(done, visited),
        forall|j: int|
            0 <= j < moves.len() ==> visited.contains(
                field_hash(after_removal(now.cells, (#[trigger] moves[j]).positions)),
            ),
    ensures
        all_children_met(done.push(now), visited),
{
    let more = done.push(now);
    assert forall|k: int, region: RegionView|
        0 <= k < more.len() && #[trigger] region.is_scan_move_on(
            more[k].cells,
        ) implies visited.contains(field_hash(after_removal(more[k].cells, region.positions))) by {
        if k < done.len() {
            assert(more[k] == done[k]);
        } else {
            let j = lemma_scan_move_listed(now.cells, moves, region);
        }
    }
}

/// Whether `h` is the hash of the field of one of `games`.
pub open spec fn hash_among(games: Seq<BoardView>, h: u64) -> bool {
    exists|k: int| 0 <= k < games.len() && field_hash((#[trigger] games[k]).cells) == h
}

/// When no game waits to be searched any more, the games searched leave no
/// move out, and the best of them tops every end, where hashes are
/// faithful.
pub proof fn lemma_search_done(
    start: BoardView,
    visited: Set<u64>,
    done: Seq<BoardView>,
    best: BoardView,
)
    requires
        hash_faithful(start),
        shows(done, start.cells),
        all_began_at(start, done),
        all_children_met(done, visited),
        forall|h: u64| #[trigger] visited.contains(h) ==> hash_among(done, h),
        none_scores_more(done, Some(best)),
    ensures
        tops_every_end(start, best),
{
    assert forall|k: int, region: RegionView|
        0 <= k < done.len() && #[trigger] region.is_scan_move_on(done[k].cells) implies shows(
        done,
        after_removal(done[k].cells, region.positions),
    ) by {
        let child = done[k].after_play(region);
        lemma_reachable_step(start, done[k], region);
        let hash = field_hash(child.cells);
        assert(visited.contains(hash));
        assert(hash_among(done, hash));
        let m = choose|m: int| 0 <= m < done.len() && field_hash((#[trigger] done[m]).cells) == hash;
        assert(reachable(start, done[m]));
        assert(done[m].cells == child.cells);
    }
    assert(search_complete(done));
    lemma_tops_every_end(start, done, best);
}

/// No move leads from a game to itself.
pub proof fn lemma_reachable_self(start: BoardView)
    ensures
        reachable(start, start),
{
    let none = Seq::<RegionView>::empty();
    assert(are_legal(start, none) && after_plays(start, none) == start);
}

/// One more move leads one game further.
pub proof fn lemma_reachable_step(start: BoardView, mid: BoardView, region: RegionView)
    requires
        reachable(start, mid),
        region.is_scan_move_on(mid.cells),
    ensures
        reachable(start, mid.after_play(region)),
{
    let moves = choose|moves: Seq<RegionView>|
        are_legal(start, moves) && after_plays(start, moves) == mid;
    let more = moves.push(region);
    assert(more.drop_last() =~= moves);
    assert(are_legal(start, more) && after_plays(start, more) == mid.after_play(region));
}

/// Moves that lead on from where other moves have led lead there from the
/// start.
pub proof fn lemma_reachable_trans(start: BoardView, mid: BoardView, end: BoardView)
    requires
        reachable(start, mid),
        reachable(mid, end),
    ensures
        reachable(start, end),
{
    let first = choose|moves: Seq<RegionView>|
        are_legal(start, moves) && after_plays(start, moves) == mid;
    let second = choose|moves: Seq<RegionView>|
        are_legal(mid, moves) && after_plays(mid, moves) == end;
    lemma_plays_append(start, first, second);
}

/// Playing one sequence of moves after another.
proof fn lemma_plays_append(start: BoardView, first: Seq<RegionView>, second: Seq<RegionView>)
    requires
        are_legal(start, first),
        are_legal(after_plays(start, first), second),
    ensures
        are_legal(start, first + second),
        after_plays(start, first + second) == after_plays(after_plays(start, first), second),
    decreases second.len(),
{
    if second.len() == 0 {
        assert(first + second =~= first);
    } else {
        lemma_plays_append(start, first, second.drop_last());
        assert((first + second).drop_last() =~= first + second.drop_last());
        assert((first + second).last() == second.last());
    }
}

/// Where no move is left, the game stays where it is.
pub proof fn lemma_terminal_stays(start: BoardView, end: BoardView)
    requires
        start.valid(),
        is_terminal(start.cells),
        reachable(start, end),
    ensures
        end == start,
{
    let moves = choose|moves: Seq<RegionView>|
        are_legal(start, moves) && after_plays(start, moves) == end;
    lemma_no_legal_moves(start, moves);
}

/// On a terminal field the only legal sequence of moves is the empty one.
proof fn lemma_no_legal_moves(start: BoardView, moves: Seq<RegionView>)
    requires
        start.valid(),
        is_terminal(start.cells),
        are_legal(start, moves),
    ensures
        moves.len() == 0,
    decreases moves.len(),
{
    if moves.len() > 0 {
        lemma_no_legal_moves(start, moves.drop_last());
        assert(moves.drop_last().len() == 0);
        assert(after_plays(start, moves.drop_last()) == start);
        lemma_move_removable(moves.last(), start.cells);
    }
}

} // verus!
