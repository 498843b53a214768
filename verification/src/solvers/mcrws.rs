//! Search by rollouts: at each move every candidate is tried, and the games
//! that chance plays on from it decide which one to make.

use rand::rngs::StdRng;
use vstd::prelude::*;
use crate::board::{Board, BoardView};
use crate::cache::{cache_get, cache_put, cache_sound, empty_cache, RegionCache};
use crate::chance::{random_below, random_word};
use crate::game::{
    is_finished_game, lemma_reachable_self, lemma_reachable_step, lemma_reachable_trans, reachable,
};
use crate::grid::{
    cleared, COLOR_COUNT, count, in_area, is_grid, lemma_cleared_count, lemma_tiles_bound, listed,
    tiles,
};
use crate::region::{
    are_moves, are_moves_of, lemma_move_removable, lemma_moves_or_terminal, Region, RegionView,
    views,
};
use crate::solvers::solution::{is_best_so_far, keep_best};
use crate::text::actions_text;

verus! {

/// Number of games played on from each candidate move.
pub const ROLLOUTS: usize = 3000;

/// Number of fields whose moves are kept for reuse.
pub const CACHE_CAPACITY: usize = 1000000;

/// Number of tiles in those of `regions` that have colour `c`.
pub open spec fn tiles_in(regions: Seq<RegionView>, c: int) -> nat
    decreases regions.len(),
{
    if regions.len() == 0 {
        0
    } else {
        tiles_in(regions.drop_last(), c) + if regions.last().color == c {
            regions.last().positions.len()
        } else {
            0nat
        }
    }
}

/// The field after the first `n` of `regions` have been taken off it.
spec fn without(cells: Seq<i8>, regions: Seq<RegionView>, n: int) -> Seq<i8>
    decreases n,
{
    if n <= 0 {
        cells
    } else {
        cleared(without(cells, regions, n - 1), regions[n - 1].positions)
    }
}

/// The tiles of the first `n` moves of a field are tiles of the field: each
/// colour has at least as many tiles as those moves hold of it.
proof fn lemma_without(cells: Seq<i8>, regions: Seq<RegionView>, n: int, c: int)
    requires
        is_grid(cells),
        are_moves(cells, regions),
        0 <= n <= regions.len(),
        0 <= c < 5,
    ensures
        without(cells, regions, n).len() == 256,
        forall|k: int, j: int|
            n <= k < regions.len() && 0 <= j < regions[k].positions.len() ==> without(
                cells,
                regions,
                n,
            )[#[trigger] regions[k].positions[j] as int] == regions[k].color,
        count(without(cells, regions, n), c) + tiles_in(regions.take(n), c) == count(cells, c),
    decreases n,
{
    if n == 0 {
        assert(regions.take(0) =~= Seq::<RegionView>::empty());
        assert forall|k: int, j: int|
            0 <= k < regions.len() && 0 <= j < regions[k].positions.len() implies cells[#[trigger] regions[k].positions[j] as int]
            == regions[k].color by {
            lemma_move_removable(regions[k], cells);
        }
    } else {
        lemma_without(cells, regions, n - 1, c);
        let before = without(cells, regions, n - 1);
        let taken = regions[n - 1];
        lemma_move_removable(taken, cells);
        assert forall|j: int| 0 <= j < taken.positions.len() implies (#[trigger] taken.positions[j])
            < 256 && before[taken.positions[j] as int] == taken.color by {
            assert(before[regions[n - 1].positions[j] as int] == regions[n - 1].color);
            assert(in_area(taken.positions[j] as int));
        }
        lemma_cleared_count(before, taken.positions, taken.color, c);
        assert(regions.take(n).drop_last() =~= regions.take(n - 1));
        assert(regions.take(n).last() == taken);
        assert forall|k: int, j: int|
            n <= k < regions.len() && 0 <= j < regions[k].positions.len() implies without(
            cells,
            regions,
            n,
        )[#[trigger] regions[k].positions[j] as int] == regions[k].color by {
            let at = regions[k].positions[j] as int;
            assert(listed(regions[k].positions).contains(at));
            assert(!listed(regions[n - 1].positions).contains(at));
            assert(before[regions[k].positions[j] as int] == regions[k].color);
            lemma_move_removable(regions[k], cells);
        }
    }
}

/// For each colour the number of tiles in the moves of that colour.
pub fn count_colors(board: &Board, all_regions: &Vec<Region>) -> (count_color: [u8; COLOR_COUNT])
    requires
        board.wf(),
        are_moves_of(board@.cells, all_regions@),
    ensures
        forall|c: int| 0 <= c < 5 ==> #[trigger] count_color[c] == tiles_in(views(all_regions@), c),
{
    let ghost cells = board@.cells;
    let ghost moves = views(all_regions@);
    let mut count_color: [u8; COLOR_COUNT] = [0;COLOR_COUNT];
    let mut k: usize = 0;
    proof {
        assert(moves.take(0) =~= Seq::<RegionView>::empty());
    }
    while k < all_regions.len()
        invariant
            board.wf(),
            cells == board@.cells,
            moves == views(all_regions@),
            are_moves(cells, moves),
            k <= all_regions@.len(),
            forall|c: int|
                0 <= c < 5 ==> #[trigger] count_color[c] == tiles_in(moves.take(k as int), c),
        decreases all_regions@.len() - k,
    {
        let region = &all_regions[k];
        proof {
            board.lemma_valid();
            assert(moves[k as int] == region@);
            lemma_move_removable(region@, cells);
            lemma_without(cells, moves, k + 1, region@.color as int);
            assert(moves.take(k + 1).drop_last() =~= moves.take(k as int));
            assert(moves.take(k + 1).last() == region@);
            lemma_tiles_bound(board@.score, tiles(cells));
        }
        let at = region.color as usize;
        count_color[at] = count_color[at] + region.len() as u8;
        k += 1;
    }
    assert(moves.take(k as int) =~= moves);
    count_color
}

/// Whether the moves of colour `c` hold a tile.
pub open spec fn is_active(count_color: [u8; COLOR_COUNT], c: int) -> bool {
    0 <= c < 5 && count_color[c] > 0
}

/// The colour whose moves hold the tiles, where the moves of one colour
/// alone hold any.
pub fn only_color(count_color: &[u8; COLOR_COUNT]) -> (only: Option<i8>)
    ensures
        match only {
            Some(color) => is_active(*count_color, color as int) && forall|c: int|
                is_active(*count_color, c) ==> c == color,
            None => (forall|c: int| !is_active(*count_color, c)) || exists|a: int, b: int|
                a != b && is_active(*count_color, a) && is_active(*count_color, b),
        },
{
    let mut only: Option<i8> = None;
    let mut c: usize = 0;
    while c < COLOR_COUNT
        invariant
            c <= 5,
            match only {
                Some(color) => 0 <= color < c && is_active(*count_color, color as int) && forall|
                    e: int,
                |
                    0 <= e < c && is_active(*count_color, e) ==> e == color,
                None => forall|e: int| 0 <= e < c ==> !is_active(*count_color, e),
            },
        decreases 5 - c,
    {
        if count_color[c] > 0 {
            match only {
                Some(color) => {
                    assert(is_active(*count_color, color as int) && is_active(
                        *count_color,
                        c as int,
                    ) && color != c);
                    return None;
                },
                None => {
                    only = Some(c as i8);
                },
            }
        }
        c += 1;
    }
    only
}

/// Draws one of the regions of colour `color`; where there is none of that
/// colour, one of all regions.
pub fn pick_region(all_regions: &Vec<Region>, color: i8, rng: &mut StdRng) -> (picked: usize)
    requires
        all_regions@.len() > 0,
    ensures
        picked < all_regions@.len(),
        (exists|k: int| 0 <= k < all_regions@.len() && (#[trigger] all_regions@[k]).color == color)
            ==> all_regions@[picked as int].color == color,
{
    let mut all_region_of_color: Vec<usize> = Vec::new();
    let mut k: usize = 0;
    while k < all_regions.len()
        invariant
            k <= all_regions@.len(),
            forall|j: int|
                0 <= j < all_region_of_color@.len() ==> (#[trigger] all_region_of_color@[j])
                    < all_regions@.len() && all_regions@[all_region_of_color@[j] as int].color
                    == color,
            forall|a: int|
                0 <= a < k && (#[trigger] all_regions@[a]).color == color
                    ==> all_region_of_color@.len() > 0,
        decreases all_regions@.len() - k,
    {
        if all_regions[k].color == color {
            all_region_of_color.push(k);
        }
        k += 1;
    }
    if all_region_of_color.len() > 0 {
        let picked_region = random_below(rng, all_region_of_color.len());
        all_region_of_color[picked_region]
    } else {
        random_below(rng, all_regions.len())
    }
}

/// The moves of the field of `board`, from the store where it has them, and
/// else found by a scan and stored.
pub fn cached_regions(board: &Board, cache: &mut RegionCache) -> (all_regions: Vec<Region>)
    requires
        board.wf(),
        cache_sound(old(cache)),
    ensures
        are_moves_of(board@.cells, all_regions@),
        cache_sound(final(cache)),
{
    let key = board.get_cells();
    proof {
        board.lemma_valid();
    }
    match cache_get(cache, &key) {
        Some(found) => found,
        None => {
            let fresh = board.compute_all_regions();
            let kept = copy_regions(&fresh);
            cache_put(cache, key, kept);
            fresh
        },
    }
}

/// A copy of a list of regions.
fn copy_regions(regions: &Vec<Region>) -> (copy: Vec<Region>)
    ensures
        views(copy@) == views(regions@),
{
    let mut copy: Vec<Region> = Vec::new();
    let mut k: usize = 0;
    while k < regions.len()
        invariant
            k <= regions@.len(),
            copy@.len() == k,
            forall|j: int| 0 <= j < k ==> (#[trigger] copy@[j])@ == regions@[j]@,
        decreases regions@.len() - k,
    {
        copy.push(regions[k].clone());
        k += 1;
    }
    assert(views(copy@) =~= views(regions@));
    copy
}

/// Plays the game of `board` to its end by chance: for each move `policy`
/// names a colour, given the number of tiles that the moves of each colour
/// hold and 32 bits drawn from `rng`, and `rng` draws one of the moves of
/// that colour.  Where the moves have one colour only, it is that colour
/// and `policy` is not asked; where no move has the colour named, `rng`
/// draws among all moves.  All chance comes from `rng`.
pub fn rollout<P: Fn([u8; COLOR_COUNT], u32) -> i8>(
    board: &Board,
    cache: &mut RegionCache,
    policy: &P,
    rng: &mut StdRng,
) -> (end: Board)
    requires
        board.wf(),
        cache_sound(old(cache)),
        forall|counts: [u8; COLOR_COUNT], drawn: u32| call_requires(policy, (counts, drawn)),
    ensures
        end.wf(),
        is_finished_game(board@, end@),
        cache_sound(final(cache)),
{
    let mut copy = board.clone();
    let mut all_regions = cached_regions(&copy, cache);
    proof {
        lemma_reachable_self(board@);
    }
    while all_regions.len() > 0
        invariant
            copy.wf(),
            reachable(board@, copy@),
            are_moves_of(copy@.cells, all_regions@),
            cache_sound(cache),
            forall|counts: [u8; COLOR_COUNT], drawn: u32| call_requires(policy, (counts, drawn)),
        decreases tiles(copy@.cells),
    {
        let count_color = count_colors(&copy, &all_regions);
        let color_to_pick = match only_color(&count_color) {
            Some(color) => color,
            None => policy(count_color, random_word(rng)),
        };
        let picked = pick_region(&all_regions, color_to_pick, rng);
        let region = &all_regions[picked];
        proof {
            copy.lemma_valid();
            assert(views(all_regions@)[picked as int] == region@);
            lemma_move_removable(region@, copy@.cells);
            lemma_reachable_step(board@, copy@, region@);
        }
        copy.play_region(region);
        all_regions = cached_regions(&copy, cache);
    }
    proof {
        copy.lemma_valid();
        lemma_moves_or_terminal(copy@.cells, views(all_regions@));
    }
    copy
}

/// Plays `initial_state` to its end: where the field has one move, that
/// move; where it has several, the one after which `rollouts` games played
/// on by chance earn most in sum, the first such.  Returns the moves as
/// text, and the score, of the game so played or of the best game that
/// chance played on the way, whichever scores more.
pub fn _solve<P: Fn([u8; COLOR_COUNT], u32) -> i8>(
    initial_state: &Board,
    rollouts: usize,
    policy: &P,
    rng: &mut StdRng,
) -> (answer: (String, u32))
    requires
        initial_state.wf(),
        forall|counts: [u8; COLOR_COUNT], drawn: u32| call_requires(policy, (counts, drawn)),
    ensures
        exists|best: BoardView|
            #![auto]
            is_finished_game(initial_state@, best) && answer.0@ == actions_text(best.actions)
                && answer.1 == best.score,
{
    let ghost start = initial_state@;
    let mut best_probe: Option<Board> = None;
    let mut board = initial_state.clone();
    let mut cache_region = empty_cache(CACHE_CAPACITY);
    let mut all_regions = board.compute_all_regions();
    proof {
        lemma_reachable_self(start);
    }

    while all_regions.len() > 0
        invariant
            start == initial_state@,
            board.wf(),
            reachable(start, board@),
            are_moves_of(board@.cells, all_regions@),
            cache_sound(&cache_region),
            is_best_so_far(best_probe, start),
            forall|counts: [u8; COLOR_COUNT], drawn: u32| call_requires(policy, (counts, drawn)),
        decreases tiles(board@.cells),
    {
        if all_regions.len() == 1 {
            let region = &all_regions[0];
            proof {
                board.lemma_valid();
                assert(views(all_regions@)[0] == region@);
                lemma_move_removable(region@, board@.cells);
                lemma_reachable_step(start, board@, region@);
            }
            board.play_region(region);
        } else {
            let mut highest_average_score: u128 = 0;
            let mut local_best_board: Option<Board> = None;
            let mut c: usize = 0;
            while c < all_regions.len()
                invariant
                    start == initial_state@,
                    board.wf(),
                    reachable(start, board@),
                    are_moves_of(board@.cells, all_regions@),
                    cache_sound(&cache_region),
                    is_best_so_far(best_probe, start),
                    forall|counts: [u8; COLOR_COUNT], drawn: u32| call_requires(policy, (counts, drawn)),
                    c <= all_regions@.len(),
                    c > 0 ==> local_best_board is Some,
                    local_best_board matches Some(next) ==> next.wf() && reachable(start, next@)
                        && tiles(next@.cells) < tiles(board@.cells),
                decreases all_regions@.len() - c,
            {
                let region = &all_regions[c];
                let mut copy = board.clone();
                proof {
                    board.lemma_valid();
                    assert(views(all_regions@)[c as int] == region@);
                    lemma_move_removable(region@, board@.cells);
                    lemma_reachable_step(start, board@, region@);
                }
                copy.play_region(region);

                let mut average_score: u128 = 0;
                let mut round: usize = 0;
                while round < rollouts
                    invariant
                        start == initial_state@,
                        copy.wf(),
                        reachable(start, copy@),
                        cache_sound(&cache_region),
                        is_best_so_far(best_probe, start),
                        forall|counts: [u8; COLOR_COUNT], drawn: u32| call_requires(policy, (counts, drawn)),
                        round <= rollouts,
                        average_score <= round * 0xffff_ffff,
                    decreases rollouts - round,
                {
                    let probe = rollout(&copy, &mut cache_region, policy, rng);
                    proof {
                        lemma_reachable_trans(start, copy@, probe@);
                        assert((round + 1) * 0xffff_ffff == round * 0xffff_ffff + 0xffff_ffff)
                            by (nonlinear_arith);
                        assert(round * 0xffff_ffff <= 0xffff_ffff_ffff_ffff * 0xffff_ffff)
                            by (nonlinear_arith)
                            requires
                                round <= 0xffff_ffff_ffff_ffff,
                        ;
                    }
                    average_score = average_score + probe.get_score() as u128;
                    best_probe = keep_best(best_probe, probe, Ghost(start));
                    round += 1;
                }

                if local_best_board.is_none() || average_score > highest_average_score {
                    highest_average_score = average_score;
                    local_best_board = Some(copy);
                }
                c += 1;
            }
            board = local_best_board.unwrap();
        }
        all_regions = board.compute_all_regions();
    }

    proof {
        board.lemma_valid();
        lemma_moves_or_terminal(board@.cells, views(all_regions@));
    }
    match best_probe {
        Some(probe) => {
            if probe.get_score() > board.get_score() {
                board = probe;
            }
        },
        None => {},
    }
    let actions = board.get_actions_str();
    let score = board.get_score();
    proof {
        let best = board@;
        assert(is_finished_game(start, best) && actions@ == actions_text(best.actions) && score
            == best.score);
    }
    (actions, score)
}

} // verus!
