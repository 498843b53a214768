//! The state of one game and the moves that change it.

use std::collections::hash_map::DefaultHasher;
use std::hash::Hasher;
use vstd::prelude::*;
use vstd::std_specs::cmp::PartialEqSpecImpl;
use vstd::std_specs::hash::DefaultHasherAdditionalSpecFns;
use crate::flood::{
    fill_state, lemma_fill_complete, lemma_fill_grows, lemma_walk_goes_on, lemma_walk_grows, seen,
    walked,
};
use crate::grid::{
    adjacent, after_removal, cell_index, CLEAR_BONUS, cleared, closed_up, COLOR_COUNT, column,
    column_empty, component, connected, count, direction, earnable, EMPTY, fallen, GAME_SIZE,
    has_partner, in_area, is_grid, is_settled, lemma_component_has_partner, lemma_connected_refl,
    lemma_connected_same_value, lemma_count_move, lemma_count_update, lemma_count_zero,
    lemma_distinct_bounded, lemma_index_in_area, listed, max_column, min_column, min_row, occupied,
    region_points, ROW_MASK, scan_rank, SCORE_LIMIT, step, tiles, tiles_of, TOTAL_CELLS,
};
use crate::laws::lemma_removal_settles;
use crate::region::{are_moves_of, Region, RegionView};
use crate::scan::{
    lemma_marks_miss, lemma_scan_done, lemma_scan_passes, lemma_scan_skips, lemma_scan_takes,
    scan_state,
};
use crate::settle::{
    closing, column_moved, lemma_bounds_of_cells, lemma_closing_done, lemma_closing_keep,
    lemma_closing_order, lemma_closing_skip, lemma_closing_start, lemma_closing_target,
    lemma_fallen_next, lemma_fallen_none, lemma_tiles_of_next, same_counts,
};
use crate::text::{actions_text, cell_string, cell_text, join_strings, joined, texts_from};

verus! {

/// A game in progress: the field, the points earned so far, and the moves
/// that led here.
///
/// Besides these the board keeps, for each colour, the number of tiles of
/// that colour on the field.
pub struct Board {
    board: [i8; TOTAL_CELLS],
    score: u32,
    color_counts: [u8; COLOR_COUNT],
    actions: Vec<usize>,
}

/// What a [`Board`] holds, as mathematical values.
pub struct BoardView {
    /// The 256 stored cells; see [`crate::grid`] for their layout.
    pub cells: Seq<i8>,
    /// Points earned so far.
    pub score: nat,
    /// The first cell of each region removed so far, oldest first.
    pub actions: Seq<usize>,
}

impl BoardView {
    /// The cells form a field, the moves name playable cells, and the score
    /// leaves room for all that the remaining tiles can still earn.
    pub open spec fn valid(self) -> bool {
        &&& is_grid(self.cells)
        &&& self.score + earnable(tiles(self.cells)) <= SCORE_LIMIT
        &&& forall|k: int| 0 <= k < self.actions.len() ==> in_area(#[trigger] self.actions[k] as int)
    }

    /// The game after the move that removes `region`: the field without its
    /// tiles, the points for its size and, where no tile is left, the bonus
    /// added, and its first cell appended to the moves.
    pub open spec fn after_play(self, region: RegionView) -> BoardView {
        let cells = after_removal(self.cells, region.positions);
        let bonus: nat = if tiles(cells) == 0 {
            1000
        } else {
            0
        };
        BoardView {
            cells,
            score: (self.score + region_points(region.positions.len() as int) + bonus) as nat,
            actions: self.actions.push(region.first_position),
        }
    }
}

/// The field that a 15×15 table of rows describes: a negative entry is an
/// empty cell.
pub open spec fn field_of(rows: [[i8; 15]; 15]) -> Seq<i8> {
    Seq::new(
        256,
        |i: int|
            if in_area(i) && rows[i / 16][i % 16] >= 0 {
                rows[i / 16][i % 16]
            } else {
                EMPTY
            },
    )
}

impl View for Board {
    type V = BoardView;

    closed spec fn view(&self) -> BoardView {
        BoardView { cells: self.board@, score: self.score as nat, actions: self.actions@ }
    }
}

impl Board {
    /// The invariant of a board: its view is valid and the stored tile
    /// counts agree with the field.
    pub closed spec fn wf(&self) -> bool {
        &&& self@.valid()
        &&& forall|c: int| 0 <= c < 5 ==> #[trigger] self.color_counts[c] == count(self.board@, c)
    }

    /// What the invariant says of the view.
    pub proof fn lemma_valid(&self)
        requires
            self.wf(),
        ensures
            self@.valid(),
    {
    }

    /// A board at the start of a game on the field that `initial_board`
    /// describes, row by row from the base row up.
    pub fn new(initial_board: [[i8; GAME_SIZE]; GAME_SIZE]) -> (b: Board)
        requires
            forall|y: int, x: int|
                0 <= y < 15 && 0 <= x < 15 ==> #[trigger] initial_board[y][x] <= 4,
        ensures
            b.wf(),
            b@.cells == field_of(initial_board),
            b@.score == 0,
            b@.actions == Seq::<usize>::empty(),
    {
        let mut board: [i8; TOTAL_CELLS] = [EMPTY;TOTAL_CELLS];
        let mut color_counts: [u8; COLOR_COUNT] = [0;COLOR_COUNT];
        let ghost target = field_of(initial_board);

        proof {
            lemma_count_zero(board@, 0);
            lemma_count_zero(board@, 1);
            lemma_count_zero(board@, 2);
            lemma_count_zero(board@, 3);
            lemma_count_zero(board@, 4);
        }
        let mut y: usize = 0;
        while y < GAME_SIZE
            invariant
                0 <= y <= 15,
                target == field_of(initial_board),
                forall|r: int, c: int|
                    0 <= r < 15 && 0 <= c < 15 ==> #[trigger] initial_board[r][c] <= 4,
                forall|i: int| 0 <= i < 16 * y ==> #[trigger] board@[i] == target[i],
                forall|i: int| 16 * y <= i < 256 ==> #[trigger] board@[i] == EMPTY,
                forall|c: int| 0 <= c < 5 ==> #[trigger] color_counts[c] == count(board@, c),
                tiles(board@) <= 15 * y,
            decreases 15 - y,
        {
            let mut x: usize = 0;
            while x < GAME_SIZE
                invariant
                    0 <= y < 15,
                    0 <= x <= 15,
                    target == field_of(initial_board),
                    forall|r: int, c: int|
                        0 <= r < 15 && 0 <= c < 15 ==> #[trigger] initial_board[r][c] <= 4,
                    forall|i: int| 0 <= i < 16 * y + x ==> #[trigger] board@[i] == target[i],
                    forall|i: int| 16 * y + x <= i < 256 ==> #[trigger] board@[i] == EMPTY,
                    forall|c: int| 0 <= c < 5 ==> #[trigger] color_counts[c] == count(board@, c),
                    tiles(board@) <= 15 * y + x,
                decreases 15 - x,
            {
                let cell = initial_board[y][x];
                let index = Board::get_index(x, y);
                assert(in_area(index as int) && index / 16 == y && index % 16 == x);
                if cell >= 0 {
                    assert(initial_board[y as int][x as int] <= 4);
                    proof {
                        lemma_count_update(board@, index as int, cell, 0);
                        lemma_count_update(board@, index as int, cell, 1);
                        lemma_count_update(board@, index as int, cell, 2);
                        lemma_count_update(board@, index as int, cell, 3);
                        lemma_count_update(board@, index as int, cell, 4);
                    }
                    board[index] = cell;
                    color_counts[cell as usize] += 1;
                }
                x += 1;
            }
            assert(board@[16 * y + 15] == target[16 * y + 15]);
            y += 1;
        }
        assert(board@ =~= target);
        assert(tiles(board@) * tiles(board@) <= 225 * 225) by (nonlinear_arith)
            requires
                tiles(board@) <= 225,
        ;
        Board { board, score: 0, color_counts, actions: Vec::new() }
    }

    /// Points earned so far.
    pub fn get_score(&self) -> (score: u32)
        ensures
            score == self@.score,
    {
        self.score
    }

    /// The stored cells.
    pub fn get_cells(&self) -> (cells: [i8; TOTAL_CELLS])
        ensures
            cells@ == self@.cells,
    {
        self.board
    }

    /// Number of tiles of each colour on the field.
    pub fn get_color_counts(&self) -> (counts: [u8; COLOR_COUNT])
        requires
            self.wf(),
        ensures
            forall|c: int| 0 <= c < 5 ==> #[trigger] counts[c] == count(self@.cells, c),
    {
        self.color_counts
    }

    /// The value of the stored cell `idx`, playable or not.
    pub fn get_color_of_index(&self, idx: &usize) -> (color: &i8)
        requires
            *idx < 256,
        ensures
            *color == self@.cells[*idx as int],
    {
        &self.board[*idx]
    }

    /// Index of the cell in column `x` of row `y`.
    pub fn get_index(x: usize, y: usize) -> (index: usize)
        requires
            x < 16,
            y < 16,
        ensures
            index == cell_index(x as int, y as int),
            index < 256,
    {
        assert((y << 4) | x == 16 * y + x) by (bit_vector)
            requires
                x < 16,
                y < 16,
        ;
        (y << 4) | x
    }

    /// Column and row of the cell with the given index.
    pub fn to_coordinates(index: &usize) -> (at: (usize, usize))
        ensures
            at.0 == *index % 16,
            at.1 == *index / 16,
    {
        let i = *index;
        assert(i >> 4 == i / 16) by (bit_vector);
        assert(i & 15 == i % 16) by (bit_vector);
        let y = i >> 4;
        let x = i & ROW_MASK;
        (x, y)
    }

    /// The value of the cell in column `x` of row `y`: a colour, or
    /// [`EMPTY`] where there is no tile or no playable cell.
    pub fn get(&self, x: usize, y: usize) -> (color: i8)
        ensures
            color == if x < 15 && y < 15 {
                self@.cells[cell_index(x as int, y as int)]
            } else {
                EMPTY
            },
    {
        if x < GAME_SIZE && y < GAME_SIZE {
            self.board[Board::get_index(x, y)]
        } else {
            EMPTY
        }
    }
}

/// The neighbour of the playable cell `index` in direction `d`, where it is
/// playable.
fn neighbor(index: usize, d: usize) -> (n: Option<usize>)
    requires
        in_area(index as int),
        d < 4,
    ensures
        match n {
            Some(j) => j == index + step(d as int) && adjacent(index as int, j as int),
            None => !in_area(index + step(d as int)),
        },
{
    let (x, y) = Board::to_coordinates(&index);
    if d == 0 {
        if x + 1 < GAME_SIZE {
            Some(index + 1)
        } else {
            None
        }
    } else if d == 1 {
        if x > 0 {
            Some(index - 1)
        } else {
            None
        }
    } else if d == 2 {
        if y + 1 < GAME_SIZE {
            Some(index + 16)
        } else {
            None
        }
    } else {
        if y > 0 {
            Some(index - 16)
        } else {
            None
        }
    }
}

impl Board {
    /// Looks at the neighbour of `from` in direction `d`: where it is
    /// playable, holds `color` and is not marked yet, marks it and appends it
    /// to `positions`.
    fn visit_neighbor(
        &self,
        from: usize,
        d: usize,
        color: i8,
        visited: &mut [bool; TOTAL_CELLS],
        positions: &mut Vec<usize>,
    )
        requires
            in_area(from as int),
            d < 4,
        ensures
            ({
                let j = from + step(d as int);
                if in_area(j) && self@.cells[j] == color && !old(visited)[j] {
                    &&& final(visited)@ == old(visited)@.update(j, true)
                    &&& final(positions)@ == old(positions)@.push(j as usize)
                } else {
                    &&& final(visited)@ == old(visited)@
                    &&& final(positions)@ == old(positions)@
                }
            }),
    {
        match neighbor(from, d) {
            Some(next) => {
                if self.board[next] == color && !visited[next] {
                    visited[next] = true;
                    positions.push(next);
                }
            },
            None => {},
        }
    }

    /// Collects the component of `start_index`, breadth first, and marks its
    /// cells in `visited`.  None of them may be marked already.
    fn inner_compute_region(&self, start_index: usize, visited: &mut [bool; TOTAL_CELLS]) -> (region:
        Region)
        requires
            self.wf(),
            in_area(start_index as int),
            forall|i: int|
                0 <= i < 256 && old(visited)[i] ==> !connected(self@.cells, start_index as int, i),
        ensures
            region@.is_component_of(self@.cells),
            region@.first_position == start_index,
            forall|i: int|
                0 <= i < 256 ==> (#[trigger] final(visited)[i] <==> (old(visited)[i] || component(
                    self@.cells,
                    start_index as int,
                ).contains(i))),
    {
        let ghost cells = self@.cells;
        let ghost before = visited@;
        let ghost start = start_index as int;
        let color = self.board[start_index];
        let mut positions: Vec<usize> = Vec::new();

        proof {
            lemma_connected_refl(cells, start);
        }
        visited[start_index] = true;
        positions.push(start_index);
        assert(positions@[0] == start_index);

        let mut head: usize = 0;
        while head < positions.len()
            invariant
                cells == self@.cells,
                start == start_index as int,
                in_area(start),
                color == cells[start],
                before.len() == 256,
                head <= positions@.len(),
                fill_state(cells, start, before, visited@, positions@),
                walked(positions@, head as int, 0),
                forall|k: int, e: int|
                    0 <= k < head && 0 <= e < 4 ==> #[trigger] seen(
                        cells,
                        visited@,
                        positions@[k] + step(e),
                        color,
                    ),
            decreases 256 - head,
        {
            proof {
                lemma_distinct_bounded(positions@, 256);
            }
            let index = positions[head];
            let mut d: usize = 0;
            while d < 4
                invariant
                    cells == self@.cells,
                    start == start_index as int,
                    in_area(start),
                    color == cells[start],
                    before.len() == 256,
                    head < positions@.len(),
                    index == positions@[head as int],
                    d <= 4,
                    fill_state(cells, start, before, visited@, positions@),
                    walked(positions@, head as int, d as int),
                    forall|k: int, e: int|
                        0 <= k < head && 0 <= e < 4 ==> #[trigger] seen(
                            cells,
                            visited@,
                            positions@[k] + step(e),
                            color,
                        ),
                    forall|e: int|
                        0 <= e < d ==> #[trigger] seen(cells, visited@, index + step(e), color),
                decreases 4 - d,
            {
                let ghost flags = visited@;
                let ghost list = positions@;
                self.visit_neighbor(index, d, color, visited, &mut positions);
                proof {
                    let j = index + step(d as int);
                    if in_area(j) && cells[j] == color && !flags[j] {
                        lemma_fill_grows(cells, start, before, flags, list, index as int, j);
                        assert forall|p: int| 0 <= p < head implies !adjacent(
                            #[trigger] list[p] as int,
                            j,
                        ) by {
                            if adjacent(list[p] as int, j) {
                                let e = direction(list[p] as int, j);
                                assert(seen(cells, flags, list[p] + step(e), color));
                            }
                        }
                        lemma_walk_grows(list, head as int, d as int, j);
                    } else {
                        lemma_walk_goes_on(list, head as int, d as int);
                    }
                    assert(seen(cells, visited@, index + step(d as int), color));
                    assert forall|k: int, e: int| 0 <= k < head && 0 <= e < 4 implies #[trigger] seen(
                        cells,
                        visited@,
                        positions@[k] + step(e),
                        color,
                    ) by {
                        assert(seen(cells, flags, list[k] + step(e), color));
                    }
                    assert forall|e: int| 0 <= e < d implies #[trigger] seen(
                        cells,
                        visited@,
                        index + step(e),
                        color,
                    ) by {
                        assert(seen(cells, flags, index + step(e), color));
                    }
                }
                d += 1;
            }
            proof {
                lemma_walk_goes_on(positions@, head as int, 4);
            }
            head += 1;
        }
        proof {
            lemma_walk_goes_on(positions@, head as int, 0);
            lemma_fill_complete(cells, start, before, visited@, positions@);
        }
        Region { positions, color, first_position: start_index }
    }

    /// The moves that the field offers: the regions of two tiles or more,
    /// found by a scan through the columns from the left, through each from
    /// the base row up.
    pub fn compute_all_regions(&self) -> (all_regions: Vec<Region>)
        requires
            self.wf(),
        ensures
            are_moves_of(self@.cells, all_regions@),
    {
        let ghost cells = self@.cells;
        let mut visited: [bool; TOTAL_CELLS] = [false;TOTAL_CELLS];
        let mut all_regions: Vec<Region> = Vec::new();

        let mut x: usize = 0;
        while x < GAME_SIZE
            invariant
                self.wf(),
                cells == self@.cells,
                x <= 15,
                scan_state(cells, visited@, all_regions@, 15 * x),
            decreases 15 - x,
        {
            let mut y: usize = 0;
            while y < GAME_SIZE
                invariant
                    self.wf(),
                    cells == self@.cells,
                    x < 15,
                    y <= 15,
                    scan_state(cells, visited@, all_regions@, 15 * x + y),
                decreases 15 - y,
            {
                let index = Board::get_index(x, y);
                assert(in_area(index as int) && scan_rank(index as int) == 15 * x + y);
                if !visited[index] && self.board[index] >= 0 {
                    let ghost flags = visited@;
                    proof {
                        lemma_marks_miss(cells, flags, index as int);
                    }
                    let region = self.inner_compute_region(index, &mut visited);
                    if region.len() >= 2 {
                        proof {
                            lemma_scan_takes(cells, flags, visited@, all_regions@, region, index as int);
                        }
                        all_regions.push(region);
                    } else {
                        proof {
                            lemma_scan_skips(cells, flags, visited@, all_regions@, region, index as int);
                        }
                    }
                } else {
                    proof {
                        lemma_scan_passes(cells, visited@, all_regions@, index as int);
                    }
                }
                y += 1;
            }
            x += 1;
        }
        proof {
            lemma_scan_done(cells, visited@, all_regions@);
        }
        all_regions
    }

    /// The region of the playable cell `start_index`: the maximal
    /// 4-connected set of cells that hold the same value.
    pub fn compute_region_index(&self, start_index: usize) -> (region: Region)
        requires
            self.wf(),
            in_area(start_index as int),
        ensures
            region@.is_component_of(self@.cells),
            region@.first_position == start_index,
    {
        let mut visited: [bool; TOTAL_CELLS] = [false;TOTAL_CELLS];
        self.inner_compute_region(start_index, &mut visited)
    }

    /// The region of the cell in column `x` of row `y`.
    pub fn compute_region(&self, x: usize, y: usize) -> (region: Region)
        requires
            self.wf(),
            x < 15,
            y < 15,
        ensures
            region@.is_component_of(self@.cells),
            region@.first_position == cell_index(x as int, y as int),
    {
        let start_index = Board::get_index(x, y);
        self.compute_region_index(start_index)
    }
}

impl Board {
    /// Whether no tile is left.
    fn is_empty(&self) -> (empty: bool)
        requires
            forall|c: int| 0 <= c < 5 ==> #[trigger] self.color_counts[c] == count(self.board@, c),
        ensures
            empty == (tiles(self.board@) == 0),
    {
        self.color_counts[0] == 0 && self.color_counts[1] == 0 && self.color_counts[2] == 0
            && self.color_counts[3] == 0 && self.color_counts[4] == 0
    }

    /// Leftmost column, lowest row and rightmost column of the cells of a
    /// region.
    fn get_region_boundaries(&self, region_removed: &Region) -> (bounds: (usize, usize, usize))
        ensures
            bounds.0 == min_column(region_removed@.positions),
            bounds.1 == min_row(region_removed@.positions),
            bounds.2 == max_column(region_removed@.positions),
            bounds.0 <= 15,
            bounds.1 <= 15,
            bounds.2 <= 15,
    {
        let mut start_x: usize = GAME_SIZE;
        let mut end_x: usize = 0;
        let mut start_y: usize = GAME_SIZE;
        let ghost all = region_removed@.positions;

        let mut k: usize = 0;
        while k < region_removed.positions.len()
            invariant
                all == region_removed@.positions,
                k <= all.len(),
                start_x == min_column(all.take(k as int)),
                start_y == min_row(all.take(k as int)),
                end_x == max_column(all.take(k as int)),
                start_x <= 15,
                start_y <= 15,
                end_x <= 15,
            decreases all.len() - k,
        {
            let index = region_removed.positions[k];
            let (x, y) = Board::to_coordinates(&index);
            assert(all.take(k + 1).drop_last() =~= all.take(k as int));
            if y < start_y {
                start_y = y;
            }
            if x < start_x {
                start_x = x;
            }
            if x > end_x {
                end_x = x;
            }
            k += 1;
        }
        assert(all.take(k as int) =~= all);
        (start_x, start_y, end_x)
    }

    /// Takes the tiles of a region off the field.
    fn clear_region(&mut self, region: &Region)
        requires
            is_grid(old(self).board@),
            region@.removable_from(old(self).board@),
        ensures
            final(self).board@ == cleared(old(self).board@, region@.positions),
            is_grid(final(self).board@),
            forall|c: int|
                0 <= c < 5 ==> #[trigger] count(final(self).board@, c) == count(old(self).board@, c)
                    - if c == region@.color {
                    region@.positions.len() as int
                } else {
                    0
                },
            final(self).score == old(self).score,
            final(self).color_counts == old(self).color_counts,
            final(self).actions == old(self).actions,
    {
        let ghost before = self.board@;
        let ghost all = region@.positions;
        let mut k: usize = 0;
        while k < region.positions.len()
            invariant
                before == old(self).board@,
                is_grid(before),
                all == region@.positions,
                region@.removable_from(before),
                k <= all.len(),
                self.board@ == cleared(before, all.take(k as int)),
                is_grid(self.board@),
                forall|c: int|
                    0 <= c < 5 ==> #[trigger] count(self.board@, c) == count(before, c) - if c
                        == region@.color {
                        k as int
                    } else {
                        0
                    },
                self.score == old(self).score,
                self.color_counts == old(self).color_counts,
                self.actions == old(self).actions,
            decreases all.len() - k,
        {
            let index = region.positions[k];
            let ghost now = self.board@;
            proof {
                assert(in_area(all[k as int] as int));
                assert(before[all[k as int] as int] == region@.color);
                if listed(all.take(k as int)).contains(index as int) {
                    let a = choose|a: int|
                        0 <= a < all.take(k as int).len() && #[trigger] all.take(k as int)[a]
                            == index as int;
                    assert(all[a] == all[k as int]);
                }
                assert(now[index as int] == region@.color);
                lemma_count_update(now, index as int, EMPTY, 0);
                lemma_count_update(now, index as int, EMPTY, 1);
                lemma_count_update(now, index as int, EMPTY, 2);
                lemma_count_update(now, index as int, EMPTY, 3);
                lemma_count_update(now, index as int, EMPTY, 4);
            }
            self.board[index] = EMPTY;
            proof {
                let done = all.take(k as int);
                let more = all.take(k + 1);
                assert forall|i: int| 0 <= i < 256 implies #[trigger] self.board@[i] == cleared(
                    before,
                    more,
                )[i] by {
                    if listed(done).contains(i) {
                        let a = choose|a: int| 0 <= a < done.len() && #[trigger] done[a] == i;
                        assert(more[a] == i);
                    }
                    if i == index {
                        assert(more[k as int] == i);
                    }
                    if listed(more).contains(i) && i != index {
                        let a = choose|a: int| 0 <= a < more.len() && #[trigger] more[a] == i;
                        assert(done[a] == i);
                    }
                }
                assert(self.board@ =~= cleared(before, more));
            }
            k += 1;
        }
        assert(all.take(k as int) =~= all);
    }

    /// Lets the tiles of column `x` fall as far as row `start_y`.
    fn settle_column(&mut self, x: usize, start_y: usize)
        requires
            is_grid(old(self).board@),
            x < 15,
            start_y <= 15,
        ensures
            final(self).board@ == fallen(old(self).board@, x as int, start_y as int, x as int),
            is_grid(final(self).board@),
            same_counts(final(self).board@, old(self).board@),
            final(self).score == old(self).score,
            final(self).color_counts == old(self).color_counts,
            final(self).actions == old(self).actions,
    {
        let ghost before = self.board@;
        let ghost src = column(before, x as int).skip(start_y as int);
        let mut cursor: usize = start_y;
        let mut y: usize = start_y;
        proof {
            assert(src.take(0) =~= Seq::<i8>::empty());
        }
        while y < GAME_SIZE
            invariant
                before == old(self).board@,
                is_grid(before),
                is_grid(self.board@),
                x < 15,
                src == column(before, x as int).skip(start_y as int),
                start_y <= cursor <= y <= 15,
                cursor - start_y == tiles_of(src.take(y - start_y)).len(),
                forall|i: int|
                    0 <= i < 256 ==> #[trigger] self.board@[i] == if in_area(i) && i % 16 == x
                        && start_y <= i / 16 < y {
                        if i / 16 < cursor {
                            tiles_of(src.take(y - start_y))[i / 16 - start_y]
                        } else {
                            EMPTY
                        }
                    } else {
                        before[i]
                    },
                same_counts(self.board@, before),
                self.score == old(self).score,
                self.color_counts == old(self).color_counts,
                self.actions == old(self).actions,
            decreases 15 - y,
        {
            let index = Board::get_index(x, y);
            let tile = self.board[index];
            let ghost now = self.board@;
            proof {
                lemma_index_in_area(x as int, y as int);
                lemma_tiles_of_next(src, y - start_y);
                assert(src[y - start_y] == before[16 * y + x]);
                assert(now[index as int] == before[index as int]);
            }
            if tile >= 0 {
                if cursor < y {
                    let target = Board::get_index(x, cursor);
                    proof {
                        lemma_index_in_area(x as int, cursor as int);
                        assert(now[target as int] == EMPTY);
                        lemma_count_move(now, index as int, target as int, 0);
                        lemma_count_move(now, index as int, target as int, 1);
                        lemma_count_move(now, index as int, target as int, 2);
                        lemma_count_move(now, index as int, target as int, 3);
                        lemma_count_move(now, index as int, target as int, 4);
                    }
                    self.board[target] = tile;
                    self.board[index] = EMPTY;
                }
                cursor += 1;
            }
            y += 1;
        }
        proof {
            assert(src.take(15 - start_y) =~= src);
            assert(self.board@ =~= fallen(before, x as int, start_y as int, x as int));
        }
    }

    /// Lets the tiles in the columns `start_x..=end_x` fall, each in its
    /// column, as far as row `start_y`.
    fn apply_gravity(&mut self, start_x: usize, start_y: usize, end_x: usize)
        requires
            is_grid(old(self).board@),
            start_y <= 15,
            end_x < 15,
        ensures
            final(self).board@ == fallen(
                old(self).board@,
                start_x as int,
                start_y as int,
                end_x as int,
            ),
            is_grid(final(self).board@),
            same_counts(final(self).board@, old(self).board@),
            final(self).score == old(self).score,
            final(self).color_counts == old(self).color_counts,
            final(self).actions == old(self).actions,
    {
        let ghost before = self.board@;
        if start_x > end_x {
            proof {
                lemma_fallen_none(before, start_x as int, start_y as int, end_x as int);
            }
            return ;
        }
        proof {
            lemma_fallen_none(before, start_x as int, start_y as int, start_x - 1);
        }
        let mut x: usize = start_x;
        while x <= end_x
            invariant
                before == old(self).board@,
                is_grid(before),
                is_grid(self.board@),
                start_x <= x <= end_x + 1,
                end_x < 15,
                start_y <= 15,
                self.board@ == fallen(before, start_x as int, start_y as int, x - 1),
                same_counts(self.board@, before),
                self.score == old(self).score,
                self.color_counts == old(self).color_counts,
                self.actions == old(self).actions,
            decreases end_x + 1 - x,
        {
            proof {
                lemma_fallen_next(before, start_x as int, start_y as int, x as int);
            }
            self.settle_column(x, start_y);
            x += 1;
        }
    }

    /// Whether column `x` holds no tile.
    fn column_is_empty(&self, x: usize) -> (empty: bool)
        requires
            x < 15,
        ensures
            empty == column_empty(self.board@, x as int),
    {
        let mut y: usize = 0;
        while y < GAME_SIZE
            invariant
                x < 15,
                y <= 15,
                forall|r: int| 0 <= r < y ==> #[trigger] self.board@[16 * r + x] < 0,
            decreases 15 - y,
        {
            if self.board[Board::get_index(x, y)] >= 0 {
                assert(!(self.board@[16 * y + x] < 0));
                return false;
            }
            y += 1;
        }
        true
    }

    /// Moves the tiles of column `from` to the empty column `to`.
    fn move_column(&mut self, from: usize, to: usize)
        requires
            is_grid(old(self).board@),
            to < from < 15,
            column_empty(old(self).board@, to as int),
        ensures
            final(self).board@ == column_moved(old(self).board@, from as int, to as int),
            is_grid(final(self).board@),
            same_counts(final(self).board@, old(self).board@),
            final(self).score == old(self).score,
            final(self).color_counts == old(self).color_counts,
            final(self).actions == old(self).actions,
    {
        let ghost before = self.board@;
        let mut y: usize = 0;
        while y < GAME_SIZE
            invariant
                before == old(self).board@,
                is_grid(before),
                is_grid(self.board@),
                to < from < 15,
                y <= 15,
                column_empty(before, to as int),
                forall|i: int|
                    0 <= i < 256 ==> #[trigger] self.board@[i] == if i / 16 < y {
                        column_moved(before, from as int, to as int)[i]
                    } else {
                        before[i]
                    },
                same_counts(self.board@, before),
                self.score == old(self).score,
                self.color_counts == old(self).color_counts,
                self.actions == old(self).actions,
            decreases 15 - y,
        {
            let target = Board::get_index(to, y);
            let source = Board::get_index(from, y);
            let ghost now = self.board@;
            proof {
                lemma_index_in_area(to as int, y as int);
                lemma_index_in_area(from as int, y as int);
                assert(before[16 * y + to] < 0);
                assert(now[target as int] == EMPTY);
                lemma_count_move(now, source as int, target as int, 0);
                lemma_count_move(now, source as int, target as int, 1);
                lemma_count_move(now, source as int, target as int, 2);
                lemma_count_move(now, source as int, target as int, 3);
                lemma_count_move(now, source as int, target as int, 4);
            }
            let tile = self.board[source];
            self.board[target] = tile;
            self.board[source] = EMPTY;
            y += 1;
        }
        assert(self.board@ =~= column_moved(before, from as int, to as int));
    }

    /// Closes up the columns from `start_x` on: those that hold a tile move
    /// left, in their order, past those that hold none.
    fn remove_empty_columns(&mut self, start_x: usize)
        requires
            is_grid(old(self).board@),
            start_x <= 15,
        ensures
            final(self).board@ == closed_up(old(self).board@, start_x as int),
            is_grid(final(self).board@),
            same_counts(final(self).board@, old(self).board@),
            final(self).score == old(self).score,
            final(self).color_counts == old(self).color_counts,
            final(self).actions == old(self).actions,
    {
        let ghost before = self.board@;
        let mut cursor_1_x: usize = start_x;
        let mut cursor_2_x: usize = start_x;
        proof {
            lemma_closing_start(before, start_x as int);
        }
        while cursor_2_x < GAME_SIZE
            invariant
                before == old(self).board@,
                is_grid(before),
                is_grid(self.board@),
                start_x <= cursor_1_x <= cursor_2_x <= 15,
                closing(before, self.board@, start_x as int, cursor_1_x as int, cursor_2_x as int),
                same_counts(self.board@, before),
                self.score == old(self).score,
                self.color_counts == old(self).color_counts,
                self.actions == old(self).actions,
            decreases 15 - cursor_2_x,
        {
            let ghost now = self.board@;
            proof {
                lemma_closing_order(
                    before,
                    now,
                    start_x as int,
                    cursor_1_x as int,
                    cursor_2_x as int,
                );
            }
            if !self.column_is_empty(cursor_2_x) {
                if cursor_2_x > cursor_1_x {
                    proof {
                        lemma_closing_target(
                            before,
                            now,
                            start_x as int,
                            cursor_1_x as int,
                            cursor_2_x as int,
                        );
                    }
                    self.move_column(cursor_2_x, cursor_1_x);
                }
                proof {
                    lemma_closing_keep(
                        before,
                        now,
                        self.board@,
                        start_x as int,
                        cursor_1_x as int,
                        cursor_2_x as int,
                    );
                }
                cursor_1_x += 1;
            } else {
                proof {
                    lemma_closing_skip(
                        before,
                        now,
                        start_x as int,
                        cursor_1_x as int,
                        cursor_2_x as int,
                    );
                }
            }
            cursor_2_x += 1;
        }
        proof {
            lemma_closing_done(before, self.board@, start_x as int, cursor_1_x as int);
        }
    }

    /// Removes the tiles of `region` from the field and earns the points for
    /// them: the tiles above fall, emptied columns are closed up, the first
    /// cell of the region is appended to the moves, and the bonus is earned
    /// where no tile is left.
    pub fn play_region(&mut self, region: &Region)
        requires
            old(self).wf(),
            region@.removable_from(old(self)@.cells),
        ensures
            final(self).wf(),
            final(self)@ == old(self)@.after_play(region@),
            forall|c: int|
                0 <= c < 5 ==> #[trigger] count(final(self)@.cells, c) == count(old(self)@.cells, c)
                    - if c == region@.color {
                    region@.positions.len() as int
                } else {
                    0
                },
            tiles(final(self)@.cells) == tiles(old(self)@.cells) - region@.positions.len(),
            is_settled(old(self)@.cells) ==> is_settled(final(self)@.cells),
    {
        let ghost before = self@;
        proof {
            if is_settled(before.cells) {
                lemma_removal_settles(before.cells, region@);
            }
        }
        let ghost size = region@.positions.len() as int;
        self.actions.push(region.first_position);
        self.clear_region(region);
        proof {
            // The region holds no more tiles than the field had of its colour.
            assert(count(self.board@, region@.color as int) >= 0);
            assert(size <= tiles(before.cells));
            assert(tiles(before.cells) * tiles(before.cells) <= SCORE_LIMIT) by (nonlinear_arith)
                requires
                    tiles(before.cells) * tiles(before.cells) + 0 <= SCORE_LIMIT,
            ;
            assert(tiles(before.cells) <= 227) by (nonlinear_arith)
                requires
                    tiles(before.cells) * tiles(before.cells) <= 51625,
            ;
            assert(region_points(size) <= size * size) by (nonlinear_arith)
                requires
                    size >= 1,
            ;
            assert(size * size <= 227 * 227) by (nonlinear_arith)
                requires
                    1 <= size <= 227,
            ;
        }
        let points = region.score();
        let left = tiles_left(&self.color_counts, region.color, region.len());
        proof {
            let t = tiles(before.cells) as int;
            assert(region_points(size) + (t - size) * (t - size) <= t * t) by (nonlinear_arith)
                requires
                    1 <= size <= t,
            ;
        }
        self.score += points;
        self.color_counts = left;

        let (start_x, start_y, end_x) = self.get_region_boundaries(region);
        proof {
            lemma_bounds_of_cells(region@.positions);
        }
        self.apply_gravity(start_x, start_y, end_x);
        self.remove_empty_columns(start_x);

        if self.is_empty() {
            self.score += CLEAR_BONUS;
        }
        proof {
            assert(self.board@ == after_removal(before.cells, region@.positions));
            assert(self@.actions == before.actions.push(region@.first_position));
            assert(in_area(region@.positions[0] as int));
            assert forall|k: int| 0 <= k < self@.actions.len() implies in_area(
                #[trigger] self@.actions[k] as int,
            ) by {
                if k < before.actions.len() {
                    assert(self@.actions[k] == before.actions[k]);
                }
            }
        }
    }
}

/// The counts of the colours after `taken` tiles of `color` have left.
fn tiles_left(counts: &[u8; COLOR_COUNT], color: i8, taken: usize) -> (left: [u8; COLOR_COUNT])
    requires
        0 <= color <= 4,
        taken <= counts[color as int],
    ensures
        forall|c: int|
            0 <= c < 5 ==> #[trigger] left[c] == counts[c] - if c == color {
                taken as int
            } else {
                0
            },
{
    let mut left = *counts;
    let at = color as usize;
    left[at] = left[at] - taken as u8;
    left
}

/// The cells as the bytes that a hash of the field is taken of: each value
/// as one byte, the empty cell as 255.
pub open spec fn cell_bytes(cells: Seq<i8>) -> Seq<u8> {
    Seq::new(cells.len(), |i: int| cells[i] as u8)
}

/// The hash of a field: what the standard library's default hasher makes of
/// the bytes of its cells, written in one piece.
pub open spec fn field_hash(cells: Seq<i8>) -> u64 {
    DefaultHasher::spec_finish(seq![cell_bytes(cells)])
}

impl Board {
    /// Plays the cell `index`: where it holds a tile whose region has two
    /// tiles or more, that region is removed as [`Board::play_region`] does
    /// it; otherwise nothing changes.
    pub fn play_index(&mut self, index: usize)
        requires
            old(self).wf(),
        ensures
            final(self).wf(),
            if occupied(old(self)@.cells, index as int) && has_partner(
                old(self)@.cells,
                index as int,
            ) {
                exists|region: RegionView|
                    #![auto]
                    region.is_move_on(old(self)@.cells) && region.first_position == index
                        && final(self)@ == old(self)@.after_play(region) && tiles(
                        final(self)@.cells,
                    ) == tiles(old(self)@.cells) - region.positions.len()
            } else {
                final(self)@ == old(self)@
            },
            is_settled(old(self)@.cells) ==> is_settled(final(self)@.cells),
    {
        if index >= TOTAL_CELLS {
            return ;
        }
        let (x, y) = Board::to_coordinates(&index);
        if x >= GAME_SIZE || y >= GAME_SIZE {
            return ;
        }
        let picked_color = self.board[index];
        if picked_color < 0 {
            return ;
        }
        let region = self.compute_region_index(index);
        proof {
            lemma_component_has_partner(self@.cells, index as int);
            assert(listed(region@.positions) =~= component(self@.cells, index as int));
            if region@.positions.len() >= 2 {
                assert(region@.positions[1] != region@.positions[0]);
                assert(listed(region@.positions).contains(region@.positions[1] as int));
            }
            if has_partner(self@.cells, index as int) {
                let j = choose|j: int|
                    j != index && component(self@.cells, index as int).contains(j);
                assert(listed(region@.positions).contains(j));
                let k = choose|k: int|
                    0 <= k < region@.positions.len() && #[trigger] region@.positions[k] == j;
                assert(k != 0);
            }
        }
        if region.len() < 2 {
            return ;
        }
        proof {
            assert forall|k: int| 0 <= k < region@.positions.len() implies #[trigger] self@.cells[region@.positions[k] as int]
                == region@.color by {
                assert(listed(region@.positions).contains(region@.positions[k] as int));
                lemma_connected_same_value(self@.cells, index as int, region@.positions[k] as int);
            }
        }
        self.play_region(&region);
    }

    /// Plays the cell in column `x` of row `y`, as [`Board::play_index`]
    /// plays its index; outside the playable columns and rows nothing
    /// changes.
    pub fn play(&mut self, x: usize, y: usize)
        requires
            old(self).wf(),
        ensures
            final(self).wf(),
            if x < 15 && y < 15 && occupied(old(self)@.cells, cell_index(x as int, y as int))
                && has_partner(old(self)@.cells, cell_index(x as int, y as int)) {
                exists|region: RegionView|
                    #![auto]
                    region.is_move_on(old(self)@.cells) && region.first_position == cell_index(
                        x as int,
                        y as int,
                    ) && final(self)@ == old(self)@.after_play(region) && tiles(final(self)@.cells)
                        == tiles(old(self)@.cells) - region.positions.len()
            } else {
                final(self)@ == old(self)@
            },
            is_settled(old(self)@.cells) ==> is_settled(final(self)@.cells),
    {
        if x < GAME_SIZE && y < GAME_SIZE {
            let index = Board::get_index(x, y);
            self.play_index(index)
        }
    }

    /// Number of moves so far.
    pub fn get_actions_len(&self) -> (n: usize)
        ensures
            n == self@.actions.len(),
    {
        self.actions.len()
    }

    /// The moves so far as text: for each the column and the row of its
    /// cell, separated by a blank, and `;` between the moves.
    pub fn get_actions_str(&self) -> (text: String)
        requires
            self.wf(),
        ensures
            text@ == actions_text(self@.actions),
    {
        let text = self.get_actions_str_from(0);
        proof {
            assert(texts_from(self@.actions, 0) =~= self@.actions.map_values(
                |a: usize| cell_text(a),
            ));
        }
        text
    }

    /// The moves made after the first `from`, as text; no text where there
    /// are no more than `from` moves.
    pub fn get_actions_str_from(&self, from: usize) -> (text: String)
        requires
            self.wf(),
        ensures
            text@ == joined(texts_from(self@.actions, from as int), seq![';']),
    {
        if from > self.actions.len() {
            return String::new();
        }
        let mut strings: Vec<String> = Vec::new();
        let mut k: usize = from;
        while k < self.actions.len()
            invariant
                self.wf(),
                from <= k <= self.actions@.len(),
                strings@.len() == k - from,
                forall|a: int|
                    0 <= a < k - from ==> (#[trigger] strings@[a])@ == cell_text(
                        self.actions@[from + a],
                    ),
            decreases self.actions@.len() - k,
        {
            assert(in_area(self@.actions[k as int] as int));
            strings.push(cell_string(self.actions[k]));
            k += 1;
        }
        let text = join_strings(&strings, ";");
        proof {
            reveal_strlit(";");
            assert(";"@ =~= seq![';']);
            assert(Seq::new(strings@.len(), |a: int| strings@[a]@) =~= texts_from(
                self@.actions,
                from as int,
            ));
        }
        text
    }

    /// Whether both boards show the same field, whatever their scores and
    /// moves.
    pub fn same_cells(&self, other: &Board) -> (same: bool)
        ensures
            same == (self@.cells == other@.cells),
    {
        let mut i: usize = 0;
        while i < TOTAL_CELLS
            invariant
                i <= 256,
                forall|k: int| 0 <= k < i ==> #[trigger] self.board@[k] == other.board@[k],
            decreases 256 - i,
        {
            if self.board[i] != other.board[i] {
                return false;
            }
            i += 1;
        }
        assert(self.board@ =~= other.board@);
        true
    }

    /// A hash of the field alone: boards that show the same field have the
    /// same hash, whatever their scores and moves.
    pub fn state_hash(&self) -> (hash: u64)
        ensures
            hash == field_hash(self@.cells),
    {
        let mut bytes: Vec<u8> = Vec::new();
        let mut i: usize = 0;
        while i < TOTAL_CELLS
            invariant
                i <= 256,
                bytes@.len() == i,
                forall|k: int| 0 <= k < i ==> #[trigger] bytes@[k] == self.board@[k] as u8,
            decreases 256 - i,
        {
            bytes.push(self.board[i] as u8);
            i += 1;
        }
        assert(bytes@ =~= cell_bytes(self@.cells));
        let mut hasher = DefaultHasher::new();
        hasher.write(bytes.as_slice());
        assert(hasher@ =~= seq![cell_bytes(self@.cells)]);
        hasher.finish()
    }
}

impl Clone for Board {
    /// A board that shows the same game.
    fn clone(&self) -> (b: Board)
        ensures
            b@ == self@,
            self.wf() ==> b.wf(),
    {
        Board {
            board: self.board,
            score: self.score,
            color_counts: self.color_counts,
            actions: self.actions.clone(),
        }
    }
}

impl PartialEq for Board {
    /// Boards are equal if they show the same field, whatever their scores
    /// and the moves that led to them.
    fn eq(&self, other: &Board) -> (same: bool) {
        self.same_cells(other)
    }
}

impl PartialEqSpecImpl for Board {
    open spec fn obeys_eq_spec() -> bool {
        true
    }

    open spec fn eq_spec(&self, other: &Board) -> bool {
        self@.cells == other@.cells
    }
}

impl Eq for Board {

}

} // verus!
