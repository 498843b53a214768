//! The reasoning behind falling tiles and closing columns: what holds of the
//! field while the tiles of a column, and then the columns, are moved one by
//! one.

use vstd::prelude::*;
use crate::grid::{
    closed_up, column, column_empty, count, EMPTY, fallen, in_area, is_grid, kept_columns,
    max_column, min_column, min_row, tiles_of,
};

verus! {

/// The field after the tiles of column `from` have moved to the empty
/// column `to`.
pub open spec fn column_moved(cells: Seq<i8>, from: int, to: int) -> Seq<i8> {
    Seq::new(
        256,
        |i: int|
            if in_area(i) && i % 16 == to {
                cells[16 * (i / 16) + from]
            } else if in_area(i) && i % 16 == from {
                EMPTY
            } else {
                cells[i]
            },
    )
}

/// The counts of the five colours are the same on both fields.
pub open spec fn same_counts(a: Seq<i8>, b: Seq<i8>) -> bool {
    forall|c: int| 0 <= c < 5 ==> #[trigger] count(a, c) == count(b, c)
}

/// The state of closing up the columns from `sx` on, before column `c2` is
/// looked at: the columns that hold a tile among `sx..c2` now stand from
/// `sx` up to `c1`, the columns `c1..c2` are empty, the rest is untouched.
#[verifier::opaque]
pub open spec fn closing(old_cells: Seq<i8>, cells: Seq<i8>, sx: int, c1: int, c2: int) -> bool {
    let kept = kept_columns(old_cells, sx, c2);
    &&& cells.len() == 256
    &&& sx <= c1 <= c2 <= 15
    &&& c1 == sx + kept.len()
    &&& forall|k: int| 0 <= k < kept.len() ==> sx + k <= #[trigger] kept[k] < c2
    &&& forall|i: int|
        0 <= i < 256 ==> #[trigger] cells[i] == closing_cell(old_cells, kept, sx, c1, c2, i)
}

/// What the cell `i` holds while columns are closed up.
pub open spec fn closing_cell(old_cells: Seq<i8>, kept: Seq<int>, sx: int, c1: int, c2: int, i: int) -> i8 {
    if in_area(i) && sx <= i % 16 < c2 {
        if i % 16 < c1 {
            old_cells[16 * (i / 16) + kept[i % 16 - sx]]
        } else {
            EMPTY
        }
    } else {
        old_cells[i]
    }
}

/// Before the first column is looked at nothing has moved.
pub proof fn lemma_closing_start(cells: Seq<i8>, sx: int)
    requires
        cells.len() == 256,
        0 <= sx <= 15,
    ensures
        closing(cells, cells, sx, sx, sx),
{
    reveal(closing);
}

/// The column to which the next kept column moves is empty.
pub proof fn lemma_closing_target(old_cells: Seq<i8>, cells: Seq<i8>, sx: int, c1: int, c2: int)
    requires
        closing(old_cells, cells, sx, c1, c2),
        0 <= sx,
        c1 < c2,
    ensures
        column_empty(cells, c1),
        sx <= c1 < c2 <= 15,
{
    reveal(closing);
    assert forall|y: int| 0 <= y < 15 implies #[trigger] cells[16 * y + c1] < 0 by {
        assert(in_area(16 * y + c1));
    }
}

/// While columns are closed up, the column looked at lies right of the one
/// to be filled, or is that one.
pub proof fn lemma_closing_order(old_cells: Seq<i8>, cells: Seq<i8>, sx: int, c1: int, c2: int)
    requires
        closing(old_cells, cells, sx, c1, c2),
    ensures
        sx <= c1 <= c2 <= 15,
{
    reveal(closing);
}

/// Column `c2` holds no tile: closing up goes on with nothing moved.
pub proof fn lemma_closing_skip(old_cells: Seq<i8>, cells: Seq<i8>, sx: int, c1: int, c2: int)
    requires
        closing(old_cells, cells, sx, c1, c2),
        is_grid(cells),
        0 <= sx,
        c2 < 15,
        old_cells.len() == 256,
        column_empty(cells, c2),
    ensures
        closing(old_cells, cells, sx, c1, c2 + 1),
        column_empty(old_cells, c2),
{
    reveal(closing);
    assert forall|y: int| 0 <= y < 15 implies #[trigger] old_cells[16 * y + c2] < 0 by {
        assert(cells[16 * y + c2] == old_cells[16 * y + c2]);
    }
    assert forall|i: int| 0 <= i < 256 && in_area(i) && i % 16 == c2 implies #[trigger] cells[i]
        == EMPTY by {
        assert(cells[16 * (i / 16) + c2] < 0);
        assert(cells[i] == old_cells[i]);
    }
}

/// Column `c2` holds a tile: it is kept, and stands at `c1` after the move.
pub proof fn lemma_closing_keep(
    old_cells: Seq<i8>,
    cells: Seq<i8>,
    after: Seq<i8>,
    sx: int,
    c1: int,
    c2: int,
)
    requires
        closing(old_cells, cells, sx, c1, c2),
        0 <= sx,
        c2 < 15,
        old_cells.len() == 256,
        !column_empty(cells, c2),
        after == if c1 < c2 {
            column_moved(cells, c2, c1)
        } else {
            cells
        },
    ensures
        closing(old_cells, after, sx, c1 + 1, c2 + 1),
        !column_empty(old_cells, c2),
{
    reveal(closing);
    let y0 = choose|y: int| 0 <= y < 15 && !(#[trigger] cells[16 * y + c2] < 0);
    assert(cells[16 * y0 + c2] == old_cells[16 * y0 + c2]);
    let kept = kept_columns(old_cells, sx, c2);
    let kept2 = kept_columns(old_cells, sx, c2 + 1);
    assert(kept2 == kept.push(c2));
    assert forall|k: int| 0 <= k < kept2.len() implies sx + k <= #[trigger] kept2[k] < c2 + 1 by {
        if k < kept.len() {
            assert(kept2[k] == kept[k]);
        }
    }
    assert forall|i: int| 0 <= i < 256 implies #[trigger] after[i] == closing_cell(
        old_cells,
        kept2,
        sx,
        c1 + 1,
        c2 + 1,
        i,
    ) by {
        let x = i % 16;
        let y = i / 16;
        assert(cells[i] == closing_cell(old_cells, kept, sx, c1, c2, i));
        if in_area(i) && sx <= x <= c2 {
            if x < c1 {
                assert(kept2[x - sx] == kept[x - sx]);
                assert(after[i] == cells[i]);
            } else if x == c1 {
                assert(kept2[c1 - sx] == c2);
                let j = 16 * y + c2;
                assert(in_area(j) && j % 16 == c2 && j / 16 == y);
                assert(cells[j] == closing_cell(old_cells, kept, sx, c1, c2, j));
                assert(cells[j] == old_cells[j]);
                if c1 < c2 {
                    assert(after[i] == cells[j]);
                } else {
                    assert(i == j);
                }
            } else {
                assert(c1 < c2);
                if x == c2 {
                    assert(after[i] == EMPTY);
                } else {
                    assert(after[i] == cells[i]);
                }
            }
        } else {
            assert(after[i] == cells[i]);
        }
    }
}

/// After the last column the columns are closed up.
pub proof fn lemma_closing_done(old_cells: Seq<i8>, cells: Seq<i8>, sx: int, c1: int)
    requires
        closing(old_cells, cells, sx, c1, 15),
        0 <= sx,
    ensures
        cells == closed_up(old_cells, sx),
{
    reveal(closing);
    assert(cells =~= closed_up(old_cells, sx));
}

/// Falling in no column, or in none yet, changes nothing.
pub proof fn lemma_fallen_none(cells: Seq<i8>, sx: int, sy: int, ex: int)
    requires
        cells.len() == 256,
        ex < sx,
    ensures
        fallen(cells, sx, sy, ex) == cells,
{
    assert(fallen(cells, sx, sy, ex) =~= cells);
}

/// Falling in the columns up to `x - 1`, then in column `x`, is falling in
/// the columns up to `x`.
pub proof fn lemma_fallen_next(cells: Seq<i8>, sx: int, sy: int, x: int)
    requires
        cells.len() == 256,
        0 <= sx <= x < 15,
        0 <= sy <= 15,
    ensures
        fallen(fallen(cells, sx, sy, x - 1), x, sy, x) == fallen(cells, sx, sy, x),
{
    let part = fallen(cells, sx, sy, x - 1);
    assert(column(part, x) =~= column(cells, x));
    assert(fallen(part, x, sy, x) =~= fallen(cells, sx, sy, x));
}

/// One more cell of a column has been looked at.
pub proof fn lemma_tiles_of_next(src: Seq<i8>, n: int)
    requires
        0 <= n < src.len(),
    ensures
        tiles_of(src.take(n + 1)) == if src[n] >= 0 {
            tiles_of(src.take(n)).push(src[n])
        } else {
            tiles_of(src.take(n))
        },
        tiles_of(src.take(n)).len() <= n,
    decreases n,
{
    assert(src.take(n + 1).drop_last() =~= src.take(n));
    if n > 0 {
        lemma_tiles_of_next(src, n - 1);
    } else {
        assert(src.take(0) =~= Seq::<i8>::empty());
    }
}

/// The cells of a non-empty list of playable cells lie in playable columns
/// and rows.
pub proof fn lemma_bounds_of_cells(positions: Seq<usize>)
    requires
        forall|k: int| 0 <= k < positions.len() ==> in_area(#[trigger] positions[k] as int),
    ensures
        0 <= min_column(positions) <= 15,
        0 <= min_row(positions) <= 15,
        0 <= max_column(positions) < 15,
    decreases positions.len(),
{
    if positions.len() > 0 {
        assert(in_area(positions[positions.len() - 1] as int));
        assert forall|k: int| 0 <= k < positions.drop_last().len() implies in_area(
            #[trigger] positions.drop_last()[k] as int,
        ) by {
            assert(positions.drop_last()[k] == positions[k]);
        }
        lemma_bounds_of_cells(positions.drop_last());
    }
}

} // verus!
