//! What holds of the game whatever the field and the moves.

use vstd::prelude::*;
use vstd::std_specs::cmp::PartialEqSpec;
use crate::board::{Board, field_hash};
use crate::flood::lemma_first_neighbor;
use crate::grid::{
    adjacent, after_removal, cleared, closed_up, column, column_empty, column_settled, component,
    EMPTY, fallen, first_neighbor, has_partner, in_area, in_walk_order, is_grid, is_settled,
    kept_columns, lemma_component_has_partner, lemma_component_shared, lemma_connected_refl,
    listed, max_column, min_column, min_row, packed, reached_from, scan_rank, tiles_of,
    walk_before,
};
use crate::region::{are_moves, lemma_move_removable, RegionView};

verus! {

/// The region of a cell has one cell exactly if the cell has no adjacent
/// cell of the same value.
pub proof fn lemma_region_of_lonely_cell(cells: Seq<i8>, region: RegionView)
    requires
        region.is_component_of(cells),
    ensures
        region.positions.len() == 1 <==> !has_partner(cells, region.first_position as int),
{
    let first = region.first_position as int;
    assert(in_area(region.positions[0] as int));
    lemma_component_has_partner(cells, first);
    if region.positions.len() != 1 {
        assert(region.positions[1] != region.positions[0]);
        assert(listed(region.positions).contains(region.positions[1] as int));
    }
    if has_partner(cells, first) {
        let b = choose|b: int| b != first && component(cells, first).contains(b);
        assert(listed(region.positions).contains(b));
        let k = choose|k: int| 0 <= k < region.positions.len() && #[trigger] region.positions[k] == b;
        assert(k != 0);
    }
}

/// Boards that show the same field are equal and have the same hash,
/// whatever their scores and the moves that led to them.
pub proof fn lemma_same_field(a: Board, b: Board)
    requires
        a@.cells == b@.cells,
    ensures
        a.eq_spec(&b),
        field_hash(a@.cells) == field_hash(b@.cells),
{
}

/// Every listed cell lies between the leftmost and the rightmost column of
/// the list and not below its lowest row.
proof fn lemma_bounds_hold(positions: Seq<usize>, k: int)
    requires
        0 <= k < positions.len(),
    ensures
        min_column(positions) <= positions[k] as int % 16 <= max_column(positions),
        min_row(positions) <= positions[k] as int / 16,
    decreases positions.len(),
{
    if k < positions.len() - 1 {
        lemma_bounds_hold(positions.drop_last(), k);
        assert(positions.drop_last()[k] == positions[k]);
    }
}

/// The leftmost and the rightmost column and the lowest row of a list each
/// hold a listed cell.
proof fn lemma_bounds_met(positions: Seq<usize>)
    requires
        positions.len() > 0,
        forall|k: int| 0 <= k < positions.len() ==> in_area(#[trigger] positions[k] as int),
    ensures
        exists|k: int| 0 <= k < positions.len() && #[trigger] positions[k] as int % 16 == min_column(positions),
        exists|k: int| 0 <= k < positions.len() && #[trigger] positions[k] as int % 16 == max_column(positions),
        exists|k: int| 0 <= k < positions.len() && #[trigger] positions[k] as int / 16 == min_row(positions),
    decreases positions.len(),
{
    let last = positions.len() - 1;
    let front = positions.drop_last();
    assert(in_area(positions[last] as int));
    if front.len() == 0 {
        reveal_with_fuel(min_column, 2);
        reveal_with_fuel(max_column, 2);
        reveal_with_fuel(min_row, 2);
        assert(positions[last] as int % 16 == min_column(positions));
        assert(positions[last] as int % 16 == max_column(positions));
        assert(positions[last] as int / 16 == min_row(positions));
    } else {
        assert forall|k: int| 0 <= k < front.len() implies in_area(#[trigger] front[k] as int) by {
            assert(front[k] == positions[k]);
        }
        lemma_bounds_met(front);
        let a = choose|k: int| 0 <= k < front.len() && #[trigger] front[k] as int % 16 == min_column(front);
        let b = choose|k: int| 0 <= k < front.len() && #[trigger] front[k] as int % 16 == max_column(front);
        let c = choose|k: int| 0 <= k < front.len() && #[trigger] front[k] as int / 16 == min_row(front);
        assert(front[a] == positions[a] && front[b] == positions[b] && front[c] == positions[c]);
        if positions[last] as int % 16 < min_column(front) {
            assert(positions[last] as int % 16 == min_column(positions));
        } else {
            assert(positions[a] as int % 16 == min_column(positions));
        }
        if positions[last] as int % 16 > max_column(front) {
            assert(positions[last] as int % 16 == max_column(positions));
        } else {
            assert(positions[b] as int % 16 == max_column(positions));
        }
        if positions[last] as int / 16 < min_row(front) {
            assert(positions[last] as int / 16 == min_row(positions));
        } else {
            assert(positions[c] as int / 16 == min_row(positions));
        }
    }
}

/// What a removal leaves depends on the cells removed and not on the order
/// in which they are listed.
pub proof fn lemma_removal_by_cells(cells: Seq<i8>, first: Seq<usize>, second: Seq<usize>)
    requires
        listed(first) == listed(second),
        forall|k: int| 0 <= k < first.len() ==> in_area(#[trigger] first[k] as int),
    ensures
        after_removal(cells, first) == after_removal(cells, second),
{
    assert(cleared(cells, first) =~= cleared(cells, second));
    if first.len() == 0 {
        if second.len() > 0 {
            assert(listed(second).contains(second[0] as int));
            let k = choose|k: int| 0 <= k < first.len() && #[trigger] first[k] == second[0] as int;
        }
    } else {
        assert(listed(first).contains(first[0] as int));
        let k0 = choose|k: int| 0 <= k < second.len() && #[trigger] second[k] == first[0] as int;
        assert forall|k: int| 0 <= k < second.len() implies in_area(#[trigger] second[k] as int) by {
            assert(listed(second).contains(second[k] as int));
            let j = choose|j: int| 0 <= j < first.len() && #[trigger] first[j] == second[k] as int;
            assert(in_area(first[j] as int));
        }
        lemma_bounds_agree(first, second);
        lemma_bounds_agree(second, first);
    }
}

/// The bounds of a list reach as far as those of a list of the same cells.
proof fn lemma_bounds_agree(first: Seq<usize>, second: Seq<usize>)
    requires
        listed(first) == listed(second),
        first.len() > 0,
        second.len() > 0,
        forall|k: int| 0 <= k < second.len() ==> in_area(#[trigger] second[k] as int),
    ensures
        min_column(first) <= min_column(second),
        max_column(first) >= max_column(second),
        min_row(first) <= min_row(second),
{
    lemma_bounds_met(second);
    let a = choose|k: int| 0 <= k < second.len() && #[trigger] second[k] as int % 16 == min_column(second);
    let b = choose|k: int| 0 <= k < second.len() && #[trigger] second[k] as int % 16 == max_column(second);
    let c = choose|k: int| 0 <= k < second.len() && #[trigger] second[k] as int / 16 == min_row(second);
    assert(listed(second).contains(second[a] as int));
    assert(listed(second).contains(second[b] as int));
    assert(listed(second).contains(second[c] as int));
    let a1 = choose|k: int| 0 <= k < first.len() && #[trigger] first[k] == second[a] as int;
    let b1 = choose|k: int| 0 <= k < first.len() && #[trigger] first[k] == second[b] as int;
    let c1 = choose|k: int| 0 <= k < first.len() && #[trigger] first[k] == second[c] as int;
    lemma_bounds_hold(first, a1);
    lemma_bounds_hold(first, b1);
    lemma_bounds_hold(first, c1);
}

/// The tiles among cells are tiles, no more than the cells; and where there
/// is one, one of the cells holds a tile.
proof fn lemma_tiles_of(s: Seq<i8>)
    ensures
        tiles_of(s).len() <= s.len(),
        forall|k: int| 0 <= k < tiles_of(s).len() ==> #[trigger] tiles_of(s)[k] >= 0,
        tiles_of(s).len() > 0 ==> exists|k: int| 0 <= k < s.len() && #[trigger] s[k] >= 0,
        (forall|k: int| 0 <= k < s.len() ==> #[trigger] s[k] < 0) ==> tiles_of(s).len() == 0,
    decreases s.len(),
{
    if s.len() > 0 {
        let front = s.drop_last();
        lemma_tiles_of(front);
        if s.last() >= 0 {
            assert(s[s.len() - 1] >= 0);
        } else if tiles_of(s).len() > 0 {
            let k = choose|k: int| 0 <= k < front.len() && #[trigger] front[k] >= 0;
            assert(s[k] >= 0);
        }
        if forall|k: int| 0 <= k < s.len() ==> #[trigger] s[k] < 0 {
            assert(s[s.len() - 1] < 0);
            assert forall|k: int| 0 <= k < front.len() implies #[trigger] front[k] < 0 by {
                assert(s[k] < 0);
            }
        }
    }
}

/// The columns kept lie in the range they were taken from and hold tiles.
proof fn lemma_kept_columns(cells: Seq<i8>, from: int, to: int)
    requires
        from <= to,
    ensures
        kept_columns(cells, from, to).len() <= to - from,
        forall|k: int|
            0 <= k < kept_columns(cells, from, to).len() ==> from <= #[trigger] kept_columns(
                cells,
                from,
                to,
            )[k] < to && !column_empty(cells, kept_columns(cells, from, to)[k]),
    decreases to - from,
{
    if to > from {
        lemma_kept_columns(cells, from, to - 1);
    }
}

/// After the tiles at and above row `sy` of column `x` have fallen, the
/// column is settled, if it was settled before tiles were removed at and
/// above that row.
#[verifier::rlimit(60)]
#[verifier::spinoff_prover]
proof fn lemma_fallen_column_settled(
    cells: Seq<i8>,
    holed: Seq<i8>,
    sx: int,
    sy: int,
    ex: int,
    x: int,
)
    requires
        is_grid(cells),
        is_grid(holed),
        column_settled(cells, x),
        0 <= x < 15,
        0 <= sy <= 15,
        forall|i: int| 0 <= i < 256 ==> #[trigger] holed[i] == cells[i] || holed[i] == EMPTY,
        forall|i: int| 0 <= i < 256 && i / 16 < sy ==> #[trigger] holed[i] == cells[i],
        !(sx <= x <= ex) ==> forall|y: int| 0 <= y < 15 ==> #[trigger] holed[16 * y + x] == cells[16
            * y + x],
    ensures
        column_settled(fallen(holed, sx, sy, ex), x),
{
    let after = fallen(holed, sx, sy, ex);
    if sx <= x <= ex {
        let src = column(holed, x).skip(sy);
        lemma_tiles_of(src);
        assert forall|y1: int, y2: int|
            0 <= y1 < y2 < 15 && #[trigger] after[16 * y2 + x] >= 0 implies #[trigger] after[16 * y1
            + x] >= 0 by {
            let i1 = 16 * y1 + x;
            let i2 = 16 * y2 + x;
            assert(in_area(i1) && in_area(i2) && i1 % 16 == x && i2 % 16 == x && i1 / 16 == y1 && i2
                / 16 == y2);
            if y2 < sy {
                assert(after[i2] == holed[i2] && after[i1] == holed[i1]);
                assert(holed[i2] == cells[i2] && holed[i1] == cells[i1]);
                assert(cells[16 * y2 + x] >= 0);
            } else {
                assert(after[i2] == packed(src)[y2 - sy]);
                assert(y2 - sy < tiles_of(src).len());
                if y1 >= sy {
                    assert(after[i1] == packed(src)[y1 - sy]);
                    assert(tiles_of(src)[y1 - sy] >= 0);
                } else {
                    let k = choose|k: int| 0 <= k < src.len() && #[trigger] src[k] >= 0;
                    let r = sy + k;
                    assert(src[k] == holed[16 * r + x]);
                    assert(holed[16 * r + x] == cells[16 * r + x]);
                    assert(cells[16 * r + x] >= 0);
                    assert(cells[16 * y1 + x] >= 0);
                    assert(after[i1] == holed[i1] && holed[i1] == cells[i1]);
                }
            }
        }
    } else {
        assert forall|y1: int, y2: int|
            0 <= y1 < y2 < 15 && #[trigger] after[16 * y2 + x] >= 0 implies #[trigger] after[16 * y1
            + x] >= 0 by {
            let i1 = 16 * y1 + x;
            let i2 = 16 * y2 + x;
            assert(in_area(i1) && in_area(i2) && i1 % 16 == x && i2 % 16 == x);
            assert(after[i2] == holed[i2] && after[i1] == holed[i1]);
            assert(holed[16 * y2 + x] == cells[16 * y2 + x]);
            assert(holed[16 * y1 + x] == cells[16 * y1 + x]);
        }
    }
}

/// Closing up the columns of a field whose columns are settled, and hold
/// tiles left of column `sx`, leaves the field settled.
proof fn lemma_closed_up_settled(cells: Seq<i8>, sx: int)
    requires
        is_grid(cells),
        0 <= sx <= 15,
        forall|x: int| 0 <= x < 15 ==> #[trigger] column_settled(cells, x),
        forall|x: int| 0 <= x < sx ==> !#[trigger] column_empty(cells, x),
    ensures
        is_settled(closed_up(cells, sx)),
{
    let after = closed_up(cells, sx);
    let kept = kept_columns(cells, sx, 15);
    lemma_kept_columns(cells, sx, 15);
    // Where each column of the new field comes from.
    assert forall|x: int, y: int| 0 <= x < 15 && 0 <= y < 15 implies #[trigger] after[16 * y + x]
        == if x < sx {
        cells[16 * y + x]
    } else if x - sx < kept.len() {
        cells[16 * y + kept[x - sx]]
    } else {
        EMPTY
    } by {
        let i = 16 * y + x;
        assert(in_area(i) && i % 16 == x && i / 16 == y);
    }
    assert forall|x: int| 0 <= x < 15 implies #[trigger] column_settled(after, x) by {
        if x < sx {
            assert(column_settled(cells, x));
            assert forall|y1: int, y2: int|
                0 <= y1 < y2 < 15 && #[trigger] after[16 * y2 + x] >= 0 implies #[trigger] after[16
                * y1 + x] >= 0 by {
                assert(cells[16 * y2 + x] >= 0);
            }
        } else if x - sx < kept.len() {
            let from = kept[x - sx];
            assert(column_settled(cells, from));
            assert forall|y1: int, y2: int|
                0 <= y1 < y2 < 15 && #[trigger] after[16 * y2 + x] >= 0 implies #[trigger] after[16
                * y1 + x] >= 0 by {
                assert(cells[16 * y2 + from] >= 0);
                assert(cells[16 * y1 + from] >= 0);
            }
        } else {
            assert forall|y1: int, y2: int|
                0 <= y1 < y2 < 15 && #[trigger] after[16 * y2 + x] >= 0 implies #[trigger] after[16
                * y1 + x] >= 0 by {}
        }
    }
    assert forall|x1: int, x2: int|
        0 <= x1 < x2 < 15 && !#[trigger] column_empty(after, x2) implies !#[trigger] column_empty(
        after,
        x1,
    ) by {
        let y2 = choose|y: int| 0 <= y < 15 && !(#[trigger] after[16 * y + x2] < 0);
        assert(after[16 * y2 + x2] >= 0);
        assert(x2 < sx || x2 - sx < kept.len());
        let from = if x1 < sx {
            x1
        } else {
            kept[x1 - sx]
        };
        assert(!column_empty(cells, from));
        let y1 = choose|y: int| 0 <= y < 15 && !(#[trigger] cells[16 * y + from] < 0);
        assert(after[16 * y1 + x1] == cells[16 * y1 + from]);
    }
}

/// A field at rest is at rest again after tiles have been removed from it:
/// no tile has an empty cell below it, and the columns that hold tiles
/// stand side by side from the left.
pub proof fn lemma_removal_settles(cells: Seq<i8>, region: RegionView)
    requires
        is_grid(cells),
        is_settled(cells),
        region.removable_from(cells),
    ensures
        is_settled(after_removal(cells, region.positions)),
        is_grid(after_removal(cells, region.positions)),
{
    let positions = region.positions;
    let sx = min_column(positions);
    let ex = max_column(positions);
    let sy = min_row(positions);
    let holed = cleared(cells, positions);
    let dropped = fallen(holed, sx, sy, ex);
    lemma_bounds_met(positions);
    assert forall|k: int| 0 <= k < positions.len() implies sx <= (#[trigger] positions[k]) as int % 16
        <= ex && sy <= positions[k] as int / 16 && in_area(positions[k] as int) by {
        lemma_bounds_hold(positions, k);
    }
    let at = choose|k: int| 0 <= k < positions.len() && #[trigger] positions[k] as int % 16 == sx;
    assert(in_area(positions[at] as int));
    assert(0 <= sx < 15 && 0 <= sy < 15 && 0 <= ex < 15);

    assert forall|i: int| 0 <= i < 256 implies (#[trigger] holed[i] == cells[i] || holed[i] == EMPTY) by {}
    assert forall|i: int| 0 <= i < 256 && (i / 16 < sy || !(sx <= i % 16 <= ex)) implies #[trigger] holed[i]
        == cells[i] by {
        if listed(positions).contains(i) {
            let k = choose|k: int| 0 <= k < positions.len() && #[trigger] positions[k] == i;
            assert(sx <= positions[k] as int % 16 <= ex && sy <= positions[k] as int / 16);
        }
    }
    assert(is_grid(holed));
    assert forall|x: int| 0 <= x < 15 implies #[trigger] column_settled(dropped, x) by {
        assert(column_settled(cells, x));
        if !(sx <= x <= ex) {
            assert forall|y: int| 0 <= y < 15 implies #[trigger] holed[16 * y + x] == cells[16 * y
                + x] by {
                let i = 16 * y + x;
                assert(i % 16 == x);
            }
        }
        lemma_fallen_column_settled(cells, holed, sx, sy, ex, x);
    }
    // The columns left of the removed cells hold tiles, as before.
    let tile = positions[at] as int;
    assert(cells[tile] == region.color);
    assert(!column_empty(cells, sx)) by {
        assert(tile == 16 * (tile / 16) + sx);
        assert(cells[16 * (tile / 16) + sx] >= 0);
    }
    assert forall|x: int| 0 <= x < sx implies !#[trigger] column_empty(dropped, x) by {
        assert(!column_empty(cells, x));
        let y = choose|y: int| 0 <= y < 15 && !(#[trigger] cells[16 * y + x] < 0);
        let i = 16 * y + x;
        assert(in_area(i) && i % 16 == x && i / 16 == y);
        assert(holed[i] == cells[i]);
        assert(dropped[16 * y + x] == holed[i]);
    }
    lemma_fallen_grid(holed, sx, sy, ex);
    lemma_closed_up_settled(dropped, sx);
    lemma_closed_up_grid(dropped, sx);
}

/// Falling leaves a field a field.
proof fn lemma_fallen_grid(cells: Seq<i8>, sx: int, sy: int, ex: int)
    requires
        is_grid(cells),
        0 <= sy <= 15,
    ensures
        is_grid(fallen(cells, sx, sy, ex)),
{
    let after = fallen(cells, sx, sy, ex);
    assert forall|i: int| 0 <= i < 256 implies if in_area(i) {
        -1 <= #[trigger] after[i] <= 4
    } else {
        after[i] == -1
    } by {
        if in_area(i) && sx <= i % 16 <= ex && sy <= i / 16 {
            let src = column(cells, i % 16).skip(sy);
            lemma_tiles_bounded(cells, src, i % 16, sy);
        } else {
            assert(after[i] == cells[i]);
        }
    }
}

/// The tiles among the cells of a column are colours.
proof fn lemma_tiles_bounded(cells: Seq<i8>, src: Seq<i8>, x: int, sy: int)
    requires
        is_grid(cells),
        0 <= x < 15,
        0 <= sy <= 15,
        src == column(cells, x).skip(sy),
    ensures
        forall|k: int| 0 <= k < packed(src).len() ==> -1 <= #[trigger] packed(src)[k] <= 4,
{
    assert forall|k: int| 0 <= k < src.len() implies -1 <= #[trigger] src[k] <= 4 by {
        let i = 16 * (sy + k) + x;
        assert(in_area(i));
        assert(src[k] == cells[i]);
    }
    lemma_tiles_within(src);
}

/// The tiles among cells that are colours or empty are colours.
proof fn lemma_tiles_within(s: Seq<i8>)
    requires
        forall|k: int| 0 <= k < s.len() ==> -1 <= #[trigger] s[k] <= 4,
    ensures
        tiles_of(s).len() <= s.len(),
        forall|k: int| 0 <= k < tiles_of(s).len() ==> 0 <= #[trigger] tiles_of(s)[k] <= 4,
    decreases s.len(),
{
    if s.len() > 0 {
        assert forall|k: int| 0 <= k < s.drop_last().len() implies -1 <= #[trigger] s.drop_last()[k]
            <= 4 by {
            assert(s.drop_last()[k] == s[k]);
        }
        lemma_tiles_within(s.drop_last());
        assert(-1 <= s[s.len() - 1] <= 4);
    }
}

/// Closing up leaves a field a field.
proof fn lemma_closed_up_grid(cells: Seq<i8>, sx: int)
    requires
        is_grid(cells),
        0 <= sx <= 15,
    ensures
        is_grid(closed_up(cells, sx)),
{
    let after = closed_up(cells, sx);
    let kept = kept_columns(cells, sx, 15);
    lemma_kept_columns(cells, sx, 15);
    assert forall|i: int| 0 <= i < 256 implies if in_area(i) {
        -1 <= #[trigger] after[i] <= 4
    } else {
        after[i] == -1
    } by {
        if in_area(i) && sx <= i % 16 && i % 16 - sx < kept.len() {
            let j = 16 * (i / 16) + kept[i % 16 - sx];
            assert(in_area(j));
            assert(-1 <= cells[j] <= 4);
        } else if !(in_area(i) && sx <= i % 16) {
            assert(after[i] == cells[i]);
        }
    }
}

/// The place of a playable cell in the scan tells the cell.
proof fn lemma_scan_rank_tells(i: int, j: int)
    requires
        in_area(i),
        in_area(j),
        scan_rank(i) == scan_rank(j),
    ensures
        i == j,
{
}

/// The first cell of each move of a field is the first cell of a move in
/// every other list of the moves of that field, and that move has the same
/// cells and the same colour.
proof fn lemma_move_found(cells: Seq<i8>, a: Seq<RegionView>, b: Seq<RegionView>, k: int) -> (m: int)
    requires
        is_grid(cells),
        are_moves(cells, a),
        are_moves(cells, b),
        0 <= k < a.len(),
    ensures
        0 <= m < b.len(),
        b[m].first_position == a[k].first_position,
        b[m].color == a[k].color,
        listed(b[m].positions) == listed(a[k].positions),
{
    let first = a[k].first_position as int;
    lemma_move_removable(a[k], cells);
    let m = choose|m: int| 0 <= m < b.len() && #[trigger] listed(b[m].positions).contains(first);
    let other = b[m].first_position as int;
    lemma_move_removable(b[m], cells);
    // `first` lies in the component of `other`, so the two components are one.
    assert(component(cells, other).contains(first));
    lemma_component_shared(cells, other, first);
    lemma_connected_refl(cells, other);
    assert(component(cells, first).contains(other));
    assert(listed(a[k].positions).contains(other));
    assert(scan_rank(first) <= scan_rank(other));
    assert(scan_rank(other) <= scan_rank(first));
    lemma_scan_rank_tells(first, other);
    m
}

/// A move as a scan names it stands in every list of the moves of the
/// field.
pub proof fn lemma_scan_move_listed(cells: Seq<i8>, regions: Seq<RegionView>, region: RegionView) -> (k:
    int)
    requires
        is_grid(cells),
        are_moves(cells, regions),
        region.is_scan_move_on(cells),
    ensures
        0 <= k < regions.len(),
        regions[k] == region,
{
    let first = region.first_position as int;
    lemma_move_removable(region, cells);
    let k = choose|k: int| 0 <= k < regions.len() && #[trigger] listed(regions[k].positions).contains(
        first,
    );
    let other = regions[k].first_position as int;
    lemma_move_removable(regions[k], cells);
    assert(component(cells, other).contains(first));
    lemma_component_shared(cells, other, first);
    lemma_connected_refl(cells, other);
    assert(component(cells, first).contains(other));
    assert(listed(region.positions).contains(other));
    assert(scan_rank(first) <= scan_rank(other));
    assert(scan_rank(other) <= scan_rank(first));
    lemma_scan_rank_tells(first, other);
    lemma_region_unique(cells, regions[k], region);
    k
}

/// In a list of moves in scan order a move stands no earlier than the moves
/// before it allow.
proof fn lemma_move_place(
    cells: Seq<i8>,
    a: Seq<RegionView>,
    b: Seq<RegionView>,
    k: int,
    m: int,
)
    requires
        is_grid(cells),
        are_moves(cells, a),
        are_moves(cells, b),
        0 <= k < a.len(),
        0 <= m < b.len(),
        b[m].first_position == a[k].first_position,
    ensures
        k <= m,
    decreases k,
{
    if k > 0 {
        let before = lemma_move_found(cells, a, b, k - 1);
        lemma_move_place(cells, a, b, k - 1, before);
        assert(scan_rank(a[k - 1].first_position as int) < scan_rank(a[k].first_position as int));
        if m <= before {
            if m < before {
                assert(scan_rank(b[m].first_position as int) < scan_rank(
                    b[before].first_position as int,
                ));
            }
        }
    }
}

/// In two lists that agree in their first `n` cells, a cell that was reached
/// from one of these in the one list was reached from the same in the other.
proof fn lemma_same_reach(p: Seq<usize>, q: Seq<usize>, n: int, x: int)
    requires
        0 <= n <= p.len(),
        n <= q.len(),
        forall|i: int| 0 <= i < n ==> p[i] == q[i],
        first_neighbor(p, x, p.len() as int) < n,
    ensures
        first_neighbor(q, x, q.len() as int) == first_neighbor(p, x, p.len() as int),
{
    lemma_first_neighbor(p, x, p.len() as int);
    lemma_first_neighbor(q, x, q.len() as int);
    let a = first_neighbor(p, x, p.len() as int);
    let r = first_neighbor(q, x, q.len() as int);
    assert(p[a] == q[a]);
    if r > a {
        assert(!adjacent(q[a] as int, x));
    }
    if r < a {
        assert(p[r] == q[r]);
        assert(!adjacent(p[r] as int, x));
    }
}

/// Two lists of the same cells, both in the order of a walk from the same
/// first cell, agree in their first `n` cells.
proof fn lemma_walk_prefix(p: Seq<usize>, q: Seq<usize>, n: int)
    requires
        p.no_duplicates(),
        q.no_duplicates(),
        listed(p) == listed(q),
        p.len() >= 1,
        q.len() >= 1,
        p[0] == q[0],
        in_walk_order(p),
        in_walk_order(q),
        0 <= n <= p.len(),
        n <= q.len(),
    ensures
        forall|i: int| 0 <= i < n ==> p[i] == q[i],
    decreases n,
{
    if n >= 2 {
        lemma_walk_prefix(p, q, n - 1);
        let at = n - 1;
        let x = p[at] as int;
        let y = q[at] as int;
        assert(listed(p).contains(x));
        assert(listed(q).contains(y));
        let m = choose|m: int| 0 <= m < q.len() && #[trigger] q[m] == x;
        let w = choose|w: int| 0 <= w < p.len() && #[trigger] p[w] == y;
        if m < at {
            assert(p[m] == q[m]);
        }
        if w < at {
            assert(p[w] == q[w]);
        }
        if m != at {
            assert(w != at);
            assert(reached_from(p, at) < at);
            assert(reached_from(q, at) < at);
            lemma_same_reach(p, q, at, x);
            lemma_same_reach(q, p, at, y);
            assert(reached_from(q, m) == reached_from(p, at));
            assert(reached_from(p, w) == reached_from(q, at));
            lemma_first_neighbor(p, x, p.len() as int);
            lemma_first_neighbor(q, y, q.len() as int);
            assert(p[reached_from(p, at)] == q[reached_from(p, at)]);
            assert(p[reached_from(q, at)] == q[reached_from(q, at)]);
            assert(walk_before(q, at, m));
            assert(walk_before(p, at, w));
            assert(false);
        }
    } else if n == 1 {
    }
}

/// The cells of a component can be listed in the order of a walk from a
/// given cell in one way only.
pub proof fn lemma_walk_unique(p: Seq<usize>, q: Seq<usize>)
    requires
        p.no_duplicates(),
        q.no_duplicates(),
        listed(p) == listed(q),
        p.len() >= 1,
        q.len() >= 1,
        p[0] == q[0],
        in_walk_order(p),
        in_walk_order(q),
    ensures
        p == q,
{
    let n = if p.len() <= q.len() {
        p.len() as int
    } else {
        q.len() as int
    };
    lemma_walk_prefix(p, q, n);
    if p.len() > n {
        assert(listed(p).contains(p[n] as int));
        let m = choose|m: int| 0 <= m < q.len() && #[trigger] q[m] == p[n] as int;
        assert(p[m] == q[m]);
    }
    if q.len() > n {
        assert(listed(q).contains(q[n] as int));
        let m = choose|m: int| 0 <= m < p.len() && #[trigger] p[m] == q[n] as int;
        assert(p[m] == q[m]);
    }
    assert(p =~= q);
}

/// The region of a cell is the same whenever it is looked for.
pub proof fn lemma_region_unique(cells: Seq<i8>, first: RegionView, second: RegionView)
    requires
        first.is_component_of(cells),
        second.is_component_of(cells),
        first.first_position == second.first_position,
    ensures
        first == second,
{
    lemma_walk_unique(first.positions, second.positions);
}

/// The moves of a field are the same whenever they are looked for: two
/// lists of them, each as a scan finds them, are equal.
pub proof fn lemma_moves_unique(cells: Seq<i8>, a: Seq<RegionView>, b: Seq<RegionView>)
    requires
        is_grid(cells),
        are_moves(cells, a),
        are_moves(cells, b),
    ensures
        a == b,
{
    assert forall|k: int| 0 <= k < a.len() implies k < b.len() && (#[trigger] a[k]).first_position
        == b[k].first_position by {
        let m = lemma_move_found(cells, a, b, k);
        lemma_move_place(cells, a, b, k, m);
        let back = lemma_move_found(cells, b, a, m);
        lemma_move_place(cells, b, a, m, back);
        // `back` names the move of `a` with the first cell of `a[k]`.
        if back != k {
            if back < k {
                assert(scan_rank(a[back].first_position as int) < scan_rank(
                    a[k].first_position as int,
                ));
            } else {
                assert(scan_rank(a[k].first_position as int) < scan_rank(
                    a[back].first_position as int,
                ));
            }
        }
    }
    if a.len() > 0 {
        let m = lemma_move_found(cells, a, b, a.len() - 1);
    }
    if b.len() > a.len() {
        let last = b.len() - 1;
        let back = lemma_move_found(cells, b, a, last);
        lemma_move_place(cells, b, a, last, back);
    }
    assert forall|k: int| 0 <= k < a.len() implies a[k] == b[k] by {
        lemma_region_unique(cells, a[k], b[k]);
    }
    assert(a =~= b);
}

} // verus!
