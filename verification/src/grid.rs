//! The geometry of the playing field and the mathematical vocabulary in which
//! the rest of the crate states its contracts.
//!
//! A field is stored as 256 cells in rows of sixteen, of which the first
//! fifteen columns of the first fifteen rows are playable.  The cell in column
//! `x` of row `y` has index `16 * y + x`; row 0 is the base row towards which
//! tiles fall.  A cell holds a colour `0..=4` or [`EMPTY`].

use vstd::prelude::*;

verus! {

/// Width of one stored row; one more than the playable width, so that a
/// cell's row and column are the high and low four bits of its index.
pub const BOARD_SIZE: usize = 16;

/// Number of playable columns, and of playable rows.
pub const GAME_SIZE: usize = 15;

/// Number of stored cells, playable or not.
pub const TOTAL_CELLS: usize = 256;

/// Mask that takes the column out of a cell index.
pub const ROW_MASK: usize = 15;

/// Number of tile colours.
pub const COLOR_COUNT: usize = 5;

/// The value of a cell without a tile.
pub const EMPTY: i8 = -1;

/// Bonus for removing the last tile.
pub const CLEAR_BONUS: u32 = 1000;

/// No game earns more: what a full field of one colour earns when it is
/// removed tile by tile or all at once.
pub const SCORE_LIMIT: u32 = 51625;

/// Whether `i` is the index of a playable cell.
pub open spec fn in_area(i: int) -> bool {
    0 <= i < 256 && i % 16 < 15 && i / 16 < 15
}

/// Index of the cell in column `x` of row `y`.
pub open spec fn cell_index(x: int, y: int) -> int {
    16 * y + x
}

/// A field: 256 cells, the playable ones empty or coloured, the others empty.
pub open spec fn is_grid(cells: Seq<i8>) -> bool {
    &&& cells.len() == 256
    &&& forall|i: int|
        0 <= i < 256 ==> if in_area(i) {
            -1 <= #[trigger] cells[i] <= 4
        } else {
            cells[i] == -1
        }
}

/// Whether `i` is a playable cell of `cells` that holds a tile.
pub open spec fn occupied(cells: Seq<i8>, i: int) -> bool {
    in_area(i) && cells[i] >= 0
}

/// Two playable cells that share an edge.
pub open spec fn adjacent(i: int, j: int) -> bool {
    in_area(i) && in_area(j) && (j == i + 1 || j == i - 1 || j == i + 16 || j == i - 16)
}

/// A walk over playable cells of one value, each step to an adjacent cell.
pub open spec fn is_path(cells: Seq<i8>, p: Seq<int>) -> bool {
    &&& p.len() > 0
    &&& forall|k: int| 0 <= k < p.len() ==> in_area(#[trigger] p[k]) && cells[p[k]] == cells[p[0]]
    &&& forall|k: int| 0 <= k < p.len() - 1 ==> adjacent(#[trigger] p[k], p[k + 1])
}

/// Whether a walk over cells of one value leads from `a` to `b`.
pub open spec fn connected(cells: Seq<i8>, a: int, b: int) -> bool {
    exists|p: Seq<int>| is_path(cells, p) && p[0] == a && p.last() == b
}

/// The maximal 4-connected set of cells that hold the same value as `a` and
/// contains `a`.
pub open spec fn component(cells: Seq<i8>, a: int) -> Set<int> {
    Set::new(|b: int| connected(cells, a, b))
}

/// A set of cells that no step to an adjacent cell of equal value leaves.
pub open spec fn closed_under_steps(cells: Seq<i8>, s: Set<int>) -> bool {
    forall|i: int, j: int|
        s.contains(i) && #[trigger] adjacent(i, j) && cells[i] == cells[j] ==> s.contains(j)
}

/// The cells that `positions` lists, as a set.
pub open spec fn listed(positions: Seq<usize>) -> Set<int> {
    Set::new(|i: int| exists|k: int| 0 <= k < positions.len() && #[trigger] positions[k] == i)
}

/// The cells that `flags` marks, as a set.
pub open spec fn marked(flags: Seq<bool>) -> Set<int> {
    Set::new(|i: int| 0 <= i < flags.len() && flags[i])
}

/// The step that leads from a cell to its neighbour in direction `d`: to the
/// right, to the left, up, down.
pub open spec fn step(d: int) -> int {
    if d == 0 {
        1
    } else if d == 1 {
        -1
    } else if d == 2 {
        16
    } else {
        -16
    }
}

/// The direction of the step from `i` to `j`: 0 to the right, 1 to the left,
/// 2 up, 3 down; 4 where `j` is no such step away.
pub open spec fn direction(i: int, j: int) -> int {
    if j == i + 1 {
        0
    } else if j == i - 1 {
        1
    } else if j == i + 16 {
        2
    } else if j == i - 16 {
        3
    } else {
        4
    }
}

/// The place, among the first `n` of `positions`, of the first cell that is
/// adjacent to `j`; `n` where none is.
pub open spec fn first_neighbor(positions: Seq<usize>, j: int, n: int) -> int
    decreases n,
{
    if n <= 0 {
        0
    } else {
        let before = first_neighbor(positions, j, n - 1);
        if before < n - 1 {
            before
        } else if adjacent(positions[n - 1] as int, j) {
            n - 1
        } else {
            n
        }
    }
}

/// The place of the cell from which a walk through `positions` reached the
/// cell at place `k`: the first listed cell that it is adjacent to.
pub open spec fn reached_from(positions: Seq<usize>, k: int) -> int {
    first_neighbor(positions, positions[k] as int, positions.len() as int)
}

/// Whether the walk reached the cell at place `a` before the cell at place
/// `b`: from an earlier cell, or from the same cell in an earlier direction.
pub open spec fn walk_before(positions: Seq<usize>, a: int, b: int) -> bool {
    let pa = reached_from(positions, a);
    let pb = reached_from(positions, b);
    pa < pb || (pa == pb && direction(positions[pa] as int, positions[a] as int) < direction(
        positions[pb] as int,
        positions[b] as int,
    ))
}

/// Whether `positions` lists cells in the order in which a walk reaches
/// them that begins at the first, goes on from each cell in the order of
/// the list, and looks from each to the right, to the left, up and down:
/// every cell but the first comes after the first listed cell that it is
/// adjacent to, and the cells come in the order in which they were reached.
pub open spec fn in_walk_order(positions: Seq<usize>) -> bool {
    &&& forall|k: int| 1 <= k < positions.len() ==> #[trigger] reached_from(positions, k) < k
    &&& forall|a: int, b: int|
        1 <= a < b < positions.len() ==> #[trigger] walk_before(positions, a, b)
}

/// Place of the playable cell `i` in a scan that goes through the columns
/// from the left and through each column from the base row up.
pub open spec fn scan_rank(i: int) -> int {
    15 * (i % 16) + i / 16
}

/// Whether the cell `i` has an adjacent cell of the same value.
pub open spec fn has_partner(cells: Seq<i8>, i: int) -> bool {
    exists|j: int| #[trigger] adjacent(i, j) && cells[i] == cells[j]
}

/// Whether no move is left on the field: no two adjacent tiles have the same
/// colour.
pub open spec fn is_terminal(cells: Seq<i8>) -> bool {
    forall|i: int| #[trigger] occupied(cells, i) ==> !has_partner(cells, i)
}

/// The field without the tiles on the cells that `positions` lists.
pub open spec fn cleared(cells: Seq<i8>, positions: Seq<usize>) -> Seq<i8> {
    Seq::new(
        256,
        |i: int|
            if listed(positions).contains(i) {
                EMPTY
            } else {
                cells[i]
            },
    )
}

/// The leftmost column in which a listed cell lies; 15 for an empty list.
pub open spec fn min_column(positions: Seq<usize>) -> int
    decreases positions.len(),
{
    if positions.len() == 0 {
        15
    } else {
        let rest = min_column(positions.drop_last());
        let x = positions.last() as int % 16;
        if x < rest {
            x
        } else {
            rest
        }
    }
}

/// The rightmost column in which a listed cell lies; 0 for an empty list.
pub open spec fn max_column(positions: Seq<usize>) -> int
    decreases positions.len(),
{
    if positions.len() == 0 {
        0
    } else {
        let rest = max_column(positions.drop_last());
        let x = positions.last() as int % 16;
        if x > rest {
            x
        } else {
            rest
        }
    }
}

/// The lowest row in which a listed cell lies; 15 for an empty list.
pub open spec fn min_row(positions: Seq<usize>) -> int
    decreases positions.len(),
{
    if positions.len() == 0 {
        15
    } else {
        let rest = min_row(positions.drop_last());
        let y = positions.last() as int / 16;
        if y < rest {
            y
        } else {
            rest
        }
    }
}

/// Column `x` of the field, from the base row up.
pub open spec fn column(cells: Seq<i8>, x: int) -> Seq<i8> {
    Seq::new(15, |y: int| cells[16 * y + x])
}

/// The tiles among `s`, in their order.
pub open spec fn tiles_of(s: Seq<i8>) -> Seq<i8>
    decreases s.len(),
{
    if s.len() == 0 {
        Seq::empty()
    } else if s.last() >= 0 {
        tiles_of(s.drop_last()).push(s.last())
    } else {
        tiles_of(s.drop_last())
    }
}

/// The cells `s` after their tiles have fallen towards the front: the tiles
/// in their order, then as many empty cells as there were.
pub open spec fn packed(s: Seq<i8>) -> Seq<i8> {
    Seq::new(
        s.len(),
        |k: int|
            if k < tiles_of(s).len() {
                tiles_of(s)[k]
            } else {
                EMPTY
            },
    )
}

/// The field after the tiles in the columns `sx..=ex` have fallen, each in
/// its column, as far as row `sy`; the rows below `sy` and the other columns
/// stay as they are.
pub open spec fn fallen(cells: Seq<i8>, sx: int, sy: int, ex: int) -> Seq<i8> {
    Seq::new(
        256,
        |i: int|
            if in_area(i) && sx <= i % 16 <= ex && sy <= i / 16 {
                packed(column(cells, i % 16).skip(sy))[i / 16 - sy]
            } else {
                cells[i]
            },
    )
}

/// Whether column `x` of the field holds no tile.
pub open spec fn column_empty(cells: Seq<i8>, x: int) -> bool {
    forall|y: int| 0 <= y < 15 ==> #[trigger] cells[16 * y + x] < 0
}

/// The columns among `from..to` that hold a tile, from the left.
pub open spec fn kept_columns(cells: Seq<i8>, from: int, to: int) -> Seq<int>
    decreases to - from,
{
    if to <= from {
        Seq::empty()
    } else if column_empty(cells, to - 1) {
        kept_columns(cells, from, to - 1)
    } else {
        kept_columns(cells, from, to - 1).push(to - 1)
    }
}

/// The field after the columns from `sx` on that hold a tile have moved
/// left, in their order, to stand side by side from column `sx`; the columns
/// left of `sx` stay as they are.
pub open spec fn closed_up(cells: Seq<i8>, sx: int) -> Seq<i8> {
    let kept = kept_columns(cells, sx, 15);
    Seq::new(
        256,
        |i: int|
            if in_area(i) && sx <= i % 16 {
                if i % 16 - sx < kept.len() {
                    cells[16 * (i / 16) + kept[i % 16 - sx]]
                } else {
                    EMPTY
                }
            } else {
                cells[i]
            },
    )
}

/// The field after the tiles on the listed cells have been removed: the
/// tiles above them fall, and columns left without a tile are closed up.
/// Both reach no further than the removed cells do: falling from their
/// lowest row up in the columns between their leftmost and rightmost,
/// closing up from their leftmost column on.
pub open spec fn after_removal(cells: Seq<i8>, positions: Seq<usize>) -> Seq<i8> {
    let sx = min_column(positions);
    let ex = max_column(positions);
    let sy = min_row(positions);
    closed_up(fallen(cleared(cells, positions), sx, sy, ex), sx)
}

/// Whether no tile of column `x` has an empty cell below it.
pub open spec fn column_settled(cells: Seq<i8>, x: int) -> bool {
    forall|y1: int, y2: int|
        0 <= y1 < y2 < 15 && #[trigger] cells[16 * y2 + x] >= 0 ==> #[trigger] cells[16 * y1 + x]
            >= 0
}

/// Whether the field is at rest: no tile has an empty cell below it, and no
/// column that holds a tile has a column without tiles to its left.
pub open spec fn is_settled(cells: Seq<i8>) -> bool {
    &&& forall|x: int| 0 <= x < 15 ==> #[trigger] column_settled(cells, x)
    &&& forall|x1: int, x2: int|
        0 <= x1 < x2 < 15 && !#[trigger] column_empty(cells, x2) ==> !#[trigger] column_empty(
            cells,
            x1,
        )
}

/// Number of cells of `s` that hold `c`.
pub open spec fn count(s: Seq<i8>, c: int) -> nat
    decreases s.len(),
{
    if s.len() == 0 {
        0
    } else {
        count(s.drop_last(), c) + if s.last() == c {
            1nat
        } else {
            0nat
        }
    }
}

/// Number of tiles on a field.
pub open spec fn tiles(cells: Seq<i8>) -> nat {
    count(cells, 0) + count(cells, 1) + count(cells, 2) + count(cells, 3) + count(cells, 4)
}

/// An upper bound on the points that `n` tiles can still earn: a region
/// removed from them earns less than the square of its size, and the last
/// one the bonus.
pub open spec fn earnable(n: nat) -> nat {
    n * n + if n > 0 {
        1000nat
    } else {
        0nat
    }
}

/// Points for removing a region of `size` tiles.
pub open spec fn region_points(size: int) -> int {
    if size >= 2 {
        (size - 2) * (size - 2)
    } else {
        0
    }
}

/// The cell in a playable column and row is playable, and its index tells
/// both.
pub proof fn lemma_index_in_area(x: int, y: int)
    requires
        0 <= x < 15,
        0 <= y < 15,
    ensures
        in_area(cell_index(x, y)),
        cell_index(x, y) % 16 == x,
        cell_index(x, y) / 16 == y,
{
}

/// A single cell is a walk from itself to itself.
pub proof fn lemma_connected_refl(cells: Seq<i8>, a: int)
    requires
        in_area(a),
    ensures
        connected(cells, a, a),
        component(cells, a).contains(a),
{
    let p = seq![a];
    assert(is_path(cells, p));
    assert(p[0] == a && p.last() == a);
}

/// A walk can be continued by one step to an adjacent cell of the same value.
pub proof fn lemma_connected_step(cells: Seq<i8>, a: int, b: int, c: int)
    requires
        connected(cells, a, b),
        adjacent(b, c),
        cells[b] == cells[c],
    ensures
        connected(cells, a, c),
{
    let p = choose|p: Seq<int>| is_path(cells, p) && p[0] == a && p.last() == b;
    let q = p.push(c);
    assert forall|k: int| 0 <= k < q.len() implies in_area(#[trigger] q[k]) && cells[q[k]]
        == cells[q[0]] by {
        if k < p.len() {
            assert(q[k] == p[k]);
        }
    }
    assert forall|k: int| 0 <= k < q.len() - 1 implies adjacent(#[trigger] q[k], q[k + 1]) by {
        if k < p.len() - 1 {
            assert(q[k] == p[k] && q[k + 1] == p[k + 1]);
        }
    }
    assert(is_path(cells, q));
    assert(q[0] == a && q.last() == c);
}

/// Every cell on a walk has the value of the walk's first cell.
pub proof fn lemma_connected_same_value(cells: Seq<i8>, a: int, b: int)
    requires
        connected(cells, a, b),
    ensures
        in_area(a),
        in_area(b),
        cells[a] == cells[b],
{
    let p = choose|p: Seq<int>| is_path(cells, p) && p[0] == a && p.last() == b;
    assert(in_area(p[0]));
    assert(in_area(p[p.len() - 1]));
}

/// A cell has a partner exactly if its component holds another cell.
pub proof fn lemma_component_has_partner(cells: Seq<i8>, a: int)
    requires
        in_area(a),
    ensures
        has_partner(cells, a) <==> exists|b: int| b != a && component(cells, a).contains(b),
{
    if has_partner(cells, a) {
        let j = choose|j: int| #[trigger] adjacent(a, j) && cells[a] == cells[j];
        lemma_connected_refl(cells, a);
        lemma_connected_step(cells, a, a, j);
        assert(j != a && component(cells, a).contains(j));
    }
    if exists|b: int| b != a && component(cells, a).contains(b) {
        let b = choose|b: int| b != a && component(cells, a).contains(b);
        let p = choose|p: Seq<int>| is_path(cells, p) && p[0] == a && p.last() == b;
        assert(p.len() >= 2);
        assert(adjacent(p[0], p[0int + 1]));
        assert(cells[p[1]] == cells[p[0]]);
    }
}

/// A closed set that holds the first cell of a walk holds every cell of it.
pub proof fn lemma_closed_holds_walk(cells: Seq<i8>, s: Set<int>, p: Seq<int>, k: int)
    requires
        is_path(cells, p),
        closed_under_steps(cells, s),
        s.contains(p[0]),
        0 <= k < p.len(),
    ensures
        s.contains(p[k]),
    decreases k,
{
    if k > 0 {
        lemma_closed_holds_walk(cells, s, p, k - 1);
        assert(adjacent(p[k - 1], p[k - 1 + 1]));
        assert(cells[p[k - 1]] == cells[p[0]]);
        assert(cells[p[k]] == cells[p[0]]);
    }
}

/// A closed set that holds the last cell of a walk holds every cell of it.
pub proof fn lemma_closed_holds_walk_back(cells: Seq<i8>, s: Set<int>, p: Seq<int>, k: int)
    requires
        is_path(cells, p),
        closed_under_steps(cells, s),
        s.contains(p.last()),
        0 <= k < p.len(),
    ensures
        s.contains(p[k]),
    decreases p.len() - k,
{
    if k < p.len() - 1 {
        lemma_closed_holds_walk_back(cells, s, p, k + 1);
        assert(adjacent(p[k], p[k + 1]));
        assert(adjacent(p[k + 1], p[k]));
        assert(cells[p[k]] == cells[p[0]]);
        assert(cells[p[k + 1]] == cells[p[0]]);
    }
}

/// A closed set holds the whole component of each of its cells.
pub proof fn lemma_closed_holds_component(cells: Seq<i8>, s: Set<int>, a: int, b: int)
    requires
        closed_under_steps(cells, s),
        connected(cells, a, b),
    ensures
        s.contains(a) <==> s.contains(b),
{
    let p = choose|p: Seq<int>| is_path(cells, p) && p[0] == a && p.last() == b;
    if s.contains(a) {
        lemma_closed_holds_walk(cells, s, p, p.len() - 1);
    }
    if s.contains(b) {
        lemma_closed_holds_walk_back(cells, s, p, 0);
    }
}

/// A component is closed.
pub proof fn lemma_component_closed(cells: Seq<i8>, a: int)
    ensures
        closed_under_steps(cells, component(cells, a)),
{
    assert forall|i: int, j: int|
        component(cells, a).contains(i) && #[trigger] adjacent(i, j) && cells[i]
            == cells[j] implies component(cells, a).contains(j) by {
        lemma_connected_step(cells, a, i, j);
    }
}

/// Connection is symmetric, so two cells have the same component or disjoint
/// ones.
pub proof fn lemma_component_shared(cells: Seq<i8>, a: int, b: int)
    requires
        connected(cells, a, b),
    ensures
        component(cells, a) =~= component(cells, b),
        connected(cells, b, a),
{
    lemma_connected_same_value(cells, a, b);
    lemma_component_closed(cells, a);
    lemma_component_closed(cells, b);
    lemma_connected_refl(cells, a);
    lemma_connected_refl(cells, b);
    // b's component is closed and holds b, hence a.
    lemma_closed_holds_component(cells, component(cells, b), a, b);
    assert(connected(cells, b, a));
    assert forall|c: int| component(cells, a).contains(c) <==> component(cells, b).contains(
        c,
    ) by {
        if component(cells, a).contains(c) {
            lemma_closed_holds_component(cells, component(cells, b), a, c);
        }
        if component(cells, b).contains(c) {
            lemma_closed_holds_component(cells, component(cells, a), b, c);
        }
    }
}

/// Writing `v` into cell `i` changes the count of the old and the new value
/// by one and no other.
pub proof fn lemma_count_update(s: Seq<i8>, i: int, v: i8, c: int)
    requires
        0 <= i < s.len(),
    ensures
        count(s.update(i, v), c) == count(s, c) - (if s[i] == c {
            1int
        } else {
            0int
        }) + (if v == c {
            1int
        } else {
            0int
        }),
    decreases s.len(),
{
    let t = s.update(i, v);
    if i == s.len() - 1 {
        assert(t.drop_last() =~= s.drop_last());
    } else {
        assert(t.drop_last() =~= s.drop_last().update(i, v));
        lemma_count_update(s.drop_last(), i, v, c);
    }
}

/// Moving a tile to an empty cell changes no count of a colour.
pub proof fn lemma_count_move(s: Seq<i8>, from: int, to: int, c: int)
    requires
        0 <= from < s.len(),
        0 <= to < s.len(),
        from != to,
        s[to] == EMPTY,
        c >= 0,
    ensures
        count(s.update(to, s[from]).update(from, EMPTY), c) == count(s, c),
{
    lemma_count_update(s, to, s[from], c);
    lemma_count_update(s.update(to, s[from]), from, EMPTY, c);
}

/// Taking distinct tiles of one colour off a field lowers the count of that
/// colour by their number and no other count of a colour.
pub proof fn lemma_cleared_count(cells: Seq<i8>, positions: Seq<usize>, color: i8, c: int)
    requires
        cells.len() == 256,
        positions.no_duplicates(),
        forall|k: int|
            0 <= k < positions.len() ==> (#[trigger] positions[k]) < 256 && cells[positions[k] as int]
                == color,
        color >= 0,
        c >= 0,
    ensures
        count(cleared(cells, positions), c) == count(cells, c) - if c == color {
            positions.len() as int
        } else {
            0
        },
    decreases positions.len(),
{
    if positions.len() == 0 {
        assert(cleared(cells, positions) =~= cells);
    } else {
        let front = positions.drop_last();
        let last = positions.last() as int;
        assert forall|k: int| 0 <= k < front.len() implies (#[trigger] front[k]) < 256
            && cells[front[k] as int] == color by {
            assert(front[k] == positions[k]);
        }
        lemma_cleared_count(cells, front, color, c);
        let mid = cleared(cells, front);
        if listed(front).contains(last) {
            let a = choose|a: int| 0 <= a < front.len() && #[trigger] front[a] == last;
            assert(positions[a] == positions[positions.len() - 1]);
        }
        assert(cells[positions[positions.len() - 1] as int] == color);
        assert(mid[last] == color);
        assert forall|i: int| 0 <= i < 256 implies cleared(cells, positions)[i] == mid.update(
            last,
            EMPTY,
        )[i] by {
            if listed(front).contains(i) {
                let a = choose|a: int| 0 <= a < front.len() && #[trigger] front[a] == i;
                assert(positions[a] == i);
            }
            if i == last {
                assert(positions[positions.len() - 1] == i);
            }
            if listed(positions).contains(i) && i != last {
                let a = choose|a: int| 0 <= a < positions.len() && #[trigger] positions[a] == i;
                assert(front[a] == i);
            }
        }
        assert(cleared(cells, positions) =~= mid.update(last, EMPTY));
        lemma_count_update(mid, last, EMPTY, c);
    }
}

/// A score that leaves room for what `t` tiles can earn leaves `t` small.
pub proof fn lemma_tiles_bound(score: nat, t: nat)
    requires
        score + earnable(t) <= SCORE_LIMIT,
    ensures
        t <= 227,
{
    assert(t <= 227) by (nonlinear_arith)
        requires
            t * t <= 51625,
    ;
}

/// Where no cell holds `c`, the count of `c` is zero, and the other way round.
pub proof fn lemma_count_zero(s: Seq<i8>, c: int)
    ensures
        count(s, c) == 0 <==> forall|i: int| 0 <= i < s.len() ==> s[i] != c,
    decreases s.len(),
{
    if s.len() > 0 {
        lemma_count_zero(s.drop_last(), c);
        if count(s, c) == 0 {
            assert forall|i: int| 0 <= i < s.len() implies s[i] != c by {
                if i < s.len() - 1 {
                    assert(s.drop_last()[i] == s[i]);
                }
            }
        }
        if forall|i: int| 0 <= i < s.len() ==> s[i] != c {
            assert forall|i: int| 0 <= i < s.drop_last().len() implies s.drop_last()[i] != c by {
                assert(s.drop_last()[i] == s[i]);
            }
        }
    }
}

/// A list of distinct numbers below `n` has at most `n` entries.
pub proof fn lemma_distinct_bounded(s: Seq<usize>, n: nat)
    requires
        s.no_duplicates(),
        forall|k: int| 0 <= k < s.len() ==> #[trigger] s[k] < n,
    ensures
        s.len() <= n,
    decreases n,
{
    if n == 0 {
        if s.len() > 0 {
            assert(s[0] < n);
        }
    } else if exists|k: int| 0 <= k < s.len() && #[trigger] s[k] == n - 1 {
        let k = choose|k: int| 0 <= k < s.len() && #[trigger] s[k] == n - 1;
        let t = s.remove(k);
        assert forall|a: int| 0 <= a < t.len() implies #[trigger] t[a] < n - 1 by {
            let b = if a < k {
                a
            } else {
                a + 1
            };
            assert(t[a] == s[b]);
            assert(s[b] < n);
            assert(b != k);
        }
        assert forall|a: int, b: int| 0 <= a < t.len() && 0 <= b < t.len() && a != b implies t[a]
            != t[b] by {
            let a2 = if a < k {
                a
            } else {
                a + 1
            };
            let b2 = if b < k {
                b
            } else {
                b + 1
            };
            assert(t[a] == s[a2] && t[b] == s[b2]);
        }
        lemma_distinct_bounded(t, (n - 1) as nat);
    } else {
        assert forall|a: int| 0 <= a < s.len() implies #[trigger] s[a] < n - 1 by {
            assert(s[a] < n);
        }
        lemma_distinct_bounded(s, (n - 1) as nat);
    }
}

} // verus!
