//! The reasoning behind the collection of a region: why a breadth-first
//! walk over adjacent cells of one value ends with the whole component.

use vstd::prelude::*;
use crate::grid::{
    adjacent, closed_under_steps, component, connected, direction, first_neighbor, in_area,
    in_walk_order, lemma_closed_holds_component, lemma_connected_same_value, lemma_connected_step,
    listed, reached_from, step, walk_before,
};

verus! {

/// The state of a breadth-first collection of the component of `start`:
/// `positions` lists distinct cells of the component, `start` first, and
/// `flags` marks them besides the cells that `before` marked, none of which
/// is in the component.
pub open spec fn fill_state(
    cells: Seq<i8>,
    start: int,
    before: Seq<bool>,
    flags: Seq<bool>,
    positions: Seq<usize>,
) -> bool {
    &&& before.len() == 256
    &&& flags.len() == 256
    &&& positions.len() >= 1
    &&& positions[0] == start
    &&& positions.no_duplicates()
    &&& forall|k: int|
        0 <= k < positions.len() ==> in_area(#[trigger] positions[k] as int) && connected(
            cells,
            start,
            positions[k] as int,
        )
    &&& forall|i: int|
        0 <= i < 256 ==> (#[trigger] flags[i] <==> (before[i] || listed(positions).contains(i)))
    &&& forall|i: int| 0 <= i < 256 && #[trigger] before[i] ==> !connected(cells, start, i)
}

/// The cell `j` needs no visit any more: it is not playable, or of another
/// value than `color`, or marked.
pub open spec fn seen(cells: Seq<i8>, flags: Seq<bool>, j: int, color: i8) -> bool {
    in_area(j) && cells[j] == color ==> flags[j]
}

/// Marking and appending an unmarked neighbour of a listed cell keeps the
/// state of the collection.
pub proof fn lemma_fill_grows(
    cells: Seq<i8>,
    start: int,
    before: Seq<bool>,
    flags: Seq<bool>,
    positions: Seq<usize>,
    from: int,
    j: int,
)
    requires
        fill_state(cells, start, before, flags, positions),
        listed(positions).contains(from),
        adjacent(from, j),
        cells[j] == cells[start],
        !flags[j],
    ensures
        fill_state(cells, start, before, flags.update(j, true), positions.push(j as usize)),
{
    let k = choose|k: int| 0 <= k < positions.len() && #[trigger] positions[k] == from;
    assert(connected(cells, start, positions[k] as int));
    lemma_connected_same_value(cells, start, from);
    lemma_connected_step(cells, start, from, j);
    let grown = positions.push(j as usize);
    let raised = flags.update(j, true);
    assert(!listed(positions).contains(j));
    assert(grown.no_duplicates()) by {
        assert forall|a: int, b: int| 0 <= a < grown.len() && 0 <= b < grown.len() && a != b implies grown[a]
            != grown[b] by {
            if a < positions.len() && b < positions.len() {
            } else if a < positions.len() {
                assert(positions[a] != j);
            } else {
                assert(positions[b] != j);
            }
        }
    }
    assert forall|i: int| 0 <= i < 256 implies (#[trigger] raised[i] <==> (before[i] || listed(
        grown,
    ).contains(i))) by {
        if listed(positions).contains(i) {
            let a = choose|a: int| 0 <= a < positions.len() && #[trigger] positions[a] == i;
            assert(grown[a] == i);
        }
        if i == j {
            assert(grown[grown.len() - 1] == j);
        }
        if listed(grown).contains(i) && i != j {
            let a = choose|a: int| 0 <= a < grown.len() && #[trigger] grown[a] == i;
            assert(positions[a] == i);
        }
    }
}

/// When every neighbour of every listed cell has been seen, the list holds
/// the component of `start` and nothing else.
pub proof fn lemma_fill_complete(
    cells: Seq<i8>,
    start: int,
    before: Seq<bool>,
    flags: Seq<bool>,
    positions: Seq<usize>,
)
    requires
        in_area(start),
        fill_state(cells, start, before, flags, positions),
        forall|k: int, e: int|
            0 <= k < positions.len() && 0 <= e < 4 ==> #[trigger] seen(
                cells,
                flags,
                positions[k] + step(e),
                cells[start],
            ),
    ensures
        listed(positions) =~= component(cells, start),
        forall|i: int|
            0 <= i < 256 ==> (#[trigger] flags[i] <==> (before[i] || component(cells, start).contains(
                i,
            ))),
{
    let found = listed(positions);
    assert(closed_under_steps(cells, found)) by {
        assert forall|i: int, j: int|
            found.contains(i) && #[trigger] adjacent(i, j) && cells[i] == cells[j] implies found.contains(
            j,
        ) by {
            let k = choose|k: int| 0 <= k < positions.len() && #[trigger] positions[k] == i;
            assert(connected(cells, start, positions[k] as int));
            lemma_connected_same_value(cells, start, i);
            lemma_connected_step(cells, start, i, j);
            let e: int = if j == i + 1 {
                0
            } else if j == i - 1 {
                1
            } else if j == i + 16 {
                2
            } else {
                3
            };
            assert(seen(cells, flags, positions[k] + step(e), cells[start]));
            assert(flags[j]);
        }
    }
    assert(positions[0] == start);
    assert(found.contains(start));
    assert forall|b: int| found.contains(b) <==> component(cells, start).contains(b) by {
        if found.contains(b) {
            let k = choose|k: int| 0 <= k < positions.len() && #[trigger] positions[k] == b;
            assert(connected(cells, start, positions[k] as int));
        }
        if component(cells, start).contains(b) {
            lemma_closed_holds_component(cells, found, start, b);
        }
    }
}

/// The state of the order of a walk while the cell at place `h` is looked
/// at and its first `d` directions are done: every cell but the first was
/// reached from a cell before `h`, or from the cell at `h` in one of those
/// directions, and the cells come in the order in which they were reached.
pub open spec fn walked(positions: Seq<usize>, h: int, d: int) -> bool {
    &&& forall|k: int| 1 <= k < positions.len() ==> #[trigger] walk_reached(positions, k, h, d)
    &&& forall|a: int, b: int|
        1 <= a < b < positions.len() ==> #[trigger] walk_before(positions, a, b)
}

/// The cell at place `k` was reached from a cell before `h`, or from the
/// cell at `h` in one of its first `d` directions.
pub open spec fn walk_reached(positions: Seq<usize>, k: int, h: int, d: int) -> bool {
    let p = reached_from(positions, k);
    p < k && (p < h || (p == h && direction(positions[h] as int, positions[k] as int) < d))
}

/// What the place of the first neighbour is.
pub proof fn lemma_first_neighbor(positions: Seq<usize>, j: int, n: int)
    requires
        0 <= n <= positions.len(),
    ensures
        0 <= first_neighbor(positions, j, n) <= n,
        first_neighbor(positions, j, n) < n ==> adjacent(
            positions[first_neighbor(positions, j, n)] as int,
            j,
        ),
        forall|q: int|
            0 <= q < first_neighbor(positions, j, n) ==> !adjacent(#[trigger] positions[q] as int, j),
    decreases n,
{
    if n > 0 {
        lemma_first_neighbor(positions, j, n - 1);
    }
}

/// The first neighbour among the first `n` cells does not depend on the
/// cells after them.
pub proof fn lemma_first_neighbor_push(positions: Seq<usize>, x: usize, j: int, n: int)
    requires
        0 <= n <= positions.len(),
    ensures
        first_neighbor(positions.push(x), j, n) == first_neighbor(positions, j, n),
    decreases n,
{
    if n > 0 {
        lemma_first_neighbor_push(positions, x, j, n - 1);
        assert(positions.push(x)[n - 1] == positions[n - 1]);
    }
}

/// A cell that the walk appends was reached from the cell it is looking at,
/// and in the direction it is looking in, if no cell before is adjacent to
/// it.
pub proof fn lemma_walk_grows(positions: Seq<usize>, h: int, d: int, j: int)
    requires
        walked(positions, h, d),
        0 <= h < positions.len(),
        0 <= d < 4,
        0 <= j < usize::MAX,
        j == positions[h] + step(d),
        adjacent(positions[h] as int, j),
        forall|p: int| 0 <= p < h ==> !adjacent(#[trigger] positions[p] as int, j),
    ensures
        walked(positions.push(j as usize), h, d + 1),
{
    let grown = positions.push(j as usize);
    let n = positions.len() as int;
    assert forall|k: int| 0 <= k < n implies reached_from(grown, k) == reached_from(positions, k)
        || reached_from(positions, k) >= n by {
        lemma_first_neighbor_push(positions, j as usize, positions[k] as int, n);
        assert(grown[k] == positions[k]);
    }
    // The new cell was reached from the cell at `h`.
    lemma_first_neighbor_push(positions, j as usize, j, n);
    lemma_first_neighbor(positions, j, n);
    let r = first_neighbor(positions, j, n);
    if r > h {
        assert(!adjacent(positions[h] as int, j));
    }
    assert(r == h);
    assert(grown[n] == j);
    assert(reached_from(grown, n) == h);
    assert(direction(positions[h] as int, j) == d);
    assert forall|k: int| 1 <= k < grown.len() implies #[trigger] walk_reached(grown, k, h, d + 1) by {
        if k < n {
            assert(walk_reached(positions, k, h, d));
            assert(grown[k] == positions[k] && grown[h] == positions[h]);
        }
    }
    assert forall|a: int, b: int| 1 <= a < b < grown.len() implies #[trigger] walk_before(
        grown,
        a,
        b,
    ) by {
        assert(walk_reached(positions, a, h, d));
        assert(grown[a] == positions[a]);
        let pa = reached_from(positions, a);
        lemma_first_neighbor(positions, positions[a] as int, n);
        assert(grown[pa] == positions[pa]);
        if b < n {
            assert(walk_before(positions, a, b));
            assert(walk_reached(positions, b, h, d));
            assert(grown[b] == positions[b]);
            let pb = reached_from(positions, b);
            lemma_first_neighbor(positions, positions[b] as int, n);
            assert(grown[pb] == positions[pb]);
        } else {
            assert(grown[h] == positions[h]);
        }
    }
}

/// The walk goes on with the next direction, or with the next cell.
pub proof fn lemma_walk_goes_on(positions: Seq<usize>, h: int, d: int)
    requires
        walked(positions, h, d),
        0 <= d <= 4,
    ensures
        d < 4 ==> walked(positions, h, d + 1),
        d == 4 ==> walked(positions, h + 1, 0),
        in_walk_order(positions),
{
    assert forall|k: int| 1 <= k < positions.len() implies #[trigger] reached_from(positions, k)
        < k by {
        assert(walk_reached(positions, k, h, d));
    }
    if d < 4 {
        assert forall|k: int| 1 <= k < positions.len() implies #[trigger] walk_reached(
            positions,
            k,
            h,
            d + 1,
        ) by {
            assert(walk_reached(positions, k, h, d));
        }
    } else {
        assert forall|k: int| 1 <= k < positions.len() implies #[trigger] walk_reached(
            positions,
            k,
            h + 1,
            0,
        ) by {
            assert(walk_reached(positions, k, h, d));
        }
    }
}

} // verus!
