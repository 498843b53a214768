//! The reasoning behind the scan for the moves of a field: what holds of
//! the marks and of the regions found while the scan goes from cell to cell.

use vstd::prelude::*;
use crate::grid::{
    adjacent, closed_under_steps, component, connected, has_partner, in_area,
    lemma_closed_holds_component, lemma_component_closed, lemma_connected_refl,
    lemma_connected_same_value, lemma_connected_step, listed, marked, occupied, scan_rank,
};
use crate::region::{are_moves_of, Region, views};

verus! {

/// The marks of a scan before the cell of rank `rank`: they cover whole
/// components of tiles, all tiles of lower rank among them.
pub open spec fn marks_ok(cells: Seq<i8>, flags: Seq<bool>, rank: int) -> bool {
    &&& flags.len() == 256
    &&& closed_under_steps(cells, marked(flags))
    &&& forall|i: int| 0 <= i < 256 && #[trigger] flags[i] ==> occupied(cells, i)
    &&& forall|i: int| #[trigger] occupied(cells, i) && scan_rank(i) < rank ==> flags[i]
}

/// Each region found is a move, begun before `rank` at the first of its
/// cells in scan order, and all its cells are marked.
pub open spec fn found_ok(cells: Seq<i8>, flags: Seq<bool>, regions: Seq<Region>, rank: int) -> bool {
    forall|k: int| 0 <= k < regions.len() ==> found_one(cells, flags, #[trigger] regions[k], rank)
}

/// The region is a move, begun before `rank` at the first of its cells in
/// scan order, and all its cells are marked.
pub open spec fn found_one(cells: Seq<i8>, flags: Seq<bool>, region: Region, rank: int) -> bool {
    &&& region@.is_move_on(cells)
    &&& scan_rank(region@.first_position as int) < rank
    &&& forall|i: int| #[trigger]
        listed(region@.positions).contains(i) ==> 0 <= i < 256 && flags[i] && scan_rank(
            region@.first_position as int,
        ) <= scan_rank(i)
}

/// The regions come in scan order of their first cells.
pub open spec fn sorted_ok(regions: Seq<Region>) -> bool {
    forall|a: int, b: int|
        0 <= a < b < regions.len() ==> scan_rank(
            (#[trigger] regions[a])@.first_position as int,
        ) < scan_rank((#[trigger] regions[b])@.first_position as int)
}

/// No two regions share a cell.
pub open spec fn disjoint_ok(regions: Seq<Region>) -> bool {
    forall|a: int, b: int, i: int|
        0 <= a < b < regions.len() && #[trigger] listed(regions[a]@.positions).contains(i)
            ==> !#[trigger] listed(regions[b]@.positions).contains(i)
}

/// Every marked tile that has a partner lies in one of the regions.
pub open spec fn covered_ok(cells: Seq<i8>, flags: Seq<bool>, regions: Seq<Region>) -> bool {
    forall|i: int|
        0 <= i < 256 && #[trigger] flags[i] && has_partner(cells, i) ==> in_some(regions, i)
}

/// Whether the cell `i` lies in one of the regions.
pub open spec fn in_some(regions: Seq<Region>, i: int) -> bool {
    exists|k: int| 0 <= k < regions.len() && #[trigger] listed(regions[k]@.positions).contains(i)
}

/// The state of a scan for the moves of a field, before the cell of rank
/// `rank`.
pub open spec fn scan_state(cells: Seq<i8>, flags: Seq<bool>, regions: Seq<Region>, rank: int) -> bool {
    &&& marks_ok(cells, flags, rank)
    &&& found_ok(cells, flags, regions, rank)
    &&& sorted_ok(regions)
    &&& disjoint_ok(regions)
    &&& covered_ok(cells, flags, regions)
}

/// Marks that cover whole components only, and not the cell `at`, cover no
/// cell of the component of `at`.
pub proof fn lemma_marks_miss(cells: Seq<i8>, flags: Seq<bool>, at: int)
    requires
        flags.len() == 256,
        closed_under_steps(cells, marked(flags)),
        0 <= at < 256,
        !flags[at],
    ensures
        forall|i: int| 0 <= i < 256 && flags[i] ==> !connected(cells, at, i),
{
    assert forall|i: int| 0 <= i < 256 && flags[i] implies !connected(cells, at, i) by {
        if connected(cells, at, i) {
            assert(marked(flags).contains(i));
            lemma_closed_holds_component(cells, marked(flags), at, i);
            assert(marked(flags).contains(at));
        }
    }
}

/// The marks after the component of the unmarked tile `at` was collected.
pub open spec fn marks_grown(cells: Seq<i8>, flags: Seq<bool>, raised: Seq<bool>, at: int) -> bool {
    &&& raised.len() == 256
    &&& forall|i: int|
        0 <= i < 256 ==> (#[trigger] raised[i] <==> (flags[i] || component(cells, at).contains(i)))
}

/// What holds of the marks however the scan deals with the region found at
/// `at`.
pub proof fn lemma_marks_grown(cells: Seq<i8>, flags: Seq<bool>, raised: Seq<bool>, at: int)
    requires
        flags.len() == 256,
        closed_under_steps(cells, marked(flags)),
        forall|i: int| 0 <= i < 256 && #[trigger] flags[i] ==> occupied(cells, i),
        occupied(cells, at),
        marks_grown(cells, flags, raised, at),
    ensures
        closed_under_steps(cells, marked(raised)),
        forall|i: int| 0 <= i < 256 && #[trigger] raised[i] ==> occupied(cells, i),
        raised[at],
{
    lemma_component_closed(cells, at);
    lemma_connected_refl(cells, at);
    assert forall|i: int, j: int|
        marked(raised).contains(i) && #[trigger] adjacent(i, j) && cells[i] == cells[j] implies marked(
        raised,
    ).contains(j) by {
        if flags[i] {
            assert(marked(flags).contains(i));
            assert(marked(flags).contains(j));
        } else {
            assert(component(cells, at).contains(i));
            assert(component(cells, at).contains(j));
        }
    }
    assert forall|i: int| 0 <= i < 256 && #[trigger] raised[i] implies occupied(cells, i) by {
        if !flags[i] {
            lemma_connected_same_value(cells, at, i);
        }
    }
}

/// The marks after the scan has dealt with the cell `at`.
pub proof fn lemma_marks_step(cells: Seq<i8>, flags: Seq<bool>, raised: Seq<bool>, at: int)
    requires
        in_area(at),
        marks_ok(cells, flags, scan_rank(at)),
        raised == flags && (flags[at] || cells[at] < 0) || occupied(cells, at) && marks_grown(
            cells,
            flags,
            raised,
            at,
        ),
    ensures
        marks_ok(cells, raised, scan_rank(at) + 1),
        forall|i: int| 0 <= i < 256 && flags[i] ==> raised[i],
{
    if raised == flags && (flags[at] || cells[at] < 0) {
    } else {
        lemma_marks_grown(cells, flags, raised, at);
    }
    assert forall|i: int| #[trigger] occupied(cells, i) && scan_rank(i) < scan_rank(at) + 1 implies raised[i] by {
        if scan_rank(i) == scan_rank(at) {
            assert(i == at);
        }
    }
}

/// Regions found stay found when marks are added and the scan moves on.
pub proof fn lemma_found_keeps(
    cells: Seq<i8>,
    flags: Seq<bool>,
    raised: Seq<bool>,
    regions: Seq<Region>,
    rank: int,
)
    requires
        found_ok(cells, flags, regions, rank),
        forall|i: int| 0 <= i < 256 && flags[i] ==> raised[i],
    ensures
        found_ok(cells, raised, regions, rank + 1),
{
    assert forall|k: int| 0 <= k < regions.len() implies found_one(
        cells,
        raised,
        #[trigger] regions[k],
        rank + 1,
    ) by {
        assert(found_one(cells, flags, regions[k], rank));
    }
}

/// The scan goes on past a cell that is empty or marked.
pub proof fn lemma_scan_passes(cells: Seq<i8>, flags: Seq<bool>, regions: Seq<Region>, at: int)
    requires
        in_area(at),
        scan_state(cells, flags, regions, scan_rank(at)),
        flags[at] || cells[at] < 0,
    ensures
        scan_state(cells, flags, regions, scan_rank(at) + 1),
{
    lemma_marks_step(cells, flags, flags, at);
    lemma_found_keeps(cells, flags, flags, regions, scan_rank(at));
}

/// A region of fewer than two cells is the region of a tile without a
/// partner.
pub proof fn lemma_small_region_alone(cells: Seq<i8>, region: Region, at: int, i: int)
    requires
        in_area(at),
        region@.is_component_of(cells),
        region@.first_position == at,
        region@.positions.len() < 2,
        component(cells, at).contains(i),
    ensures
        !has_partner(cells, i),
{
    assert(listed(region@.positions).contains(i));
    let k = choose|k: int| 0 <= k < region@.positions.len() && #[trigger] region@.positions[k] == i;
    assert(i == at);
    if has_partner(cells, i) {
        let j = choose|j: int| #[trigger] adjacent(i, j) && cells[i] == cells[j];
        lemma_connected_refl(cells, at);
        lemma_connected_step(cells, at, at, j);
        assert(listed(region@.positions).contains(j));
        let m = choose|m: int| 0 <= m < region@.positions.len() && #[trigger] region@.positions[m] == j;
        assert(false);
    }
}

/// The scan goes on past a tile without a partner, whose region it drops.
pub proof fn lemma_scan_skips(
    cells: Seq<i8>,
    flags: Seq<bool>,
    raised: Seq<bool>,
    regions: Seq<Region>,
    region: Region,
    at: int,
)
    requires
        scan_state(cells, flags, regions, scan_rank(at)),
        occupied(cells, at),
        !flags[at],
        marks_grown(cells, flags, raised, at),
        region@.is_component_of(cells),
        region@.first_position == at,
        region@.positions.len() < 2,
    ensures
        scan_state(cells, raised, regions, scan_rank(at) + 1),
{
    lemma_marks_step(cells, flags, raised, at);
    lemma_found_keeps(cells, flags, raised, regions, scan_rank(at));
    assert forall|i: int| 0 <= i < 256 && #[trigger] raised[i] && has_partner(cells, i) implies in_some(
        regions,
        i,
    ) by {
        if !flags[i] {
            lemma_small_region_alone(cells, region, at, i);
        }
    }
}

/// The cells of a region collected from the unmarked tile `at` were
/// unmarked, and none of them comes before `at` in scan order.
pub proof fn lemma_new_region_fresh(cells: Seq<i8>, flags: Seq<bool>, region: Region, at: int, i: int)
    requires
        marks_ok(cells, flags, scan_rank(at)),
        occupied(cells, at),
        !flags[at],
        region@.is_component_of(cells),
        region@.first_position == at,
        listed(region@.positions).contains(i),
    ensures
        0 <= i < 256,
        !flags[i],
        occupied(cells, i),
        scan_rank(at) <= scan_rank(i),
{
    assert(component(cells, at).contains(i));
    lemma_connected_same_value(cells, at, i);
    assert(occupied(cells, i));
    if flags[i] {
        assert(marked(flags).contains(i));
        lemma_closed_holds_component(cells, marked(flags), at, i);
        assert(marked(flags).contains(at));
    }
}

/// The new region is found, as the earlier ones are.
pub proof fn lemma_takes_found(
    cells: Seq<i8>,
    flags: Seq<bool>,
    raised: Seq<bool>,
    regions: Seq<Region>,
    region: Region,
    at: int,
)
    requires
        scan_state(cells, flags, regions, scan_rank(at)),
        occupied(cells, at),
        !flags[at],
        marks_grown(cells, flags, raised, at),
        region@.is_component_of(cells),
        region@.first_position == at,
        region@.positions.len() >= 2,
    ensures
        found_ok(cells, raised, regions.push(region), scan_rank(at) + 1),
{
    lemma_marks_step(cells, flags, raised, at);
    lemma_found_keeps(cells, flags, raised, regions, scan_rank(at));
    let grown = regions.push(region);
    assert(found_one(cells, raised, region, scan_rank(at) + 1)) by {
        assert forall|i: int| #[trigger] listed(region@.positions).contains(i) implies 0 <= i < 256
            && raised[i] && scan_rank(region@.first_position as int) <= scan_rank(i) by {
            lemma_new_region_fresh(cells, flags, region, at, i);
            assert(component(cells, at).contains(i));
        }
    }
    assert forall|k: int| 0 <= k < grown.len() implies found_one(
        cells,
        raised,
        #[trigger] grown[k],
        scan_rank(at) + 1,
    ) by {
        if k < regions.len() {
            assert(grown[k] == regions[k]);
            assert(found_one(cells, raised, regions[k], scan_rank(at) + 1));
        } else {
            assert(grown[k] == region);
        }
    }
}

/// The new region comes after the earlier ones and shares no cell with them.
pub proof fn lemma_takes_apart(
    cells: Seq<i8>,
    flags: Seq<bool>,
    regions: Seq<Region>,
    region: Region,
    at: int,
)
    requires
        scan_state(cells, flags, regions, scan_rank(at)),
        occupied(cells, at),
        !flags[at],
        region@.is_component_of(cells),
        region@.first_position == at,
    ensures
        sorted_ok(regions.push(region)),
        disjoint_ok(regions.push(region)),
{
    let grown = regions.push(region);
    let last = regions.len() as int;
    assert forall|a: int, b: int| 0 <= a < b < grown.len() implies scan_rank(
        (#[trigger] grown[a])@.first_position as int,
    ) < scan_rank((#[trigger] grown[b])@.first_position as int) by {
        assert(grown[a] == regions[a]);
        assert(found_one(cells, flags, regions[a], scan_rank(at)));
        if b < last {
            assert(grown[b] == regions[b]);
        } else {
            assert(grown[b] == region);
        }
    }
    assert forall|a: int, b: int, i: int|
        0 <= a < b < grown.len() && #[trigger] listed(grown[a]@.positions).contains(
            i,
        ) implies !#[trigger] listed(grown[b]@.positions).contains(i) by {
        assert(grown[a] == regions[a]);
        if b < last {
            assert(grown[b] == regions[b]);
        } else {
            assert(grown[b] == region);
            assert(found_one(cells, flags, regions[a], scan_rank(at)));
            if listed(region@.positions).contains(i) {
                lemma_new_region_fresh(cells, flags, region, at, i);
            }
        }
    }
}

/// With the new region every marked tile that has a partner is covered.
pub proof fn lemma_takes_covered(
    cells: Seq<i8>,
    flags: Seq<bool>,
    raised: Seq<bool>,
    regions: Seq<Region>,
    region: Region,
    at: int,
)
    requires
        covered_ok(cells, flags, regions),
        flags.len() == 256,
        marks_grown(cells, flags, raised, at),
        region@.is_component_of(cells),
        region@.first_position == at,
    ensures
        covered_ok(cells, raised, regions.push(region)),
{
    let grown = regions.push(region);
    let last = regions.len() as int;
    assert forall|i: int| 0 <= i < 256 && #[trigger] raised[i] && has_partner(cells, i) implies in_some(
        grown,
        i,
    ) by {
        if flags[i] {
            assert(in_some(regions, i));
            let k = choose|k: int|
                0 <= k < regions.len() && #[trigger] listed(regions[k]@.positions).contains(i);
            assert(grown[k] == regions[k]);
            assert(listed(grown[k]@.positions).contains(i));
        } else {
            assert(component(cells, at).contains(i));
            assert(grown[last] == region);
            assert(listed(grown[last]@.positions).contains(i));
        }
    }
}

/// The scan takes the region of a tile with a partner.
pub proof fn lemma_scan_takes(
    cells: Seq<i8>,
    flags: Seq<bool>,
    raised: Seq<bool>,
    regions: Seq<Region>,
    region: Region,
    at: int,
)
    requires
        scan_state(cells, flags, regions, scan_rank(at)),
        occupied(cells, at),
        !flags[at],
        marks_grown(cells, flags, raised, at),
        region@.is_component_of(cells),
        region@.first_position == at,
        region@.positions.len() >= 2,
    ensures
        scan_state(cells, raised, regions.push(region), scan_rank(at) + 1),
{
    lemma_marks_step(cells, flags, raised, at);
    lemma_takes_found(cells, flags, raised, regions, region, at);
    lemma_takes_apart(cells, flags, regions, region, at);
    lemma_takes_covered(cells, flags, raised, regions, region, at);
}

/// After the last cell the regions found are the moves of the field.
pub proof fn lemma_scan_done(cells: Seq<i8>, flags: Seq<bool>, regions: Seq<Region>)
    requires
        scan_state(cells, flags, regions, 225),
    ensures
        are_moves_of(cells, regions),
{
    let found = views(regions);
    assert forall|k: int| 0 <= k < found.len() implies (#[trigger] found[k]).is_move_on(cells) by {
        assert(found_one(cells, flags, regions[k], 225));
    }
    assert forall|k: int, i: int|
        0 <= k < found.len() && #[trigger] listed(found[k].positions).contains(i) implies scan_rank(
        found[k].first_position as int,
    ) <= scan_rank(i) by {
        assert(found_one(cells, flags, regions[k], 225));
    }
    assert forall|a: int, b: int| 0 <= a < b < found.len() implies scan_rank(
        (#[trigger] found[a]).first_position as int,
    ) < scan_rank((#[trigger] found[b]).first_position as int) by {
        assert(found[a] == regions[a]@ && found[b] == regions[b]@);
    }
    assert forall|a: int, b: int, i: int|
        0 <= a < b < found.len() && #[trigger] listed(found[a].positions).contains(
            i,
        ) implies !#[trigger] listed(found[b].positions).contains(i) by {
        assert(found[a] == regions[a]@ && found[b] == regions[b]@);
    }
    assert forall|i: int| occupied(cells, i) && #[trigger] has_partner(cells, i) implies exists|
        k: int,
    |
        0 <= k < found.len() && #[trigger] listed(found[k].positions).contains(i) by {
        assert(scan_rank(i) < 225);
        assert(flags[i]);
        assert(in_some(regions, i));
        let k = choose|k: int|
            0 <= k < regions.len() && #[trigger] listed(regions[k]@.positions).contains(i);
        assert(found[k] == regions[k]@);
        assert(listed(found[k].positions).contains(i));
    }
}

} // verus!
