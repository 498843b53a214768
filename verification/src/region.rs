//! A group of tiles that one move removes.

use vstd::prelude::*;
use crate::grid::{
    component, has_partner, in_area, in_walk_order, is_grid, is_terminal,
    lemma_component_has_partner, lemma_connected_same_value, listed, occupied, region_points,
    scan_rank,
};

verus! {

/// A connected group of cells of one colour, as a scan of a field found it.
///
/// `positions` lists the cells in the order in which the scan reached them,
/// `first_position` is the cell at which it began; this cell names the region
/// in a move log.
pub struct Region {
    pub positions: Vec<usize>,
    pub color: i8,
    pub first_position: usize,
}

/// What a [`Region`] holds, as mathematical values.
pub struct RegionView {
    pub positions: Seq<usize>,
    pub color: i8,
    pub first_position: usize,
}

impl RegionView {
    /// The cells are distinct playable cells, and the first of them is the
    /// one that names the region.
    pub open spec fn well_formed(self) -> bool {
        &&& self.positions.len() >= 1
        &&& self.positions.no_duplicates()
        &&& self.positions[0] == self.first_position
        &&& forall|k: int| 0 <= k < self.positions.len() ==> in_area(#[trigger] self.positions[k] as int)
    }

    /// The region lists exactly the component of its first cell on `cells`,
    /// in the order in which a walk from that cell reaches them, and
    /// records the value those cells hold.
    pub open spec fn is_component_of(self, cells: Seq<i8>) -> bool {
        &&& self.well_formed()
        &&& self.color == cells[self.first_position as int]
        &&& listed(self.positions) =~= component(cells, self.first_position as int)
        &&& in_walk_order(self.positions)
    }

    /// The region names tiles of `cells`, all of the region's colour, so
    /// that they can be taken off the field.
    pub open spec fn removable_from(self, cells: Seq<i8>) -> bool {
        &&& self.well_formed()
        &&& 0 <= self.color <= 4
        &&& forall|k: int|
            0 <= k < self.positions.len() ==> #[trigger] cells[self.positions[k] as int]
                == self.color
    }

    /// A move as a scan of the field names it: by the first of its cells in
    /// scan order.
    pub open spec fn is_scan_move_on(self, cells: Seq<i8>) -> bool {
        &&& self.is_move_on(cells)
        &&& forall|i: int| #[trigger]
            listed(self.positions).contains(i) ==> scan_rank(self.first_position as int)
                <= scan_rank(i)
    }

    /// A move: the whole component of a tile, of two tiles or more.
    pub open spec fn is_move_on(self, cells: Seq<i8>) -> bool {
        &&& self.is_component_of(cells)
        &&& self.color >= 0
        &&& self.positions.len() >= 2
    }
}

/// The regions of a list as mathematical values.
pub open spec fn views(regions: Seq<Region>) -> Seq<RegionView> {
    Seq::new(regions.len(), |k: int| regions[k]@)
}

/// Whether `regions` are the moves of the field `cells`, as a scan through
/// the columns finds them: each is the component of a tile with two tiles or
/// more and begins at the first of its cells in scan order; they come in
/// scan order of these first cells; no two share a cell; and no tile that
/// has a partner is left out.
pub open spec fn are_moves(cells: Seq<i8>, regions: Seq<RegionView>) -> bool {
    &&& forall|k: int| 0 <= k < regions.len() ==> (#[trigger] regions[k]).is_move_on(cells)
    &&& forall|k: int, i: int|
        0 <= k < regions.len() && #[trigger] listed(regions[k].positions).contains(i) ==> scan_rank(
            regions[k].first_position as int,
        ) <= scan_rank(i)
    &&& forall|a: int, b: int|
        0 <= a < b < regions.len() ==> scan_rank((#[trigger] regions[a]).first_position as int)
            < scan_rank((#[trigger] regions[b]).first_position as int)
    &&& forall|a: int, b: int, i: int|
        0 <= a < b < regions.len() && #[trigger] listed(regions[a].positions).contains(i)
            ==> !#[trigger] listed(regions[b].positions).contains(i)
    &&& forall|i: int|
        occupied(cells, i) && #[trigger] has_partner(cells, i) ==> exists|k: int|
            0 <= k < regions.len() && #[trigger] listed(regions[k].positions).contains(i)
}

/// Whether `regions` are the moves of the field `cells`; see [`are_moves`].
pub open spec fn are_moves_of(cells: Seq<i8>, regions: Seq<Region>) -> bool {
    are_moves(cells, views(regions))
}

impl View for Region {
    type V = RegionView;

    open spec fn view(&self) -> RegionView {
        RegionView {
            positions: self.positions@,
            color: self.color,
            first_position: self.first_position,
        }
    }
}

impl Clone for Region {
    /// A region of the same cells, colour and first cell.
    fn clone(&self) -> (r: Region)
        ensures
            r@ == self@,
    {
        Region {
            positions: self.positions.clone(),
            color: self.color,
            first_position: self.first_position,
        }
    }
}

impl Region {
    /// Number of cells in the region.
    pub fn len(&self) -> (n: usize)
        ensures
            n == self@.positions.len(),
    {
        self.positions.len()
    }

    /// Points that removing the region earns: `(len - 2)²` from two cells on,
    /// nothing below.
    pub fn score(&self) -> (points: u32)
        requires
            region_points(self@.positions.len() as int) <= u32::MAX,
        ensures
            points == region_points(self@.positions.len() as int),
    {
        let n = self.positions.len();
        if n < 2 {
            return 0;
        }
        let m: u64 = (n - 2) as u64;
        assert(m * m == region_points(n as int)) by (nonlinear_arith)
            requires
                m == n - 2,
                n >= 2,
        ;
        assert(m < 0x1_0000) by (nonlinear_arith)
            requires
                m * m <= u32::MAX,
                m >= 0,
        ;
        assert(m * m < 0x1_0000_0000) by (nonlinear_arith)
            requires
                0 <= m < 0x1_0000,
        ;
        (m * m) as u32
    }
}

/// A move can be taken off the field it is a move on.
pub proof fn lemma_move_removable(r: RegionView, cells: Seq<i8>)
    requires
        is_grid(cells),
        r.is_move_on(cells),
    ensures
        r.removable_from(cells),
        has_partner(cells, r.first_position as int),
        occupied(cells, r.first_position as int),
{
    let first = r.first_position as int;
    assert(in_area(r.positions[0] as int));
    assert forall|k: int| 0 <= k < r.positions.len() implies #[trigger] cells[r.positions[k] as int]
        == r.color by {
        assert(listed(r.positions).contains(r.positions[k] as int));
        lemma_connected_same_value(cells, first, r.positions[k] as int);
    }
    lemma_component_has_partner(cells, first);
    assert(r.positions[1] != r.positions[0]);
    assert(listed(r.positions).contains(r.positions[1] as int));
}

/// Each of the moves of a field is a move as a scan names it.
pub proof fn lemma_listed_move(cells: Seq<i8>, regions: Seq<RegionView>, k: int)
    requires
        are_moves(cells, regions),
        0 <= k < regions.len(),
    ensures
        regions[k].is_scan_move_on(cells),
{
}

/// A field has a move exactly if it is not terminal.
pub proof fn lemma_moves_or_terminal(cells: Seq<i8>, regions: Seq<RegionView>)
    requires
        is_grid(cells),
        are_moves(cells, regions),
    ensures
        regions.len() == 0 <==> is_terminal(cells),
{
    if regions.len() > 0 {
        lemma_move_removable(regions[0], cells);
    }
}

} // verus!
