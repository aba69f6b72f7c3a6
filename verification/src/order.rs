//! Tiles in the order in which a slide walks them.

use vstd::prelude::*;
use itertools::Itertools;
use crate::components::Tile;
use crate::model::distinct_cells;
use crate::model::precedes;
use crate::shift::BoardShift;

verus! {

/// Whether no tile of the sequence is walked before a tile that stands ahead
/// of it.
pub open spec fn in_walk_order(s: Seq<Tile>, d: BoardShift) -> bool {
    forall|i: int, j: int|
        0 <= i < j < s.len() ==> !precedes(d, #[trigger] s[j].position, #[trigger] s[i].position)
}

/// Whether each tile of the sequence is walked strictly before those behind
/// it.
pub open spec fn in_strict_walk_order(s: Seq<Tile>, d: BoardShift) -> bool {
    forall|i: int, j: int|
        0 <= i < j < s.len() ==> precedes(d, #[trigger] s[i].position, #[trigger] s[j].position)
}

/// The tiles in the order in which a slide in direction `shift` walks them.
///
/// Calls `Itertools::sorted_by` of itertools, which collects the items and
/// sorts them with `slice::sort_by`. Trusted: the result holds the same
/// tiles, each as often as before, and no tile stands behind one that the
/// comparator orders after it.
#[verifier::external_body]
pub(crate) fn sorted_tiles(tiles: &Vec<Tile>, shift: BoardShift) -> (sorted: Vec<Tile>)
    ensures
        sorted@.to_multiset() == tiles@.to_multiset(),
        in_walk_order(sorted@, shift),
{
    tiles.iter().copied().sorted_by(|a, b| shift.sort(&a.position, &b.position)).collect()
}

/// Tiles without shared cells that are in walk order are in strict walk
/// order.
pub proof fn lemma_strict_order(s: Seq<Tile>, d: BoardShift)
    requires
        distinct_cells(s),
        in_walk_order(s, d),
    ensures
        in_strict_walk_order(s, d),
{
    assert forall|i: int, j: int| 0 <= i < j < s.len() implies precedes(
        d,
        #[trigger] s[i].position,
        #[trigger] s[j].position,
    ) by {
        assert(!precedes(d, s[j].position, s[i].position));
        assert(s[i].position != s[j].position);
    }
}

/// Tiles in strict walk order share no cell.
pub proof fn lemma_order_distinct(s: Seq<Tile>, d: BoardShift)
    requires
        in_strict_walk_order(s, d),
    ensures
        distinct_cells(s),
{
    assert forall|i: int, j: int| 0 <= i < j < s.len() implies #[trigger] s[i].position
        != #[trigger] s[j].position by {
        assert(precedes(d, s[i].position, s[j].position));
    }
}

} // verus!
