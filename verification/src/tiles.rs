//! Tiles as a sequence and as a board: how the cells of a board follow the
//! tiles that fill them.

use vstd::prelude::*;
use crate::components::Position;
use crate::components::Tile;
use crate::model::all_in_bounds;
use crate::model::distinct_cells;
use crate::model::in_bounds;
use crate::model::occupied;
use crate::model::tiles_map;

verus! {

/// On a sequence without shared cells, the map gives each tile's cell the
/// tile's value.
pub proof fn lemma_tile_in_map(s: Seq<Tile>, i: int)
    requires
        distinct_cells(s),
        0 <= i < s.len(),
    ensures
        tiles_map(s).dom().contains(s[i].position),
        tiles_map(s)[s[i].position] == s[i].points.value,
{
    let p = s[i].position;
    assert(occupied(s, p));
    let j = choose|j: int| 0 <= j < s.len() && #[trigger] s[j].position == p;
    assert(j == i);
}

/// A tile added on a free cell adds that cell, with the tile's value, to the
/// cells of the others.
pub proof fn lemma_tile_added(s: Seq<Tile>, t: Tile)
    requires
        distinct_cells(s),
        !occupied(s, t.position),
    ensures
        distinct_cells(s.push(t)),
        tiles_map(s.push(t)) == tiles_map(s).insert(t.position, t.points.value),
{
    let longer = s.push(t);
    assert forall|i: int, j: int| 0 <= i < j < longer.len() implies #[trigger] longer[i].position
        != #[trigger] longer[j].position by {
        if j < s.len() {
            assert(s[i].position != s[j].position);
        } else {
            assert(longer[i] == s[i]);
        }
    }
    let target = tiles_map(s).insert(t.position, t.points.value);
    assert forall|p: Position| tiles_map(longer).dom().contains(p) == target.dom().contains(p) by {
        if occupied(longer, p) {
            let i = choose|i: int| 0 <= i < longer.len() && #[trigger] longer[i].position == p;
            if i < s.len() {
                assert(s[i].position == p);
            }
        }
        if occupied(s, p) {
            let i = choose|i: int| 0 <= i < s.len() && #[trigger] s[i].position == p;
            assert(longer[i].position == p);
        }
        if p == t.position {
            assert(longer[s.len() as int].position == p);
        }
    }
    assert forall|p: Position| tiles_map(longer).dom().contains(p) implies tiles_map(longer)[p]
        == target[p] by {
        let i = choose|i: int| 0 <= i < longer.len() && #[trigger] longer[i].position == p;
        lemma_tile_in_map(longer, i);
        if i < s.len() {
            assert(longer[i] == s[i]);
            lemma_tile_in_map(s, i);
        }
    }
    assert(tiles_map(longer) =~= target);
}

/// Every tile of a sequence occurs in each rearrangement of it.
proof fn lemma_found_in(a: Seq<Tile>, b: Seq<Tile>, i: int) -> (j: int)
    requires
        a.to_multiset() == b.to_multiset(),
        0 <= i < b.len(),
    ensures
        0 <= j < a.len(),
        a[j] == b[i],
{
    vstd::seq_lib::to_multiset_contains(b, b[i]);
    vstd::seq_lib::to_multiset_contains(a, b[i]);
    assert(b.contains(b[i]));
    choose|j: int| 0 <= j < a.len() && a[j] == b[i]
}

/// A rearrangement of tiles without shared cells has no shared cells.
proof fn lemma_rearranged_distinct(a: Seq<Tile>, b: Seq<Tile>)
    requires
        a.to_multiset() == b.to_multiset(),
        distinct_cells(a),
    ensures
        distinct_cells(b),
{
    assert forall|i: int, j: int| 0 <= i < a.len() && 0 <= j < a.len() && i != j implies a[i]
        != a[j] by {
        if i < j {
            assert(a[i].position != a[j].position);
        } else {
            assert(a[j].position != a[i].position);
        }
    }
    assert(a.no_duplicates());
    a.lemma_multiset_has_no_duplicates();
    b.lemma_multiset_has_no_duplicates_conv();
    assert forall|i: int, j: int| 0 <= i < j < b.len() implies #[trigger] b[i].position
        != #[trigger] b[j].position by {
        let p = lemma_found_in(a, b, i);
        let q = lemma_found_in(a, b, j);
        if b[i].position == b[j].position {
            if p < q {
                assert(a[p].position != a[q].position);
            } else if q < p {
                assert(a[q].position != a[p].position);
            }
            assert(p == q);
            assert(b[i] == b[j]);
        }
    }
}

/// A rearrangement of tiles without shared cells has no shared cells, lies
/// on the same board and fills the same cells with the same values.
pub proof fn lemma_rearranged(a: Seq<Tile>, b: Seq<Tile>, n: int)
    requires
        a.to_multiset() == b.to_multiset(),
        distinct_cells(a),
        all_in_bounds(a, n),
    ensures
        b.len() == a.len(),
        distinct_cells(b),
        all_in_bounds(b, n),
        tiles_map(b) == tiles_map(a),
{
    vstd::seq_lib::to_multiset_len(a);
    vstd::seq_lib::to_multiset_len(b);
    lemma_rearranged_distinct(a, b);
    assert forall|i: int| 0 <= i < b.len() implies in_bounds(n, #[trigger] b[i].position) by {
        let p = lemma_found_in(a, b, i);
        assert(in_bounds(n, a[p].position));
    }
    assert forall|p: Position| tiles_map(b).dom().contains(p) == tiles_map(a).dom().contains(
        p,
    ) by {
        if occupied(b, p) {
            let i = choose|i: int| 0 <= i < b.len() && #[trigger] b[i].position == p;
            let j = lemma_found_in(a, b, i);
            assert(a[j].position == p);
        }
        if occupied(a, p) {
            let i = choose|i: int| 0 <= i < a.len() && #[trigger] a[i].position == p;
            let j = lemma_found_in(b, a, i);
            assert(b[j].position == p);
        }
    }
    assert forall|p: Position| tiles_map(b).dom().contains(p) implies tiles_map(b)[p]
        == tiles_map(a)[p] by {
        let i = choose|i: int| 0 <= i < b.len() && #[trigger] b[i].position == p;
        let j = lemma_found_in(a, b, i);
        lemma_tile_in_map(b, i);
        lemma_tile_in_map(a, j);
    }
    assert(tiles_map(b) =~= tiles_map(a));
}

} // verus!
