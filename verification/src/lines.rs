//! Tiles in walk order, read line by line: what ties a sequence of tiles to
//! the lines of the board that it fills.

use vstd::prelude::*;
use crate::components::Position;
use crate::components::Tile;
use crate::model::all_in_bounds;
use crate::model::cell;
use crate::model::collapse;
use crate::model::distinct_cells;
use crate::model::in_bounds;
use crate::model::line_of;
use crate::model::line_values;
use crate::model::occupied;
use crate::model::precedes;
use crate::model::slid;
use crate::model::slot_of;
use crate::model::tiles_map;
use crate::order::in_strict_walk_order;
use crate::shift::BoardShift;
use crate::tiles::lemma_tile_in_map;

verus! {

/// The values of the tiles from index `i` on that lie on line `l`, in the
/// order of the sequence.
pub open spec fn vals_from(s: Seq<Tile>, d: BoardShift, l: int, i: int) -> Seq<int>
    decreases s.len() - i,
{
    if i < 0 || i >= s.len() {
        Seq::empty()
    } else {
        let rest = vals_from(s, d, l, i + 1);
        if line_of(d, s[i].position) == l {
            seq![s[i].points.value as int] + rest
        } else {
            rest
        }
    }
}

/// Line and slot name a cell of the board, and each cell of the board has
/// one line and one slot.
pub proof fn lemma_cell_of_slot(d: BoardShift, n: int, l: int, k: int)
    requires
        0 <= l < n <= 256,
        0 <= k < n,
    ensures
        in_bounds(n, cell(d, n, l, k)),
        line_of(d, cell(d, n, l, k)) == l,
        slot_of(d, n, cell(d, n, l, k)) == k,
{
}

/// A cell of the board is the cell at its own line and slot.
pub proof fn lemma_slot_of_cell(d: BoardShift, n: int, p: Position)
    requires
        in_bounds(n, p),
        n <= 256,
    ensures
        0 <= line_of(d, p) < n,
        0 <= slot_of(d, n, p) < n,
        cell(d, n, line_of(d, p), slot_of(d, n, p)) == p,
{
}

/// Within one line, the walk order is the order of the slots.
pub proof fn lemma_precedes_by_slot(d: BoardShift, n: int, a: Position, b: Position)
    ensures
        precedes(d, a, b) == (line_of(d, a) < line_of(d, b) || (line_of(d, a) == line_of(d, b)
            && slot_of(d, n, a) < slot_of(d, n, b))),
{
}

/// Tiles in strict walk order list each line of their board as the board
/// itself does: the tiles of line `l` from index `i` on are the filled cells
/// of that line from slot `k` on, when the earlier tiles of the line lie
/// before slot `k` and the later ones do not.
pub proof fn lemma_walk_lists_line(s: Seq<Tile>, d: BoardShift, n: int, l: int, i: int, k: int)
    requires
        distinct_cells(s),
        all_in_bounds(s, n),
        in_strict_walk_order(s, d),
        0 <= l < n <= 256,
        0 <= i <= s.len(),
        0 <= k <= n,
        forall|j: int|
            i <= j < s.len() && line_of(d, #[trigger] s[j].position) == l ==> slot_of(
                d,
                n,
                s[j].position,
            ) >= k,
        forall|j: int|
            0 <= j < i && line_of(d, #[trigger] s[j].position) == l ==> slot_of(
                d,
                n,
                s[j].position,
            ) < k,
    ensures
        vals_from(s, d, l, i) == line_values(tiles_map(s), d, n, l, k),
    decreases (n - k) + (s.len() - i),
{
    let m = tiles_map(s);
    if i < s.len() && line_of(d, s[i].position) != l {
        lemma_walk_lists_line(s, d, n, l, i + 1, k);
    } else if i < s.len() {
        let p = s[i].position;
        assert(in_bounds(n, p));
        lemma_slot_of_cell(d, n, p);
        assert forall|j: int| i < j < s.len() && line_of(d, #[trigger] s[j].position) == l implies slot_of(
            d,
            n,
            s[j].position,
        ) > slot_of(d, n, p) by {
            assert(precedes(d, s[i].position, s[j].position));
            lemma_precedes_by_slot(d, n, s[i].position, s[j].position);
        }
        if slot_of(d, n, p) == k {
            lemma_tile_in_map(s, i);
            assert(cell(d, n, l, k) == p);
            lemma_walk_lists_line(s, d, n, l, i + 1, k + 1);
        } else {
            lemma_cell_of_slot(d, n, l, k);
            if occupied(s, cell(d, n, l, k)) {
                let j = choose|j: int| 0 <= j < s.len() && #[trigger] s[j].position == cell(d, n, l, k);
                assert(line_of(d, s[j].position) == l);
                assert(false);
            }
            lemma_walk_lists_line(s, d, n, l, i, k + 1);
        }
    } else if k < n {
        lemma_cell_of_slot(d, n, l, k);
        if occupied(s, cell(d, n, l, k)) {
            let j = choose|j: int| 0 <= j < s.len() && #[trigger] s[j].position == cell(d, n, l, k);
            assert(line_of(d, s[j].position) == l);
            assert(false);
        }
        lemma_walk_lists_line(s, d, n, l, i, k + 1);
    }
}

/// Whether the cell at slot `k` of line `l` holds a tile.
pub open spec fn filled(m: Map<Position, u32>, d: BoardShift, n: int, l: int, k: int) -> bool {
    m.dom().contains(cell(d, n, l, k))
}

/// Whether the filled cells of line `l` leave no gap toward the target edge.
pub open spec fn packed(m: Map<Position, u32>, d: BoardShift, n: int, l: int) -> bool {
    forall|j: int, k: int|
        0 <= j < k < n && #[trigger] filled(m, d, n, l, k) ==> #[trigger] filled(m, d, n, l, j)
}

/// A line without a filled cell from slot `j` on has no values from there.
proof fn lemma_rest_empty(m: Map<Position, u32>, d: BoardShift, n: int, l: int, j: int)
    requires
        0 <= j <= n,
        forall|k: int| j <= k < n ==> !#[trigger] filled(m, d, n, l, k),
    ensures
        line_values(m, d, n, l, j) == Seq::<int>::empty(),
    decreases n - j,
{
    if j < n {
        assert(!filled(m, d, n, l, j));
        lemma_rest_empty(m, d, n, l, j + 1);
    }
}

/// On a packed line, the cell at slot `k` is filled exactly when the line
/// holds more than `k - j` values from slot `j` on, and then with the value
/// at that place.
pub proof fn lemma_packed_from(m: Map<Position, u32>, d: BoardShift, n: int, l: int, j: int)
    requires
        packed(m, d, n, l),
        0 <= j <= n,
    ensures
        forall|k: int|
            j <= k < n ==> #[trigger] filled(m, d, n, l, k) == (k - j < line_values(m, d, n, l, j).len()),
        forall|k: int|
            j <= k < n && #[trigger] filled(m, d, n, l, k) ==> m[cell(d, n, l, k)] == line_values(
                m,
                d,
                n,
                l,
                j,
            )[k - j],
    decreases n - j,
{
    if j < n {
        if filled(m, d, n, l, j) {
            lemma_packed_from(m, d, n, l, j + 1);
            let here = line_values(m, d, n, l, j);
            let rest = line_values(m, d, n, l, j + 1);
            assert(here == seq![m[cell(d, n, l, j)] as int] + rest);
            assert forall|k: int| j <= k < n implies #[trigger] filled(m, d, n, l, k) == (k - j
                < here.len()) by {
                if k > j {
                    assert(filled(m, d, n, l, k) == (k - (j + 1) < rest.len()));
                }
            }
            assert forall|k: int| j <= k < n && #[trigger] filled(m, d, n, l, k) implies m[cell(
                d,
                n,
                l,
                k,
            )] == here[k - j] by {
                if k > j {
                    assert(m[cell(d, n, l, k)] == rest[k - (j + 1)]);
                    assert(here[k - j] == rest[k - j - 1]);
                }
            }
        } else {
            assert forall|k: int| j <= k < n implies !#[trigger] filled(m, d, n, l, k) by {
                if k > j && filled(m, d, n, l, k) {
                    assert(filled(m, d, n, l, j));
                }
            }
            lemma_rest_empty(m, d, n, l, j);
        }
    }
}

/// A board that is packed on every line, and whose lines hold the collapsed
/// values of the lines of `m`, is the board that the slide of `m` leaves.
pub proof fn lemma_is_slid(m: Map<Position, u32>, after: Map<Position, u32>, d: BoardShift, n: int)
    requires
        0 <= n <= 256,
        forall|p: Position| after.dom().contains(p) ==> in_bounds(n, p),
        forall|l: int| 0 <= l < n ==> packed(after, d, n, l),
        forall|l: int|
            0 <= l < n ==> #[trigger] line_values(after, d, n, l, 0) == collapse(
                line_values(m, d, n, l, 0),
            ),
    ensures
        after == slid(m, d, n),
{
    let target = slid(m, d, n);
    assert forall|p: Position| after.dom().contains(p) == target.dom().contains(p) by {
        if in_bounds(n, p) {
            lemma_slot_of_cell(d, n, p);
            let l = line_of(d, p);
            let k = slot_of(d, n, p);
            assert(packed(after, d, n, l));
            lemma_packed_from(after, d, n, l, 0);
            assert(filled(after, d, n, l, k) == (k - 0 < line_values(after, d, n, l, 0).len()));
        }
    }
    assert forall|p: Position| after.dom().contains(p) implies after[p] == target[p] by {
        lemma_slot_of_cell(d, n, p);
        let l = line_of(d, p);
        let k = slot_of(d, n, p);
        assert(packed(after, d, n, l));
        lemma_packed_from(after, d, n, l, 0);
        assert(filled(after, d, n, l, k));
        assert(after[cell(d, n, l, k)] == line_values(after, d, n, l, 0)[k - 0]);
    }
    assert(after =~= target);
}

} // verus!
