//! What holds between the steps of a slide: of the tiles in walk order, of
//! the tiles placed so far, and of the two together.

use vstd::prelude::*;
use crate::components::Position;
use crate::components::Tile;
use crate::lines::lemma_cell_of_slot;
use crate::lines::lemma_is_slid;
use crate::lines::lemma_precedes_by_slot;
use crate::lines::lemma_slot_of_cell;
use crate::lines::lemma_walk_lists_line;
use crate::lines::packed;
use crate::lines::vals_from;
use crate::model::all_in_bounds;
use crate::model::cell;
use crate::model::collapse;
use crate::model::distinct_cells;
use crate::model::in_bounds;
use crate::model::line_of;
use crate::model::line_values;
use crate::model::occupied;
use crate::model::precedes;
use crate::model::slid;
use crate::model::slot_of;
use crate::model::tiles_map;
use crate::order::in_strict_walk_order;
use crate::order::lemma_order_distinct;
use crate::shift::BoardShift;
use crate::walk::each_follows;
use crate::walk::lemma_scan_step;
use crate::walk::lemma_walk_packed;
use crate::walk::step_merges;
use crate::walk::step_value;
use crate::walk::walk_merges;

verus! {

/// Whether the tiles lie on a board of side `n`, share no cell and stand in
/// strict walk order.
#[verifier::opaque]
pub open spec fn walkable(s: Seq<Tile>, d: BoardShift, n: int) -> bool {
    n <= 256 && distinct_cells(s) && all_in_bounds(s, n) && in_strict_walk_order(s, d)
}

/// Whether, on every line, the values placed so far followed by the
/// collapse of the values from index `i` on are the collapse of the whole
/// line.
#[verifier::opaque]
pub open spec fn lines_kept(s: Seq<Tile>, placed: Seq<Tile>, d: BoardShift, n: int, i: int) -> bool {
    forall|l: int|
        0 <= l < n ==> #[trigger] vals_from(placed, d, l, 0) + collapse(vals_from(s, d, l, i))
            == collapse(vals_from(s, d, l, 0))
}

/// Whether the tiles placed so far are packed in walk order, none on a later
/// line than the tile at index `i`, and `column` is the first free slot of
/// that tile's line.
#[verifier::opaque]
pub open spec fn placed_in_step(
    s: Seq<Tile>,
    placed: Seq<Tile>,
    d: BoardShift,
    n: int,
    i: int,
    column: int,
) -> bool {
    &&& in_strict_walk_order(placed, d)
    &&& all_in_bounds(placed, n)
    &&& each_follows(placed, d, n)
    &&& i < s.len() ==> {
        &&& forall|j: int|
            0 <= j < placed.len() ==> line_of(d, #[trigger] placed[j].position) <= line_of(
                d,
                s[i].position,
            )
        &&& forall|j: int|
            0 <= j < placed.len() && line_of(d, #[trigger] placed[j].position) == line_of(
                d,
                s[i].position,
            ) ==> slot_of(d, n, placed[j].position) < column
        &&& column == (if placed.len() > 0 && line_of(d, placed[placed.len() - 1].position) == line_of(
            d,
            s[i].position,
        ) {
            slot_of(d, n, placed[placed.len() - 1].position) + 1
        } else {
            0
        })
        &&& 0 <= column <= slot_of(d, n, s[i].position)
    }
}

/// Whether some placed tile stands on a cell that was free before the slide.
#[verifier::opaque]
pub open spec fn fills_free_cell(s: Seq<Tile>, placed: Seq<Tile>) -> bool {
    exists|j: int| 0 <= j < placed.len() && !occupied(s, #[trigger] placed[j].position)
}

/// Before the first step nothing is placed and every line is still to come.
pub proof fn lemma_scan_start(s: Seq<Tile>, d: BoardShift, n: int)
    requires
        walkable(s, d, n),
        0 <= n,
    ensures
        lines_kept(s, Seq::<Tile>::empty(), d, n, 0),
        placed_in_step(s, Seq::<Tile>::empty(), d, n, 0, 0),
{
    reveal(walkable);
    reveal(lines_kept);
    reveal(placed_in_step);
    let placed = Seq::<Tile>::empty();
    assert forall|l: int| 0 <= l < n implies #[trigger] vals_from(placed, d, l, 0) + collapse(
        vals_from(s, d, l, 0),
    ) == collapse(vals_from(s, d, l, 0)) by {
        assert(vals_from(placed, d, l, 0) + collapse(vals_from(s, d, l, 0)) =~= collapse(
            vals_from(s, d, l, 0),
        ));
    }
    if 0 < s.len() {
        assert(in_bounds(n, s[0].position));
        lemma_slot_of_cell(d, n, s[0].position);
    }
}

/// The free slot that a step is about to fill lies on the board.
pub proof fn lemma_column_on_board(
    s: Seq<Tile>,
    placed: Seq<Tile>,
    d: BoardShift,
    n: int,
    i: int,
    column: int,
)
    requires
        walkable(s, d, n),
        placed_in_step(s, placed, d, n, i, column),
        0 <= i < s.len(),
    ensures
        0 <= column <= slot_of(d, n, s[i].position) < n,
        0 <= line_of(d, s[i].position) < n,
        cell(d, n, line_of(d, s[i].position), slot_of(d, n, s[i].position)) == s[i].position,
{
    reveal(walkable);
    reveal(placed_in_step);
    assert(in_bounds(n, s[i].position));
    lemma_slot_of_cell(d, n, s[i].position);
}

/// One step keeps the lines: see `lemma_scan_step`.
pub proof fn lemma_lines_step(s: Seq<Tile>, placed: Seq<Tile>, t: Tile, d: BoardShift, n: int, i: int)
    requires
        walkable(s, d, n),
        lines_kept(s, placed, d, n, i),
        0 <= i < s.len(),
        line_of(d, t.position) == line_of(d, s[i].position),
        t.points.value == step_value(s, i, step_merges(s, d, i)),
    ensures
        step_merges(s, d, i) ==> lines_kept(s, placed.push(t), d, n, i + 2) && walk_merges(s, d, n, 0, i)
            == seq![t.points.value as int] + walk_merges(s, d, n, 0, i + 2),
        !step_merges(s, d, i) ==> lines_kept(s, placed.push(t), d, n, i + 1) && walk_merges(
            s,
            d,
            n,
            0,
            i,
        ) == walk_merges(s, d, n, 0, i + 1),
{
    reveal(walkable);
    reveal(lines_kept);
    lemma_scan_step(s, placed, t, d, n, i);
    if !step_merges(s, d, i) {
        assert(Seq::<int>::empty() + walk_merges(s, d, n, 0, i + 1) =~= walk_merges(s, d, n, 0, i + 1));
    }
}

/// One step keeps the placed tiles packed: the tile placed at the free slot
/// of its line stands behind all placed before it, and the free slot moves
/// on by one, or back to the edge where the next tile begins a new line.
pub proof fn lemma_place_step(
    s: Seq<Tile>,
    placed: Seq<Tile>,
    t: Tile,
    d: BoardShift,
    n: int,
    i: int,
    to: int,
    column: int,
)
    requires
        walkable(s, d, n),
        placed_in_step(s, placed, d, n, i, column),
        0 <= i < s.len(),
        t.position == cell(d, n, line_of(d, s[i].position), column),
        to == i + 1 || (to == i + 2 && to <= s.len() && line_of(d, s[i + 1].position) == line_of(
            d,
            s[i].position,
        )),
    ensures
        placed_in_step(
            s,
            placed.push(t),
            d,
            n,
            to,
            if to < s.len() && line_of(d, s[to].position) == line_of(d, s[i].position) {
                column + 1
            } else {
                0
            },
        ),
{
    reveal(walkable);
    reveal(placed_in_step);
    let at = line_of(d, s[i].position);
    let longer = placed.push(t);
    assert(in_bounds(n, s[i].position));
    lemma_slot_of_cell(d, n, s[i].position);
    lemma_cell_of_slot(d, n, at, column);
    assert forall|a: int, b: int| 0 <= a < b < longer.len() implies precedes(
        d,
        #[trigger] longer[a].position,
        #[trigger] longer[b].position,
    ) by {
        if b < placed.len() {
            assert(precedes(d, placed[a].position, placed[b].position));
        } else {
            assert(longer[a] == placed[a]);
            assert(line_of(d, placed[a].position) <= at);
            lemma_precedes_by_slot(d, n, placed[a].position, t.position);
        }
    }
    assert forall|j: int| 0 <= j < longer.len() implies in_bounds(n, #[trigger] longer[j].position) by {
        if j < placed.len() {
            assert(in_bounds(n, placed[j].position));
        }
    }
    assert forall|j: int| 0 <= j < longer.len() implies slot_of(d, n, #[trigger] longer[j].position) == 0
        || (j > 0 && line_of(d, longer[j - 1].position) == line_of(d, longer[j].position) && slot_of(
        d,
        n,
        longer[j - 1].position,
    ) == slot_of(d, n, longer[j].position) - 1) by {
        if j < placed.len() {
            assert(longer[j] == placed[j]);
            if j > 0 {
                assert(longer[j - 1] == placed[j - 1]);
            }
        } else if column > 0 {
            assert(longer[j - 1] == placed[placed.len() - 1]);
        }
    }
    if to < s.len() {
        assert(in_bounds(n, s[to].position));
        lemma_slot_of_cell(d, n, s[to].position);
        assert(precedes(d, s[i].position, s[to].position));
        lemma_precedes_by_slot(d, n, s[i].position, s[to].position);
        let next_column = if line_of(d, s[to].position) == at {
            column + 1
        } else {
            0
        };
        assert forall|j: int| 0 <= j < longer.len() implies line_of(d, #[trigger] longer[j].position)
            <= line_of(d, s[to].position) by {
            if j < placed.len() {
                assert(line_of(d, placed[j].position) <= at);
            }
        }
        assert forall|j: int|
            0 <= j < longer.len() && line_of(d, #[trigger] longer[j].position) == line_of(
                d,
                s[to].position,
            ) implies slot_of(d, n, longer[j].position) < next_column by {
            if j < placed.len() {
                assert(line_of(d, placed[j].position) <= at);
            }
        }
        assert(longer[longer.len() - 1] == t);
    }
}

/// While nothing has changed, the placed tiles are the tiles walked so far.
/// A tile placed where it stood keeps that so; a tile placed elsewhere
/// stands on a cell that was free.
pub proof fn lemma_change_step(
    s: Seq<Tile>,
    placed: Seq<Tile>,
    t: Tile,
    d: BoardShift,
    n: int,
    i: int,
    column: int,
)
    requires
        walkable(s, d, n),
        placed_in_step(s, placed, d, n, i, column),
        0 <= i < s.len(),
        t.position == cell(d, n, line_of(d, s[i].position), column),
    ensures
        placed == s.take(i) && t == s[i] ==> placed.push(t) == s.take(i + 1),
        placed == s.take(i) && t.position != s[i].position ==> fills_free_cell(s, placed.push(t)),
        fills_free_cell(s, placed) ==> fills_free_cell(s, placed.push(t)),
{
    reveal(walkable);
    reveal(placed_in_step);
    reveal(fills_free_cell);
    let longer = placed.push(t);
    let at = line_of(d, s[i].position);
    if placed == s.take(i) && t == s[i] {
        assert(longer =~= s.take(i + 1));
    }
    if fills_free_cell(s, placed) {
        let j = choose|j: int| 0 <= j < placed.len() && !occupied(s, #[trigger] placed[j].position);
        assert(longer[j] == placed[j]);
    }
    if placed == s.take(i) && t.position != s[i].position {
        assert(in_bounds(n, s[i].position));
        lemma_slot_of_cell(d, n, s[i].position);
        lemma_cell_of_slot(d, n, at, column);
        if occupied(s, t.position) {
            let j = choose|j: int| 0 <= j < s.len() && #[trigger] s[j].position == t.position;
            if j < i {
                assert(placed[j] == s[j]);
                assert(line_of(d, placed[j].position) == at);
            } else if j > i {
                assert(precedes(d, s[i].position, s[j].position));
                lemma_precedes_by_slot(d, n, s[i].position, s[j].position);
            }
            assert(false);
        }
        assert(longer[placed.len() as int] == t);
    }
}

/// After the last step the placed tiles are the board that the slide
/// leaves.
pub proof fn lemma_scan_done(s: Seq<Tile>, placed: Seq<Tile>, d: BoardShift, n: int, column: int)
    requires
        walkable(s, d, n),
        0 <= n,
        lines_kept(s, placed, d, n, s.len() as int),
        placed_in_step(s, placed, d, n, s.len() as int, column),
    ensures
        distinct_cells(placed),
        all_in_bounds(placed, n),
        in_strict_walk_order(placed, d),
        tiles_map(placed) == slid(tiles_map(s), d, n),
{
    reveal(walkable);
    reveal(lines_kept);
    reveal(placed_in_step);
    lemma_order_distinct(placed, d);
    let after = tiles_map(placed);
    assert forall|p: Position| after.dom().contains(p) implies in_bounds(n, p) by {
        let j = choose|j: int| 0 <= j < placed.len() && #[trigger] placed[j].position == p;
        assert(in_bounds(n, placed[j].position));
    }
    assert forall|l: int| 0 <= l < n implies packed(after, d, n, l) by {
        lemma_walk_packed(placed, d, n, l);
    }
    assert forall|l: int| 0 <= l < n implies #[trigger] line_values(after, d, n, l, 0) == collapse(
        line_values(tiles_map(s), d, n, l, 0),
    ) by {
        lemma_walk_lists_line(s, d, n, l, 0, 0);
        lemma_walk_lists_line(placed, d, n, l, 0, 0);
        assert(vals_from(placed, d, l, 0) + collapse(vals_from(s, d, l, s.len() as int)) == collapse(
            vals_from(s, d, l, 0),
        ));
        assert(vals_from(s, d, l, s.len() as int) =~= Seq::<int>::empty());
        assert(collapse(Seq::<int>::empty()) =~= Seq::<int>::empty());
        assert(vals_from(placed, d, l, 0) + Seq::<int>::empty() =~= vals_from(placed, d, l, 0));
    }
    lemma_is_slid(tiles_map(s), after, d, n);
}

/// A placed tile on a cell that was free shows that the board has changed.
pub proof fn lemma_free_cell_filled(s: Seq<Tile>, placed: Seq<Tile>)
    requires
        fills_free_cell(s, placed),
    ensures
        tiles_map(placed) != tiles_map(s),
{
    reveal(fills_free_cell);
    let j = choose|j: int| 0 <= j < placed.len() && !occupied(s, #[trigger] placed[j].position);
    assert(occupied(placed, placed[j].position));
    assert(tiles_map(placed).dom().contains(placed[j].position));
    assert(!tiles_map(s).dom().contains(placed[j].position));
}

} // verus!
