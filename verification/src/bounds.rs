//! How much a slide can add to the score: never more than the tiles on the
//! board show together.

use vstd::prelude::*;
use crate::components::Position;
use crate::components::Tile;
use crate::conserve::values_of;
use crate::lines::lemma_cell_of_slot;
use crate::lines::lemma_slot_of_cell;
use crate::model::all_in_bounds;
use crate::model::all_merges;
use crate::model::cell;
use crate::model::distinct_cells;
use crate::model::in_bounds;
use crate::model::line_of;
use crate::model::line_values;
use crate::model::merges;
use crate::model::merges_from;
use crate::model::occupied;
use crate::model::slot_of;
use crate::model::tiles_map;
use crate::model::total;
use crate::resolve::merges_fit;
use crate::shift::BoardShift;
use crate::sums::lemma_total_bounds;
use crate::sums::lemma_total_concat;
use crate::sums::lemma_total_nonnegative;
use crate::sums::lemma_total_push;
use crate::sums::none_negative;
use crate::tiles::lemma_tile_added;

verus! {

/// The sums formed on a line come to no more than the line's values.
pub proof fn lemma_merges_total(v: Seq<int>)
    requires
        none_negative(v),
    ensures
        0 <= total(merges(v)) <= total(v),
    decreases v.len(),
{
    if v.len() < 2 {
        lemma_total_nonnegative(v);
        assert(total(merges(v)) == 0);
    } else if v[0] == v[1] {
        let rest = v.subrange(2, v.len() as int);
        let mid = v.subrange(1, v.len() as int);
        assert forall|j: int| 0 <= j < rest.len() implies #[trigger] rest[j] >= 0 by {
            assert(rest[j] == v[j + 2]);
        }
        lemma_merges_total(rest);
        assert(mid.subrange(1, mid.len() as int) =~= rest);
        assert(mid[0] == v[1]);
        let formed = seq![v[0] + v[1]] + merges(rest);
        assert(formed.subrange(1, formed.len() as int) =~= merges(rest));
        assert(merges(v) == formed);
        assert(total(formed) == formed[0] + total(merges(rest)));
        assert(total(mid) == mid[0] + total(rest));
        assert(total(v) == v[0] + total(mid));
    } else {
        let rest = v.subrange(1, v.len() as int);
        assert forall|j: int| 0 <= j < rest.len() implies #[trigger] rest[j] >= 0 by {
            assert(rest[j] == v[j + 1]);
        }
        lemma_merges_total(rest);
        assert(v[0] >= 0);
        assert(merges(v) == merges(rest));
        assert(total(v) == v[0] + total(rest));
    }
}

/// What the tiles on the lines `l..n` show together.
pub open spec fn board_total(m: Map<Position, u32>, d: BoardShift, n: int, l: int) -> int
    decreases n - l,
{
    if l >= n {
        0
    } else {
        total(line_values(m, d, n, l, 0)) + board_total(m, d, n, l + 1)
    }
}

/// The sums that a slide forms on the lines `l..n` come to no more than the
/// tiles on those lines show together.
pub proof fn lemma_gain_on_lines(m: Map<Position, u32>, d: BoardShift, n: int, l: int)
    ensures
        0 <= total(merges_from(m, d, n, l)) <= board_total(m, d, n, l),
    decreases n - l,
{
    if l < n {
        let line = line_values(m, d, n, l, 0);
        lemma_line_nonnegative(m, d, n, l, 0);
        lemma_merges_total(line);
        lemma_gain_on_lines(m, d, n, l + 1);
        lemma_total_concat(merges(line), merges_from(m, d, n, l + 1));
    }
}

/// A tile put on a free cell adds its value to its own line, from its own
/// slot toward the edge, and nothing elsewhere.
proof fn lemma_line_with_tile(
    m: Map<Position, u32>,
    d: BoardShift,
    n: int,
    l: int,
    k: int,
    p: Position,
    v: u32,
)
    requires
        in_bounds(n, p),
        !m.dom().contains(p),
        0 <= l < n <= 256,
        0 <= k <= n,
    ensures
        total(line_values(m.insert(p, v), d, n, l, k)) == total(line_values(m, d, n, l, k)) + if line_of(
            d,
            p,
        ) == l && slot_of(d, n, p) >= k {
            v as int
        } else {
            0
        },
    decreases n - k,
{
    if k < n {
        lemma_line_with_tile(m, d, n, l, k + 1, p, v);
        lemma_cell_of_slot(d, n, l, k);
        let c = cell(d, n, l, k);
        let with = m.insert(p, v);
        let rest = line_values(m, d, n, l, k + 1);
        let rest_with = line_values(with, d, n, l, k + 1);
        if c == p {
            assert(line_values(with, d, n, l, k) == seq![v as int] + rest_with);
            lemma_total_concat(seq![v as int], rest_with);
            lemma_total_push(Seq::<int>::empty(), v as int);
            assert(Seq::<int>::empty().push(v as int) =~= seq![v as int]);
        } else if m.dom().contains(c) {
            lemma_total_concat(seq![m[c] as int], rest);
            lemma_total_concat(seq![with[c] as int], rest_with);
        }
    }
}

/// A tile put on a free cell adds its value to what the board shows.
proof fn lemma_board_with_tile(m: Map<Position, u32>, d: BoardShift, n: int, l: int, p: Position, v: u32)
    requires
        in_bounds(n, p),
        !m.dom().contains(p),
        0 <= l <= n <= 256,
    ensures
        board_total(m.insert(p, v), d, n, l) == board_total(m, d, n, l) + if line_of(d, p) >= l {
            v as int
        } else {
            0
        },
    decreases n - l,
{
    if l < n {
        lemma_board_with_tile(m, d, n, l + 1, p, v);
        lemma_line_with_tile(m, d, n, l, 0, p, v);
        lemma_slot_of_cell(d, n, p);
    } else {
        lemma_slot_of_cell(d, n, p);
    }
}

/// What a board shows, read line by line, is what its tiles show together.
pub proof fn lemma_board_total(s: Seq<Tile>, d: BoardShift, n: int)
    requires
        distinct_cells(s),
        all_in_bounds(s, n),
        0 <= n <= 256,
    ensures
        board_total(tiles_map(s), d, n, 0) == total(values_of(s)),
    decreases s.len(),
{
    if s.len() == 0 {
        assert(values_of(s) =~= Seq::<int>::empty());
        assert(tiles_map(s) =~= Map::<Position, u32>::empty());
        lemma_no_tiles_total(d, n, 0);
    } else {
        let t = s.last();
        let before = s.drop_last();
        assert(before.push(t) =~= s);
        assert(distinct_cells(before)) by {
            assert forall|i: int, j: int| 0 <= i < j < before.len() implies #[trigger] before[i].position
                != #[trigger] before[j].position by {
                assert(s[i].position != s[j].position);
            }
        }
        assert(all_in_bounds(before, n)) by {
            assert forall|i: int| 0 <= i < before.len() implies in_bounds(n, #[trigger] before[i].position) by {
                assert(in_bounds(n, s[i].position));
            }
        }
        assert(!occupied(before, t.position)) by {
            if occupied(before, t.position) {
                let i = choose|i: int| 0 <= i < before.len() && #[trigger] before[i].position == t.position;
                assert(s[i].position != s[s.len() - 1].position);
            }
        }
        assert(in_bounds(n, s[s.len() - 1].position));
        lemma_board_total(before, d, n);
        lemma_tile_added(before, t);
        lemma_board_with_tile(tiles_map(before), d, n, 0, t.position, t.points.value);
        assert(values_of(s) =~= values_of(before).push(t.points.value as int));
        lemma_total_push(values_of(before), t.points.value as int);
    }
}

/// A board without tiles shows nothing.
proof fn lemma_no_tiles_total(d: BoardShift, n: int, l: int)
    ensures
        board_total(Map::<Position, u32>::empty(), d, n, l) == 0,
    decreases n - l,
{
    if l < n {
        lemma_no_tiles_total(d, n, l + 1);
        lemma_no_tiles_line(d, n, l, 0);
    }
}

/// A line of a board without tiles has no values.
pub proof fn lemma_no_tiles_line(d: BoardShift, n: int, l: int, k: int)
    ensures
        line_values(Map::<Position, u32>::empty(), d, n, l, k) == Seq::<int>::empty(),
    decreases n - k,
{
    if k < n {
        lemma_no_tiles_line(d, n, l, k + 1);
    }
}

/// The sums that a slide forms come to no more than the tiles on the board
/// show together.
pub proof fn lemma_gain_bounded(s: Seq<Tile>, d: BoardShift, n: int)
    requires
        distinct_cells(s),
        all_in_bounds(s, n),
        0 <= n <= 256,
    ensures
        0 <= total(all_merges(tiles_map(s), d, n)) <= total(values_of(s)),
{
    lemma_gain_on_lines(tiles_map(s), d, n, 0);
    lemma_board_total(s, d, n);
}

/// The sums formed from values of which none is negative are not negative.
pub proof fn lemma_merges_nonnegative(v: Seq<int>)
    requires
        none_negative(v),
    ensures
        none_negative(merges(v)),
    decreases v.len(),
{
    if v.len() >= 2 {
        if v[0] == v[1] {
            let rest = v.subrange(2, v.len() as int);
            assert forall|j: int| 0 <= j < rest.len() implies #[trigger] rest[j] >= 0 by {
                assert(rest[j] == v[j + 2]);
            }
            lemma_merges_nonnegative(rest);
        } else {
            let rest = v.subrange(1, v.len() as int);
            assert forall|j: int| 0 <= j < rest.len() implies #[trigger] rest[j] >= 0 by {
                assert(rest[j] == v[j + 1]);
            }
            lemma_merges_nonnegative(rest);
        }
    }
}

/// No value of a line is negative.
pub proof fn lemma_line_nonnegative(m: Map<Position, u32>, d: BoardShift, n: int, l: int, k: int)
    ensures
        none_negative(line_values(m, d, n, l, k)),
    decreases n - k,
{
    if k < n {
        lemma_line_nonnegative(m, d, n, l, k + 1);
    }
}

/// No sum that a slide forms is negative.
pub proof fn lemma_all_merges_nonnegative(m: Map<Position, u32>, d: BoardShift, n: int, l: int)
    ensures
        none_negative(merges_from(m, d, n, l)),
    decreases n - l,
{
    if l < n {
        lemma_line_nonnegative(m, d, n, l, 0);
        lemma_merges_nonnegative(line_values(m, d, n, l, 0));
        lemma_all_merges_nonnegative(m, d, n, l + 1);
    }
}

/// Where the sums of a slide together fit the score, each of them fits a
/// tile.
pub proof fn lemma_fit_score_fit_tiles(m: Map<Position, u32>, d: BoardShift, n: int, score: int)
    requires
        0 <= score,
        score + total(all_merges(m, d, n)) <= u32::MAX,
    ensures
        merges_fit(m, d, n),
{
    lemma_all_merges_nonnegative(m, d, n, 0);
    assert forall|i: int| 0 <= i < all_merges(m, d, n).len() implies #[trigger] all_merges(m, d, n)[i]
        <= u32::MAX by {
        lemma_total_bounds(all_merges(m, d, n), i);
    }
}

} // verus!
