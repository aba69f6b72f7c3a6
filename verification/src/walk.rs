//! Steps of the walk over tiles in slide order: what one step does to the
//! values still to come on each line, and to the sums still to be formed.

use vstd::prelude::*;
use crate::components::Tile;
use crate::lines::filled;
use crate::lines::lemma_cell_of_slot;
use crate::lines::lemma_slot_of_cell;
use crate::lines::lemma_walk_lists_line;
use crate::lines::packed;
use crate::lines::vals_from;
use crate::model::all_in_bounds;
use crate::model::cell;
use crate::model::collapse;
use crate::model::distinct_cells;
use crate::model::in_bounds;
use crate::model::line_of;
use crate::model::merges;
use crate::model::merges_from;
use crate::model::occupied;
use crate::model::precedes;
use crate::model::slot_of;
use crate::model::tiles_map;
use crate::order::in_strict_walk_order;
use crate::shift::BoardShift;

verus! {

/// A value in front of a line that does not begin with the same value stays
/// as it is, and forms no sum.
pub proof fn lemma_collapse_single(v: int, rest: Seq<int>)
    requires
        rest.len() == 0 || rest[0] != v,
    ensures
        collapse(seq![v] + rest) == seq![v] + collapse(rest),
        merges(seq![v] + rest) == merges(rest),
{
    let whole = seq![v] + rest;
    assert(whole.subrange(1, whole.len() as int) =~= rest);
    if rest.len() == 0 {
        assert(merges(rest) =~= Seq::<int>::empty());
    }
}

/// Two equal values in front of a line become their sum, and the rest of
/// the line collapses on its own.
pub proof fn lemma_collapse_pair(v: int, rest: Seq<int>)
    ensures
        collapse(seq![v] + (seq![v] + rest)) == seq![v + v] + collapse(rest),
        merges(seq![v] + (seq![v] + rest)) == seq![v + v] + merges(rest),
{
    let whole = seq![v] + (seq![v] + rest);
    assert(whole.subrange(2, whole.len() as int) =~= rest);
}

/// A tile added behind a sequence adds its value behind the values of its
/// own line, and nothing to the other lines.
pub proof fn lemma_vals_push(s: Seq<Tile>, t: Tile, d: BoardShift, l: int, i: int)
    requires
        0 <= i <= s.len(),
    ensures
        vals_from(s.push(t), d, l, i) == if line_of(d, t.position) == l {
            vals_from(s, d, l, i) + seq![t.points.value as int]
        } else {
            vals_from(s, d, l, i)
        },
    decreases s.len() - i,
{
    let longer = s.push(t);
    if i < s.len() {
        lemma_vals_push(s, t, d, l, i + 1);
        assert(longer[i] == s[i]);
        if line_of(d, t.position) == l {
            let tail = seq![t.points.value as int];
            if line_of(d, s[i].position) == l {
                let head = seq![s[i].points.value as int];
                assert(head + (vals_from(s, d, l, i + 1) + tail) =~= (head + vals_from(s, d, l, i + 1))
                    + tail);
            }
        }
    } else {
        assert(longer[i] == t);
        assert(vals_from(longer, d, l, i + 1) =~= Seq::<int>::empty());
        assert(vals_from(s, d, l, i) =~= Seq::<int>::empty());
        if line_of(d, t.position) == l {
            assert(seq![t.points.value as int] + Seq::<int>::empty() =~= Seq::<int>::empty()
                + seq![t.points.value as int]);
        }
    }
}

/// Where no tile from index `i` on lies on line `l`, the line has no values
/// from there.
pub proof fn lemma_vals_none(s: Seq<Tile>, d: BoardShift, l: int, i: int)
    requires
        0 <= i,
        forall|j: int| i <= j < s.len() ==> line_of(d, #[trigger] s[j].position) != l,
    ensures
        vals_from(s, d, l, i) == Seq::<int>::empty(),
    decreases s.len() - i,
{
    if i < s.len() {
        assert(line_of(d, s[i].position) != l);
        lemma_vals_none(s, d, l, i + 1);
    }
}

/// The sums still to be formed from index `i` on, on the lines `l..n`, line
/// by line.
pub open spec fn walk_merges(s: Seq<Tile>, d: BoardShift, n: int, l: int, i: int) -> Seq<int>
    decreases n - l,
{
    if l >= n {
        Seq::empty()
    } else {
        merges(vals_from(s, d, l, i)) + walk_merges(s, d, n, l + 1, i)
    }
}

/// Seen from the start, the sums to be formed by the walk are those of the
/// board's lines.
pub proof fn lemma_walk_merges_start(s: Seq<Tile>, d: BoardShift, n: int, l: int)
    requires
        distinct_cells(s),
        all_in_bounds(s, n),
        in_strict_walk_order(s, d),
        0 <= l <= n <= 256,
    ensures
        walk_merges(s, d, n, l, 0) == merges_from(tiles_map(s), d, n, l),
    decreases n - l,
{
    if l < n {
        lemma_walk_lists_line(s, d, n, l, 0, 0);
        lemma_walk_merges_start(s, d, n, l + 1);
    }
}

/// A step from index `i` to index `to` that changes the values to come on
/// line `at` only, where no earlier line has values to come, takes the sums
/// `formed` from the front of the sums still to be formed.
pub proof fn lemma_walk_merges_step(
    s: Seq<Tile>,
    d: BoardShift,
    n: int,
    from: int,
    at: int,
    i: int,
    to: int,
    formed: Seq<int>,
)
    requires
        0 <= from <= n,
        0 <= at < n,
        forall|l: int|
            from <= l < n && l != at ==> #[trigger] vals_from(s, d, l, i) == vals_from(s, d, l, to),
        forall|l: int| from <= l < at ==> #[trigger] vals_from(s, d, l, i) == Seq::<int>::empty(),
        merges(vals_from(s, d, at, i)) == formed + merges(vals_from(s, d, at, to)),
    ensures
        from <= at ==> walk_merges(s, d, n, from, i) == formed + walk_merges(s, d, n, from, to),
        from > at ==> walk_merges(s, d, n, from, i) == walk_merges(s, d, n, from, to),
    decreases n - from,
{
    if from < n {
        lemma_walk_merges_step(s, d, n, from + 1, at, i, to, formed);
        let rest_i = walk_merges(s, d, n, from + 1, i);
        let rest_to = walk_merges(s, d, n, from + 1, to);
        if from < at {
            assert(vals_from(s, d, from, i) == Seq::<int>::empty());
            assert(vals_from(s, d, from, to) == Seq::<int>::empty());
            assert(merges(Seq::<int>::empty()) =~= Seq::<int>::empty());
            assert(Seq::<int>::empty() + (formed + rest_to) =~= formed + (Seq::<int>::empty() + rest_to));
        } else if from == at {
            let later = merges(vals_from(s, d, at, to));
            assert((formed + later) + rest_to =~= formed + (later + rest_to));
        } else {
            assert(vals_from(s, d, from, i) == vals_from(s, d, from, to));
        }
    }
}

/// Past the last tile no sum is left to be formed.
pub proof fn lemma_walk_merges_end(s: Seq<Tile>, d: BoardShift, n: int, l: int, i: int)
    requires
        i >= s.len(),
    ensures
        walk_merges(s, d, n, l, i) == Seq::<int>::empty(),
    decreases n - l,
{
    if l < n {
        lemma_walk_merges_end(s, d, n, l + 1, i);
        assert(merges(Seq::<int>::empty()) =~= Seq::<int>::empty());
        assert(vals_from(s, d, l, i) =~= Seq::<int>::empty());
    }
}

/// The value that the walk leaves for the tile at index `i`: its own, or
/// the sum with the tile behind it when the two merge.
pub open spec fn step_value(s: Seq<Tile>, i: int, merge: bool) -> int {
    if merge {
        s[i].points.value + s[i + 1].points.value
    } else {
        s[i].points.value as int
    }
}

/// Whether the tile at index `i` merges with the tile behind it: the two lie
/// on one line and show the same value.
pub open spec fn step_merges(s: Seq<Tile>, d: BoardShift, i: int) -> bool {
    i + 1 < s.len() && line_of(d, s[i + 1].position) == line_of(d, s[i].position) && s[i
        + 1].points.value == s[i].points.value
}

/// One step of the walk: the tile at index `i` is placed, with the tile
/// behind it merged into it where the two merge. The lines placed so far,
/// followed by the collapse of what is still to come, stay the collapse of
/// the whole lines, and the sum formed is the next sum to be formed.
pub proof fn lemma_scan_step(s: Seq<Tile>, placed: Seq<Tile>, t: Tile, d: BoardShift, n: int, i: int)
    requires
        in_strict_walk_order(s, d),
        all_in_bounds(s, n),
        n <= 256,
        0 <= i < s.len(),
        line_of(d, t.position) == line_of(d, s[i].position),
        t.points.value == step_value(s, i, step_merges(s, d, i)),
        forall|l: int|
            0 <= l < n ==> #[trigger] vals_from(placed, d, l, 0) + collapse(vals_from(s, d, l, i))
                == collapse(vals_from(s, d, l, 0)),
    ensures
        ({
            let to = if step_merges(s, d, i) {
                i + 2
            } else {
                i + 1
            };
            let formed = if step_merges(s, d, i) {
                seq![t.points.value as int]
            } else {
                Seq::<int>::empty()
            };
            &&& forall|l: int|
                0 <= l < n ==> #[trigger] vals_from(placed.push(t), d, l, 0) + collapse(
                    vals_from(s, d, l, to),
                ) == collapse(vals_from(s, d, l, 0))
            &&& walk_merges(s, d, n, 0, i) == formed + walk_merges(s, d, n, 0, to)
        }),
{
    let at = line_of(d, s[i].position);
    let merge = step_merges(s, d, i);
    let to = if merge {
        i + 2
    } else {
        i + 1
    };
    let v = s[i].points.value as int;
    let formed = if merge {
        seq![t.points.value as int]
    } else {
        Seq::<int>::empty()
    };
    lemma_slot_of_cell(d, n, s[i].position);
    assert forall|j: int| i <= j < s.len() implies line_of(d, #[trigger] s[j].position) >= at by {
        if j > i {
            assert(precedes(d, s[i].position, s[j].position));
        }
    }
    let rest = vals_from(s, d, at, to);
    if merge {
        assert(vals_from(s, d, at, i + 1) == seq![v] + rest);
        assert(vals_from(s, d, at, i) == seq![v] + (seq![v] + rest));
        lemma_collapse_pair(v, rest);
    } else {
        if i + 1 < s.len() && line_of(d, s[i + 1].position) != at {
            assert forall|j: int| i + 1 <= j < s.len() implies line_of(d, #[trigger] s[j].position)
                != at by {
                if j > i + 1 {
                    assert(precedes(d, s[i + 1].position, s[j].position));
                }
            }
            lemma_vals_none(s, d, at, i + 1);
        }
        assert(vals_from(s, d, at, i) == seq![v] + rest);
        lemma_collapse_single(v, rest);
    }
    assert(collapse(vals_from(s, d, at, i)) == seq![t.points.value as int] + collapse(rest));
    assert(merges(vals_from(s, d, at, i)) == formed + merges(rest)) by {
        assert(Seq::<int>::empty() + merges(rest) =~= merges(rest));
    }
    assert forall|l: int| 0 <= l < n && l != at implies #[trigger] vals_from(s, d, l, i) == vals_from(
        s,
        d,
        l,
        to,
    ) by {
        assert(vals_from(s, d, l, i) == vals_from(s, d, l, i + 1));
        if merge {
            assert(vals_from(s, d, l, i + 1) == vals_from(s, d, l, i + 2));
        }
    }
    assert forall|l: int| 0 <= l < at implies #[trigger] vals_from(s, d, l, i) == Seq::<int>::empty() by {
        lemma_vals_none(s, d, l, i);
    }
    lemma_walk_merges_step(s, d, n, 0, at, i, to, formed);
    assert forall|l: int| 0 <= l < n implies #[trigger] vals_from(placed.push(t), d, l, 0) + collapse(
        vals_from(s, d, l, to),
    ) == collapse(vals_from(s, d, l, 0)) by {
        lemma_vals_push(placed, t, d, l, 0);
        assert(vals_from(placed, d, l, 0) + collapse(vals_from(s, d, l, i)) == collapse(
            vals_from(s, d, l, 0),
        ));
        if l == at {
            let before = vals_from(placed, d, l, 0);
            let one = seq![t.points.value as int];
            assert((before + one) + collapse(rest) =~= before + (one + collapse(rest)));
        } else {
            assert(vals_from(s, d, l, i) == vals_from(s, d, l, to));
        }
    }
}

/// Whether each placed tile stands at slot zero of its line or directly
/// behind the tile placed before it.
pub open spec fn each_follows(placed: Seq<Tile>, d: BoardShift, n: int) -> bool {
    forall|j: int|
        0 <= j < placed.len() ==> slot_of(d, n, #[trigger] placed[j].position) == 0 || (j > 0
            && line_of(d, placed[j - 1].position) == line_of(d, placed[j].position) && slot_of(
            d,
            n,
            placed[j - 1].position,
        ) == slot_of(d, n, placed[j].position) - 1)
}

/// Where each tile follows the one before it, the tile `c` places before a
/// tile stands `c` slots nearer to the edge on the same line.
proof fn lemma_walk_back(placed: Seq<Tile>, d: BoardShift, n: int, a: int, c: int)
    requires
        each_follows(placed, d, n),
        0 <= a < placed.len(),
        0 <= c <= slot_of(d, n, placed[a].position),
    ensures
        0 <= a - c,
        line_of(d, placed[a - c].position) == line_of(d, placed[a].position),
        slot_of(d, n, placed[a - c].position) == slot_of(d, n, placed[a].position) - c,
    decreases c,
{
    if c > 0 {
        lemma_walk_back(placed, d, n, a, c - 1);
        let b = a - (c - 1);
        assert(slot_of(d, n, placed[b].position) > 0);
    }
}

/// Tiles that each follow the one before leave no gap on any line.
pub proof fn lemma_walk_packed(placed: Seq<Tile>, d: BoardShift, n: int, l: int)
    requires
        each_follows(placed, d, n),
        all_in_bounds(placed, n),
        0 <= l < n <= 256,
    ensures
        packed(tiles_map(placed), d, n, l),
{
    let m = tiles_map(placed);
    assert forall|j: int, k: int| 0 <= j < k < n && #[trigger] filled(m, d, n, l, k) implies #[trigger] filled(
        m,
        d,
        n,
        l,
        j,
    ) by {
        let a = choose|a: int| 0 <= a < placed.len() && #[trigger] placed[a].position == cell(d, n, l, k);
        lemma_cell_of_slot(d, n, l, k);
        lemma_walk_back(placed, d, n, a, k - j);
        let b = a - (k - j);
        assert(in_bounds(n, placed[b].position));
        lemma_slot_of_cell(d, n, placed[b].position);
        assert(placed[b].position == cell(d, n, l, j));
        assert(occupied(placed, cell(d, n, l, j)));
    }
}

/// Where the tile at index `i` merges with the tile behind it, the sums
/// still to be formed begin with their sum.
pub proof fn lemma_next_sum(s: Seq<Tile>, d: BoardShift, n: int, i: int)
    requires
        in_strict_walk_order(s, d),
        all_in_bounds(s, n),
        n <= 256,
        0 <= i < s.len(),
        step_merges(s, d, i),
    ensures
        walk_merges(s, d, n, 0, i) == seq![s[i].points.value + s[i + 1].points.value] + walk_merges(
            s,
            d,
            n,
            0,
            i + 2,
        ),
{
    let at = line_of(d, s[i].position);
    let v = s[i].points.value as int;
    assert(in_bounds(n, s[i].position));
    lemma_slot_of_cell(d, n, s[i].position);
    assert forall|j: int| i <= j < s.len() implies line_of(d, #[trigger] s[j].position) >= at by {
        if j > i {
            assert(precedes(d, s[i].position, s[j].position));
        }
    }
    let rest = vals_from(s, d, at, i + 2);
    assert(vals_from(s, d, at, i + 1) == seq![v] + rest);
    assert(vals_from(s, d, at, i) == seq![v] + (seq![v] + rest));
    lemma_collapse_pair(v, rest);
    assert forall|l: int| 0 <= l < n && l != at implies #[trigger] vals_from(s, d, l, i) == vals_from(
        s,
        d,
        l,
        i + 2,
    ) by {
        assert(vals_from(s, d, l, i) == vals_from(s, d, l, i + 1));
        assert(vals_from(s, d, l, i + 1) == vals_from(s, d, l, i + 2));
    }
    assert forall|l: int| 0 <= l < at implies #[trigger] vals_from(s, d, l, i) == Seq::<int>::empty() by {
        lemma_vals_none(s, d, l, i);
    }
    lemma_walk_merges_step(s, d, n, 0, at, i, i + 2, seq![v + v]);
}

} // verus!
