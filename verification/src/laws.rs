//! What holds of every slide, stated over the model.

use vstd::prelude::*;
use crate::components::Position;
use crate::bounds::lemma_line_nonnegative;
use crate::bounds::lemma_no_tiles_line;
use crate::lines::lemma_cell_of_slot;
use crate::lines::lemma_is_slid;
use crate::lines::packed;
use crate::model::all_merges;
use crate::model::cell;
use crate::model::collapse;
use crate::model::in_bounds;
use crate::model::line_values;
use crate::model::merges;
use crate::model::merges_from;
use crate::model::slid;
use crate::shift::BoardShift;
use crate::walk::lemma_collapse_pair;
use crate::walk::lemma_collapse_single;

verus! {

/// A line holds at most as many values as it has cells.
pub proof fn lemma_line_length(m: Map<Position, u32>, d: BoardShift, n: int, l: int, k: int)
    requires
        0 <= k <= n,
    ensures
        line_values(m, d, n, l, k).len() <= n - k,
    decreases n - k,
{
    if k < n {
        lemma_line_length(m, d, n, l, k + 1);
    }
}

/// Three equal tiles on one line merge once: the slide leaves their sum at
/// the edge, one tile of the old value behind it, and nothing else on the
/// line.
pub proof fn lemma_single_merge(m: Map<Position, u32>, d: BoardShift, n: int, l: int, v: int)
    requires
        0 <= l < n <= 256,
        line_values(m, d, n, l, 0) == seq![v, v, v],
        v + v <= u32::MAX,
    ensures
        slid(m, d, n).dom().contains(cell(d, n, l, 0)),
        slid(m, d, n)[cell(d, n, l, 0)] == v + v,
        slid(m, d, n).dom().contains(cell(d, n, l, 1)),
        slid(m, d, n)[cell(d, n, l, 1)] == v,
        forall|k: int| 2 <= k < n ==> !slid(m, d, n).dom().contains(#[trigger] cell(d, n, l, k)),
        merges(line_values(m, d, n, l, 0)) == seq![v + v],
{
    let line = line_values(m, d, n, l, 0);
    lemma_line_length(m, d, n, l, 0);
    lemma_line_nonnegative(m, d, n, l, 0);
    assert(line[0] == v);
    assert(line =~= seq![v] + (seq![v] + seq![v]));
    lemma_collapse_pair(v, seq![v]);
    assert(seq![v] =~= seq![v] + Seq::<int>::empty());
    lemma_collapse_single(v, Seq::<int>::empty());
    assert(collapse(Seq::<int>::empty()) =~= Seq::<int>::empty());
    assert(merges(Seq::<int>::empty()) =~= Seq::<int>::empty());
    assert(collapse(line) =~= seq![v + v, v]);
    assert(merges(line) =~= seq![v + v]);
    lemma_cell_of_slot(d, n, l, 0);
    lemma_cell_of_slot(d, n, l, 1);
    assert forall|k: int| 2 <= k < n implies !slid(m, d, n).dom().contains(#[trigger] cell(d, n, l, k)) by {
        lemma_cell_of_slot(d, n, l, k);
    }
}

/// A slide of a board without tiles leaves a board without tiles and forms
/// no sum.
pub proof fn lemma_empty_board_stays(d: BoardShift, n: int)
    requires
        0 <= n <= 256,
    ensures
        slid(Map::<Position, u32>::empty(), d, n) == Map::<Position, u32>::empty(),
        all_merges(Map::<Position, u32>::empty(), d, n) == Seq::<int>::empty(),
{
    let none = Map::<Position, u32>::empty();
    assert forall|l: int| line_values(none, d, n, l, 0) == Seq::<int>::empty() by {
        lemma_no_tiles_line(d, n, l, 0);
    }
    assert(collapse(Seq::<int>::empty()) =~= Seq::<int>::empty());
    assert(slid(none, d, n) =~= none);
    lemma_empty_merges(d, n, 0);
}

/// A board without tiles forms no sum on any line.
proof fn lemma_empty_merges(d: BoardShift, n: int, l: int)
    ensures
        merges_from(Map::<Position, u32>::empty(), d, n, l) == Seq::<int>::empty(),
    decreases n - l,
{
    if l < n {
        lemma_no_tiles_line(d, n, l, 0);
        lemma_empty_merges(d, n, l + 1);
        assert(merges(Seq::<int>::empty()) =~= Seq::<int>::empty());
    }
}

/// Whether no two values that follow each other are equal.
pub open spec fn no_equal_pair(v: Seq<int>) -> bool {
    forall|i: int| 0 <= i && i + 1 < v.len() ==> #[trigger] v[i] != v[i + 1]
}

/// A line without two equal values in a row collapses to itself and forms
/// no sum.
pub proof fn lemma_collapse_without_pair(v: Seq<int>)
    requires
        no_equal_pair(v),
    ensures
        collapse(v) == v,
        merges(v) == Seq::<int>::empty(),
    decreases v.len(),
{
    if v.len() == 0 {
    } else {
        let rest = v.subrange(1, v.len() as int);
        assert(no_equal_pair(rest)) by {
            assert forall|i: int| 0 <= i && i + 1 < rest.len() implies #[trigger] rest[i] != rest[i + 1] by {
                assert(v[i + 1] != v[i + 1 + 1]);
            }
        }
        lemma_collapse_without_pair(rest);
        if v.len() >= 2 {
            assert(v[0int] != v[0int + 1]);
        }
        assert(seq![v[0]] + rest =~= v);
    }
}

/// A board whose tiles are packed against the target edge, with no two
/// equal values side by side along the slide, stays as it is: the slide
/// moves nothing and forms no sum.
pub proof fn lemma_packed_board_stays(m: Map<Position, u32>, d: BoardShift, n: int)
    requires
        0 <= n <= 256,
        forall|p: Position| m.dom().contains(p) ==> in_bounds(n, p),
        forall|l: int| 0 <= l < n ==> packed(m, d, n, l),
        forall|l: int| 0 <= l < n ==> no_equal_pair(#[trigger] line_values(m, d, n, l, 0)),
    ensures
        slid(m, d, n) == m,
        all_merges(m, d, n) == Seq::<int>::empty(),
{
    assert forall|l: int| 0 <= l < n implies #[trigger] line_values(m, d, n, l, 0) == collapse(
        line_values(m, d, n, l, 0),
    ) by {
        lemma_collapse_without_pair(line_values(m, d, n, l, 0));
    }
    lemma_is_slid(m, m, d, n);
    lemma_no_merges_from(m, d, n, 0);
}

/// Lines without two equal values in a row form no sum.
proof fn lemma_no_merges_from(m: Map<Position, u32>, d: BoardShift, n: int, l: int)
    requires
        0 <= l,
        forall|l: int| 0 <= l < n ==> no_equal_pair(#[trigger] line_values(m, d, n, l, 0)),
    ensures
        merges_from(m, d, n, l) == Seq::<int>::empty(),
    decreases n - l,
{
    if l < n {
        lemma_collapse_without_pair(line_values(m, d, n, l, 0));
        lemma_no_merges_from(m, d, n, l + 1);
    }
}

} // verus!
