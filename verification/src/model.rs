//! The mathematical model of a slide: the lines of a board, the collapse of
//! one line, and the board that a slide leaves.

use vstd::prelude::*;
use crate::components::Position;
use crate::components::Tile;
use crate::shift::BoardShift;

verus! {

/// The line that a cell lies on: its row for a horizontal slide, its column
/// for a vertical one.
pub open spec fn line_of(d: BoardShift, p: Position) -> int {
    match d {
        BoardShift::Left | BoardShift::Right => p.y as int,
        BoardShift::Up | BoardShift::Down => p.x as int,
    }
}

/// How far a cell lies from the edge that the slide moves toward, on a board
/// of side `n`.
pub open spec fn slot_of(d: BoardShift, n: int, p: Position) -> int {
    match d {
        BoardShift::Left => p.x as int,
        BoardShift::Right => n - 1 - p.x,
        BoardShift::Up => n - 1 - p.y,
        BoardShift::Down => p.y as int,
    }
}

/// The cell at slot `k` of line `l`.
pub open spec fn cell(d: BoardShift, n: int, l: int, k: int) -> Position {
    match d {
        BoardShift::Left => Position { x: k as u8, y: l as u8 },
        BoardShift::Right => Position { x: (n - 1 - k) as u8, y: l as u8 },
        BoardShift::Up => Position { x: l as u8, y: (n - 1 - k) as u8 },
        BoardShift::Down => Position { x: l as u8, y: k as u8 },
    }
}

/// Whether a slide in direction `d` walks cell `a` before cell `b`: lines in
/// rising order, and within a line the cell nearer to the target edge first.
pub open spec fn precedes(d: BoardShift, a: Position, b: Position) -> bool {
    line_of(d, a) < line_of(d, b) || (line_of(d, a) == line_of(d, b) && slot_of(d, 0, a) < slot_of(
        d,
        0,
        b,
    ))
}

/// Whether a cell lies on a board of side `n`.
pub open spec fn in_bounds(n: int, p: Position) -> bool {
    p.x < n && p.y < n
}

/// The values on line `l` from slot `k` outward, nearest to the target edge
/// first, empty cells left out.
pub open spec fn line_values(m: Map<Position, u32>, d: BoardShift, n: int, l: int, k: int) -> Seq<int>
    decreases n - k,
{
    if k >= n {
        Seq::empty()
    } else {
        let rest = line_values(m, d, n, l, k + 1);
        if m.dom().contains(cell(d, n, l, k)) {
            seq![m[cell(d, n, l, k)] as int] + rest
        } else {
            rest
        }
    }
}

/// One line after a slide: from the front, two equal neighbours become their
/// sum, and a sum is never merged again.
pub open spec fn collapse(v: Seq<int>) -> Seq<int>
    decreases v.len(),
{
    if v.len() == 0 {
        v
    } else if v.len() >= 2 && v[0] == v[1] {
        seq![v[0] + v[1]] + collapse(v.subrange(2, v.len() as int))
    } else {
        seq![v[0]] + collapse(v.subrange(1, v.len() as int))
    }
}

/// The sums that the collapse of one line forms, in the order of the line.
pub open spec fn merges(v: Seq<int>) -> Seq<int>
    decreases v.len(),
{
    if v.len() < 2 {
        Seq::empty()
    } else if v[0] == v[1] {
        seq![v[0] + v[1]] + merges(v.subrange(2, v.len() as int))
    } else {
        merges(v.subrange(1, v.len() as int))
    }
}

/// The sum of a sequence of numbers.
pub open spec fn total(v: Seq<int>) -> int
    decreases v.len(),
{
    if v.len() == 0 {
        0
    } else {
        v[0] + total(v.subrange(1, v.len() as int))
    }
}

/// The sums that a slide forms on the lines `l..n`, line by line.
pub open spec fn merges_from(m: Map<Position, u32>, d: BoardShift, n: int, l: int) -> Seq<int>
    decreases n - l,
{
    if l >= n {
        Seq::empty()
    } else {
        merges(line_values(m, d, n, l, 0)) + merges_from(m, d, n, l + 1)
    }
}

/// Every sum that a slide of the whole board forms, in the order in which
/// the lines are walked.
pub open spec fn all_merges(m: Map<Position, u32>, d: BoardShift, n: int) -> Seq<int> {
    merges_from(m, d, n, 0)
}

/// The board that a slide leaves: on each line the collapsed values, packed
/// against the target edge.
pub open spec fn slid(m: Map<Position, u32>, d: BoardShift, n: int) -> Map<Position, u32> {
    Map::new(
        |p: Position| in_bounds(n, p)
            && slot_of(d, n, p) < collapse(line_values(m, d, n, line_of(d, p), 0)).len(),
        |p: Position| collapse(line_values(m, d, n, line_of(d, p), 0))[slot_of(d, n, p)] as u32,
    )
}

/// Whether some tile of the sequence stands on cell `p`.
pub open spec fn occupied(s: Seq<Tile>, p: Position) -> bool {
    exists|i: int| 0 <= i < s.len() && #[trigger] s[i].position == p
}

/// The cells of a sequence of tiles, each with the value of a tile on it.
pub open spec fn tiles_map(s: Seq<Tile>) -> Map<Position, u32> {
    Map::new(
        |p: Position| occupied(s, p),
        |p: Position| s[choose|i: int| 0 <= i < s.len() && #[trigger] s[i].position == p].points.value,
    )
}

/// No two tiles of the sequence share a cell.
pub open spec fn distinct_cells(s: Seq<Tile>) -> bool {
    forall|i: int, j: int| 0 <= i < j < s.len() ==> #[trigger] s[i].position != #[trigger] s[j].position
}

/// Every tile of the sequence lies on a board of side `n`.
pub open spec fn all_in_bounds(s: Seq<Tile>, n: int) -> bool {
    forall|i: int| 0 <= i < s.len() ==> in_bounds(n, #[trigger] s[i].position)
}

} // verus!
