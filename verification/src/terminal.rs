//! The test for a finished game: a board filled to capacity on which no
//! tile has a neighbour of its own value.

use vstd::prelude::*;
use crate::components::Board;
use crate::components::Position;
use crate::cells::free_cells;
use crate::cells::lemma_cells_counted;
use crate::model::in_bounds;
use crate::model::occupied;
use crate::tiles::lemma_tile_in_map;

verus! {

/// Whether two cells share an edge.
pub open spec fn adjacent(p: Position, q: Position) -> bool {
    (p.y == q.y && (p.x - q.x == 1 || q.x - p.x == 1)) || (p.x == q.x && (p.y - q.y == 1 || q.y - p.y
        == 1))
}

/// Whether two tiles of equal value stand on cells that share an edge.
pub open spec fn has_equal_neighbours(m: Map<Position, u32>) -> bool {
    exists|p: Position, q: Position|
        m.dom().contains(p) && m.dom().contains(q) && adjacent(p, q) && #[trigger] m[p] == #[trigger] m[q]
}

/// Whether the tile on `p` has a neighbour of its own value.
pub open spec fn has_equal_neighbour_at(m: Map<Position, u32>, p: Position) -> bool {
    exists|q: Position| #[trigger] m.dom().contains(q) && adjacent(p, q) && m[p] == m[q]
}

impl Board {
    /// Whether the board holds as many tiles as it has cells.
    pub open spec fn at_capacity(&self) -> bool {
        self.tiles@.len() == self.size * self.size
    }

    /// Whether the cell one step against `(dx, dy)` from `pos` lies on the
    /// board and holds a tile of value `value`.
    pub open spec fn matches_neighbour_spec(&self, pos: Position, value: u32, dx: int, dy: int) -> bool {
        let x = pos.x - dx;
        let y = pos.y - dy;
        0 <= x < self.size && 0 <= y < self.size && self@.dom().contains(
            Position { x: x as u8, y: y as u8 },
        ) && self@[Position { x: x as u8, y: y as u8 }] == value
    }

    /// Whether the tile on `pos`, of value `value`, has a neighbour of the
    /// same value one step against `(dx, dy)`.
    fn matches_neighbour(&self, pos: Position, value: u32, dx: i16, dy: i16) -> (found: bool)
        requires
            self.wf(),
            -1 <= dx <= 1,
            -1 <= dy <= 1,
        ensures
            found == self.matches_neighbour_spec(pos, value, dx as int, dy as int),
    {
        let new_x: i16 = pos.x as i16 - dx;
        let new_y: i16 = pos.y as i16 - dy;
        if new_x < 0 || new_x >= self.size as i16 || new_y < 0 || new_y >= self.size as i16 {
            return false;
        }
        match self.get(Position { x: new_x as u8, y: new_y as u8 }) {
            Some(v) => v == value,
            None => false,
        }
    }

    /// Whether a move is left: the board is not yet at capacity, or two
    /// tiles of equal value stand side by side.
    pub fn has_any_move(&self) -> (has_move: bool)
        requires
            self.wf(),
        ensures
            has_move == (!self.at_capacity() || has_equal_neighbours(self@)),
            self.at_capacity() == (free_cells(self@, self.size as int).len() == 0),
    {
        proof {
            lemma_cells_counted(self.tiles@, self.size as int);
        }
        assert(self.size * self.size <= 65025) by (nonlinear_arith)
            requires
                0 <= self.size <= 255,
        ;
        if self.tiles.len() != (self.size as usize) * (self.size as usize) {
            return true;
        }
        let mut i: usize = 0;
        while i < self.tiles.len()
            invariant
                0 <= i <= self.tiles.len(),
                self.wf(),
                self.at_capacity(),
                free_cells(self@, self.size as int).len() == 0,
                forall|j: int|
                    0 <= j < i ==> !has_equal_neighbour_at(self@, #[trigger] self.tiles[j].position),
            decreases self.tiles.len() - i,
        {
            let pos = self.tiles[i].position;
            let value = self.tiles[i].points.value;
            proof {
                lemma_tile_in_map(self.tiles@, i as int);
                assert(in_bounds(self.size as int, self.tiles[i as int].position));
            }
            let found = self.matches_neighbour(pos, value, -1, 0) || self.matches_neighbour(pos, value, 1, 0)
                || self.matches_neighbour(pos, value, 0, 1) || self.matches_neighbour(pos, value, 0, -1);
            if found {
                proof {
                    let q = if self.matches_neighbour_spec(pos, value, -1, 0) {
                        Position { x: (pos.x + 1) as u8, y: pos.y }
                    } else if self.matches_neighbour_spec(pos, value, 1, 0) {
                        Position { x: (pos.x - 1) as u8, y: pos.y }
                    } else if self.matches_neighbour_spec(pos, value, 0, 1) {
                        Position { x: pos.x, y: (pos.y - 1) as u8 }
                    } else {
                        Position { x: pos.x, y: (pos.y + 1) as u8 }
                    };
                    assert(self@.dom().contains(q) && adjacent(pos, q) && self@[pos] == self@[q]);
                }
                return true;
            }
            proof {
                if has_equal_neighbour_at(self@, pos) {
                    let q = choose|q: Position| #[trigger]
                        self@.dom().contains(q) && adjacent(pos, q) && self@[pos] == self@[q];
                    assert(occupied(self.tiles@, q));
                    let j = choose|j: int| 0 <= j < self.tiles@.len() && #[trigger] self.tiles@[j].position == q;
                    assert(in_bounds(self.size as int, self.tiles@[j].position));
                    assert(false);
                }
            }
            i = i + 1;
        }
        proof {
            if has_equal_neighbours(self@) {
                let (p, q) = choose|p: Position, q: Position|
                    self@.dom().contains(p) && self@.dom().contains(q) && adjacent(p, q) && #[trigger] self@[p]
                        == #[trigger] self@[q];
                assert(occupied(self.tiles@, p));
                let j = choose|j: int| 0 <= j < self.tiles@.len() && #[trigger] self.tiles@[j].position == p;
                assert(has_equal_neighbour_at(self@, self.tiles[j].position));
                assert(false);
            }
        }
        false
    }

}

} // verus!
