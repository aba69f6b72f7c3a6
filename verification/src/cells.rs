//! Looking cells up: the value on a cell, and the cells that are free.

use vstd::prelude::*;
use crate::components::Board;
use crate::components::Position;
use crate::components::Tile;
use crate::model::all_in_bounds;
use crate::model::distinct_cells;
use crate::model::in_bounds;
use crate::model::occupied;
use crate::model::tiles_map;
use crate::random::grid_cell;
use crate::random::grid_cells;
use crate::tiles::lemma_tile_in_map;

verus! {

/// The free cells of the grid from place `i` on, in the order of the grid.
pub open spec fn free_from(m: Map<Position, u32>, n: int, i: int) -> Seq<Position>
    decreases n * n - i,
{
    if i < 0 || i >= n * n {
        Seq::empty()
    } else {
        let rest = free_from(m, n, i + 1);
        if m.dom().contains(grid_cell(n, i)) {
            rest
        } else {
            seq![grid_cell(n, i)] + rest
        }
    }
}

/// The free cells of the grid, in the order of the grid.
pub open spec fn free_cells(m: Map<Position, u32>, n: int) -> Seq<Position> {
    free_from(m, n, 0)
}

/// The place of a cell in the grid.
pub open spec fn grid_place(n: int, p: Position) -> int {
    p.x * n + p.y
}

/// A place of the grid and its cell name each other.
pub proof fn lemma_grid_place(n: int, i: int)
    requires
        0 < n <= 256,
        0 <= i < n * n,
    ensures
        in_bounds(n, grid_cell(n, i)),
        grid_place(n, grid_cell(n, i)) == i,
{
    assert(0 <= i / n < n && 0 <= i % n < n && (i / n) * n + i % n == i) by (nonlinear_arith)
        requires
            0 < n,
            0 <= i < n * n,
    ;
}

/// A cell of the board is the cell at its own place.
pub proof fn lemma_place_of_cell(n: int, p: Position)
    requires
        0 < n <= 256,
        in_bounds(n, p),
    ensures
        0 <= grid_place(n, p) < n * n,
        grid_cell(n, grid_place(n, p)) == p,
{
    let x = p.x as int;
    let y = p.y as int;
    assert(0 <= x * n + y < n * n && (x * n + y) / n == x && (x * n + y) % n == y) by (nonlinear_arith)
        requires
            0 < n,
            0 <= x < n,
            0 <= y < n,
    ;
}

/// The free cells from place `i` on are the cells of the board from that
/// place on that hold no tile, each once.
pub proof fn lemma_free_from(m: Map<Position, u32>, n: int, i: int)
    requires
        0 <= n <= 256,
        0 <= i,
    ensures
        forall|p: Position|
            free_from(m, n, i).contains(p) <==> in_bounds(n, p) && grid_place(n, p) >= i
                && !m.dom().contains(p),
        free_from(m, n, i).no_duplicates(),
    decreases n * n - i,
{
    let here = free_from(m, n, i);
    if i < n * n {
        assert(n > 0) by (nonlinear_arith)
            requires
                0 <= n,
                0 <= i < n * n,
        ;
        lemma_free_from(m, n, i + 1);
        lemma_grid_place(n, i);
        let rest = free_from(m, n, i + 1);
        let c = grid_cell(n, i);
        assert forall|p: Position| here.contains(p) <==> in_bounds(n, p) && grid_place(n, p) >= i
            && !m.dom().contains(p) by {
            if in_bounds(n, p) {
                lemma_place_of_cell(n, p);
            }
            if m.dom().contains(c) {
                assert(here == rest);
            } else {
                assert(here == seq![c] + rest);
                if here.contains(p) {
                    let j = choose|j: int| 0 <= j < here.len() && here[j] == p;
                    if j > 0 {
                        assert(rest[j - 1] == p);
                        assert(rest.contains(p));
                    }
                }
                if in_bounds(n, p) && grid_place(n, p) >= i && !m.dom().contains(p) {
                    if grid_place(n, p) == i {
                        assert(here[0] == p);
                    } else {
                        assert(rest.contains(p));
                        let j = choose|j: int| 0 <= j < rest.len() && rest[j] == p;
                        assert(here[j + 1] == p);
                    }
                }
            }
        }
        if !m.dom().contains(c) {
            assert forall|a: int, b: int| 0 <= a < here.len() && 0 <= b < here.len() && a != b implies here[a]
                != here[b] by {
                if a > 0 && b > 0 {
                    assert(rest[a - 1] != rest[b - 1]);
                } else if a == 0 {
                    assert(rest.contains(rest[b - 1]));
                } else {
                    assert(rest.contains(rest[a - 1]));
                }
            }
        }
    } else {
        assert forall|p: Position| in_bounds(n, p) implies grid_place(n, p) < n * n by {
            if n > 0 {
                lemma_place_of_cell(n, p);
            }
        }
    }
}

/// A board has as many cells as it has tiles and free cells together, so
/// it never holds more tiles than it has cells.
pub proof fn lemma_cells_counted(s: Seq<Tile>, n: int)
    requires
        distinct_cells(s),
        all_in_bounds(s, n),
        0 <= n <= 256,
    ensures
        s.len() + free_cells(tiles_map(s), n).len() == n * n,
{
    broadcast use vstd::seq_lib::seq_to_set_is_finite;

    let m = tiles_map(s);
    let filled = s.map_values(|t: Tile| t.position);
    let free = free_cells(m, n);
    let grid = Seq::new((n * n) as nat, |i: int| grid_cell(n, i));
    lemma_free_from(m, n, 0);
    assert(filled.no_duplicates()) by {
        assert forall|i: int, j: int| 0 <= i < filled.len() && 0 <= j < filled.len() && i != j implies filled[i]
            != filled[j] by {
            if i < j {
                assert(s[i].position != s[j].position);
            } else {
                assert(s[j].position != s[i].position);
            }
        }
    }
    assert(grid.no_duplicates()) by {
        assert forall|i: int, j: int| 0 <= i < grid.len() && 0 <= j < grid.len() && i != j implies grid[i]
            != grid[j] by {
            assert(n > 0) by (nonlinear_arith)
                requires
                    0 <= n,
                    0 <= i < n * n,
            ;
            lemma_grid_place(n, i);
            lemma_grid_place(n, j);
        }
    }
    filled.unique_seq_to_set();
    free.unique_seq_to_set();
    grid.unique_seq_to_set();
    assert(filled.to_set().disjoint(free.to_set())) by {
        assert forall|p: Position| filled.to_set().contains(p) implies !free.to_set().contains(p) by {
            let i = choose|i: int| 0 <= i < filled.len() && filled[i] == p;
            assert(s[i].position == p);
            assert(occupied(s, p));
            assert(!free.contains(p));
        }
    }
    assert(filled.to_set() + free.to_set() =~= grid.to_set()) by {
        assert forall|p: Position| (filled.to_set() + free.to_set()).contains(p) == grid.to_set().contains(
            p,
        ) by {
            if filled.to_set().contains(p) {
                let i = choose|i: int| 0 <= i < filled.len() && filled[i] == p;
                assert(in_bounds(n, s[i].position));
            }
            if free.to_set().contains(p) {
                assert(free.contains(p));
            }
            if in_bounds(n, p) {
                lemma_place_of_cell(n, p);
                assert(grid[grid_place(n, p)] == p);
                assert(grid.contains(p));
                if occupied(s, p) {
                    let i = choose|i: int| 0 <= i < s.len() && #[trigger] s[i].position == p;
                    assert(filled[i] == p);
                    assert(filled.contains(p));
                } else {
                    assert(free.contains(p));
                }
            }
            if grid.to_set().contains(p) {
                let i = choose|i: int| 0 <= i < grid.len() && grid[i] == p;
                assert(n > 0) by (nonlinear_arith)
                    requires
                        0 <= n,
                        0 <= i < n * n,
                ;
                lemma_grid_place(n, i);
            }
        }
    }
    vstd::set_lib::lemma_set_disjoint_lens(filled.to_set(), free.to_set());
}

impl Board {
    /// Whether a tile stands on `pos`.
    pub fn is_occupied(&self, pos: Position) -> (found: bool)
        ensures
            found == self@.dom().contains(pos),
    {
        let mut i: usize = 0;
        while i < self.tiles.len()
            invariant
                0 <= i <= self.tiles.len(),
                forall|j: int| 0 <= j < i ==> #[trigger] self.tiles[j].position != pos,
            decreases self.tiles.len() - i,
        {
            if self.tiles[i].position.x == pos.x && self.tiles[i].position.y == pos.y {
                assert(occupied(self.tiles@, pos));
                return true;
            }
            i = i + 1;
        }
        false
    }

    /// Whether every tile lies on the grid and no two tiles share a cell.
    pub fn is_valid(&self) -> (valid: bool)
        ensures
            valid == self.wf(),
    {
        let mut i: usize = 0;
        while i < self.tiles.len()
            invariant
                0 <= i <= self.tiles.len(),
                forall|a: int| 0 <= a < i ==> in_bounds(self.size as int, #[trigger] self.tiles[a].position),
                forall|a: int, b: int|
                    0 <= a < b < i ==> #[trigger] self.tiles[a].position != #[trigger] self.tiles[b].position,
            decreases self.tiles.len() - i,
        {
            let pos = self.tiles[i].position;
            if pos.x >= self.size || pos.y >= self.size {
                assert(!in_bounds(self.size as int, self.tiles@[i as int].position));
                return false;
            }
            let mut j: usize = 0;
            while j < i
                invariant
                    0 <= j <= i < self.tiles.len(),
                    pos == self.tiles[i as int].position,
                    forall|a: int| 0 <= a < j ==> #[trigger] self.tiles[a].position != pos,
                decreases i - j,
            {
                if self.tiles[j].position.x == pos.x && self.tiles[j].position.y == pos.y {
                    assert(self.tiles@[j as int].position == self.tiles@[i as int].position);
                    return false;
                }
                j = j + 1;
            }
            i = i + 1;
        }
        true
    }

    /// The value on `pos`, if a tile stands there.
    pub fn get(&self, pos: Position) -> (value: Option<u32>)
        requires
            self.wf(),
        ensures
            value == if self@.dom().contains(pos) {
                Some(self@[pos])
            } else {
                None
            },
    {
        let mut i: usize = 0;
        while i < self.tiles.len()
            invariant
                0 <= i <= self.tiles.len(),
                self.wf(),
                forall|j: int| 0 <= j < i ==> #[trigger] self.tiles[j].position != pos,
            decreases self.tiles.len() - i,
        {
            if self.tiles[i].position.x == pos.x && self.tiles[i].position.y == pos.y {
                proof {
                    lemma_tile_in_map(self.tiles@, i as int);
                }
                return Some(self.tiles[i].points.value);
            }
            i = i + 1;
        }
        None
    }

    /// Every cell of the board, in the order of the grid: column by column,
    /// each from its first row on.
    pub fn cells(&self) -> (all: Vec<Position>)
        ensures
            all@.len() == self.size * self.size,
            forall|i: int| 0 <= i < all@.len() ==> #[trigger] all@[i] == grid_cell(self.size as int, i),
    {
        grid_cells(self.size)
    }

    /// The cells on which no tile stands, in the order of the grid.
    pub fn empty_cells(&self) -> (cells: Vec<Position>)
        ensures
            cells@ == free_cells(self@, self.size as int),
    {
        let all = self.cells();
        let ghost n = self.size as int;
        let mut cells: Vec<Position> = Vec::new();
        let mut i: usize = 0;
        assert(cells@ + free_from(self@, n, 0) =~= free_from(self@, n, 0));
        while i < all.len()
            invariant
                n == self.size,
                all@.len() == n * n,
                forall|j: int| 0 <= j < all@.len() ==> #[trigger] all@[j] == grid_cell(n, j),
                0 <= i <= all.len(),
                cells@ + free_from(self@, n, i as int) == free_from(self@, n, 0),
            decreases all.len() - i,
        {
            let ghost rest = free_from(self@, n, i + 1);
            if !self.is_occupied(all[i]) {
                assert((cells@.push(all[i as int])) + rest =~= cells@ + (seq![all[i as int]] + rest));
                cells.push(all[i]);
            }
            i = i + 1;
        }
        assert(cells@ + free_from(self@, n, i as int) =~= cells@);
        cells
    }
}

} // verus!
