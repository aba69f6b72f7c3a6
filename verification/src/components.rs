//! The data of a game: cells, tiles, the board, the score and the run state.

use vstd::prelude::*;
use crate::model::all_in_bounds;
use crate::model::distinct_cells;
use crate::model::tiles_map;

verus! {

/// A cell of the grid, counted from zero on both axes.
#[derive(Debug, PartialEq, Eq, Structural, Clone, Copy, Hash)]
pub struct Position {
    pub x: u8,
    pub y: u8,
}

/// The number that a tile shows.
#[derive(Debug, PartialEq, Eq, Structural, Clone, Copy)]
pub struct Points {
    pub value: u32,
}

/// A numbered piece on one cell.
#[derive(Debug, PartialEq, Eq, Structural, Clone, Copy)]
pub struct Tile {
    pub position: Position,
    pub points: Points,
}

/// A square grid of side `size` and the tiles on it.
#[derive(Debug, Clone)]
pub struct Board {
    pub size: u8,
    pub tiles: Vec<Tile>,
}

impl View for Board {
    type V = Map<Position, u32>;

    /// The filled cells, each with the value on it.
    open spec fn view(&self) -> Map<Position, u32> {
        tiles_map(self.tiles@)
    }
}

impl Board {
    /// Whether every tile lies on the grid and no two tiles share a cell.
    pub open spec fn wf(&self) -> bool {
        distinct_cells(self.tiles@) && all_in_bounds(self.tiles@, self.size as int)
    }

    /// An empty board of side `size`.
    pub fn new(size: u8) -> (board: Board)
        ensures
            board.wf(),
            board.size == size,
            board.tiles@.len() == 0,
            board@ == Map::<Position, u32>::empty(),
    {
        let board = Board { size, tiles: Vec::new() };
        assert(board@ =~= Map::<Position, u32>::empty());
        board
    }
}

/// Whether a game is running or has ended.
#[derive(Debug, PartialEq, Eq, Structural, Clone, Copy, Hash)]
pub enum RunState {
    Playing,
    GameOver,
}

impl Default for RunState {
    fn default() -> (state: RunState)
        ensures
            state == RunState::Playing,
    {
        RunState::Playing
    }
}

/// The running score and the best score seen so far.
#[derive(Debug, PartialEq, Eq, Structural, Clone, Copy)]
pub struct Game {
    pub score: u32,
    pub score_best: u32,
}

impl Default for Game {
    fn default() -> (game: Game)
        ensures
            game.score == 0,
            game.score_best == 0,
    {
        Game { score: 0, score_best: 0 }
    }
}

} // verus!
