//! One game from tick to tick: a slide, its score, the new tile, and the
//! test for the end, with the run state that governs them.

use vstd::prelude::*;
use rand::rngs::StdRng;
use crate::components::Board;
use crate::components::Game;
use crate::components::Position;
use crate::components::RunState;
use crate::cells::free_cells;
use crate::model::all_merges;
use crate::model::in_bounds;
use crate::model::slid;
use crate::model::total;
use crate::shift::Key;
use crate::shift::first_shift;
use crate::terminal::has_equal_neighbours;
use crate::ui::Interaction;
use crate::ui::button_interaction_system;
use crate::ui::toggled;
use crate::utility::board_shift;
use crate::utility::changes;
use crate::utility::end_game;
use crate::utility::new_game;
use crate::utility::new_tile_handler;
use crate::utility::with_spawned;

verus! {

/// A game in progress: its board, its score and its run state.
#[derive(Debug, Clone)]
pub struct Session {
    pub board: Board,
    pub game: Game,
    pub run_state: RunState,
}

/// Whether a board of side `n` leaves no move: it has no free cell and no
/// two tiles of equal value side by side.
pub open spec fn is_stuck(m: Map<Position, u32>, n: int) -> bool {
    free_cells(m, n).len() == 0 && !has_equal_neighbours(m)
}

impl Session {
    /// Whether the board is well formed.
    pub open spec fn wf(&self) -> bool {
        self.board.wf()
    }

    /// A running game on a board of side `size`, with the two opening tiles
    /// spawned and both scores at zero.
    pub fn new(size: u8, rng: &mut StdRng) -> (session: Session)
        ensures
            session.wf(),
            session.board.size == size,
            session.run_state == RunState::Playing,
            session.game.score == 0,
            session.game.score_best == 0,
            exists|spawned: Seq<Position>|
                spawned.no_duplicates() && session.board@ == #[trigger] with_spawned(
                    Map::<Position, u32>::empty(),
                    spawned,
                ) && spawned.len() == if free_cells(Map::<Position, u32>::empty(), size as int).len() >= 2 {
                    2
                } else {
                    free_cells(Map::<Position, u32>::empty(), size as int).len() as int
                },
    {
        let mut board = Board::new(size);
        let mut game = Game::default();
        let spawned = new_game(&mut board, &mut game, rng);
        Session { board, game, run_state: RunState::Playing }
    }

    /// One tick. An ended game stays as it is. A running game slides in the
    /// direction of the first key that asks for one; where that changes the
    /// board, the sums of the merges go to the score and one tile is spawned;
    /// then the game ends if the board leaves no move. Says where a tile was
    /// spawned.
    pub fn step(&mut self, keys: &Vec<Key>, rng: &mut StdRng) -> (spawned: Option<Position>)
        requires
            old(self).wf(),
            old(self).run_state == RunState::Playing && first_shift(keys@, 0) is Some ==> old(
                self,
            ).game.score + total(
                all_merges(old(self).board@, first_shift(keys@, 0).unwrap(), old(self).board.size as int),
            ) <= u32::MAX,
        ensures
            final(self).wf(),
            final(self).board.size == old(self).board.size,
            final(self).game.score_best >= old(self).game.score_best,
            old(self).run_state == RunState::GameOver ==> spawned is None && final(self).run_state
                == RunState::GameOver && final(self).game == old(self).game && final(self).board.tiles@
                == old(self).board.tiles@,
            old(self).run_state == RunState::Playing ==> ({
                let n = old(self).board.size as int;
                let before = old(self).board@;
                let moved = first_shift(keys@, 0) is Some && changes(
                    before,
                    first_shift(keys@, 0).unwrap(),
                    n,
                );
                let after = if moved {
                    slid(before, first_shift(keys@, 0).unwrap(), n)
                } else {
                    before
                };
                &&& !moved ==> final(self).game == old(self).game && final(self).board.tiles@ == old(
                    self,
                ).board.tiles@ && spawned is None
                &&& moved ==> final(self).game.score == old(self).game.score + total(
                    all_merges(before, first_shift(keys@, 0).unwrap(), n),
                )
                &&& moved && free_cells(after, n).len() == 0 ==> spawned is None && final(self).board@
                    == after
                &&& moved && free_cells(after, n).len() > 0 ==> spawned is Some && free_cells(
                    after,
                    n,
                ).contains(spawned.unwrap()) && final(self).board@ == after.insert(spawned.unwrap(), 2)
                &&& final(self).run_state == if is_stuck(final(self).board@, n) {
                    RunState::GameOver
                } else {
                    RunState::Playing
                }
            }),
    {
        let mut spawned: Option<Position> = None;
        if self.run_state == RunState::Playing {
            let event = board_shift(&mut self.board, &mut self.game, keys);
            if event.is_some() {
                spawned = new_tile_handler(&mut self.board, rng);
            }
            self.run_state = end_game(&self.board, self.run_state);
        }
        spawned
    }

    /// What the button does: a press ends a running game, and starts an
    /// ended one anew with a cleared board, the running score at zero and
    /// the two opening tiles; anything else changes nothing. Says where
    /// tiles were spawned.
    pub fn press(&mut self, interaction: Interaction, rng: &mut StdRng) -> (spawned: Vec<Position>)
        requires
            old(self).wf(),
        ensures
            final(self).wf(),
            final(self).board.size == old(self).board.size,
            final(self).game.score_best == old(self).game.score_best,
            final(self).run_state == if interaction == Interaction::Pressed {
                toggled(old(self).run_state)
            } else {
                old(self).run_state
            },
            interaction != Interaction::Pressed ==> spawned@.len() == 0 && final(self).game == old(
                self,
            ).game && final(self).board.tiles@ == old(self).board.tiles@,
            interaction == Interaction::Pressed && old(self).run_state == RunState::Playing
                ==> spawned@.len() == 0 && final(self).game == old(self).game && final(self).board.tiles@
                == old(self).board.tiles@,
            interaction == Interaction::Pressed && old(self).run_state == RunState::GameOver ==> ({
                let none = Map::<Position, u32>::empty();
                let n = old(self).board.size as int;
                &&& final(self).game.score == 0
                &&& final(self).board@ == with_spawned(none, spawned@)
                &&& spawned@.no_duplicates()
                &&& spawned@.len() == if free_cells(none, n).len() >= 2 {
                    2
                } else {
                    free_cells(none, n).len() as int
                }
                &&& forall|i: int| 0 <= i < spawned@.len() ==> in_bounds(n, #[trigger] spawned@[i])
            }),
    {
        let next = button_interaction_system(interaction, self.run_state);
        let mut spawned: Vec<Position> = Vec::new();
        if self.run_state == RunState::GameOver && next == RunState::Playing {
            spawned = new_game(&mut self.board, &mut self.game, rng);
        }
        self.run_state = next;
        spawned
    }
}

} // verus!
