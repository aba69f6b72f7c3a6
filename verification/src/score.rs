//! The score: every merge adds the sum it formed, and the best score
//! follows the running one.

use vstd::prelude::*;
use crate::components::Board;
use crate::components::Game;
use crate::bounds::lemma_gain_bounded;
use crate::cells::lemma_cells_counted;
use crate::conserve::values_of;
use crate::model::all_merges;
use crate::model::total;
use crate::resolve::as_ints;
use crate::shift::BoardShift;
use crate::sums::lemma_total_nonnegative;
use crate::sums::lemma_total_push;
use crate::sums::none_negative;

verus! {

impl Board {
    /// What the tiles on the board show together.
    pub fn total_value(&self) -> (sum: u64)
        requires
            self.wf(),
        ensures
            sum == total(values_of(self.tiles@)),
            sum <= self.tiles@.len() * u32::MAX,
    {
        proof {
            lemma_cells_counted(self.tiles@, self.size as int);
            assert(self.size * self.size <= 65025) by (nonlinear_arith)
                requires
                    0 <= self.size <= 255,
            ;
            assert(values_of(self.tiles@.take(0)) =~= Seq::<int>::empty());
        }
        let mut sum: u64 = 0;
        let mut i: usize = 0;
        while i < self.tiles.len()
            invariant
                0 <= i <= self.tiles.len(),
                self.tiles.len() <= 65025,
                sum == total(values_of(self.tiles@.take(i as int))),
                sum <= i * 0xffff_ffff,
            decreases self.tiles.len() - i,
        {
            proof {
                let v = self.tiles[i as int].points.value as int;
                assert(self.tiles@.take(i + 1) =~= self.tiles@.take(i as int).push(self.tiles[i as int]));
                assert(values_of(self.tiles@.take(i as int).push(self.tiles[i as int])) =~= values_of(
                    self.tiles@.take(i as int),
                ).push(v));
                lemma_total_push(values_of(self.tiles@.take(i as int)), v);
            }
            sum = sum + self.tiles[i].points.value as u64;
            i = i + 1;
        }
        assert(self.tiles@.take(i as int) =~= self.tiles@);
        sum
    }
}

impl Game {
    /// Whether the score has room for whatever a slide of `board` may add:
    /// for all that the tiles on the board show together.
    pub fn has_room_for(&self, board: &Board) -> (room: bool)
        requires
            board.wf(),
        ensures
            room == (self.score + total(values_of(board.tiles@)) <= u32::MAX),
            room ==> forall|d: BoardShift|
                self.score + total(#[trigger] all_merges(board@, d, board.size as int)) <= u32::MAX,
    {
        proof {
            assert forall|d: BoardShift|
                total(#[trigger] all_merges(board@, d, board.size as int)) <= total(
                    values_of(board.tiles@),
                ) by {
                lemma_gain_bounded(board.tiles@, d, board.size as int);
            }
        }
        let shown = board.total_value();
        proof {
            lemma_cells_counted(board.tiles@, board.size as int);
            assert(shown <= 65025 * 0xffff_ffff) by (nonlinear_arith)
                requires
                    shown <= board.tiles@.len() * 0xffff_ffff,
                    board.tiles@.len() <= board.size * board.size,
                    0 <= board.size <= 255,
            ;
        }
        self.score as u64 + shown <= 0xffff_ffff
    }

    /// Adds the sums of the merges to the score and raises the best score to
    /// the new score where that is higher.
    pub fn record(&mut self, merges: &Vec<u32>)
        requires
            old(self).score + total(as_ints(merges@)) <= u32::MAX,
        ensures
            final(self).score == old(self).score + total(as_ints(merges@)),
            final(self).score_best == if old(self).score_best < final(self).score {
                final(self).score
            } else {
                old(self).score_best
            },
            final(self).score_best >= old(self).score_best,
    {
        let mut k: usize = 0;
        proof {
            assert(as_ints(merges@).subrange(0, merges.len() as int) =~= as_ints(merges@));
        }
        while k < merges.len()
            invariant
                0 <= k <= merges.len(),
                self.score_best == old(self).score_best,
                self.score + total(as_ints(merges@).subrange(k as int, merges.len() as int)) == old(
                    self,
                ).score + total(as_ints(merges@)),
                old(self).score + total(as_ints(merges@)) <= u32::MAX,
            decreases merges.len() - k,
        {
            proof {
                let here = as_ints(merges@).subrange(k as int, merges.len() as int);
                let rest = as_ints(merges@).subrange(k + 1, merges.len() as int);
                assert(here.subrange(1, here.len() as int) =~= rest);
                assert(here[0] == merges[k as int]);
                assert(none_negative(rest)) by {
                    assert forall|j: int| 0 <= j < rest.len() implies #[trigger] rest[j] >= 0 by {
                        assert(rest[j] == merges[k + 1 + j] as int);
                    }
                }
                lemma_total_nonnegative(rest);
            }
            self.score = self.score + merges[k];
            k = k + 1;
        }
        if self.score_best < self.score {
            self.score_best = self.score;
        }
    }

    /// Sets the running score back to zero and keeps the best score.
    pub fn reset(&mut self)
        ensures
            final(self).score == 0,
            final(self).score_best == old(self).score_best,
    {
        self.score = 0;
    }
}

} // verus!
