//! The slide itself: tiles are put in walk order and placed one by one,
//! each against the edge or behind the tile before it, equal neighbours
//! merging once.

use vstd::prelude::*;
use crate::components::Board;
use crate::components::Points;
use crate::components::Position;
use crate::components::Tile;
use crate::conserve::lemma_values_merge;
use crate::conserve::lemma_values_rearranged;
use crate::conserve::lemma_values_start;
use crate::conserve::lemma_values_step;
use crate::conserve::merged_pairs;
use crate::conserve::values_kept;
use crate::conserve::values_of;
use crate::model::all_merges;
use crate::model::slid;
use crate::model::tiles_map;
use crate::model::total;
use crate::order::in_strict_walk_order;
use crate::order::lemma_strict_order;
use crate::order::sorted_tiles;
use crate::scan::fills_free_cell;
use crate::scan::lemma_change_step;
use crate::scan::lemma_column_on_board;
use crate::scan::lemma_free_cell_filled;
use crate::scan::lemma_lines_step;
use crate::scan::lemma_place_step;
use crate::scan::lemma_scan_done;
use crate::scan::lemma_scan_start;
use crate::scan::lines_kept;
use crate::scan::placed_in_step;
use crate::scan::walkable;
use crate::shift::BoardShift;
use crate::sums::lemma_total_rearranged;
use crate::tiles::lemma_rearranged;
use crate::walk::lemma_next_sum;
use crate::walk::lemma_walk_merges_end;
use crate::walk::lemma_walk_merges_start;
use crate::walk::step_merges;
use crate::walk::walk_merges;

verus! {

/// What one slide did: whether anything moved or merged, and the sums that
/// the merges formed, in walk order.
#[derive(Debug, Clone)]
pub struct MoveOutcome {
    pub any_change: bool,
    pub merges: Vec<u32>,
}

/// The numbers of a sequence of tile values.
pub open spec fn as_ints(v: Seq<u32>) -> Seq<int> {
    v.map_values(|x: u32| x as int)
}

/// Whether every sum that the slide forms fits a tile.
pub open spec fn merges_fit(m: Map<Position, u32>, d: BoardShift, n: int) -> bool {
    forall|i: int| 0 <= i < all_merges(m, d, n).len() ==> #[trigger] all_merges(m, d, n)[i] <= u32::MAX
}

impl Board {
    /// Slides every tile as far as it goes in direction `shift`. On each
    /// line, walked from the target edge, two equal neighbours merge into
    /// their sum, and a sum does not merge again in the same slide.
    pub fn resolve(&self, shift: BoardShift) -> (result: (Board, MoveOutcome))
        requires
            self.wf(),
            merges_fit(self@, shift, self.size as int),
        ensures
            result.0.wf(),
            result.0.size == self.size,
            result.0@ == slid(self@, shift, self.size as int),
            in_strict_walk_order(result.0.tiles@, shift),
            as_ints(result.1.merges@) == all_merges(self@, shift, self.size as int),
            result.1.any_change == (result.1.merges@.len() > 0 || result.0@ != self@),
            values_of(result.0.tiles@).to_multiset().add(merged_pairs(as_ints(result.1.merges@)))
                == values_of(self.tiles@).to_multiset().add(as_ints(result.1.merges@).to_multiset()),
            total(values_of(result.0.tiles@)) == total(values_of(self.tiles@)),
    {
        let n = self.size;
        let s = sorted_tiles(&self.tiles, shift);
        let mut placed: Vec<Tile> = Vec::new();
        let mut merged: Vec<u32> = Vec::new();
        let mut changed = false;
        let mut column: u8 = 0;
        let mut i: usize = 0;
        proof {
            lemma_rearranged(self.tiles@, s@, n as int);
            lemma_strict_order(s@, shift);
            lemma_walk_merges_start(s@, shift, n as int, 0);
            reveal(walkable);
            lemma_scan_start(s@, shift, n as int);
            lemma_values_start(s@);
            lemma_values_rearranged(s@, self.tiles@);
            lemma_total_rearranged(values_of(s@), values_of(self.tiles@));
            assert(as_ints(merged@) =~= Seq::<int>::empty());
            assert(as_ints(merged@) + walk_merges(s@, shift, n as int, 0, 0) =~= walk_merges(
                s@,
                shift,
                n as int,
                0,
                0,
            ));
            assert(placed@ =~= s@.take(0));
        }
        while i < s.len()
            invariant
                n == self.size,
                merges_fit(self@, shift, n as int),
                walkable(s@, shift, n as int),
                tiles_map(s@) == self@,
                walk_merges(s@, shift, n as int, 0, 0) == all_merges(self@, shift, n as int),
                0 <= i <= s.len(),
                lines_kept(s@, placed@, shift, n as int, i as int),
                placed_in_step(s@, placed@, shift, n as int, i as int, column as int),
                as_ints(merged@) + walk_merges(s@, shift, n as int, 0, i as int) == walk_merges(
                    s@,
                    shift,
                    n as int,
                    0,
                    0,
                ),
                values_kept(s@, placed@, as_ints(merged@), i as int),
                !changed ==> placed@ == s@.take(i as int) && merged.len() == 0,
                changed ==> merged.len() > 0 || fills_free_cell(s@, placed@),
            decreases s.len() - i,
        {
            let tile = s[i];
            let row = shift.get_row_position(&tile.position);
            proof {
                lemma_column_on_board(s@, placed@, shift, n as int, i as int, column as int);
            }
            let mut position = tile.position;
            shift.set_column_position(n, &mut position, column);
            let mut value = tile.points.value;
            let mut next = i + 1;
            let moved = position.x != tile.position.x || position.y != tile.position.y;
            let merge = next < s.len() && shift.get_row_position(&s[next].position) == row && s[next].points.value
                == value;
            assert(merge == step_merges(s@, shift, i as int));
            if merge {
                proof {
                    reveal(walkable);
                    lemma_next_sum(s@, shift, n as int, i as int);
                    let sum = value + s[next as int].points.value;
                    let rest = walk_merges(s@, shift, n as int, 0, i + 2);
                    let all = all_merges(self@, shift, n as int);
                    assert(all == as_ints(merged@) + (seq![sum] + rest));
                    assert(all[merged.len() as int] == sum);
                }
                value = value + s[next].points.value;
                next = i + 2;
            }
            let t = Tile { position, points: Points { value } };
            proof {
                lemma_lines_step(s@, placed@, t, shift, n as int, i as int);
                lemma_place_step(s@, placed@, t, shift, n as int, i as int, next as int, column as int);
                lemma_change_step(s@, placed@, t, shift, n as int, i as int, column as int);
                if merge {
                    let rest = walk_merges(s@, shift, n as int, 0, i + 2);
                    let sum = seq![value as int];
                    lemma_values_merge(s@, placed@, as_ints(merged@), t, i as int);
                    assert(as_ints(merged@.push(value)) =~= as_ints(merged@).push(value as int));
                    assert(as_ints(merged@.push(value)) =~= as_ints(merged@) + sum);
                    assert((as_ints(merged@) + sum) + rest =~= as_ints(merged@) + (sum + rest));
                } else {
                    lemma_values_step(s@, placed@, as_ints(merged@), t, i as int);
                }
            }
            if merge {
                merged.push(value);
            }
            if moved || merge {
                changed = true;
            }
            placed.push(t);
            if next < s.len() && shift.get_row_position(&s[next].position) == row {
                column = column + 1;
            } else {
                column = 0;
            }
            i = next;
        }
        proof {
            lemma_scan_done(s@, placed@, shift, n as int, column as int);
            lemma_walk_merges_end(s@, shift, n as int, 0, i as int);
            reveal(values_kept);
            assert(s@.take(i as int) =~= s@);
            assert(as_ints(merged@) + Seq::<int>::empty() =~= as_ints(merged@));
            if changed {
                if merged.len() == 0 {
                    lemma_free_cell_filled(s@, placed@);
                }
            } else {
                assert(s@.take(i as int) =~= s@);
            }
        }
        let board = Board { size: n, tiles: placed };
        let outcome = MoveOutcome { any_change: changed, merges: merged };
        (board, outcome)
    }
}

} // verus!
