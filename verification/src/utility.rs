//! The moves of a game: the slide with its score, the spawning of tiles, the
//! reset, and the test for a finished game.

use vstd::prelude::*;
use rand::rngs::StdRng;
use crate::components::Board;
use crate::components::Game;
use crate::components::Points;
use crate::components::Position;
use crate::components::RunState;
use crate::components::Tile;
use crate::bounds::lemma_fit_score_fit_tiles;
use crate::cells::free_cells;
use crate::cells::grid_place;
use crate::cells::lemma_free_from;
use crate::conserve::lemma_no_pairs;
use crate::conserve::merged_pairs;
use crate::conserve::values_of;
use crate::model::all_merges;
use crate::model::in_bounds;
use crate::model::slid;
use crate::model::total;
use crate::order::in_strict_walk_order;
use crate::random::choose_cell;
use crate::random::choose_cells;
use crate::resolve::as_ints;
use crate::shift::BoardShift;
use crate::shift::Key;
use crate::shift::first_shift;
use crate::terminal::has_equal_neighbours;
use crate::tiles::lemma_tile_added;

verus! {

/// The board `m` with a tile of value two on each of the cells `picks`.
pub open spec fn with_spawned(m: Map<Position, u32>, picks: Seq<Position>) -> Map<Position, u32>
    decreases picks.len(),
{
    if picks.len() == 0 {
        m
    } else {
        with_spawned(m, picks.drop_last()).insert(picks.last(), 2)
    }
}

/// The cells of a board with spawned tiles are the cells of the board and
/// the cells spawned on.
pub proof fn lemma_spawned_cells(m: Map<Position, u32>, picks: Seq<Position>)
    ensures
        forall|p: Position|
            #[trigger] with_spawned(m, picks).dom().contains(p) <==> m.dom().contains(p)
                || picks.contains(p),
    decreases picks.len(),
{
    if picks.len() > 0 {
        lemma_spawned_cells(m, picks.drop_last());
        assert forall|p: Position| #[trigger]
            with_spawned(m, picks).dom().contains(p) <==> m.dom().contains(p) || picks.contains(
                p,
            ) by {
            let shorter = with_spawned(m, picks.drop_last());
            assert(with_spawned(m, picks) == shorter.insert(picks.last(), 2));
            assert(shorter.dom().contains(p) <==> m.dom().contains(p) || picks.drop_last().contains(p));
            if picks.drop_last().contains(p) {
                let j = choose|j: int| 0 <= j < picks.drop_last().len() && picks.drop_last()[j] == p;
                assert(picks[j] == p);
            }
            if picks.contains(p) {
                let j = choose|j: int| 0 <= j < picks.len() && picks[j] == p;
                if j < picks.len() - 1 {
                    assert(picks.drop_last()[j] == p);
                } else {
                    assert(picks.last() == p);
                }
            }
        }
    } else {
        assert forall|p: Position| #[trigger]
            with_spawned(m, picks).dom().contains(p) <==> m.dom().contains(p) || picks.contains(
                p,
            ) by {
            if picks.contains(p) {
                let j = choose|j: int| 0 <= j < picks.len() && picks[j] == p;
            }
        }
    }
}

/// Puts a tile of value two on the free cell `pos`.
pub fn spawn_tile(board: &mut Board, pos: Position)
    requires
        old(board).wf(),
        in_bounds(old(board).size as int, pos),
        !old(board)@.dom().contains(pos),
    ensures
        final(board).wf(),
        final(board).size == old(board).size,
        final(board).tiles@ == old(board).tiles@.push(Tile { position: pos, points: Points { value: 2 } }),
        final(board)@ == old(board)@.insert(pos, 2),
{
    let tile = Tile { position: pos, points: Points { value: 2 } };
    proof {
        lemma_tile_added(board.tiles@, tile);
    }
    board.tiles.push(tile);
}

/// Spawns one tile of value two on a free cell drawn at random, and says
/// where. A board without a free cell stays as it is.
pub fn new_tile_handler(board: &mut Board, rng: &mut StdRng) -> (spawned: Option<Position>)
    requires
        old(board).wf(),
    ensures
        final(board).wf(),
        final(board).size == old(board).size,
        ({
            let free = free_cells(old(board)@, old(board).size as int);
            &&& free.len() == 0 ==> spawned is None && final(board).tiles@ == old(board).tiles@
            &&& free.len() > 0 ==> spawned is Some && free.contains(spawned.unwrap()) && final(board)@
                == old(board)@.insert(spawned.unwrap(), 2)
        }),
{
    let cells = board.empty_cells();
    let possible_pos = choose_cell(&cells, rng);
    if let Some(pos) = possible_pos {
        proof {
            lemma_free_from(board@, board.size as int, 0);
        }
        spawn_tile(board, pos);
    }
    possible_pos
}

/// Spawns the two opening tiles, each of value two, on free cells drawn at
/// random, and says where. A board with fewer than two free cells gets as
/// many tiles as it has free cells.
pub fn spawn_tiles(board: &mut Board, rng: &mut StdRng) -> (spawned: Vec<Position>)
    requires
        old(board).wf(),
    ensures
        final(board).wf(),
        final(board).size == old(board).size,
        spawned@.len() == if free_cells(old(board)@, old(board).size as int).len() >= 2 {
            2
        } else {
            free_cells(old(board)@, old(board).size as int).len() as int
        },
        spawned@.no_duplicates(),
        forall|i: int|
            0 <= i < spawned@.len() ==> free_cells(old(board)@, old(board).size as int).contains(
                #[trigger] spawned@[i],
            ),
        final(board)@ == with_spawned(old(board)@, spawned@),
{
    let cells = board.empty_cells();
    let starting_tiles = choose_cells(&cells, 2, rng);
    let ghost before = board@;
    let ghost n = board.size as int;
    proof {
        lemma_free_from(before, n, 0);
        lemma_picks_distinct(cells@, starting_tiles@);
    }
    let mut k: usize = 0;
    while k < starting_tiles.len()
        invariant
            0 <= k <= starting_tiles.len(),
            board.wf(),
            board.size == n,
            n == old(board).size,
            before == old(board)@,
            cells@ == free_cells(before, n),
            starting_tiles@.no_duplicates(),
            forall|i: int| 0 <= i < starting_tiles@.len() ==> cells@.contains(#[trigger] starting_tiles@[i]),
            forall|p: Position|
                cells@.contains(p) <==> in_bounds(n, p) && grid_place(n, p) >= 0
                    && !before.dom().contains(p),
            board@ == with_spawned(before, starting_tiles@.take(k as int)),
        decreases starting_tiles.len() - k,
    {
        let pos = starting_tiles[k];
        proof {
            let done = starting_tiles@.take(k as int);
            lemma_spawned_cells(before, done);
            assert(cells@.contains(starting_tiles@[k as int]));
            if done.contains(pos) {
                let j = choose|j: int| 0 <= j < done.len() && done[j] == pos;
                assert(starting_tiles@[j] == pos);
            }
            let next = starting_tiles@.take(k + 1);
            assert(next.drop_last() =~= done);
            assert(next.last() == pos);
        }
        spawn_tile(board, pos);
        k = k + 1;
    }
    assert(starting_tiles@.take(k as int) =~= starting_tiles@);
    starting_tiles
}

/// Picks of which none occurs more often than in a sequence without
/// repeats are items of that sequence, without repeats.
proof fn lemma_picks_distinct(cells: Seq<Position>, picks: Seq<Position>)
    requires
        cells.no_duplicates(),
        picks.to_multiset().subset_of(cells.to_multiset()),
    ensures
        picks.no_duplicates(),
        forall|i: int| 0 <= i < picks.len() ==> cells.contains(#[trigger] picks[i]),
{
    cells.lemma_multiset_has_no_duplicates();
    assert forall|x: Position| picks.to_multiset().contains(x) implies picks.to_multiset().count(x)
        == 1 by {
        assert(picks.to_multiset().count(x) <= cells.to_multiset().count(x));
        assert(cells.to_multiset().contains(x));
    }
    picks.lemma_multiset_has_no_duplicates_conv();
    assert forall|i: int| 0 <= i < picks.len() implies cells.contains(#[trigger] picks[i]) by {
        vstd::seq_lib::to_multiset_contains(picks, picks[i]);
        vstd::seq_lib::to_multiset_contains(cells, picks[i]);
        assert(picks.contains(picks[i]));
        assert(picks.to_multiset().count(picks[i]) <= cells.to_multiset().count(picks[i]));
    }
}

/// The notice that a slide changed the board and a new tile is due.
#[derive(Debug, PartialEq, Eq, Structural, Clone, Copy)]
pub struct NewTileEvent;

/// Whether a slide in direction `d` moves or merges a tile.
pub open spec fn changes(m: Map<Position, u32>, d: BoardShift, n: int) -> bool {
    all_merges(m, d, n).len() > 0 || slid(m, d, n) != m
}

/// Slides the board in the direction of the first key that asks for one,
/// adds the sums of the merges to the score and raises the best score. A
/// slide that moves and merges nothing leaves board and score as they are;
/// any other gives notice that a new tile is due.
pub fn board_shift(board: &mut Board, game: &mut Game, keys: &Vec<Key>) -> (event: Option<NewTileEvent>)
    requires
        old(board).wf(),
        first_shift(keys@, 0) is Some ==> old(game).score + total(
            all_merges(old(board)@, first_shift(keys@, 0).unwrap(), old(board).size as int),
        ) <= u32::MAX,
    ensures
        final(board).wf(),
        final(board).size == old(board).size,
        final(game).score_best >= old(game).score_best,
        first_shift(keys@, 0) is None ==> event is None && final(board).tiles@ == old(board).tiles@
            && *final(game) == *old(game),
        first_shift(keys@, 0) is Some ==> ({
            let d = first_shift(keys@, 0).unwrap();
            let n = old(board).size as int;
            &&& final(board)@ == slid(old(board)@, d, n)
            &&& final(game).score == old(game).score + total(all_merges(old(board)@, d, n))
            &&& values_of(final(board).tiles@).to_multiset().add(merged_pairs(all_merges(old(board)@, d, n)))
                == values_of(old(board).tiles@).to_multiset().add(
                all_merges(old(board)@, d, n).to_multiset(),
            )
            &&& total(values_of(final(board).tiles@)) == total(values_of(old(board).tiles@))
            &&& event is Some == changes(old(board)@, d, n)
            &&& changes(old(board)@, d, n) ==> in_strict_walk_order(final(board).tiles@, d)
            &&& changes(old(board)@, d, n) ==> final(game).score_best == if old(game).score_best
                < final(game).score {
                final(game).score
            } else {
                old(game).score_best
            }
            &&& !changes(old(board)@, d, n) ==> final(board).tiles@ == old(board).tiles@ && *final(game)
                == *old(game)
        }),
{
    let shift_direction = BoardShift::first_requested(keys);
    if let Some(board_shift) = shift_direction {
        proof {
            lemma_fit_score_fit_tiles(board@, board_shift, board.size as int, game.score as int);
        }
        let (after, outcome) = board.resolve(board_shift);
        if outcome.any_change {
            game.record(&outcome.merges);
            *board = after;
            return Some(NewTileEvent);
        }
        proof {
            assert(as_ints(outcome.merges@) =~= Seq::<int>::empty());
            lemma_no_pairs();
        }
    }
    None
}

/// Ends the game where the board is at capacity and no two tiles of equal
/// value stand side by side; otherwise the run state stays.
pub fn end_game(board: &Board, run_state: RunState) -> (next: RunState)
    requires
        board.wf(),
    ensures
        next == if board.at_capacity() && !has_equal_neighbours(board@) {
            RunState::GameOver
        } else {
            run_state
        },
        board.at_capacity() == (free_cells(board@, board.size as int).len() == 0),
{
    if !board.has_any_move() {
        RunState::GameOver
    } else {
        run_state
    }
}

/// Takes every tile off the board and sets the running score to zero. The
/// best score stays.
pub fn game_reset(board: &mut Board, game: &mut Game)
    ensures
        final(board).wf(),
        final(board).size == old(board).size,
        final(board).tiles@.len() == 0,
        final(board)@ == Map::<Position, u32>::empty(),
        final(game).score == 0,
        final(game).score_best == old(game).score_best,
{
    board.tiles.clear();
    game.reset();
    assert(board@ =~= Map::<Position, u32>::empty());
}

/// Starts a game anew: the board is cleared, the running score set to zero,
/// and the two opening tiles are spawned. Says where they stand.
pub fn new_game(board: &mut Board, game: &mut Game, rng: &mut StdRng) -> (spawned: Vec<Position>)
    ensures
        final(board).wf(),
        final(board).size == old(board).size,
        final(game).score == 0,
        final(game).score_best == old(game).score_best,
        spawned@.len() == if free_cells(Map::<Position, u32>::empty(), old(board).size as int).len() >= 2 {
            2
        } else {
            free_cells(Map::<Position, u32>::empty(), old(board).size as int).len() as int
        },
        spawned@.no_duplicates(),
        forall|i: int|
            0 <= i < spawned@.len() ==> in_bounds(old(board).size as int, #[trigger] spawned@[i]),
        final(board)@ == with_spawned(Map::<Position, u32>::empty(), spawned@),
{
    game_reset(board, game);
    proof {
        lemma_free_from(board@, board.size as int, 0);
    }
    spawn_tiles(board, rng)
}

} // verus!
