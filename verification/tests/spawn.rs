use boxes::components::{Board, Game, Points, Position, Tile};
use boxes::utility::{game_reset, new_game, new_tile_handler, spawn_tile, spawn_tiles};
use rand::rngs::StdRng;
use rand::SeedableRng;

fn tile(x: u8, y: u8, value: u32) -> Tile {
    Tile { position: Position { x, y }, points: Points { value } }
}

fn at(x: u8, y: u8) -> Position {
    Position { x, y }
}

fn full_but(size: u8, free: &[Position]) -> Board {
    let mut tiles = Vec::new();
    for x in 0..size {
        for y in 0..size {
            if !free.contains(&at(x, y)) {
                tiles.push(tile(x, y, 4));
            }
        }
    }
    Board { size, tiles }
}

#[test]
fn a_new_board_has_no_tiles() {
    let board = Board::new(4);
    assert_eq!(board.size, 4);
    assert!(board.tiles.is_empty());
}

#[test]
fn free_cells_come_in_the_order_of_the_grid() {
    let board = Board::new(2);
    assert_eq!(board.empty_cells(), vec![at(0, 0), at(0, 1), at(1, 0), at(1, 1)]);
    let board = Board { size: 3, tiles: vec![tile(0, 0, 2), tile(1, 1, 2), tile(2, 0, 2), tile(0, 2, 4)] };
    assert_eq!(board.empty_cells(), vec![at(0, 1), at(1, 0), at(1, 2), at(2, 1), at(2, 2)]);
}

#[test]
fn a_full_board_has_no_free_cell() {
    assert!(full_but(4, &[]).empty_cells().is_empty());
    assert!(Board::new(0).empty_cells().is_empty());
}

#[test]
fn cells_are_looked_up_by_position() {
    let board = Board { size: 4, tiles: vec![tile(0, 0, 2), tile(3, 1, 64)] };
    assert_eq!(board.get(at(0, 0)), Some(2));
    assert_eq!(board.get(at(3, 1)), Some(64));
    assert_eq!(board.get(at(1, 3)), None);
    assert!(board.is_occupied(at(3, 1)));
    assert!(!board.is_occupied(at(1, 3)));
}

#[test]
fn a_spawned_tile_shows_two() {
    let mut board = Board { size: 4, tiles: vec![tile(0, 0, 8)] };
    spawn_tile(&mut board, at(2, 3));
    assert_eq!(board.tiles, vec![tile(0, 0, 8), tile(2, 3, 2)]);
    assert_eq!(board.size, 4);
}

#[test]
fn one_tile_is_spawned_on_a_free_cell() {
    for seed in 0..50u64 {
        let mut rng = StdRng::seed_from_u64(seed);
        let mut board = Board { size: 4, tiles: vec![tile(0, 0, 4), tile(1, 2, 8)] };
        let spawned = new_tile_handler(&mut board, &mut rng);
        let pos = spawned.unwrap();
        assert!(pos.x < 4 && pos.y < 4);
        assert!(pos != at(0, 0) && pos != at(1, 2));
        assert_eq!(board.tiles, vec![tile(0, 0, 4), tile(1, 2, 8), tile(pos.x, pos.y, 2)]);
    }
}

#[test]
fn the_last_free_cell_is_found() {
    let mut rng = StdRng::seed_from_u64(3);
    let mut board = full_but(4, &[at(2, 1)]);
    assert_eq!(new_tile_handler(&mut board, &mut rng), Some(at(2, 1)));
    assert_eq!(board.tiles.len(), 16);
    assert_eq!(board.get(at(2, 1)), Some(2));
}

#[test]
fn a_full_board_gets_no_tile() {
    let mut rng = StdRng::seed_from_u64(3);
    let mut board = full_but(4, &[]);
    let before = board.tiles.clone();
    assert_eq!(new_tile_handler(&mut board, &mut rng), None);
    assert_eq!(board.tiles, before);
}

#[test]
fn every_free_cell_can_be_drawn() {
    let mut seen: Vec<Position> = Vec::new();
    for seed in 0..200u64 {
        let mut rng = StdRng::seed_from_u64(seed);
        let mut board = full_but(2, &[at(0, 1), at(1, 0), at(1, 1)]);
        let pos = new_tile_handler(&mut board, &mut rng).unwrap();
        if !seen.contains(&pos) {
            seen.push(pos);
        }
    }
    assert_eq!(seen.len(), 3);
}

#[test]
fn the_same_seed_draws_the_same_cell() {
    let mut first = StdRng::seed_from_u64(11);
    let mut second = StdRng::seed_from_u64(11);
    let mut a = Board::new(4);
    let mut b = Board::new(4);
    assert_eq!(new_tile_handler(&mut a, &mut first), new_tile_handler(&mut b, &mut second));
    assert_eq!(spawn_tiles(&mut a, &mut first), spawn_tiles(&mut b, &mut second));
    assert_eq!(a.tiles, b.tiles);
}

#[test]
fn two_opening_tiles_stand_apart() {
    for seed in 0..50u64 {
        let mut rng = StdRng::seed_from_u64(seed);
        let mut board = Board::new(4);
        let spawned = spawn_tiles(&mut board, &mut rng);
        assert_eq!(spawned.len(), 2);
        assert!(spawned[0] != spawned[1]);
        for pos in spawned.iter() {
            assert!(pos.x < 4 && pos.y < 4);
        }
        assert_eq!(
            board.tiles,
            vec![tile(spawned[0].x, spawned[0].y, 2), tile(spawned[1].x, spawned[1].y, 2)]
        );
    }
}

#[test]
fn opening_tiles_keep_off_filled_cells() {
    for seed in 0..20u64 {
        let mut rng = StdRng::seed_from_u64(seed);
        let mut board = full_but(3, &[at(0, 2), at(1, 1), at(2, 0)]);
        let spawned = spawn_tiles(&mut board, &mut rng);
        assert_eq!(spawned.len(), 2);
        assert!(spawned[0] != spawned[1]);
        for pos in spawned.iter() {
            assert!([at(0, 2), at(1, 1), at(2, 0)].contains(pos));
            assert_eq!(board.get(*pos), Some(2));
        }
        assert_eq!(board.tiles.len(), 8);
    }
}

#[test]
fn fewer_free_cells_give_fewer_opening_tiles() {
    let mut rng = StdRng::seed_from_u64(5);
    let mut board = Board::new(1);
    assert_eq!(spawn_tiles(&mut board, &mut rng), vec![at(0, 0)]);
    assert_eq!(board.tiles, vec![tile(0, 0, 2)]);
    assert_eq!(spawn_tiles(&mut board, &mut rng), vec![]);
    assert_eq!(board.tiles, vec![tile(0, 0, 2)]);
    let mut none = Board::new(0);
    assert_eq!(spawn_tiles(&mut none, &mut rng), vec![]);
}

#[test]
fn a_reset_clears_board_and_score_and_keeps_the_best() {
    let mut board = Board { size: 4, tiles: vec![tile(0, 0, 4), tile(1, 2, 8)] };
    let mut game = Game { score: 12, score_best: 40 };
    game_reset(&mut board, &mut game);
    assert!(board.tiles.is_empty());
    assert_eq!(board.size, 4);
    assert_eq!(game, Game { score: 0, score_best: 40 });
}

#[test]
fn a_new_game_opens_with_two_tiles() {
    let mut rng = StdRng::seed_from_u64(9);
    let mut board = full_but(4, &[]);
    let mut game = Game { score: 64, score_best: 64 };
    let spawned = new_game(&mut board, &mut game, &mut rng);
    assert_eq!(spawned.len(), 2);
    assert!(spawned[0] != spawned[1]);
    assert_eq!(board.tiles, vec![tile(spawned[0].x, spawned[0].y, 2), tile(spawned[1].x, spawned[1].y, 2)]);
    assert_eq!(game, Game { score: 0, score_best: 64 });
}

#[test]
fn after_a_merge_one_tile_is_spawned() {
    let mut rng = StdRng::seed_from_u64(1);
    let mut board = Board { size: 4, tiles: vec![tile(0, 0, 2), tile(1, 0, 2)] };
    let mut game = Game::default();
    let event = boxes::utility::board_shift(&mut board, &mut game, &vec![boxes::shift::Key::Left]);
    assert!(event.is_some());
    let pos = new_tile_handler(&mut board, &mut rng).unwrap();
    assert!(pos != at(0, 0));
    assert_eq!(board.tiles, vec![tile(0, 0, 4), tile(pos.x, pos.y, 2)]);
    assert_eq!(game.score, 4);
}
