use boxes::components::{Board, Game, Points, Position, RunState, Tile};
use boxes::session::Session;
use boxes::shift::Key;
use boxes::ui::Interaction;
use rand::rngs::StdRng;
use rand::SeedableRng;

fn tile(x: u8, y: u8, value: u32) -> Tile {
    Tile { position: Position { x, y }, points: Points { value } }
}

fn at(x: u8, y: u8) -> Position {
    Position { x, y }
}

fn playing(size: u8, tiles: Vec<Tile>) -> Session {
    Session { board: Board { size, tiles }, game: Game::default(), run_state: RunState::Playing }
}

fn checkerboard_but(free: Position) -> Vec<Tile> {
    let mut tiles = Vec::new();
    for y in 0..4u8 {
        for x in 0..4u8 {
            if at(x, y) != free {
                tiles.push(tile(x, y, if (x + y) % 2 == 0 { 8 } else { 16 }));
            }
        }
    }
    tiles
}

#[test]
fn a_session_opens_with_two_tiles() {
    let mut rng = StdRng::seed_from_u64(4);
    let session = Session::new(4, &mut rng);
    assert_eq!(session.run_state, RunState::Playing);
    assert_eq!(session.game, Game { score: 0, score_best: 0 });
    assert_eq!(session.board.size, 4);
    assert_eq!(session.board.tiles.len(), 2);
    assert!(session.board.tiles[0].position != session.board.tiles[1].position);
    for t in session.board.tiles.iter() {
        assert_eq!(t.points.value, 2);
        assert!(t.position.x < 4 && t.position.y < 4);
    }
}

#[test]
fn a_tick_slides_scores_and_spawns() {
    let mut rng = StdRng::seed_from_u64(8);
    let mut session = playing(4, vec![tile(0, 0, 2), tile(1, 0, 2)]);
    let spawned = session.step(&vec![Key::Left], &mut rng).unwrap();
    assert!(spawned != at(0, 0));
    assert_eq!(session.board.tiles, vec![tile(0, 0, 4), tile(spawned.x, spawned.y, 2)]);
    assert_eq!(session.game, Game { score: 4, score_best: 4 });
    assert_eq!(session.run_state, RunState::Playing);
}

#[test]
fn a_tick_without_a_change_spawns_nothing() {
    let mut rng = StdRng::seed_from_u64(8);
    let mut session = playing(4, vec![tile(0, 0, 2), tile(1, 0, 4)]);
    assert_eq!(session.step(&vec![Key::Left], &mut rng), None);
    assert_eq!(session.step(&vec![Key::Other], &mut rng), None);
    assert_eq!(session.step(&vec![], &mut rng), None);
    assert_eq!(session.board.tiles, vec![tile(0, 0, 2), tile(1, 0, 4)]);
    assert_eq!(session.game, Game::default());
    assert_eq!(session.run_state, RunState::Playing);
}

#[test]
fn a_tick_that_fills_the_board_without_a_move_ends_the_game() {
    let mut rng = StdRng::seed_from_u64(8);
    // The free cell is (3, 0); row 0 is 8 16 8 . and slides right into
    // . 8 16 8, and the spawned two lands on (0, 0), beside 16 and 8.
    let mut tiles = checkerboard_but(at(3, 0));
    tiles.retain(|t| t.position.y != 0);
    tiles.push(tile(0, 0, 16));
    tiles.push(tile(1, 0, 8));
    tiles.push(tile(2, 0, 16));
    let mut session = playing(4, tiles);
    let spawned = session.step(&vec![Key::Right], &mut rng);
    assert_eq!(spawned, Some(at(0, 0)));
    assert_eq!(session.board.tiles.len(), 16);
    assert_eq!(session.board.get(at(0, 0)), Some(2));
    assert_eq!(session.board.get(at(1, 0)), Some(16));
    assert_eq!(session.board.get(at(3, 0)), Some(16));
    assert_eq!(session.game.score, 0);
    assert_eq!(session.run_state, RunState::GameOver);
}

#[test]
fn a_full_board_without_a_move_ends_the_game_at_the_next_tick() {
    let mut rng = StdRng::seed_from_u64(8);
    let mut tiles = checkerboard_but(at(0, 0));
    tiles.push(tile(0, 0, 8));
    let mut session = playing(4, tiles.clone());
    assert_eq!(session.step(&vec![], &mut rng), None);
    assert_eq!(session.run_state, RunState::GameOver);
    assert_eq!(session.board.tiles, tiles);
}

#[test]
fn an_ended_game_takes_no_slide() {
    let mut rng = StdRng::seed_from_u64(8);
    let mut session = playing(4, vec![tile(0, 0, 2), tile(1, 0, 2)]);
    session.run_state = RunState::GameOver;
    assert_eq!(session.step(&vec![Key::Left], &mut rng), None);
    assert_eq!(session.board.tiles, vec![tile(0, 0, 2), tile(1, 0, 2)]);
    assert_eq!(session.game, Game::default());
    assert_eq!(session.run_state, RunState::GameOver);
}

#[test]
fn the_button_ends_a_running_game_and_leaves_the_board() {
    let mut rng = StdRng::seed_from_u64(8);
    let mut session = playing(4, vec![tile(0, 0, 2), tile(1, 0, 4)]);
    session.game = Game { score: 12, score_best: 20 };
    assert!(session.press(Interaction::Hovered, &mut rng).is_empty());
    assert_eq!(session.run_state, RunState::Playing);
    assert!(session.press(Interaction::Pressed, &mut rng).is_empty());
    assert_eq!(session.run_state, RunState::GameOver);
    assert_eq!(session.board.tiles, vec![tile(0, 0, 2), tile(1, 0, 4)]);
    assert_eq!(session.game, Game { score: 12, score_best: 20 });
}

#[test]
fn the_button_starts_an_ended_game_anew() {
    let mut rng = StdRng::seed_from_u64(8);
    let mut session = playing(4, checkerboard_but(at(0, 0)));
    session.game = Game { score: 12, score_best: 20 };
    session.run_state = RunState::GameOver;
    assert!(session.press(Interaction::Idle, &mut rng).is_empty());
    assert_eq!(session.run_state, RunState::GameOver);
    assert_eq!(session.board.tiles.len(), 15);
    let spawned = session.press(Interaction::Pressed, &mut rng);
    assert_eq!(session.run_state, RunState::Playing);
    assert_eq!(spawned.len(), 2);
    assert!(spawned[0] != spawned[1]);
    assert_eq!(
        session.board.tiles,
        vec![tile(spawned[0].x, spawned[0].y, 2), tile(spawned[1].x, spawned[1].y, 2)]
    );
    assert_eq!(session.game, Game { score: 0, score_best: 20 });
}

#[test]
fn the_best_score_survives_games() {
    let mut rng = StdRng::seed_from_u64(21);
    let mut session = Session::new(4, &mut rng);
    let mut best = 0;
    for round in 0..3 {
        for turn in 0..40 {
            let key = [Key::Left, Key::Up, Key::Right, Key::Down][(turn + round) % 4];
            if session.game.has_room_for(&session.board) {
                session.step(&vec![key], &mut rng);
            }
            assert!(session.game.score_best >= best);
            assert!(session.game.score_best >= session.game.score);
            best = session.game.score_best;
            let mut seen: Vec<(u8, u8)> =
                session.board.tiles.iter().map(|t| (t.position.x, t.position.y)).collect();
            seen.sort();
            seen.dedup();
            assert_eq!(seen.len(), session.board.tiles.len());
            assert!(session.board.tiles.len() <= 16);
        }
        if session.run_state == RunState::Playing {
            session.press(Interaction::Pressed, &mut rng);
        }
        session.press(Interaction::Pressed, &mut rng);
        assert_eq!(session.run_state, RunState::Playing);
        assert_eq!(session.game.score, 0);
        assert_eq!(session.game.score_best, best);
    }
    assert!(best > 0);
}

#[test]
fn the_cells_of_a_board_come_column_by_column() {
    assert_eq!(Board::new(2).cells(), vec![at(0, 0), at(0, 1), at(1, 0), at(1, 1)]);
    assert_eq!(Board::new(4).cells().len(), 16);
    assert_eq!(Board::new(4).cells()[7], at(1, 3));
    assert!(Board::new(0).cells().is_empty());
}

#[test]
fn the_tiles_of_a_board_are_summed() {
    let board = Board { size: 4, tiles: vec![tile(0, 0, 2), tile(1, 0, 4), tile(3, 3, 1024)] };
    assert_eq!(board.total_value(), 1030);
    assert_eq!(Board::new(4).total_value(), 0);
    assert!(Game { score: u32::MAX - 1030, score_best: 0 }.has_room_for(&board));
    assert!(!Game { score: u32::MAX - 1029, score_best: 0 }.has_room_for(&board));
}
