use boxes::components::{Board, Points, Position, RunState, Tile};
use boxes::utility::end_game;

fn filled(size: u8, value: impl Fn(u8, u8) -> u32) -> Board {
    let mut tiles = Vec::new();
    for y in 0..size {
        for x in 0..size {
            tiles.push(Tile { position: Position { x, y }, points: Points { value: value(x, y) } });
        }
    }
    Board { size, tiles }
}

fn checkerboard() -> Board {
    filled(4, |x, y| if (x + y) % 2 == 0 { 2 } else { 4 })
}

#[test]
fn a_full_board_without_equal_neighbours_has_no_move() {
    assert!(!checkerboard().has_any_move());
    let distinct = filled(4, |x, y| 2u32 << (4 * y + x));
    assert!(!distinct.has_any_move());
}

#[test]
fn a_full_board_with_equal_neighbours_in_a_row_has_a_move() {
    let board = filled(4, |x, y| if (x, y) == (3, 2) { 2 } else if (x + y) % 2 == 0 { 2 } else { 4 });
    assert!(board.has_any_move());
}

#[test]
fn a_full_board_with_equal_neighbours_in_a_column_has_a_move() {
    let board = filled(4, |x, y| if (x, y) == (0, 0) { 8 } else if (x, y) == (0, 1) { 8 } else if (x + y) % 2 == 0 { 2 } else { 4 });
    assert!(board.has_any_move());
}

#[test]
fn equal_tiles_at_a_corner_count() {
    let board = filled(4, |x, y| if (x, y) == (3, 3) { 4 } else if (x + y) % 2 == 0 { 2 } else { 4 });
    assert!(board.has_any_move());
    let board = filled(4, |x, y| if (x, y) == (0, 3) { 2 } else if (x + y) % 2 == 0 { 2 } else { 4 });
    assert!(board.has_any_move());
}

#[test]
fn equal_tiles_that_touch_only_at_a_corner_do_not_count() {
    let board = filled(2, |x, y| if x == y { 2 } else { 4 });
    assert!(!board.has_any_move());
}

#[test]
fn a_board_with_a_free_cell_has_a_move() {
    let mut board = checkerboard();
    board.tiles.pop();
    assert!(board.has_any_move());
    assert!(Board::new(4).has_any_move());
}

#[test]
fn a_board_of_one_cell_ends_when_filled() {
    let board = filled(1, |_, _| 2);
    assert!(!board.has_any_move());
    assert!(Board::new(1).has_any_move());
}

#[test]
fn a_checkerboard_ends_the_game() {
    assert_eq!(end_game(&checkerboard(), RunState::Playing), RunState::GameOver);
}

#[test]
fn a_board_with_a_move_keeps_the_run_state() {
    let mut board = checkerboard();
    board.tiles.pop();
    assert_eq!(end_game(&board, RunState::Playing), RunState::Playing);
    assert_eq!(end_game(&board, RunState::GameOver), RunState::GameOver);
    let pair = filled(4, |x, y| if (x, y) == (1, 1) { 4 } else if (x + y) % 2 == 0 { 2 } else { 4 });
    assert_eq!(end_game(&pair, RunState::Playing), RunState::Playing);
}
