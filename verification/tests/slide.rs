use boxes::components::{Board, Game, Points, Position, Tile};
use boxes::shift::{BoardShift, Key};
use boxes::utility::{board_shift, NewTileEvent};

fn tile(x: u8, y: u8, value: u32) -> Tile {
    Tile { position: Position { x, y }, points: Points { value } }
}

fn board(size: u8, tiles: Vec<Tile>) -> Board {
    Board { size, tiles }
}

fn cells(board: &Board) -> Vec<(u8, u8, u32)> {
    let mut all: Vec<(u8, u8, u32)> =
        board.tiles.iter().map(|t| (t.position.x, t.position.y, t.points.value)).collect();
    all.sort();
    all
}

#[test]
fn two_equal_tiles_merge_at_the_left_edge() {
    let before = board(4, vec![tile(0, 0, 2), tile(1, 0, 2)]);
    let (after, outcome) = before.resolve(BoardShift::Left);
    assert_eq!(after.tiles, vec![tile(0, 0, 4)]);
    assert_eq!(after.size, 4);
    assert_eq!(outcome.merges, vec![4]);
    assert!(outcome.any_change);
}

#[test]
fn four_equal_tiles_merge_in_pairs() {
    let before = board(4, vec![tile(3, 0, 2), tile(1, 0, 2), tile(0, 0, 2), tile(2, 0, 2)]);
    let (after, outcome) = before.resolve(BoardShift::Left);
    assert_eq!(cells(&after), vec![(0, 0, 4), (1, 0, 4)]);
    assert_eq!(outcome.merges, vec![4, 4]);
    assert!(outcome.any_change);
}

#[test]
fn three_equal_tiles_merge_once() {
    let before = board(4, vec![tile(0, 1, 8), tile(1, 1, 8), tile(2, 1, 8)]);
    let (after, outcome) = before.resolve(BoardShift::Left);
    assert_eq!(cells(&after), vec![(0, 1, 16), (1, 1, 8)]);
    assert_eq!(outcome.merges, vec![16]);
}

#[test]
fn three_equal_tiles_merge_once_toward_the_right() {
    let before = board(4, vec![tile(0, 1, 8), tile(1, 1, 8), tile(2, 1, 8)]);
    let (after, outcome) = before.resolve(BoardShift::Right);
    assert_eq!(cells(&after), vec![(2, 1, 8), (3, 1, 16)]);
    assert_eq!(outcome.merges, vec![16]);
}

#[test]
fn a_sum_does_not_merge_with_an_equal_tile_behind_it() {
    let before = board(4, vec![tile(0, 0, 2), tile(1, 0, 2), tile(2, 0, 4)]);
    let (after, outcome) = before.resolve(BoardShift::Left);
    assert_eq!(cells(&after), vec![(0, 0, 4), (1, 0, 4)]);
    assert_eq!(outcome.merges, vec![4]);
}

#[test]
fn tiles_given_out_of_order_are_walked_from_the_edge() {
    let before = board(4, vec![tile(3, 0, 4), tile(1, 0, 2)]);
    let (after, outcome) = before.resolve(BoardShift::Left);
    assert_eq!(after.tiles, vec![tile(0, 0, 2), tile(1, 0, 4)]);
    assert!(outcome.merges.is_empty());
    assert!(outcome.any_change);
}

#[test]
fn gaps_are_closed_without_a_merge() {
    let before = board(4, vec![tile(1, 2, 2), tile(3, 2, 4)]);
    let (after, outcome) = before.resolve(BoardShift::Left);
    assert_eq!(cells(&after), vec![(0, 2, 2), (1, 2, 4)]);
    assert!(outcome.merges.is_empty());
    assert!(outcome.any_change);
}

#[test]
fn right_packs_against_the_last_column() {
    let before = board(4, vec![tile(0, 0, 2), tile(1, 0, 4), tile(0, 3, 8)]);
    let (after, outcome) = before.resolve(BoardShift::Right);
    assert_eq!(cells(&after), vec![(2, 0, 2), (3, 0, 4), (3, 3, 8)]);
    assert!(outcome.merges.is_empty());
    assert!(outcome.any_change);
}

#[test]
fn up_packs_against_the_last_row() {
    let before = board(4, vec![tile(1, 0, 2), tile(1, 1, 2), tile(2, 2, 8)]);
    let (after, outcome) = before.resolve(BoardShift::Up);
    assert_eq!(cells(&after), vec![(1, 3, 4), (2, 3, 8)]);
    assert_eq!(outcome.merges, vec![4]);
}

#[test]
fn down_packs_against_the_first_row() {
    let before = board(4, vec![tile(1, 3, 2), tile(1, 1, 4), tile(2, 2, 8)]);
    let (after, outcome) = before.resolve(BoardShift::Down);
    assert_eq!(cells(&after), vec![(1, 0, 4), (1, 1, 2), (2, 0, 8)]);
    assert!(outcome.merges.is_empty());
}

#[test]
fn merges_come_in_walk_order() {
    let before = board(
        4,
        vec![tile(0, 2, 16), tile(1, 2, 16), tile(0, 0, 2), tile(3, 0, 2), tile(2, 1, 4), tile(3, 1, 4)],
    );
    let (after, outcome) = before.resolve(BoardShift::Left);
    assert_eq!(cells(&after), vec![(0, 0, 4), (0, 1, 8), (0, 2, 32)]);
    assert_eq!(outcome.merges, vec![4, 8, 32]);
}

#[test]
fn a_packed_line_without_equal_neighbours_stays() {
    let before = board(4, vec![tile(0, 0, 2), tile(1, 0, 4), tile(2, 0, 2), tile(0, 1, 8)]);
    let (after, outcome) = before.resolve(BoardShift::Left);
    assert_eq!(cells(&after), cells(&before));
    assert!(outcome.merges.is_empty());
    assert!(!outcome.any_change);
}

#[test]
fn a_board_without_tiles_stays() {
    let before = Board::new(4);
    for shift in [BoardShift::Left, BoardShift::Right, BoardShift::Up, BoardShift::Down] {
        let (after, outcome) = before.resolve(shift);
        assert!(after.tiles.is_empty());
        assert!(outcome.merges.is_empty());
        assert!(!outcome.any_change);
        let (again, outcome) = after.resolve(shift);
        assert!(again.tiles.is_empty());
        assert!(!outcome.any_change);
    }
}

#[test]
fn values_are_kept_but_for_the_merged_pairs() {
    let before = board(
        4,
        vec![
            tile(0, 0, 2),
            tile(1, 0, 2),
            tile(2, 0, 2),
            tile(3, 0, 4),
            tile(0, 1, 8),
            tile(2, 1, 8),
            tile(1, 3, 16),
        ],
    );
    for shift in [BoardShift::Left, BoardShift::Right, BoardShift::Up, BoardShift::Down] {
        let (after, outcome) = before.resolve(shift);
        let mut expected: Vec<u32> = before.tiles.iter().map(|t| t.points.value).collect();
        for sum in outcome.merges.iter() {
            for _ in 0..2 {
                let at = expected.iter().position(|v| *v == sum / 2).unwrap();
                expected.remove(at);
            }
            expected.push(*sum);
        }
        expected.sort();
        let mut found: Vec<u32> = after.tiles.iter().map(|t| t.points.value).collect();
        found.sort();
        assert_eq!(found, expected);
    }
}

#[test]
fn tiles_stay_on_the_board_and_apart() {
    let before = board(
        3,
        vec![tile(0, 0, 2), tile(2, 0, 2), tile(1, 1, 4), tile(2, 2, 4), tile(0, 2, 4), tile(1, 2, 8)],
    );
    for shift in [BoardShift::Left, BoardShift::Right, BoardShift::Up, BoardShift::Down] {
        let (after, _) = before.resolve(shift);
        for t in after.tiles.iter() {
            assert!(t.position.x < 3 && t.position.y < 3);
        }
        let mut seen: Vec<(u8, u8)> = after.tiles.iter().map(|t| (t.position.x, t.position.y)).collect();
        seen.sort();
        seen.dedup();
        assert_eq!(seen.len(), after.tiles.len());
    }
}

#[test]
fn slide_left_merges_and_scores() {
    let mut board = board(4, vec![tile(0, 0, 2), tile(1, 0, 2)]);
    let mut game = Game::default();
    let event = board_shift(&mut board, &mut game, &vec![Key::Left]);
    assert_eq!(event, Some(NewTileEvent));
    assert_eq!(board.tiles, vec![tile(0, 0, 4)]);
    assert_eq!(game.score, 4);
    assert_eq!(game.score_best, 4);
}

#[test]
fn slide_left_of_four_twos_adds_eight() {
    let mut board = board(4, vec![tile(0, 0, 2), tile(1, 0, 2), tile(2, 0, 2), tile(3, 0, 2)]);
    let mut game = Game { score: 10, score_best: 100 };
    let event = board_shift(&mut board, &mut game, &vec![Key::Left]);
    assert_eq!(event, Some(NewTileEvent));
    assert_eq!(cells(&board), vec![(0, 0, 4), (1, 0, 4)]);
    assert_eq!(game.score, 18);
    assert_eq!(game.score_best, 100);
}

#[test]
fn a_slide_that_changes_nothing_gives_no_notice() {
    let mut board = board(4, vec![tile(1, 0, 4), tile(0, 0, 2), tile(0, 1, 8)]);
    let mut game = Game { score: 12, score_best: 40 };
    let event = board_shift(&mut board, &mut game, &vec![Key::Left]);
    assert_eq!(event, None);
    assert_eq!(board.tiles, vec![tile(1, 0, 4), tile(0, 0, 2), tile(0, 1, 8)]);
    assert_eq!(game, Game { score: 12, score_best: 40 });
}

#[test]
fn a_tile_that_only_moves_gives_notice_and_no_score() {
    let mut board = board(4, vec![tile(2, 0, 2)]);
    let mut game = Game::default();
    let event = board_shift(&mut board, &mut game, &vec![Key::Down, Key::Left]);
    assert_eq!(event, None);
    let event = board_shift(&mut board, &mut game, &vec![Key::Left]);
    assert_eq!(event, Some(NewTileEvent));
    assert_eq!(board.tiles, vec![tile(0, 0, 2)]);
    assert_eq!(game, Game { score: 0, score_best: 0 });
}

#[test]
fn keys_that_ask_for_no_direction_are_passed_over() {
    let mut board = board(4, vec![tile(0, 0, 2), tile(1, 0, 2)]);
    let mut game = Game::default();
    assert_eq!(board_shift(&mut board, &mut game, &vec![]), None);
    assert_eq!(board_shift(&mut board, &mut game, &vec![Key::Other, Key::Other]), None);
    assert_eq!(board.tiles, vec![tile(0, 0, 2), tile(1, 0, 2)]);
    assert_eq!(game, Game::default());
    let event = board_shift(&mut board, &mut game, &vec![Key::Other, Key::Right, Key::Left]);
    assert_eq!(event, Some(NewTileEvent));
    assert_eq!(board.tiles, vec![tile(3, 0, 4)]);
    assert_eq!(game.score, 4);
}

#[test]
fn the_best_score_never_falls() {
    let mut board = board(4, vec![tile(0, 0, 8), tile(1, 0, 8), tile(0, 1, 2), tile(3, 1, 2)]);
    let mut game = Game { score: 0, score_best: 5 };
    let mut best = game.score_best;
    for key in [Key::Left, Key::Up, Key::Right, Key::Down, Key::Left] {
        board_shift(&mut board, &mut game, &vec![key]);
        assert!(game.score_best >= best);
        assert!(game.score_best >= game.score);
        best = game.score_best;
    }
    assert_eq!(game.score, 20);
    assert_eq!(game.score_best, 20);
    boxes::utility::game_reset(&mut board, &mut game);
    assert_eq!(game.score, 0);
    assert_eq!(game.score_best, 20);
}
