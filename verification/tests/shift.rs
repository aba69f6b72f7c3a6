use boxes::components::Position;
use boxes::shift::{BoardShift, Key};
use std::cmp::Ordering;

fn at(x: u8, y: u8) -> Position {
    Position { x, y }
}

#[test]
fn left_walks_rows_upward_and_columns_from_the_left() {
    let shift = BoardShift::Left;
    assert_eq!(shift.sort(&at(3, 0), &at(0, 1)), Ordering::Less);
    assert_eq!(shift.sort(&at(0, 1), &at(3, 0)), Ordering::Greater);
    assert_eq!(shift.sort(&at(1, 2), &at(2, 2)), Ordering::Less);
    assert_eq!(shift.sort(&at(2, 2), &at(1, 2)), Ordering::Greater);
    assert_eq!(shift.sort(&at(2, 2), &at(2, 2)), Ordering::Equal);
}

#[test]
fn right_walks_columns_from_the_right() {
    let shift = BoardShift::Right;
    assert_eq!(shift.sort(&at(0, 0), &at(3, 1)), Ordering::Less);
    assert_eq!(shift.sort(&at(2, 2), &at(1, 2)), Ordering::Less);
    assert_eq!(shift.sort(&at(1, 2), &at(2, 2)), Ordering::Greater);
    assert_eq!(shift.sort(&at(1, 2), &at(1, 2)), Ordering::Equal);
}

#[test]
fn up_walks_columns_rightward_and_rows_from_the_top() {
    let shift = BoardShift::Up;
    assert_eq!(shift.sort(&at(0, 0), &at(1, 3)), Ordering::Less);
    assert_eq!(shift.sort(&at(1, 3), &at(1, 0)), Ordering::Less);
    assert_eq!(shift.sort(&at(1, 0), &at(1, 3)), Ordering::Greater);
    assert_eq!(shift.sort(&at(1, 3), &at(1, 3)), Ordering::Equal);
}

#[test]
fn down_walks_rows_from_the_bottom() {
    let shift = BoardShift::Down;
    assert_eq!(shift.sort(&at(0, 3), &at(1, 0)), Ordering::Less);
    assert_eq!(shift.sort(&at(1, 0), &at(1, 3)), Ordering::Less);
    assert_eq!(shift.sort(&at(1, 3), &at(1, 0)), Ordering::Greater);
    assert_eq!(shift.sort(&at(1, 0), &at(1, 0)), Ordering::Equal);
}

#[test]
fn a_slot_maps_to_a_cell_by_direction() {
    let mut p = at(2, 1);
    BoardShift::Left.set_column_position(4, &mut p, 0);
    assert_eq!(p, at(0, 1));
    let mut p = at(2, 1);
    BoardShift::Right.set_column_position(4, &mut p, 0);
    assert_eq!(p, at(3, 1));
    let mut p = at(2, 1);
    BoardShift::Right.set_column_position(4, &mut p, 3);
    assert_eq!(p, at(0, 1));
    let mut p = at(2, 1);
    BoardShift::Up.set_column_position(4, &mut p, 1);
    assert_eq!(p, at(2, 2));
    let mut p = at(2, 1);
    BoardShift::Down.set_column_position(4, &mut p, 3);
    assert_eq!(p, at(2, 3));
}

#[test]
fn the_line_of_a_cell_is_its_row_or_its_column() {
    assert_eq!(BoardShift::Left.get_row_position(&at(2, 1)), 1);
    assert_eq!(BoardShift::Right.get_row_position(&at(2, 1)), 1);
    assert_eq!(BoardShift::Up.get_row_position(&at(2, 1)), 2);
    assert_eq!(BoardShift::Down.get_row_position(&at(2, 1)), 2);
}

#[test]
fn arrow_keys_ask_for_their_direction() {
    assert_eq!(BoardShift::try_from(&Key::Left), Ok(BoardShift::Left));
    assert_eq!(BoardShift::try_from(&Key::Right), Ok(BoardShift::Right));
    assert_eq!(BoardShift::try_from(&Key::Up), Ok(BoardShift::Up));
    assert_eq!(BoardShift::try_from(&Key::Down), Ok(BoardShift::Down));
}

#[test]
fn another_key_asks_for_no_direction() {
    assert_eq!(BoardShift::try_from(&Key::Other), Err("Not a valid board shift key"));
}

#[test]
fn the_first_key_with_a_direction_counts() {
    assert_eq!(BoardShift::first_requested(&vec![]), None);
    assert_eq!(BoardShift::first_requested(&vec![Key::Other]), None);
    assert_eq!(BoardShift::first_requested(&vec![Key::Up, Key::Down]), Some(BoardShift::Up));
    assert_eq!(
        BoardShift::first_requested(&vec![Key::Other, Key::Down, Key::Left]),
        Some(BoardShift::Down)
    );
}
