//! The four directions of a slide, and what each means for a cell.

use vstd::prelude::*;
use std::cmp::Ordering;
use crate::components::Position;
use crate::model::cell;
use crate::model::line_of;
use crate::model::precedes;
use crate::model::slot_of;

verus! {

/// A key of the keyboard, as far as the game tells keys apart.
#[derive(Debug, PartialEq, Eq, Structural, Clone, Copy)]
pub enum Key {
    Left,
    Right,
    Up,
    Down,
    Other,
}

/// The direction that a key asks for, if it asks for one.
pub open spec fn shift_of(key: Key) -> Option<BoardShift> {
    match key {
        Key::Left => Some(BoardShift::Left),
        Key::Right => Some(BoardShift::Right),
        Key::Up => Some(BoardShift::Up),
        Key::Down => Some(BoardShift::Down),
        Key::Other => None,
    }
}

/// The direction of the first key from index `i` on that asks for one.
pub open spec fn first_shift(keys: Seq<Key>, i: int) -> Option<BoardShift>
    decreases keys.len() - i,
{
    if i < 0 || i >= keys.len() {
        None
    } else if shift_of(keys[i]) is Some {
        shift_of(keys[i])
    } else {
        first_shift(keys, i + 1)
    }
}

/// The direction of a slide.
#[derive(Debug, PartialEq, Eq, Structural, Clone, Copy)]
pub enum BoardShift {
    Left,
    Right,
    Up,
    Down,
}

impl BoardShift {
    /// Compares two cells by the order in which a slide walks them.
    pub fn sort(&self, a: &Position, b: &Position) -> (order: Ordering)
        ensures
            (order == Ordering::Less) == precedes(*self, *a, *b),
            (order == Ordering::Greater) == precedes(*self, *b, *a),
            (order == Ordering::Equal) == (*a == *b),
    {
        match self {
            BoardShift::Left => if a.y != b.y {
                Self::order_of(a.y, b.y)
            } else {
                Self::order_of(a.x, b.x)
            },
            BoardShift::Right => if a.y != b.y {
                Self::order_of(a.y, b.y)
            } else {
                Self::order_of(b.x, a.x)
            },
            BoardShift::Up => if a.x != b.x {
                Self::order_of(a.x, b.x)
            } else {
                Self::order_of(b.y, a.y)
            },
            BoardShift::Down => if a.x != b.x {
                Self::order_of(a.x, b.x)
            } else {
                Self::order_of(a.y, b.y)
            },
        }
    }

    /// The order of two coordinates.
    fn order_of(a: u8, b: u8) -> (order: Ordering)
        ensures
            (order == Ordering::Less) == (a < b),
            (order == Ordering::Greater) == (a > b),
            (order == Ordering::Equal) == (a == b),
    {
        if a < b {
            Ordering::Less
        } else if a > b {
            Ordering::Greater
        } else {
            Ordering::Equal
        }
    }

    /// The direction that `value` asks for, or a message for a key that asks
    /// for none.
    pub fn try_from(value: &Key) -> (shift: Result<BoardShift, &'static str>)
        ensures
            shift_of(*value) is Some ==> shift == Ok::<BoardShift, &'static str>(shift_of(*value).unwrap()),
            shift_of(*value) is None ==> shift is Err && shift->Err_0@ == "Not a valid board shift key"@,
    {
        match value {
            Key::Left => Ok(BoardShift::Left),
            Key::Right => Ok(BoardShift::Right),
            Key::Up => Ok(BoardShift::Up),
            Key::Down => Ok(BoardShift::Down),
            _ => Err("Not a valid board shift key"),
        }
    }

    /// The direction of the first key, in the order given, that asks for one.
    pub fn first_requested(keys: &Vec<Key>) -> (shift: Option<BoardShift>)
        ensures
            shift == first_shift(keys@, 0),
    {
        let mut i: usize = 0;
        while i < keys.len()
            invariant
                0 <= i <= keys.len(),
                first_shift(keys@, 0) == first_shift(keys@, i as int),
            decreases keys.len() - i,
        {
            match Self::try_from(&keys[i]) {
                Ok(shift) => {
                    return Some(shift);
                },
                Err(_) => {},
            }
            i = i + 1;
        }
        None
    }

    /// Puts `position` at slot `index` of its line, on a board of side
    /// `board_size`.
    pub fn set_column_position(&self, board_size: u8, position: &mut Position, index: u8)
        requires
            index < board_size,
        ensures
            *final(position) == cell(*self, board_size as int, line_of(*self, *old(position)), index as int),
            line_of(*self, *final(position)) == line_of(*self, *old(position)),
            slot_of(*self, board_size as int, *final(position)) == index,
    {
        match self {
            BoardShift::Left => position.x = index,
            BoardShift::Right => position.x = board_size - index - 1,
            BoardShift::Up => position.y = board_size - index - 1,
            BoardShift::Down => position.y = index,
        }
    }

    /// The line that `position` lies on.
    pub fn get_row_position(&self, position: &Position) -> (row: u8)
        ensures
            row == line_of(*self, *position),
    {
        match self {
            BoardShift::Left | BoardShift::Right => position.y,
            BoardShift::Up | BoardShift::Down => position.x,
        }
    }
}

} // verus!
