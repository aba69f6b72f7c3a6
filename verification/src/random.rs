//! The calls into the crates that enumerate the grid and draw at random.

use vstd::prelude::*;
use itertools::Itertools;
use rand::rngs::StdRng;
use rand::seq::IteratorRandom;
use crate::components::Position;

verus! {

/// The seedable generator of rand, carried through as it is.
#[verifier::external_type_specification]
#[verifier::external_body]
pub struct ExStdRng(StdRng);

/// The cell at place `i` of the grid of side `n`, counted column by column.
pub open spec fn grid_cell(n: int, i: int) -> Position {
    Position { x: (i / n) as u8, y: (i % n) as u8 }
}

/// Every cell of the grid of side `size`.
///
/// Calls `Itertools::cartesian_product` of itertools on the range of
/// coordinates with itself. Trusted: the pairs come with the first
/// coordinate fixed while the second runs through its range, so the cell at
/// place `i` has the coordinates `i / size` and `i % size`.
#[verifier::external_body]
pub(crate) fn grid_cells(size: u8) -> (cells: Vec<Position>)
    ensures
        cells@.len() == size * size,
        forall|i: int| 0 <= i < cells@.len() ==> #[trigger] cells@[i] == grid_cell(size as int, i),
{
    (0..size).cartesian_product(0..size).map(|(x, y)| Position { x, y }).collect()
}

/// One of `cells`, drawn at random.
///
/// Calls `IteratorRandom::choose` of rand. Trusted: the result is `None`
/// exactly when `cells` is empty, and otherwise one of its items.
#[verifier::external_body]
pub(crate) fn choose_cell(cells: &Vec<Position>, rng: &mut StdRng) -> (pick: Option<Position>)
    ensures
        cells@.len() == 0 ==> pick is None,
        cells@.len() > 0 ==> pick is Some && cells@.contains(pick.unwrap()),
{
    cells.iter().copied().choose(rng)
}

/// Up to `amount` of `cells`, drawn at random without putting any back.
///
/// Calls `IteratorRandom::choose_multiple` of rand. Trusted: the result has
/// `amount` items, or all of `cells` where there are fewer, and holds no
/// item more often than `cells` does.
#[verifier::external_body]
pub(crate) fn choose_cells(cells: &Vec<Position>, amount: u8, rng: &mut StdRng) -> (picks: Vec<Position>)
    ensures
        picks@.len() == if amount <= cells@.len() {
            amount as int
        } else {
            cells@.len() as int
        },
        picks@.to_multiset().subset_of(cells@.to_multiset()),
{
    cells.iter().copied().choose_multiple(rng, amount as usize)
}

} // verus!
