//! The board engine of a 2048-style sliding-tile puzzle: tiles on a square
//! grid, the slide that packs and merges them, the spawner, the test for a
//! finished game and the score, each with a machine-checked contract.

pub mod components;
pub mod shift;
pub mod model;
pub mod tiles;
pub mod sums;
pub mod order;
pub mod lines;
pub mod walk;
pub mod scan;
pub mod conserve;
pub mod bounds;
pub mod resolve;
pub mod score;
pub mod random;
pub mod cells;
pub mod terminal;
pub mod utility;
pub mod ui;
pub mod session;
pub mod laws;
