//! Board engine of a sliding-tile merging puzzle on a square grid.
//!
//! A tile is stored as its rank: a cell holding `k > 0` shows the value
//! `2^k`, and `0` marks an empty cell. The grid is kept row by row.
//!
//! `game_board` holds the board and its operations. What they compute is
//! stated over the models in `line` (one row or column), `grid` (the slide
//! of the whole grid) and `spawn` (new tiles); `tally`, `room` and `stuck`
//! hold the proofs that the operations rest on, and `laws` states what holds
//! of every game.
pub mod direction;
pub mod game_board;
pub mod grid;
pub mod laws;
pub mod line;
pub mod rng;
pub mod room;
pub mod spawn;
pub mod stuck;
pub mod tally;

pub use crate::game_board::{Axis, BoardError, Direction, GameBoard};
