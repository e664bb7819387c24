//! The sliding-tile game 2048 on a board of four by four cells.
//!
//! A cell holds the exponent of its tile: `0` for an empty cell, `v` for the
//! tile `2^v`. [`Board`] is the playing field with its moves, [`grid`] and
//! [`line`] hold the mathematical model that the contracts speak of,
//! [`spawn`] brings new tiles, [`game`] judges a board and plays a turn,
//! [`input`] reads keys and [`render`] writes the board as text.

pub mod board;
pub mod game;
pub mod grid;
pub mod input;
pub mod line;
pub mod moves;
pub mod render;
pub mod spawn;

pub use crate::board::Board;
pub use crate::game::TurnOutcome;
pub use crate::input::{Input, Key};
pub use crate::line::slide_row;
pub use crate::moves::Move;
