//! The four directions in which the tiles can be pushed.

use vstd::prelude::*;

verus! {

/// A direction of play.
#[derive(Clone, Copy, Debug, PartialEq, Eq, Structural)]
pub enum Move {
    Left,
    Right,
    Up,
    Down,
}

} // verus!
