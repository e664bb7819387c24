//! What the player can tell the game, and which key says it.

use crate::moves::Move;
use vstd::prelude::*;

verus! {

/// A key of the keyboard, as far as the game tells keys apart.
#[derive(Clone, Copy, Debug, PartialEq, Eq, Structural)]
pub enum Key {
    Left,
    Right,
    Up,
    Down,
    Char(char),
    Other,
}

/// One event from the player.
#[derive(Clone, Copy, Debug, PartialEq, Eq, Structural)]
pub enum Input {
    /// Push the tiles in a direction.
    Direction(Move),
    /// Leave the game.
    Quit,
    /// Show the board again; the board itself is not touched.
    Redraw,
}

/// The direction that a key stands for: the arrow keys, and `a`, `d`, `w`,
/// `s` for left, right, up, down.
pub open spec fn move_for(key: Key) -> Option<Move> {
    match key {
        Key::Left => Some(Move::Left),
        Key::Right => Some(Move::Right),
        Key::Up => Some(Move::Up),
        Key::Down => Some(Move::Down),
        Key::Char(c) => if c == 'a' {
            Some(Move::Left)
        } else if c == 'd' {
            Some(Move::Right)
        } else if c == 'w' {
            Some(Move::Up)
        } else if c == 's' {
            Some(Move::Down)
        } else {
            None
        },
        Key::Other => None,
    }
}

/// The input that a key stands for: `q` leaves the game, a key with a
/// direction pushes the tiles, any other key says nothing.
pub open spec fn input_for(key: Key) -> Option<Input> {
    if key == Key::Char('q') {
        Some(Input::Quit)
    } else {
        match move_for(key) {
            Some(m) => Some(Input::Direction(m)),
            None => None,
        }
    }
}

impl Move {
    /// The direction that a key stands for, or `Err` for a key without one.
    pub fn try_from(key: Key) -> (found: Result<Move, ()>)
        ensures
            found == (match move_for(key) {
                Some(m) => Ok::<Move, ()>(m),
                None => Err::<Move, ()>(()),
            }),
    {
        match key {
            Key::Left => Ok(Move::Left),
            Key::Right => Ok(Move::Right),
            Key::Up => Ok(Move::Up),
            Key::Down => Ok(Move::Down),
            Key::Char(c) => {
                if c == 'a' {
                    Ok(Move::Left)
                } else if c == 'd' {
                    Ok(Move::Right)
                } else if c == 'w' {
                    Ok(Move::Up)
                } else if c == 's' {
                    Ok(Move::Down)
                } else {
                    Err(())
                }
            },
            Key::Other => Err(()),
        }
    }
}

impl Input {
    /// The input that a key stands for, if any.
    pub fn from_key(key: Key) -> (input: Option<Input>)
        ensures
            input == input_for(key),
    {
        if let Key::Char(c) = key {
            if c == 'q' {
                return Some(Input::Quit);
            }
        }
        match Move::try_from(key) {
            Ok(m) => Some(Input::Direction(m)),
            Err(_) => None,
        }
    }
}

} // verus!
