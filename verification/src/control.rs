//! What the keys of the keyboard ask of the game.

use crate::board::Direction;
use vstd::prelude::*;

verus! {

/// A key, as far as the game tells keys apart: a character, one of the four
/// arrows, or any other key.
#[derive(Debug, Clone, Copy, PartialEq, Eq, Structural)]
pub enum Key {
    Char(char),
    Left,
    Right,
    Up,
    Down,
    Other,
}

/// What a key press asks for: to end the session, to move the tiles, or
/// nothing.
#[derive(Debug, Clone, Copy, PartialEq, Eq, Structural)]
pub enum Command {
    Quit,
    Shift(Direction),
    Ignore,
}

/// The direction that a key stands for, if it stands for one: the arrows
/// for their own, and `h`, `j`, `k`, `l` for left, down, up and right.
pub open spec fn direction_of(key: Key) -> Option<Direction> {
    if key == Key::Left || key == Key::Char('h') {
        Some(Direction::LEFT)
    } else if key == Key::Down || key == Key::Char('j') {
        Some(Direction::DOWN)
    } else if key == Key::Up || key == Key::Char('k') {
        Some(Direction::UP)
    } else if key == Key::Right || key == Key::Char('l') {
        Some(Direction::RIGHT)
    } else {
        None
    }
}

/// The command of a key press: `q` ends the session, a key that stands for
/// a direction moves the tiles that way, and every other key is ignored.
pub fn command(key: Key) -> (asked: Command)
    ensures
        key == Key::Char('q') ==> asked == Command::Quit,
        direction_of(key) matches Some(direction) ==> asked == Command::Shift(direction),
        key != Key::Char('q') && direction_of(key) is None ==> asked == Command::Ignore,
{
    match key {
        Key::Char('q') => Command::Quit,
        Key::Char('l') | Key::Right => Command::Shift(Direction::RIGHT),
        Key::Char('h') | Key::Left => Command::Shift(Direction::LEFT),
        Key::Char('k') | Key::Up => Command::Shift(Direction::UP),
        Key::Char('j') | Key::Down => Command::Shift(Direction::DOWN),
        _ => Command::Ignore,
    }
}

} // verus!
