//! Values exchanged with the terminal: colours and decoded input events.
use vstd::prelude::*;

verus! {

#[derive(Clone, Copy, Debug, PartialEq, Eq, Structural)]
pub enum Color {
    Reset,
    Black,
    White,
    Grey,
}

pub enum Event {
    Key(Key),
    Mouse(MouseEvent),
    Unsupported(Vec<u32>),
}

/// A decoded key. Modifiers wrap the key they apply to, always in the order
/// `Ctrl(Alt(Shift(key)))`.
#[derive(Debug)]
pub enum Key {
    Backspace,
    Left,
    Right,
    Up,
    Down,
    Home,
    End,
    PageUp,
    PageDown,
    Delete,
    Insert,
    F(u8),
    Char(char),
    Shift(Box<Key>),
    Alt(Box<Key>),
    Ctrl(Box<Key>),
    Null,
    Esc,
}

impl Key {
    /// A plain character key.
    pub fn is_char(&self) -> (r: bool)
        ensures
            r == self is Char,
    {
        match self {
            Key::Char(_) => true,
            _ => false,
        }
    }

    /// Arrow, home, end and page keys.
    pub fn is_navigation(&self) -> (r: bool)
        ensures
            r == (self is Left || self is Right || self is Up || self is Down || self is Home
                || self is End || self is PageUp || self is PageDown),
    {
        match self {
            Key::Left | Key::Right | Key::Up | Key::Down | Key::Home | Key::End | Key::PageUp
            | Key::PageDown => true,
            _ => false,
        }
    }
}

pub enum MouseEvent {
    Press(MouseButton, i32, i32),
    Release(i32, i32),
    Hold(i32, i32),
}

#[derive(Clone, Copy, Debug, PartialEq, Eq, Structural)]
pub enum MouseButton {
    Left,
    Right,
    Middle,
    WheelUp,
    WheelDown,
}

} // verus!
