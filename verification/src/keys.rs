//! The abstract key events the editor consumes, and the decoding of raw
//! terminal bytes into them.

use vstd::prelude::*;

verus! {

/// One key event from the terminal.
#[derive(Debug, PartialEq, Eq, Structural, Clone, Copy)]
pub enum Key {
    Char(char),
    Ctrl(u8),
    Up,
    Down,
    Left,
    Right,
    Home,
    End,
    Enter,
    Backspace,
    Delete,
    Escape,
}

/// The key a single non-escape terminal byte denotes: carriage return and
/// line feed are Enter, delete and backspace both erase backward, 0x04 is
/// the forward delete, the remaining control bytes map to the control key
/// of the corresponding letter, printable bytes to their character.
pub open spec fn spec_decode_byte(b: u8) -> Key {
    if b == 13 || b == 10 {
        Key::Enter
    } else if b == 127 || b == 8 {
        Key::Backspace
    } else if b == 4 {
        Key::Delete
    } else if 1 <= b && b <= 26 {
        Key::Ctrl((b + 96) as u8)
    } else if 32 <= b && b <= 126 {
        Key::Char(b as char)
    } else {
        Key::Ctrl(b)
    }
}

/// The key an escape sequence `ESC b1 b2` denotes: the standard arrow,
/// home and end sequences, and a bare escape for anything else.
pub open spec fn spec_decode_escape(b1: u8, b2: u8) -> Key {
    if b1 == 91 {
        if b2 == 65 {
            Key::Up
        } else if b2 == 66 {
            Key::Down
        } else if b2 == 67 {
            Key::Right
        } else if b2 == 68 {
            Key::Left
        } else if b2 == 72 {
            Key::Home
        } else if b2 == 70 {
            Key::End
        } else {
            Key::Escape
        }
    } else {
        Key::Escape
    }
}

/// Decode one terminal byte that is not the escape introducer.
pub fn decode_byte(b: u8) -> (k: Key)
    requires
        b != 27,
    ensures
        k == spec_decode_byte(b),
{
    if b == 13 || b == 10 {
        Key::Enter
    } else if b == 127 || b == 8 {
        Key::Backspace
    } else if b == 4 {
        Key::Delete
    } else if 1 <= b && b <= 26 {
        Key::Ctrl(b + 96)
    } else if 32 <= b && b <= 126 {
        Key::Char(b as char)
    } else {
        Key::Ctrl(b)
    }
}

/// Decode the two bytes following an escape introducer.
pub fn decode_escape(b1: u8, b2: u8) -> (k: Key)
    ensures
        k == spec_decode_escape(b1, b2),
{
    if b1 == 91 {
        if b2 == 65 {
            Key::Up
        } else if b2 == 66 {
            Key::Down
        } else if b2 == 67 {
            Key::Right
        } else if b2 == 68 {
            Key::Left
        } else if b2 == 72 {
            Key::Home
        } else if b2 == 70 {
            Key::End
        } else {
            Key::Escape
        }
    } else {
        Key::Escape
    }
}

} // verus!
