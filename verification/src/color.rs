//! The fixed named palette for cell foreground and background colors.

use vstd::prelude::*;

verus! {

/// A terminal color drawn from a fixed named palette.
///
/// `Reset` means "inherit the terminal default" rather than any specific
/// RGB value.  `Rgb` and `AnsiValue` pass an explicit value through.
#[derive(Clone, Copy, Debug, PartialEq, Eq, Structural)]
pub enum Color {
    Reset,
    Black,
    DarkGrey,
    Red,
    DarkRed,
    Green,
    DarkGreen,
    Yellow,
    DarkYellow,
    Blue,
    DarkBlue,
    Magenta,
    DarkMagenta,
    Cyan,
    DarkCyan,
    White,
    Grey,
    Rgb { r: u8, g: u8, b: u8 },
    AnsiValue(u8),
}

} // verus!
