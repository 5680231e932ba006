use vstd::prelude::*;

verus! {

/// A liquid color. `Empty` is a display/serialization sentinel: the board
/// never stores it as the content of an occupied slot in normal play.
#[derive(Copy, Clone, Debug, PartialEq, Eq, Structural)]
pub enum Color {
    Empty,
    Blue,
    Red,
    Gray,
    Orange,
    Brown,
    Yellow,
    Green,
    Magenta,
    Teal,
    Purple,
    LightBlue,
    Peach,
    Olive,
}

/// Stable serialization code of a slot: 0 for an unoccupied slot (and for the
/// `Empty` sentinel), 1..=13 for the real colors.
pub open spec fn slot_code(s: Option<Color>) -> u8 {
    match s {
        None => 0,
        Some(c) => match c {
            Color::Empty => 0,
            Color::Blue => 1,
            Color::Red => 2,
            Color::Gray => 3,
            Color::Orange => 4,
            Color::Brown => 5,
            Color::Yellow => 6,
            Color::Green => 7,
            Color::Magenta => 8,
            Color::Teal => 9,
            Color::Purple => 10,
            Color::LightBlue => 11,
            Color::Peach => 12,
            Color::Olive => 13,
        },
    }
}

/// Display symbol of a color: one distinctive letter per color, a dot for
/// the `Empty` sentinel.
pub open spec fn glyph(c: Color) -> char {
    match c {
        Color::Empty => '.',
        Color::Blue => 'B',
        Color::Red => 'R',
        Color::Gray => 'K',
        Color::Orange => 'O',
        Color::Brown => 'W',
        Color::Yellow => 'Y',
        Color::Green => 'G',
        Color::Magenta => 'M',
        Color::Teal => 'T',
        Color::Purple => 'P',
        Color::LightBlue => 'L',
        Color::Peach => 'H',
        Color::Olive => 'V',
    }
}

/// Executable form of [`slot_code`].
pub fn code_of_slot(s: Option<Color>) -> (r: u8)
    ensures
        r == slot_code(s),
{
    match s {
        None => 0,
        Some(c) => match c {
            Color::Empty => 0,
            Color::Blue => 1,
            Color::Red => 2,
            Color::Gray => 3,
            Color::Orange => 4,
            Color::Brown => 5,
            Color::Yellow => 6,
            Color::Green => 7,
            Color::Magenta => 8,
            Color::Teal => 9,
            Color::Purple => 10,
            Color::LightBlue => 11,
            Color::Peach => 12,
            Color::Olive => 13,
        },
    }
}

} // verus!
