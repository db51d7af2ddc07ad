use vstd::prelude::*;

verus! {

/// Where the game keeps a level that a player can open.
#[derive(Clone, Copy, Debug, PartialEq, Eq, Structural)]
pub enum Slot {
    Level(usize),
    Tutorial(u8),
    Custom(usize),
}

impl Slot {
    /// The letter that names the kind of slot on screen.
    pub fn char(&self) -> (r: char)
        ensures
            r == (match *self {
                Slot::Level(_) => 'L',
                Slot::Tutorial(_) => 'T',
                Slot::Custom(_) => 'C',
            }),
    {
        match self {
            Slot::Level(_) => 'L',
            Slot::Tutorial(_) => 'T',
            Slot::Custom(_) => 'C',
        }
    }
}

/// The glyph of a character in the font sheet, 32 glyphs to a row: lowercase
/// letters on row 28, the punctuation and digits from '!' to '?' on row 27,
/// and glyph 0 for anything else.
pub open spec fn glyph_index(c: char) -> usize {
    let u = c as u32;
    if 97 <= u <= 122 {
        (28 * 32 + 1 + u - 97) as usize
    } else if 33 <= u <= 63 {
        (27 * 32 + 1 + u - 33) as usize
    } else {
        0
    }
}

/// The glyph of a character in the font sheet.
pub fn char_to_index(c: char) -> (r: usize)
    ensures
        r == glyph_index(c),
{
    let u = c as u32;
    if 97 <= u && u <= 122 {
        (28 * 32 + 1 + u - 97) as usize
    } else if 33 <= u && u <= 63 {
        (27 * 32 + 1 + u - 33) as usize
    } else {
        0
    }
}

} // verus!
