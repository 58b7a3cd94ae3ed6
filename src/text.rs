//! Small pieces of text rendering: colour changes carried inside the text,
//! alignment, and the whitespace that separates words.
use vstd::prelude::*;

verus! {

/// First code point of the range that carries colour changes.
pub const COLOUR_CHANGE_BASE: u32 = 0xE000;

/// The text alignment of a layout.
#[derive(Debug, Clone, Copy, PartialEq, Eq, Default)]
#[non_exhaustive]
pub enum TextAlignment {
    /// The left edges of the lines line up.
    #[default]
    Left,
    /// The right edges of the lines line up.
    Right,
    /// The centres of the lines line up.
    Center,
    /// Both edges line up, with the space width adapted to make it so.
    Justify,
}

/// Whitespace that ends a word.
#[derive(Debug, PartialEq, Eq, Clone, Copy)]
#[non_exhaustive]
pub enum WhiteSpace {
    NewLine,
    Space,
}

impl WhiteSpace {
    pub fn from_char(c: char) -> (r: WhiteSpace)
        requires
            c == ' ' || c == '\n',
        ensures
            c == ' ' ==> r == WhiteSpace::Space,
            c == '\n' ==> r == WhiteSpace::NewLine,
    {
        if c == ' ' {
            WhiteSpace::Space
        } else {
            WhiteSpace::NewLine
        }
    }
}

/// Whether `c` lies in the private-use range `U+E000..U+F8FF`.
pub fn is_private_use(c: char) -> (r: bool)
    ensures
        r == (0xE000 <= c as u32 && (c as u32) < 0xF8FF),
{
    '\u{E000}' <= c && c < '\u{F8FF}'
}

/// A change of the palette colour used to draw the characters that follow.
/// In text it travels as one private-use character.
#[derive(Clone, Copy, Debug, PartialEq, Eq)]
pub struct ChangeColour(u8);

impl ChangeColour {
    /// The palette index.
    pub closed spec fn colour(self) -> int {
        self.0 as int
    }

    /// Creates the colour changer for palette index `colour`, in `0..16`.
    pub fn new(colour: usize) -> (r: ChangeColour)
        requires
            colour < 16,
        ensures
            r.colour() == colour,
    {
        ChangeColour(colour as u8)
    }

    /// The colour change that `c` stands for, if any.
    pub fn try_from_char(c: char) -> (r: Option<ChangeColour>)
        ensures
            r is Some <==> (COLOUR_CHANGE_BASE <= c as u32 && (c as u32) < COLOUR_CHANGE_BASE + 16),
            r matches Some(cc) ==> cc.colour() == c as u32 - COLOUR_CHANGE_BASE,
    {
        let c = c as u32;
        if COLOUR_CHANGE_BASE <= c && c < COLOUR_CHANGE_BASE + 16 {
            Some(ChangeColour::new((c - COLOUR_CHANGE_BASE) as usize))
        } else {
            None
        }
    }

    /// The private-use character that stands for this colour change.
    pub fn to_char(self) -> (r: char)
        requires
            self.colour() < 16,
        ensures
            r as u32 == COLOUR_CHANGE_BASE + self.colour(),
    {
        match char_from_u32(self.0 as u32 + COLOUR_CHANGE_BASE) {
            Some(c) => c,
            None => {
                proof {
                    assert(false);
                }
                '\u{E000}'
            },
        }
    }
}

/// Relies on `char::from_u32`: it returns the character of that code point
/// exactly when the value is a Unicode scalar value.
#[verifier::external_body]
fn char_from_u32(v: u32) -> (r: Option<char>)
    ensures
        (v < 0xD800 || (0xE000 <= v && v <= 0x10FFFF)) ==> r is Some,
        r matches Some(c) ==> c as u32 == v,
{
    char::from_u32(v)
}

} // verus!
