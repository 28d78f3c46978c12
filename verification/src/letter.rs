//! One tile of the game: an upper-case letter `A`..`Z` or a blank
//! (wildcard), together with its point value.

use vstd::prelude::*;

verus! {

/// The symbol byte stored for a blank (wildcard) tile.
pub const BLANK_SYMBOL: u8 = 32;

/// A single tile. A valid tile holds either an upper-case ASCII letter
/// byte or [`BLANK_SYMBOL`]; every constructor of this module returns a
/// valid tile. Equality is symbol-based: a blank placed for some letter
/// is stored as that concrete letter, so it compares like that letter.
#[derive(Debug, Clone, Copy, PartialEq, Eq, Structural)]
pub struct Letter {
    symbol: u8,
}

/// The tile that a symbol byte denotes: an upper-case ASCII letter byte
/// maps to its letter tile, every other byte to a blank.
pub closed spec fn letter_from_u8_spec(b: u8) -> Letter {
    if 65 <= b && b <= 90 {
        Letter { symbol: b }
    } else {
        Letter { symbol: BLANK_SYMBOL }
    }
}

/// The tile that a character denotes: `A`..`Z` maps to its letter tile,
/// every other character to a blank.
pub closed spec fn letter_from_char_spec(c: char) -> Letter {
    if 65 <= c as u32 && c as u32 <= 90 {
        Letter { symbol: (c as u32) as u8 }
    } else {
        Letter { symbol: BLANK_SYMBOL }
    }
}

/// The point value of a tile: the customary tile values, with a blank
/// worth nothing.
pub closed spec fn letter_score_spec(l: Letter) -> u32 {
    let b = l.symbol;
    if b == 65 || b == 69 || b == 73 || b == 79 || b == 85 || b == 76 || b == 78 || b == 83
        || b == 84 || b == 82 {
        1
    } else if b == 68 || b == 71 {
        2
    } else if b == 66 || b == 67 || b == 77 || b == 80 {
        3
    } else if b == 70 || b == 72 || b == 86 || b == 87 || b == 89 {
        4
    } else if b == 75 {
        5
    } else if b == 74 || b == 88 {
        8
    } else if b == 81 || b == 90 {
        10
    } else {
        0
    }
}

impl Letter {
    /// The symbol byte of the tile.
    pub closed spec fn sym(&self) -> u8 {
        self.symbol
    }

    /// A valid tile holds an upper-case letter byte or the blank symbol.
    pub open spec fn valid(&self) -> bool {
        self.sym() == BLANK_SYMBOL || (65 <= self.sym() && self.sym() <= 90)
    }

    /// Builds the tile denoted by a symbol byte.
    pub fn from_u8(b: u8) -> (r: Letter)
        ensures
            r == letter_from_u8_spec(b),
            r.valid(),
    {
        if 65 <= b && b <= 90 {
            Letter { symbol: b }
        } else {
            Letter { symbol: BLANK_SYMBOL }
        }
    }

    /// Builds the tile denoted by a character.
    pub fn from_char(c: char) -> (r: Letter)
        ensures
            r == letter_from_char_spec(c),
            r.valid(),
    {
        let code: u32 = c as u32;
        if 65 <= code && code <= 90 {
            Letter { symbol: code as u8 }
        } else {
            Letter { symbol: BLANK_SYMBOL }
        }
    }

    /// The symbol byte of the tile.
    pub fn to_u8(&self) -> (r: u8)
        ensures
            r == self.sym(),
    {
        self.symbol
    }

    /// The point value of the tile.
    pub fn score(&self) -> (r: u32)
        ensures
            r == letter_score_spec(*self),
            r <= 10,
    {
        match self.symbol {
            65 | 69 | 73 | 79 | 85 | 76 | 78 | 83 | 84 | 82 => 1,
            68 | 71 => 2,
            66 | 67 | 77 | 80 => 3,
            70 | 72 | 86 | 87 | 89 => 4,
            75 => 5,
            74 | 88 => 8,
            81 | 90 => 10,
            _ => 0,
        }
    }
}

/// The per-cell letter multiplier of a board position. This edition of
/// the game plays on a uniform board: every cell multiplies a letter's
/// value by one.
pub open spec fn letter_multiplier_spec(pos: int) -> nat {
    1
}

/// The per-cell word multiplier of a board position; uniform, like the
/// letter multipliers.
pub open spec fn word_multiplier_spec(pos: int) -> nat {
    1
}

/// The letter multiplier table, read at one position.
pub fn letter_multiplier(pos: usize) -> (r: usize)
    ensures
        r == letter_multiplier_spec(pos as int),
{
    1
}

/// The word multiplier table, read at one position.
pub fn word_multiplier(pos: usize) -> (r: usize)
    ensures
        r == word_multiplier_spec(pos as int),
{
    1
}

} // verus!
