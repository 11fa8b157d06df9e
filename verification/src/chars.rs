//! Classification of single bytes, each read as the character with the same
//! code point (the way the tokenizers look at their input).

use vstd::prelude::*;

verus! {

pub const BACKSLASH: u8 = 92;
pub const LPAREN: u8 = 40;
pub const RPAREN: u8 = 41;
pub const LBRACKET: u8 = 91;
pub const RBRACKET: u8 = 93;
pub const LANGLE: u8 = 60;
pub const RANGLE: u8 = 62;
pub const SLASH: u8 = 47;
pub const MINUS: u8 = 45;
pub const STAR: u8 = 42;
pub const DOT: u8 = 46;
pub const PERCENT: u8 = 37;
pub const NEWLINE: u8 = 10;
pub const CARRIAGE_RETURN: u8 = 13;
pub const NUL: u8 = 0;

/// `(b as char).is_whitespace()`: the code points up to U+00FF that carry the
/// Unicode `White_Space` property.
pub open spec fn spec_is_whitespace(b: u8) -> bool {
    ||| 9 <= b <= 13
    ||| b == 32
    ||| b == 0x85
    ||| b == 0xA0
}

/// `(b as char).is_numeric()`: the ASCII digits and the Latin-1 superscripts
/// and vulgar fractions (general categories Nd and No).
pub open spec fn spec_is_numeric(b: u8) -> bool {
    ||| 48 <= b <= 57
    ||| b == 0xB2
    ||| b == 0xB3
    ||| b == 0xB9
    ||| 0xBC <= b <= 0xBE
}

/// `(b as char).is_alphabetic()` for code points up to U+00FF.
pub open spec fn spec_is_alphabetic(b: u8) -> bool {
    ||| 65 <= b <= 90
    ||| 97 <= b <= 122
    ||| b == 0xAA
    ||| b == 0xB5
    ||| b == 0xBA
    ||| 0xC0 <= b <= 0xD6
    ||| 0xD8 <= b <= 0xF6
    ||| 0xF8 <= b
}

pub open spec fn spec_is_alphanumeric(b: u8) -> bool {
    spec_is_alphabetic(b) || spec_is_numeric(b)
}

/// A byte that may stand inside a word: a letter, a number, or one of `.-+_`.
pub open spec fn spec_is_identifier_char(b: u8) -> bool {
    ||| spec_is_alphanumeric(b)
    ||| b == 46
    ||| b == 45
    ||| b == 43
    ||| b == 95
}

pub open spec fn spec_is_ascii_digit(b: u8) -> bool {
    48 <= b <= 57
}

pub fn is_whitespace(b: u8) -> (r: bool)
    ensures
        r == spec_is_whitespace(b),
{
    (9 <= b && b <= 13) || b == 32 || b == 0x85 || b == 0xA0
}

pub fn is_numeric(b: u8) -> (r: bool)
    ensures
        r == spec_is_numeric(b),
{
    (48 <= b && b <= 57) || b == 0xB2 || b == 0xB3 || b == 0xB9 || (0xBC <= b && b <= 0xBE)
}

pub fn is_alphabetic(b: u8) -> (r: bool)
    ensures
        r == spec_is_alphabetic(b),
{
    (65 <= b && b <= 90) || (97 <= b && b <= 122) || b == 0xAA || b == 0xB5 || b == 0xBA || (0xC0
        <= b && b <= 0xD6) || (0xD8 <= b && b <= 0xF6) || 0xF8 <= b
}

pub fn is_alphanumeric(b: u8) -> (r: bool)
    ensures
        r == spec_is_alphanumeric(b),
{
    is_alphabetic(b) || is_numeric(b)
}

/// Whether `c` may stand inside a word (name, keyword or number).
pub fn is_identifier_char(c: u8) -> (r: bool)
    ensures
        r == spec_is_identifier_char(c),
{
    is_alphanumeric(c) || c == 46 || c == 45 || c == 43 || c == 95
}

} // verus!
