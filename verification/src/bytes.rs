//! Byte classes of the lexical alphabet.
//!
//! Every byte that carries structure is ASCII, so the scanner can walk the
//! UTF-8 encoding of the text byte by byte: a byte of a multi-byte character
//! is never mistaken for punctuation, a quote, a digit or a blank.

use vstd::prelude::*;

verus! {

/// `"`
pub const QUOTE: u8 = 0x22;

/// `+`
pub const PLUS: u8 = 0x2b;

/// `,`
pub const COMMA: u8 = 0x2c;

/// `-`
pub const MINUS: u8 = 0x2d;

/// `.`
pub const DOT: u8 = 0x2e;

/// `0`
pub const ZERO: u8 = 0x30;

/// `9`
pub const NINE: u8 = 0x39;

/// `:`
pub const COLON: u8 = 0x3a;

/// `E`
pub const UPPER_E: u8 = 0x45;

/// `[`
pub const OPEN_BRACKET: u8 = 0x5b;

/// `]`
pub const CLOSE_BRACKET: u8 = 0x5d;

/// `e`
pub const LOWER_E: u8 = 0x65;

/// `{`
pub const OPEN_BRACE: u8 = 0x7b;

/// `}`
pub const CLOSE_BRACE: u8 = 0x7d;

/// Whether `b` is one of the four blank bytes that may separate tokens:
/// space, horizontal tab, line feed, carriage return.
pub open spec fn is_whitespace(b: u8) -> bool {
    b == 0x20 || b == 0x09 || b == 0x0a || b == 0x0d
}

/// Whether `b` is an ASCII decimal digit.
pub open spec fn is_digit(b: u8) -> bool {
    ZERO <= b <= NINE
}

/// Whether `b` is `+` or `-`.
pub open spec fn is_sign(b: u8) -> bool {
    b == PLUS || b == MINUS
}

/// Whether a number literal may begin with `b`: a digit or a minus sign.
pub open spec fn is_number_start(b: u8) -> bool {
    is_digit(b) || b == MINUS
}

/// Whether `b` may occur inside a number literal: a digit, a sign, the
/// decimal point or an exponent marker.
pub open spec fn is_number_byte(b: u8) -> bool {
    is_digit(b) || is_sign(b) || b == DOT || b == LOWER_E || b == UPPER_E
}

/// Whether `b` is one of the six structural bytes `{ } [ ] : ,`.
pub open spec fn is_punctuation(b: u8) -> bool {
    b == OPEN_BRACE || b == CLOSE_BRACE || b == OPEN_BRACKET || b == CLOSE_BRACKET || b == COLON
        || b == COMMA
}

/// Whether `b` belongs to the lexical alphabet outside string literals:
/// a blank, a structural byte, a quote, or a byte of a number literal.
pub open spec fn is_lexical(b: u8) -> bool {
    is_whitespace(b) || is_punctuation(b) || b == QUOTE || is_number_byte(b)
}

/// Decides [`is_whitespace`].
pub fn whitespace(b: u8) -> (r: bool)
    ensures
        r == is_whitespace(b),
{
    b == 0x20 || b == 0x09 || b == 0x0a || b == 0x0d
}

/// Decides [`is_digit`].
pub fn digit(b: u8) -> (r: bool)
    ensures
        r == is_digit(b),
{
    ZERO <= b && b <= NINE
}

/// Decides [`is_sign`].
pub fn sign(b: u8) -> (r: bool)
    ensures
        r == is_sign(b),
{
    b == PLUS || b == MINUS
}

/// Decides [`is_number_start`].
pub fn number_start(b: u8) -> (r: bool)
    ensures
        r == is_number_start(b),
{
    digit(b) || b == MINUS
}

/// Decides [`is_number_byte`].
pub fn number_byte(b: u8) -> (r: bool)
    ensures
        r == is_number_byte(b),
{
    digit(b) || sign(b) || b == DOT || b == LOWER_E || b == UPPER_E
}

} // verus!
