//! Character classes of the S-expression syntax and the digit alphabets used by
//! the hexadecimal and base64 encodings.
use vstd::prelude::*;

verus! {

pub const TAB: u8 = 9;
pub const LF: u8 = 10;
pub const VT: u8 = 11;
pub const FF: u8 = 12;
pub const CR: u8 = 13;
pub const SPACE: u8 = 32;
pub const QUOTE: u8 = 34;
pub const HASH: u8 = 35;
pub const APOS: u8 = 39;
pub const LPAREN: u8 = 40;
pub const RPAREN: u8 = 41;
pub const PLUS: u8 = 43;
pub const SLASH: u8 = 47;
pub const COLON: u8 = 58;
pub const EQUALS: u8 = 61;
pub const LBRACKET: u8 = 91;
pub const BACKSLASH: u8 = 92;
pub const RBRACKET: u8 = 93;
pub const LBRACE: u8 = 123;
pub const BAR: u8 = 124;
pub const RBRACE: u8 = 125;

pub open spec fn spec_is_lower(c: u8) -> bool {
    97 <= c && c <= 122
}

pub open spec fn spec_is_upper(c: u8) -> bool {
    65 <= c && c <= 90
}

pub open spec fn spec_is_dec_digit(c: u8) -> bool {
    48 <= c && c <= 57
}

pub open spec fn spec_is_alpha(c: u8) -> bool {
    spec_is_lower(c) || spec_is_upper(c)
}

/// Token characters: letters, digits and the punctuation `-./_:!*+&=^$@%`.
pub open spec fn spec_is_token_char(c: u8) -> bool {
    ||| spec_is_alpha(c)
    ||| spec_is_dec_digit(c)
    ||| c == 45 || c == 46 || c == 47 || c == 95 || c == 58
    ||| c == 33 || c == 42 || c == 43 || c == 38 || c == 61
    ||| c == 94 || c == 36 || c == 64 || c == 37
}

pub open spec fn spec_is_hex_digit(c: u8) -> bool {
    spec_is_dec_digit(c) || (97 <= c && c <= 102) || (65 <= c && c <= 70)
}

pub open spec fn spec_is_base64_digit(c: u8) -> bool {
    spec_is_alpha(c) || spec_is_dec_digit(c) || c == PLUS || c == SLASH
}

/// Space, tab, line feed, carriage return, form feed and vertical tab.
pub open spec fn spec_is_whitespace(c: u8) -> bool {
    c == SPACE || c == TAB || c == LF || c == CR || c == FF || c == VT
}

pub open spec fn spec_dec_value(c: u8) -> u8 {
    if spec_is_dec_digit(c) { (c - 48) as u8 } else { 0 }
}

pub open spec fn spec_hex_value(c: u8) -> u8 {
    if spec_is_dec_digit(c) {
        (c - 48) as u8
    } else if 97 <= c && c <= 102 {
        (c - 87) as u8
    } else if 65 <= c && c <= 70 {
        (c - 55) as u8
    } else {
        0
    }
}

pub open spec fn spec_base64_value(c: u8) -> u8 {
    if spec_is_upper(c) {
        (c - 65) as u8
    } else if spec_is_lower(c) {
        (c - 71) as u8
    } else if spec_is_dec_digit(c) {
        (c + 4) as u8
    } else if c == PLUS {
        62
    } else if c == SLASH {
        63
    } else {
        0
    }
}

/// The upper-case hexadecimal digit of a value below 16.
pub open spec fn spec_hex_digit(v: u32) -> u8 {
    if v < 10 { (v + 48) as u8 } else { (v + 55) as u8 }
}

/// The base64 digit (RFC 4648 alphabet) of a value below 64.
pub open spec fn spec_base64_digit(v: u32) -> u8 {
    if v < 26 {
        (v + 65) as u8
    } else if v < 52 {
        (v + 71) as u8
    } else if v < 62 {
        (v - 4) as u8
    } else if v == 62 {
        PLUS
    } else {
        SLASH
    }
}

pub fn is_token_char(c: u8) -> (r: bool)
    ensures
        r == spec_is_token_char(c),
{
    (97 <= c && c <= 122) || (65 <= c && c <= 90) || (48 <= c && c <= 57) || c == 45 || c == 46
        || c == 47 || c == 95 || c == 58 || c == 33 || c == 42 || c == 43 || c == 38 || c == 61
        || c == 94 || c == 36 || c == 64 || c == 37
}

pub fn is_dec_digit(c: u8) -> (r: bool)
    ensures
        r == spec_is_dec_digit(c),
{
    48 <= c && c <= 57
}

pub fn is_hex_digit(c: u8) -> (r: bool)
    ensures
        r == spec_is_hex_digit(c),
{
    (48 <= c && c <= 57) || (97 <= c && c <= 102) || (65 <= c && c <= 70)
}

pub fn is_base64_digit(c: u8) -> (r: bool)
    ensures
        r == spec_is_base64_digit(c),
{
    (97 <= c && c <= 122) || (65 <= c && c <= 90) || (48 <= c && c <= 57) || c == PLUS || c
        == SLASH
}

pub fn is_alpha(c: u8) -> (r: bool)
    ensures
        r == spec_is_alpha(c),
{
    (97 <= c && c <= 122) || (65 <= c && c <= 90)
}

pub fn is_whitespace(c: u8) -> (r: bool)
    ensures
        r == spec_is_whitespace(c),
{
    c == SPACE || c == TAB || c == LF || c == CR || c == FF || c == VT
}

pub fn dec_value(c: u8) -> (r: u8)
    ensures
        r == spec_dec_value(c),
        r < 10,
{
    if 48 <= c && c <= 57 {
        c - 48
    } else {
        0
    }
}

pub fn hex_value(c: u8) -> (r: u8)
    ensures
        r == spec_hex_value(c),
        r < 16,
{
    if 48 <= c && c <= 57 {
        c - 48
    } else if 97 <= c && c <= 102 {
        c - 87
    } else if 65 <= c && c <= 70 {
        c - 55
    } else {
        0
    }
}

pub fn base64_value(c: u8) -> (r: u8)
    ensures
        r == spec_base64_value(c),
        r < 64,
{
    if 65 <= c && c <= 90 {
        c - 65
    } else if 97 <= c && c <= 122 {
        c - 71
    } else if 48 <= c && c <= 57 {
        c + 4
    } else if c == PLUS {
        62
    } else if c == SLASH {
        63
    } else {
        0
    }
}

pub fn hex_digit(v: u32) -> (r: u8)
    requires
        v < 16,
    ensures
        r == spec_hex_digit(v),
        spec_is_hex_digit(r),
        spec_hex_value(r) == v,
{
    if v < 10 {
        (v + 48) as u8
    } else {
        (v + 55) as u8
    }
}

pub fn base64_digit(v: u32) -> (r: u8)
    requires
        v < 64,
    ensures
        r == spec_base64_digit(v),
        spec_is_base64_digit(r),
        spec_base64_value(r) == v,
{
    if v < 26 {
        (v + 65) as u8
    } else if v < 52 {
        (v + 71) as u8
    } else if v < 62 {
        (v - 4) as u8
    } else if v == 62 {
        PLUS
    } else {
        SLASH
    }
}

/// Maps a character read from a stream (a byte, or -1 at the end of input) to
/// the byte that the classification tables look at; the end marker becomes 0xFF.
pub open spec fn spec_low_byte(c: i32) -> u8 {
    if 0 <= c && c <= 255 { c as u8 } else { 255 }
}

pub fn low_byte(c: i32) -> (r: u8)
    ensures
        r == spec_low_byte(c),
{
    if 0 <= c && c <= 255 {
        c as u8
    } else {
        255
    }
}

} // verus!
