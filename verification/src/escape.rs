//! Backslash escapes inside a string literal.
//!
//! An escape stands for one character or for none: what cannot be decoded
//! is dropped, not replaced.

use vstd::prelude::*;
use crate::chars::{hex_digit, hex_value};

verus! {

/// `char::from_u32` returns the character with the given code point, and
/// `None` where the number is no Unicode scalar value: a surrogate, or a
/// number above `0x10FFFF`.
pub assume_specification[ char::from_u32 ](code: u32) -> (r: Option<char>)
    ensures
        r == scalar(code),
;

/// The character with code point `code`, if there is one.
pub open spec fn scalar(code: u32) -> Option<char> {
    if code <= 0xD7FF || 0xE000 <= code <= 0x10FFFF {
        Some(code as char)
    } else {
        None
    }
}

/// Whether `code` is the first half of a surrogate pair.
pub open spec fn is_high_surrogate(code: u32) -> bool {
    0xD800 <= code <= 0xDBFF
}

/// Whether `code` is the second half of a surrogate pair.
pub open spec fn is_low_surrogate(code: u32) -> bool {
    0xDC00 <= code <= 0xDFFF
}

/// The code point that the surrogate pair `high`, `low` stands for.
pub open spec fn pair_code(high: u32, low: u32) -> u32
    recommends
        is_high_surrogate(high),
        is_low_surrogate(low),
{
    (0x10000 + (high - 0xD800) * 0x400 + (low - 0xDC00)) as u32
}

/// The number that four characters write in hexadecimal, if all four are
/// hexadecimal digits.
pub open spec fn hex_word(a: char, b: char, c: char, d: char) -> Option<u32> {
    match (hex_value(a), hex_value(b), hex_value(c), hex_value(d)) {
        (Some(a), Some(b), Some(c), Some(d)) => Some((a * 0x1000 + b * 0x100 + c * 0x10 + d) as u32),
        _ => None,
    }
}

/// The number that the four characters `s[from..from + 4]` write in
/// hexadecimal, if all four are hexadecimal digits.
pub open spec fn hex4(s: Seq<char>, from: int) -> Option<u32>
    recommends
        0 <= from,
        from + 4 <= s.len(),
{
    hex_word(s[from], s[from + 1], s[from + 2], s[from + 3])
}

/// The character that an escape letter other than `u` stands for.
pub open spec fn simple_escape(letter: char) -> char {
    if letter == 'b' {
        '\u{8}'
    } else if letter == 'f' {
        '\u{c}'
    } else if letter == 'n' {
        '\n'
    } else if letter == 'r' {
        '\r'
    } else if letter == 't' {
        '\t'
    } else {
        letter
    }
}

/// What the second half of a surrogate pair, expected at `from`, adds to the
/// first half `high`: the decoded text, empty or one character, and the
/// position after what was read.
///
/// Two characters are read, then four more if the two were `\u`; where the
/// text ends first, all of it is read.
pub open spec fn low_half(s: Seq<char>, from: int, high: u32) -> (Seq<char>, int) {
    if from + 2 > s.len() {
        (Seq::empty(), s.len() as int)
    } else if !(s[from] == '\\' && s[from + 1] == 'u') {
        (Seq::empty(), from + 2)
    } else if from + 6 > s.len() {
        (Seq::empty(), s.len() as int)
    } else {
        match hex4(s, from + 2) {
            Some(low) if is_low_surrogate(low) => (seq![pair_code(high, low) as char], from + 6),
            _ => (Seq::empty(), from + 6),
        }
    }
}

/// What the escape `\u` stands for, where `from` is the position after the
/// `u`: the decoded text, empty or one character, and the position after
/// what was read.
pub open spec fn unicode_escape(s: Seq<char>, from: int) -> (Seq<char>, int) {
    if from + 4 > s.len() {
        (Seq::empty(), s.len() as int)
    } else {
        match hex4(s, from) {
            Some(code) => match scalar(code) {
                Some(c) => (seq![c], from + 4),
                None => if is_high_surrogate(code) {
                    low_half(s, from + 4, code)
                } else {
                    (Seq::empty(), from + 4)
                },
            },
            None => (Seq::empty(), from + 4),
        }
    }
}

/// What the escape whose letter stands at `at` stands for: the decoded
/// text, empty or one character, and the position after the escape.
pub open spec fn escape_at(s: Seq<char>, at: int) -> (Seq<char>, int)
    recommends
        0 <= at < s.len(),
{
    if s[at] == 'u' {
        unicode_escape(s, at + 1)
    } else {
        (seq![simple_escape(s[at])], at + 1)
    }
}

/// Computes [`hex_word`].
pub fn hex_code(a: char, b: char, c: char, d: char) -> (r: Option<u32>)
    ensures
        r == hex_word(a, b, c, d),
        r matches Some(code) ==> code <= 0xFFFF,
{
    match (hex_digit(a), hex_digit(b), hex_digit(c), hex_digit(d)) {
        (Some(a), Some(b), Some(c), Some(d)) => Some(a * 0x1000 + b * 0x100 + c * 0x10 + d),
        _ => None,
    }
}

} // verus!
