//! The character classes that the lexer tells apart.

use vstd::prelude::*;

verus! {

/// White space in the sense of Unicode: the characters that separate words.
pub open spec fn is_space(c: char) -> bool {
    ||| '\u{9}' <= c <= '\u{d}'
    ||| c == ' '
    ||| c == '\u{85}'
    ||| c == '\u{a0}'
    ||| c == '\u{1680}'
    ||| '\u{2000}' <= c <= '\u{200a}'
    ||| c == '\u{2028}'
    ||| c == '\u{2029}'
    ||| c == '\u{202f}'
    ||| c == '\u{205f}'
    ||| c == '\u{3000}'
}

/// An opening or closing parenthesis.
pub open spec fn is_paren(c: char) -> bool {
    c == '(' || c == ')'
}

/// One of the ten decimal digits of ASCII.
pub open spec fn is_digit(c: char) -> bool {
    '0' <= c <= '9'
}

/// The number from 0 to 9 that a decimal digit stands for.
pub open spec fn digit_value(c: char) -> nat
    recommends
        is_digit(c),
{
    (c as int - '0' as int) as nat
}

/// The decimal digit that stands for a number from 0 to 9.
pub open spec fn digit_char(d: nat) -> char
    recommends
        d < 10,
{
    ('0' as int + d) as char
}

/// Tells whether `c` is white space.
pub(crate) fn char_is_space(c: char) -> (b: bool)
    ensures
        b == is_space(c),
{
    ('\u{9}' <= c && c <= '\u{d}') || c == ' ' || c == '\u{85}' || c == '\u{a0}' || c
        == '\u{1680}' || ('\u{2000}' <= c && c <= '\u{200a}') || c == '\u{2028}' || c
        == '\u{2029}' || c == '\u{202f}' || c == '\u{205f}' || c == '\u{3000}'
}

/// Tells whether `c` is a parenthesis.
pub(crate) fn char_is_paren(c: char) -> (b: bool)
    ensures
        b == is_paren(c),
{
    c == '(' || c == ')'
}

/// Tells whether `c` is a decimal digit.
pub(crate) fn char_is_digit(c: char) -> (b: bool)
    ensures
        b == is_digit(c),
{
    '0' <= c && c <= '9'
}

/// The value of a decimal digit.
pub(crate) fn char_digit_value(c: char) -> (d: u8)
    requires
        is_digit(c),
    ensures
        d == digit_value(c),
        d < 10,
{
    (c as u32 - '0' as u32) as u8
}

/// The digit for a number below ten.
pub(crate) fn char_of_digit(d: u8) -> (c: char)
    requires
        d < 10,
    ensures
        c == digit_char(d as nat),
        is_digit(c),
        digit_value(c) == d,
{
    (d + 48u8) as char
}

} // verus!
