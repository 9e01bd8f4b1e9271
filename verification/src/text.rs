//! Character classes and decimal numerals: the vocabulary that the lexer and
//! the renderers share.

use vstd::prelude::*;

verus! {

/// Whether Unicode gives `c` the Alphabetic property.
pub uninterp spec fn unicode_alphabetic(c: char) -> bool;

/// Whether Unicode deems `c` numeric: a digit, a letter that stands for a
/// number, or another numeric character.
pub uninterp spec fn unicode_numeric(c: char) -> bool;

/// Whether Unicode gives `c` the White_Space property.
pub uninterp spec fn unicode_whitespace(c: char) -> bool;

/// `char::is_alphabetic`: the answer is the Unicode Alphabetic property of `c`,
/// which this crate names but does not define.
#[verifier::external_body]
fn char_is_alphabetic(c: char) -> (b: bool)
    ensures
        b == unicode_alphabetic(c),
{
    c.is_alphabetic()
}

/// `char::is_alphanumeric`: the answer is whether `c` is alphabetic or
/// numeric by Unicode, two properties which this crate names but does not
/// define.
#[verifier::external_body]
fn char_is_alphanumeric(c: char) -> (b: bool)
    ensures
        b == (unicode_alphabetic(c) || unicode_numeric(c)),
{
    c.is_alphanumeric()
}

/// `char::is_whitespace`: the answer is the Unicode White_Space property of
/// `c`, which this crate names but does not define.
#[verifier::external_body]
fn char_is_whitespace(c: char) -> (b: bool)
    ensures
        b == unicode_whitespace(c),
{
    c.is_whitespace()
}

/// `String::push`: appends exactly the one character to the end of the string.
#[verifier::external_body]
pub(crate) fn push_char(s: &mut String, c: char)
    ensures
        final(s)@ == old(s)@.push(c),
{
    s.push(c)
}

/// Whether a character is one of the 128 characters of ASCII.
pub open spec fn is_ascii_char(c: char) -> bool {
    (c as u32) < 128
}

/// Whether a character is one of the ten digits.
pub open spec fn is_digit(c: char) -> bool {
    '0' <= c <= '9'
}

/// Whether a character is one of the 52 letters of ASCII.
pub open spec fn is_ascii_letter(c: char) -> bool {
    ('a' <= c <= 'z') || ('A' <= c <= 'Z')
}

/// Whether a character is blank space of ASCII: space, tab, line feed,
/// vertical tab, form feed or carriage return.
pub open spec fn is_ascii_space(c: char) -> bool {
    c == ' ' || ('\t' <= c <= '\r')
}

/// A letter: an ASCII letter, or a character beyond ASCII that Unicode calls
/// alphabetic.
pub open spec fn is_letter(c: char) -> bool {
    is_ascii_letter(c) || (!is_ascii_char(c) && unicode_alphabetic(c))
}

/// A character that may continue a word: an ASCII letter or digit, an
/// underscore, or a character beyond ASCII that Unicode calls alphabetic or
/// numeric.
pub open spec fn is_word_char(c: char) -> bool {
    is_ascii_letter(c) || is_digit(c) || c == '_' || (!is_ascii_char(c) && (unicode_alphabetic(c)
        || unicode_numeric(c)))
}

/// Blank space between tokens: ASCII space, tab, line feed, vertical tab, form
/// feed, carriage return, or a character beyond ASCII that Unicode calls white
/// space.
pub open spec fn is_space(c: char) -> bool {
    is_ascii_space(c) || (!is_ascii_char(c) && unicode_whitespace(c))
}

/// Whether a character is a digit.
pub fn digit(c: char) -> (b: bool)
    ensures
        b == is_digit(c),
{
    '0' <= c && c <= '9'
}

/// Whether a character is a letter.
pub fn letter(c: char) -> (b: bool)
    ensures
        b == is_letter(c),
{
    if (c as u32) < 128 {
        ('a' <= c && c <= 'z') || ('A' <= c && c <= 'Z')
    } else {
        char_is_alphabetic(c)
    }
}

/// Whether a character may continue a word.
pub fn word_char(c: char) -> (b: bool)
    ensures
        b == is_word_char(c),
{
    if (c as u32) < 128 {
        ('a' <= c && c <= 'z') || ('A' <= c && c <= 'Z') || ('0' <= c && c <= '9') || c == '_'
    } else {
        char_is_alphanumeric(c)
    }
}

/// Whether a character is blank space.
pub fn space(c: char) -> (b: bool)
    ensures
        b == is_space(c),
{
    if (c as u32) < 128 {
        c == ' ' || ('\t' <= c && c <= '\r')
    } else {
        char_is_whitespace(c)
    }
}

/// The numeral of a single digit.
pub open spec fn digit_char(d: int) -> char {
    if d == 0 {
        '0'
    } else if d == 1 {
        '1'
    } else if d == 2 {
        '2'
    } else if d == 3 {
        '3'
    } else if d == 4 {
        '4'
    } else if d == 5 {
        '5'
    } else if d == 6 {
        '6'
    } else if d == 7 {
        '7'
    } else if d == 8 {
        '8'
    } else {
        '9'
    }
}

/// The value of a digit character.
pub open spec fn digit_value(c: char) -> int {
    (c as u32) - ('0' as u32)
}

/// The decimal numeral of a natural number, without leading zeros.
pub open spec fn decimal_nat(n: nat) -> Seq<char>
    decreases n,
{
    if n < 10 {
        seq![digit_char(n as int)]
    } else {
        decimal_nat(n / 10).push(digit_char((n % 10) as int))
    }
}

/// The decimal numeral of an integer: a minus sign before the numeral of the
/// magnitude when it is negative.
pub open spec fn decimal_int(i: int) -> Seq<char> {
    if i < 0 {
        seq!['-'] + decimal_nat((-i) as nat)
    } else {
        decimal_nat(i as nat)
    }
}

/// The number that a string of digits denotes, read as a decimal numeral.
pub open spec fn decimal_value(digits: Seq<char>) -> nat
    decreases digits.len(),
{
    if digits.len() == 0 {
        0
    } else {
        (decimal_value(digits.drop_last()) * 10 + digit_value(digits.last())) as nat
    }
}

/// The numeral of a single digit.
fn digit_to_char(d: u64) -> (c: char)
    requires
        d < 10,
    ensures
        c == digit_char(d as int),
{
    if d == 0 {
        '0'
    } else if d == 1 {
        '1'
    } else if d == 2 {
        '2'
    } else if d == 3 {
        '3'
    } else if d == 4 {
        '4'
    } else if d == 5 {
        '5'
    } else if d == 6 {
        '6'
    } else if d == 7 {
        '7'
    } else if d == 8 {
        '8'
    } else {
        '9'
    }
}

/// Appends the decimal numeral of `n` to `out`.
fn push_decimal(out: &mut String, n: u64)
    ensures
        final(out)@ == old(out)@ + decimal_nat(n as nat),
    decreases n,
{
    if n < 10 {
        push_char(out, digit_to_char(n));
    } else {
        push_decimal(out, n / 10);
        push_char(out, digit_to_char(n % 10));
    }
}

/// Renders an integer in decimal.
pub fn integer_to_string(i: i64) -> (s: String)
    ensures
        s@ == decimal_int(i as int),
{
    let mut s = String::new();
    if i < 0 {
        push_char(&mut s, '-');
        let magnitude: u64 = if i == i64::MIN {
            9223372036854775808u64
        } else {
            (-i) as u64
        };
        push_decimal(&mut s, magnitude);
    } else {
        push_decimal(&mut s, i as u64);
    }
    s
}

} // verus!
