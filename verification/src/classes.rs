//! Character classes that decide how a piece of text is segmented.

use vstd::prelude::*;

verus! {

/// A Han ideograph of the range that the dictionary covers.
pub open spec fn is_han(c: char) -> bool {
    0x4E00 <= c as u32 <= 0x9FD5
}

/// An ASCII letter or digit.
pub open spec fn is_ascii_alnum(c: char) -> bool {
    ||| 0x30 <= c as u32 <= 0x39
    ||| 0x41 <= c as u32 <= 0x5A
    ||| 0x61 <= c as u32 <= 0x7A
}

/// One of the punctuation marks `+ # & . _ % -` that may stand inside a word.
pub open spec fn is_word_punct(c: char) -> bool {
    c == '+' || c == '#' || c == '&' || c == '.' || c == '_' || c == '%' || c == '-'
}

/// A character that may belong to a block segmented by dictionary.
pub open spec fn is_dict_char(c: char) -> bool {
    is_han(c) || is_ascii_alnum(c) || is_word_punct(c)
}

/// A Unicode white-space character.
pub open spec fn is_space(c: char) -> bool {
    ||| 0x09 <= c as u32 <= 0x0D
    ||| c as u32 == 0x20
    ||| c as u32 == 0x85
    ||| c as u32 == 0xA0
    ||| c as u32 == 0x1680
    ||| 0x2000 <= c as u32 <= 0x200A
    ||| c as u32 == 0x2028
    ||| c as u32 == 0x2029
    ||| c as u32 == 0x202F
    ||| c as u32 == 0x205F
    ||| c as u32 == 0x3000
}

/// A decimal digit.
pub open spec fn is_digit(c: char) -> bool {
    0x30 <= c as u32 <= 0x39
}

pub fn ascii_alnum(c: char) -> (r: bool)
    ensures
        r == is_ascii_alnum(c),
{
    let u: u32 = c as u32;
    (0x30 <= u && u <= 0x39) || (0x41 <= u && u <= 0x5A) || (0x61 <= u && u <= 0x7A)
}

pub fn dict_char(c: char) -> (r: bool)
    ensures
        r == is_dict_char(c),
{
    let u: u32 = c as u32;
    (0x4E00 <= u && u <= 0x9FD5) || ascii_alnum(c) || c == '+' || c == '#' || c == '&' || c == '.'
        || c == '_' || c == '%' || c == '-'
}

pub fn space(c: char) -> (r: bool)
    ensures
        r == is_space(c),
{
    let u: u32 = c as u32;
    (0x09 <= u && u <= 0x0D) || u == 0x20 || u == 0x85 || u == 0xA0 || u == 0x1680 || (0x2000 <= u
        && u <= 0x200A) || u == 0x2028 || u == 0x2029 || u == 0x202F || u == 0x205F || u == 0x3000
}

pub fn digit(c: char) -> (r: bool)
    ensures
        r == is_digit(c),
{
    let u: u32 = c as u32;
    0x30 <= u && u <= 0x39
}

} // verus!
