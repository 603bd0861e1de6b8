//! Character arithmetic support: a character is its code point, and a code
//! point that no character has saturates to the null character.

use vstd::prelude::*;

verus! {

/// A code point some `char` carries: below the surrogate range or between
/// its end and the last code point.
pub open spec fn spec_is_scalar_value(code: int) -> bool {
    (0 <= code && code < 0xD800) || (0xE000 <= code && code <= 0x10FFFF)
}

/// The character of a code point; the null character where no character
/// has the code point: the saturation rule of character arithmetic.
pub open spec fn spec_char_of_code(code: int) -> char {
    if spec_is_scalar_value(code) {
        (code as u32) as char
    } else {
        '\u{0}'
    }
}

/// Relies on `char::from_u32` of std: it returns `Some` exactly for code
/// points outside the surrogate range and at most `char::MAX`, and the
/// returned character carries that code point.
pub assume_specification[ char::from_u32 ](i: u32) -> (r: Option<char>)
    ensures
        r is Some <==> spec_is_scalar_value(i as int),
        r is Some ==> (r->Some_0 as u32) == i,
;

/// The saturating conversion from a computed code point to a character.
pub fn char_of_code(code: i64) -> (r: char)
    ensures
        r == spec_char_of_code(code as int),
{
    if 0 <= code && code <= 0x10FFFF {
        match char::from_u32(code as u32) {
            Some(c) => {
                proof {
                    vstd::utf8::char_u32_cast(c, c as u32);
                }
                c
            },
            None => '\u{0}',
        }
    } else {
        '\u{0}'
    }
}

} // verus!
