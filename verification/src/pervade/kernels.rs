//! The scalar kernels packaged as engine kernels: one unit struct per
//! type-combination, implementing the kernel interface with the exact
//! contract of the underlying table entry.

use vstd::prelude::*;

use crate::chars::spec_char_of_code;
use crate::pervade::cmp::{spec_compare, Comparison};
use crate::pervade::{add, cmp, max, min, sub, InfallibleFn, PervasiveFn};
use crate::{Uiua, UiuaError};

verus! {

/// `add` over a byte and a character.
pub struct AddByteChar;

impl InfallibleFn for AddByteChar {
    type A = u8;

    type B = char;

    type Output = char;

    open spec fn out_spec(&self, a: u8, b: char) -> char {
        spec_char_of_code(b as u32 as int + a as int)
    }

    fn apply(&self, a: u8, b: char) -> (r: char) {
        add::byte_char(a, b)
    }
}

/// `add` over a character and a byte.
pub struct AddCharByte;

impl InfallibleFn for AddCharByte {
    type A = char;

    type B = u8;

    type Output = char;

    open spec fn out_spec(&self, a: char, b: u8) -> char {
        spec_char_of_code(a as u32 as int + b as int)
    }

    fn apply(&self, a: char, b: u8) -> (r: char) {
        add::char_byte(a, b)
    }
}

/// `sub` over a byte and a character.
pub struct SubByteChar;

impl InfallibleFn for SubByteChar {
    type A = u8;

    type B = char;

    type Output = char;

    open spec fn out_spec(&self, a: u8, b: char) -> char {
        spec_char_of_code(b as u32 as int - a as int)
    }

    fn apply(&self, a: u8, b: char) -> (r: char) {
        sub::byte_char(a, b)
    }
}

/// `max` over bytes.
pub struct MaxBytes;

impl InfallibleFn for MaxBytes {
    type A = u8;

    type B = u8;

    type Output = u8;

    open spec fn out_spec(&self, a: u8, b: u8) -> u8 {
        if a >= b {
            a
        } else {
            b
        }
    }

    fn apply(&self, a: u8, b: u8) -> (r: u8) {
        max::byte_byte(a, b)
    }
}

/// `min` over bytes.
pub struct MinBytes;

impl InfallibleFn for MinBytes {
    type A = u8;

    type B = u8;

    type Output = u8;

    open spec fn out_spec(&self, a: u8, b: u8) -> u8 {
        if a <= b {
            a
        } else {
            b
        }
    }

    fn apply(&self, a: u8, b: u8) -> (r: u8) {
        min::byte_byte(a, b)
    }
}

/// `max` over characters.
pub struct MaxChars;

impl InfallibleFn for MaxChars {
    type A = char;

    type B = char;

    type Output = char;

    open spec fn out_spec(&self, a: char, b: char) -> char {
        if a as u32 >= b as u32 {
            a
        } else {
            b
        }
    }

    fn apply(&self, a: char, b: char) -> (r: char) {
        max::char_char(a, b)
    }
}

/// `min` over characters.
pub struct MinChars;

impl InfallibleFn for MinChars {
    type A = char;

    type B = char;

    type Output = char;

    open spec fn out_spec(&self, a: char, b: char) -> char {
        if a as u32 <= b as u32 {
            a
        } else {
            b
        }
    }

    fn apply(&self, a: char, b: char) -> (r: char) {
        min::char_char(a, b)
    }
}

/// A comparison over bytes, `b` against `a`.
pub struct CmpBytes(pub Comparison);

impl InfallibleFn for CmpBytes {
    type A = u8;

    type B = u8;

    type Output = u8;

    open spec fn out_spec(&self, a: u8, b: u8) -> u8 {
        if spec_compare(self.0, b < a, b == a) {
            1u8
        } else {
            0u8
        }
    }

    fn apply(&self, a: u8, b: u8) -> (r: u8) {
        cmp::byte_byte(self.0, a, b)
    }
}

/// A comparison over characters, `b` against `a`.
pub struct CmpChars(pub Comparison);

impl InfallibleFn for CmpChars {
    type A = char;

    type B = char;

    type Output = u8;

    open spec fn out_spec(&self, a: char, b: char) -> u8 {
        if spec_compare(self.0, (b as u32) < (a as u32), b == a) {
            1u8
        } else {
            0u8
        }
    }

    fn apply(&self, a: char, b: char) -> (r: u8) {
        proof {
            if b == a {
            } else {
                if b as u32 == a as u32 {
                    vstd::utf8::char_u32_cast(a, a as u32);
                    vstd::utf8::char_u32_cast(b, b as u32);
                }
            }
        }
        cmp::char_char(self.0, a, b)
    }
}

/// Addition over the natural-number element type: the integral face of the
/// numeric `add` kernel.  By the engine's convention the kernel computes
/// `b + a`; it fails when the sum does not fit the element type.
pub struct NatAdd;

impl PervasiveFn for NatAdd {
    type A = u64;

    type B = u64;

    type Output = u64;

    open spec fn succeeds(&self, a: u64, b: u64) -> bool {
        a + b <= u64::MAX
    }

    open spec fn output(&self, a: u64, b: u64) -> u64 {
        (a + b) as u64
    }

    open spec fn error_of(&self, a: u64, b: u64) -> UiuaError {
        UiuaError::DomainError { message: "Addition overflowed" }
    }

    fn call(&self, a: u64, b: u64, env: &Uiua) -> (r: Result<u64, UiuaError>) {
        match b.checked_add(a) {
            Some(v) => Ok(v),
            None => Err(UiuaError::DomainError { message: "Addition overflowed" }),
        }
    }
}

} // verus!
