//! Scalar kernels of the `add` operation.  Its numeric kernels work on
//! floating-point values and live outside this crate; only what the
//! verifier can hold is here.
//!
//! Character addition interprets the character as its code point, adds the
//! numeric operand, and saturates to the null character when the result is
//! no character's code point.

use vstd::prelude::*;

use crate::chars::{char_of_code, spec_char_of_code};
use crate::{Uiua, UiuaError};

verus! {

/// The character `b` moved forward by `a` code points.
pub fn byte_char(a: u8, b: char) -> (r: char)
    ensures
        r == spec_char_of_code(b as u32 as int + a as int),
{
    char_of_code(b as u32 as i64 + a as i64)
}

/// The character `a` moved forward by `b` code points.
pub fn char_byte(a: char, b: u8) -> (r: char)
    ensures
        r == spec_char_of_code(a as u32 as int + b as int),
{
    char_of_code(a as u32 as i64 + b as i64)
}

/// The failure for an operand pair this operation has no rule for; the
/// renderings of the offending operands are supplied by the caller.
pub fn error(a: String, b: String, env: &Uiua) -> (r: UiuaError)
    ensures
        r matches UiuaError::TypeMismatch { verb, operands } && verb@ == "add"@ && operands@
            =~= seq![a, b],
{
    let mut operands: Vec<String> = Vec::new();
    operands.push(a);
    operands.push(b);
    UiuaError::TypeMismatch { verb: "add", operands }
}

} // verus!
