//! Scalar kernels of the `min` operation.  Its numeric kernels work on
//! floating-point values and live outside this crate; only what the
//! verifier can hold is here.

use vstd::prelude::*;

use crate::{Uiua, UiuaError};

verus! {

/// The smaller of two bytes.
pub fn byte_byte(a: u8, b: u8) -> (r: u8)
    ensures
        r == (if a <= b {
            a
        } else {
            b
        }),
{
    if a <= b {
        a
    } else {
        b
    }
}

/// The character with the smaller code point.
pub fn char_char(a: char, b: char) -> (r: char)
    ensures
        r == (if a as u32 <= b as u32 {
            a
        } else {
            b
        }),
{
    if a as u32 <= b as u32 {
        a
    } else {
        b
    }
}

/// The failure for an operand pair this operation has no rule for; the
/// renderings of the offending operands are supplied by the caller.
pub fn error(a: String, b: String, env: &Uiua) -> (r: UiuaError)
    ensures
        r matches UiuaError::TypeMismatch { verb, operands } && verb@ == "get the min of"@
            && operands@ =~= seq![a, b],
{
    let mut operands: Vec<String> = Vec::new();
    operands.push(a);
    operands.push(b);
    UiuaError::TypeMismatch { verb: "get the min of", operands }
}

} // verus!
