//! Scalar kernels of the `sub` operation: the kernel computes `b - a`, the
//! second operand minus the first, by the engine's reversed calling
//! convention.  Its numeric kernels work on floating-point values and live
//! outside this crate; only what the verifier can hold is here.

use vstd::prelude::*;

use crate::chars::{char_of_code, spec_char_of_code};
use crate::{Uiua, UiuaError};

verus! {

/// The character `b` moved back by `a` code points, saturating to the
/// null character.
pub fn byte_char(a: u8, b: char) -> (r: char)
    ensures
        r == spec_char_of_code(b as u32 as int - a as int),
{
    char_of_code(b as u32 as i64 - a as i64)
}

/// The failure for an operand pair this operation has no rule for; the
/// renderings of the offending operands are supplied by the caller.
pub fn error(a: String, b: String, env: &Uiua) -> (r: UiuaError)
    ensures
        r matches UiuaError::TypeMismatch { verb, operands } && verb@ == "subtract"@ && operands@
            =~= seq![a, b],
{
    let mut operands: Vec<String> = Vec::new();
    operands.push(a);
    operands.push(b);
    UiuaError::TypeMismatch { verb: "subtract", operands }
}

} // verus!
