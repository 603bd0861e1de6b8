//! Scalar kernels of the `sign` operation.  Its numeric kernels work on
//! floating-point values and live outside this crate; only what the
//! verifier can hold is here.

use vstd::prelude::*;

use crate::{Uiua, UiuaError};

verus! {

/// The sign of a byte: 1 for a positive value, 0 for zero.
pub fn byte(a: u8) -> (r: u8)
    ensures
        r == (if a > 0 { 1u8 } else { 0u8 }),
{
    if a > 0 { 1 } else { 0 }
}

/// The failure for an operand type this operation has no rule for; the
/// rendering of the offending operand is supplied by the caller.
pub fn error(a: String, env: &Uiua) -> (r: UiuaError)
    ensures
        r matches UiuaError::TypeMismatch { verb, operands } && verb@ == "get the sign of"@ && operands@
            =~= seq![a],
{
    let mut operands: Vec<String> = Vec::new();
    operands.push(a);
    UiuaError::TypeMismatch { verb: "get the sign of", operands }
}

} // verus!
