//! Scalar kernels of the `cos` operation.  Its numeric kernels work on
//! floating-point values and live outside this crate; only what the
//! verifier can hold is here.

use vstd::prelude::*;

use crate::{Uiua, UiuaError};

verus! {

/// The failure for an operand type this operation has no rule for; the
/// rendering of the offending operand is supplied by the caller.
pub fn error(a: String, env: &Uiua) -> (r: UiuaError)
    ensures
        r matches UiuaError::TypeMismatch { verb, operands } && verb@ == "get the cosine of"@ && operands@
            =~= seq![a],
{
    let mut operands: Vec<String> = Vec::new();
    operands.push(a);
    UiuaError::TypeMismatch { verb: "get the cosine of", operands }
}

} // verus!
