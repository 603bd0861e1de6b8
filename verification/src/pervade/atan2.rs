//! Scalar kernels of the `atan2` operation.  Its numeric kernels work on
//! floating-point values and live outside this crate; only what the
//! verifier can hold is here.

use vstd::prelude::*;

use crate::{Uiua, UiuaError};

verus! {

/// The failure for an operand pair this operation has no rule for; the
/// renderings of the offending operands are supplied by the caller.
pub fn error(a: String, b: String, env: &Uiua) -> (r: UiuaError)
    ensures
        r matches UiuaError::TypeMismatch { verb, operands } && verb@ == "get the atan2 of"@ && operands@
            =~= seq![a, b],
{
    let mut operands: Vec<String> = Vec::new();
    operands.push(a);
    operands.push(b);
    UiuaError::TypeMismatch { verb: "get the atan2 of", operands }
}

} // verus!
