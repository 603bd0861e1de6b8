//! Stack signatures: how many arguments a function pops off the stack and
//! how many values it pushes back.  The engine's callers combine these
//! when composing functions.

use vstd::prelude::*;

verus! {

#[derive(Debug, Clone, Copy, PartialEq, Eq, Structural, Hash)]
pub struct Signature {
    pub args: usize,
    pub outputs: usize,
}

impl Signature {
    pub fn new(args: usize, outputs: usize) -> (r: Self)
        ensures
            r == (Signature { args, outputs }),
    {
        Self { args, outputs }
    }

    /// Whether this signature changes the stack size by the same amount as
    /// another signature.
    pub fn is_compatible_with(self, other: Self) -> (r: bool)
        ensures
            r == (self.args - self.outputs == other.args - other.outputs),
    {
        self.args as i128 - self.outputs as i128 == other.args as i128 - other.outputs as i128
    }

    /// Compatible with the other signature, with at least as many
    /// arguments.
    pub fn is_superset_of(self, other: Self) -> (r: bool)
        ensures
            r == (self.args - self.outputs == other.args - other.outputs && self.args
                >= other.args),
    {
        self.is_compatible_with(other) && self.args >= other.args
    }

    /// Compatible with the other signature, with at most as many
    /// arguments.
    pub fn is_subset_of(self, other: Self) -> (r: bool)
        ensures
            r == (self.args - self.outputs == other.args - other.outputs && self.args
                <= other.args),
    {
        self.is_compatible_with(other) && self.args <= other.args
    }

    /// The pointwise maximum of two signatures.
    pub fn max_with(self, other: Self) -> (r: Self)
        ensures
            r.args == vstd::math::max(self.args as int, other.args as int),
            r.outputs == vstd::math::max(self.outputs as int, other.outputs as int),
    {
        let args = if self.args >= other.args {
            self.args
        } else {
            other.args
        };
        let outputs = if self.outputs >= other.outputs {
            self.outputs
        } else {
            other.outputs
        };
        Self::new(args, outputs)
    }

    /// The signature of running `other` first and `self` on what it
    /// leaves: `other`'s arguments plus whatever `self` needs beyond
    /// `other`'s outputs, and `self`'s outputs plus whatever `other`
    /// leaves beyond its own arguments.
    pub fn compose(self, other: Self) -> (r: Self)
        requires
            other.args + (if self.args >= other.outputs {
                self.args - other.outputs
            } else {
                0
            }) <= usize::MAX,
            (if other.outputs >= other.args {
                other.outputs - other.args
            } else {
                0
            }) + self.outputs <= usize::MAX,
        ensures
            r.args == other.args + (if self.args >= other.outputs {
                self.args - other.outputs
            } else {
                0
            }),
            r.outputs == (if other.outputs >= other.args {
                other.outputs - other.args
            } else {
                0
            }) + self.outputs,
    {
        let extra_args = if self.args >= other.outputs {
            self.args - other.outputs
        } else {
            0
        };
        let extra_outputs = if other.outputs >= other.args {
            other.outputs - other.args
        } else {
            0
        };
        Self::new(other.args + extra_args, extra_outputs + self.outputs)
    }
}

} // verus!
