//! Rank-polymorphic array engine.
//!
//! Every value is an [`array::Array`]: a flat, row-major data buffer together
//! with a shape.  The engine provides the monadic shape algorithms (deshape,
//! range, first, last, reverse, transpose, rise, fall, classify, deduplicate,
//! bit packing) and a pervasive binary-operation engine that reconciles the
//! shapes of two operands by fill-extension and then applies a scalar kernel
//! at the leaves.
//!
//! Floating-point elements are outside this crate; the element types here are
//! bytes, characters and natural numbers.
//!
//! The laws of the engine are stated and proved alongside the operations
//! they govern:
//!
//! - flattening keeps the data and yields rank 1 (`ensures` of
//!   [`array::Array::deshape`]);
//! - reversing the rows twice restores an array
//!   ([`monadic::lemma_reverse_involution`]);
//! - `transpose` and `inverse transpose` are mutual inverses
//!   ([`monadic::lemma_transpose_round_trip`]);
//! - unpacking packed bits restores the values
//!   ([`bits::lemma_bits_round_trip`]);
//! - `rise` and `fall` return sorting permutations (`ensures` of
//!   [`array::Array::rise`] and [`array::Array::fall`]);
//! - collecting rows by class reproduces the deduplicated rows
//!   ([`rows::lemma_classify_deduplicate`]);
//! - the result shape of pervasion is the element-wise maximum of the
//!   operand shapes ([`pervade::lemma_pervade_shape_law`] with the
//!   `ensures` of [`pervade::bin_pervade`]);
//! - the first kernel failure is surfaced unchanged (`ensures` of
//!   [`pervade::bin_pervade`] and [`pervade::generic::bin_pervade_generic`]),
//!   and a kernel that accepts every pair never fails the broadcast
//!   ([`pervade::lemma_pervade_infallible`],
//!   [`pervade::generic::lemma_generic_infallible`]).

use vstd::prelude::*;

pub mod array;
pub mod monadic;
pub mod rows;
pub mod bits;
pub mod chars;
pub mod function;
pub mod pervade;

verus! {

/// A typed runtime failure.  Every fallible operation of the engine returns
/// one of these; the engine never panics and never prints.
#[derive(Debug, Clone)]
pub enum UiuaError {
    /// Two operand shapes could not be unified, even after fill repair.
    /// `fill_eligible` marks the variant that an outer retry with a different
    /// fill policy may still repair.
    ShapeMismatch { a: Vec<usize>, b: Vec<usize>, fill_eligible: bool },
    /// A scalar kernel has no rule for the given operand combination.
    TypeMismatch { verb: &'static str, operands: Vec<String> },
    /// An input outside an operation's domain (wrong rank, empty leading
    /// dimension, non-boolean bits, ...).
    DomainError { message: &'static str },
    /// A range request whose element count does not fit in memory.
    RangeOverflow { shape: Vec<usize> },
    /// A function-inversion request with no defined inverse.
    NoInverse,
}

pub type UiuaResult<T> = Result<T, UiuaError>;

/// The evaluation context the engine consumes: one optional fill value per
/// element type, used to pad a smaller operand during shape reconciliation.
/// An element type whose fill is `None` cannot take part in shape repair.
pub struct Uiua {
    pub byte_fill: Option<u8>,
    pub char_fill: Option<char>,
    pub nat_fill: Option<u64>,
}

impl Uiua {
    /// A context with no fill values: every shape mismatch is a hard error.
    pub fn new() -> (env: Uiua)
        ensures
            env.byte_fill is None,
            env.char_fill is None,
            env.nat_fill is None,
    {
        Uiua { byte_fill: None, char_fill: None, nat_fill: None }
    }
}

} // verus!
