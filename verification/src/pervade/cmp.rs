//! The comparison kernels: one comparator parameterised by the comparison
//! being asked, plus the degenerate always-greater / always-less forms used
//! when one side stands in for an absent fill value.  A comparison kernel
//! never fails, and its result is the boolean-like byte 0 or 1.
//!
//! As everywhere in the kernel tables, the kernel compares `b` against `a`:
//! `byte_byte(Comparison::IsLt, a, b)` asks whether `b < a`.

use vstd::prelude::*;

verus! {

/// Which comparison a kernel decides.
#[derive(Clone, Copy, PartialEq, Eq, Structural, Debug)]
pub enum Comparison {
    IsEq,
    IsNe,
    IsLt,
    IsLe,
    IsGt,
    IsGe,
}

/// Whether a comparison holds of an ordering given as "less" and "equal"
/// flags for the left operand against the right.
pub open spec fn spec_compare(c: Comparison, lt: bool, eq: bool) -> bool {
    match c {
        Comparison::IsEq => eq,
        Comparison::IsNe => !eq,
        Comparison::IsLt => lt,
        Comparison::IsLe => lt || eq,
        Comparison::IsGt => !lt && !eq,
        Comparison::IsGe => !lt,
    }
}

/// Compare two bytes: `b` against `a`.
pub fn byte_byte(c: Comparison, a: u8, b: u8) -> (r: u8)
    ensures
        r == (if spec_compare(c, b < a, b == a) {
            1u8
        } else {
            0u8
        }),
{
    let lt = b < a;
    let eq = b == a;
    let holds = match c {
        Comparison::IsEq => eq,
        Comparison::IsNe => !eq,
        Comparison::IsLt => lt,
        Comparison::IsLe => lt || eq,
        Comparison::IsGt => !lt && !eq,
        Comparison::IsGe => !lt,
    };
    if holds {
        1
    } else {
        0
    }
}

/// Compare two characters by code point: `b` against `a`.
pub fn char_char(c: Comparison, a: char, b: char) -> (r: u8)
    ensures
        r == (if spec_compare(c, (b as u32) < (a as u32), b == a) {
            1u8
        } else {
            0u8
        }),
{
    let lt = (b as u32) < (a as u32);
    let eq = (b as u32) == (a as u32);
    proof {
        if eq {
            vstd::utf8::char_u32_cast(a, a as u32);
            vstd::utf8::char_u32_cast(b, b as u32);
        }
    }
    let holds = match c {
        Comparison::IsEq => eq,
        Comparison::IsNe => !eq,
        Comparison::IsLt => lt,
        Comparison::IsLe => lt || eq,
        Comparison::IsGt => !lt && !eq,
        Comparison::IsGe => !lt,
    };
    if holds {
        1
    } else {
        0
    }
}

/// The comparison's answer when the left side stands for a value greater
/// than anything: what the macro-expanded tables answer for an absent
/// fill.
pub fn always_greater(c: Comparison) -> (r: u8)
    ensures
        r == (if spec_compare(c, true, false) {
            1u8
        } else {
            0u8
        }),
{
    let holds = match c {
        Comparison::IsEq => false,
        Comparison::IsNe => true,
        Comparison::IsLt => true,
        Comparison::IsLe => true,
        Comparison::IsGt => false,
        Comparison::IsGe => false,
    };
    if holds {
        1
    } else {
        0
    }
}

/// The comparison's answer when the left side stands for a value smaller
/// than anything.
pub fn always_less(c: Comparison) -> (r: u8)
    ensures
        r == (if spec_compare(c, false, false) {
            1u8
        } else {
            0u8
        }),
{
    let holds = match c {
        Comparison::IsEq => false,
        Comparison::IsNe => true,
        Comparison::IsLt => false,
        Comparison::IsLe => false,
        Comparison::IsGt => true,
        Comparison::IsGe => true,
    };
    if holds {
        1
    } else {
        0
    }
}

} // verus!
