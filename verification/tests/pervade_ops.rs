//! The pervasion engines and the scalar kernel tables, exercised on
//! concrete arrays.

use uiua::array::{shape_prefixes_match, Array, ArrayView, Arrayish};
use uiua::pervade::cmp::Comparison;
use uiua::pervade::generic::bin_pervade_generic;
use uiua::pervade::kernels::{AddByteChar, CmpBytes, MaxBytes, NatAdd, SubByteChar};
use uiua::pervade::{
    abs, add, bin_pervade, ceil, cmp, floor, max, min, round, sign, sub, FalliblePerasiveFn,
    InfalliblePervasiveFn,
};
use uiua::function::Signature;
use uiua::{Uiua, UiuaError};

#[test]
fn pervade_scalar_against_list() {
    let env = Uiua::new();
    let a = Array::<u64> { shape: vec![], data: vec![10] };
    let b = Array::<u64> { shape: vec![3], data: vec![1, 2, 3] };
    let f = FalliblePerasiveFn::new(NatAdd);
    let out = bin_pervade(&a, &b, &env, &f).unwrap();
    assert_eq!(out.shape, vec![3]);
    assert_eq!(out.data, vec![11, 12, 13]);
}

#[test]
fn pervade_equal_shapes_zips() {
    let env = Uiua::new();
    let a = Array::<u64> { shape: vec![2, 2], data: vec![1, 2, 3, 4] };
    let b = Array::<u64> { shape: vec![2, 2], data: vec![10, 20, 30, 40] };
    let f = FalliblePerasiveFn::new(NatAdd);
    let out = bin_pervade(&a, &b, &env, &f).unwrap();
    assert_eq!(out.shape, vec![2, 2]);
    assert_eq!(out.data, vec![11, 22, 33, 44]);
}

#[test]
fn pervade_rank_mismatch_broadcasts_rows() {
    let env = Uiua::new();
    let a = Array::<u64> { shape: vec![2], data: vec![100, 200] };
    let b = Array::<u64> { shape: vec![2, 3], data: vec![1, 2, 3, 4, 5, 6] };
    let f = FalliblePerasiveFn::new(NatAdd);
    let out = bin_pervade(&a, &b, &env, &f).unwrap();
    assert_eq!(out.shape, vec![2, 3]);
    assert_eq!(out.data, vec![101, 102, 103, 204, 205, 206]);
}

#[test]
fn pervade_shape_law_uses_higher_rank_shape() {
    let env = Uiua::new();
    let a = Array::<u8> { shape: vec![2], data: vec![9, 9] };
    let b = Array::<u8> { shape: vec![2, 2], data: vec![1, 2, 3, 4] };
    let f = InfalliblePervasiveFn::new(MaxBytes);
    let out = bin_pervade(&a, &b, &env, &f).unwrap();
    assert_eq!(out.shape, vec![2, 2]);
    assert_eq!(out.data, vec![9, 9, 9, 9]);
}

#[test]
fn pervade_mismatch_without_fill_fails() {
    let env = Uiua::new();
    let a = Array::<u8> { shape: vec![2], data: vec![1, 2] };
    let b = Array::<u8> { shape: vec![3], data: vec![5, 5, 5] };
    let f = InfalliblePervasiveFn::new(MaxBytes);
    let err = bin_pervade(&a, &b, &env, &f).unwrap_err();
    match err {
        UiuaError::ShapeMismatch { a, b, fill_eligible } => {
            assert_eq!(a, vec![2]);
            assert_eq!(b, vec![3]);
            assert!(fill_eligible);
        },
        other => panic!("unexpected error: {:?}", other),
    }
}

#[test]
fn pervade_mismatch_with_fill_grows_rows() {
    let mut env = Uiua::new();
    env.byte_fill = Some(0);
    let a = Array::<u8> { shape: vec![2], data: vec![9, 9] };
    let b = Array::<u8> { shape: vec![3], data: vec![1, 1, 1] };
    let f = InfalliblePervasiveFn::new(MaxBytes);
    let out = bin_pervade(&a, &b, &env, &f).unwrap();
    assert_eq!(out.shape, vec![3]);
    assert_eq!(out.data, vec![9, 9, 1]);
}

#[test]
fn pervade_equal_rank_fill_to_elementwise_max() {
    let mut env = Uiua::new();
    env.byte_fill = Some(7);
    let a = Array::<u8> { shape: vec![1, 2], data: vec![9, 9] };
    let b = Array::<u8> { shape: vec![1, 3], data: vec![1, 1, 1] };
    let f = InfalliblePervasiveFn::new(MaxBytes);
    let out = bin_pervade(&a, &b, &env, &f).unwrap();
    assert_eq!(out.shape, vec![1, 3]);
    assert_eq!(out.data, vec![9, 9, 7]);
}

#[test]
fn pervade_overflow_reports_error() {
    let env = Uiua::new();
    let a = Array::<u64> { shape: vec![], data: vec![1] };
    let b = Array::<u64> { shape: vec![2], data: vec![u64::MAX, 1] };
    let f = FalliblePerasiveFn::new(NatAdd);
    assert!(bin_pervade(&a, &b, &env, &f).is_err());
}

#[test]
fn pervade_byte_scalar_shifts_characters() {
    let env = Uiua::new();
    let a = Array::<u8> { shape: vec![], data: vec![1] };
    let b = Array::<char> { shape: vec![3], data: vec!['a', 'b', 'c'] };
    let f = InfalliblePervasiveFn::new(AddByteChar);
    let out = bin_pervade(&a, &b, &env, &f).unwrap();
    assert_eq!(out.shape, vec![3]);
    assert_eq!(out.data, vec!['b', 'c', 'd']);
}

#[test]
fn pervade_comparison_kernel() {
    let env = Uiua::new();
    let a = Array::<u8> { shape: vec![], data: vec![3] };
    let b = Array::<u8> { shape: vec![4], data: vec![1, 3, 5, 2] };
    let f = InfalliblePervasiveFn::new(CmpBytes(Comparison::IsLt));
    let out = bin_pervade(&a, &b, &env, &f).unwrap();
    // The kernel asks whether b < a, element by element.
    assert_eq!(out.data, vec![1, 0, 0, 1]);
}

#[test]
fn add_kernels_shift_characters() {
    assert_eq!(add::byte_char(1, 'a'), 'b');
    assert_eq!(add::char_byte('a', 2), 'c');
    assert_eq!(sub::byte_char(1, 'b'), 'a');
}

#[test]
fn character_arithmetic_saturates_to_null() {
    assert_eq!(sub::byte_char(200, 'a'), '\u{0}');
}

#[test]
fn max_min_kernels() {
    assert_eq!(max::byte_byte(3, 5), 5);
    assert_eq!(min::byte_byte(3, 5), 3);
    assert_eq!(max::char_char('a', 'z'), 'z');
    assert_eq!(min::char_char('a', 'z'), 'a');
}

#[test]
fn comparison_kernels_compare_second_against_first() {
    assert_eq!(cmp::byte_byte(Comparison::IsLt, 3, 2), 1);
    assert_eq!(cmp::byte_byte(Comparison::IsLt, 2, 3), 0);
    assert_eq!(cmp::byte_byte(Comparison::IsEq, 4, 4), 1);
    assert_eq!(cmp::byte_byte(Comparison::IsGe, 4, 4), 1);
    assert_eq!(cmp::char_char(Comparison::IsGt, 'a', 'b'), 1);
    assert_eq!(cmp::always_greater(Comparison::IsLt), 1);
    assert_eq!(cmp::always_less(Comparison::IsGt), 1);
}

#[test]
fn error_constructors_carry_operands() {
    let env = Uiua::new();
    let err = add::error("1".to_string(), "'a'".to_string(), &env);
    match err {
        UiuaError::TypeMismatch { verb, operands } => {
            assert_eq!(verb, "add");
            assert_eq!(operands, vec!["1".to_string(), "'a'".to_string()]);
        },
        other => panic!("unexpected error: {:?}", other),
    }
}

#[test]
fn generic_pervade_zips_equal_shapes() {
    let env = Uiua::new();
    let f = NatAdd;
    let out = bin_pervade_generic(&[2], vec![1u64, 2], &[2], vec![10u64, 20], &env, &f, 0).unwrap();
    assert_eq!(out.0, vec![2]);
    assert_eq!(out.1, vec![11, 22]);
}

#[test]
fn generic_pervade_broadcasts_scalar() {
    let env = Uiua::new();
    let f = NatAdd;
    let out =
        bin_pervade_generic(&[], Some(5u64), &[3], vec![1u64, 2, 3], &env, &f, 0).unwrap();
    assert_eq!(out.0, vec![3]);
    assert_eq!(out.1, vec![6, 7, 8]);
}

#[test]
fn generic_pervade_recurses_into_chunks() {
    let env = Uiua::new();
    let f = NatAdd;
    let out = bin_pervade_generic(
        &[2],
        vec![100u64, 200],
        &[2, 2],
        vec![1u64, 2, 3, 4],
        &env,
        &f,
        0,
    )
    .unwrap();
    assert_eq!(out.0, vec![2, 2]);
    assert_eq!(out.1, vec![101, 102, 203, 204]);
}

#[test]
fn generic_pervade_rejects_unequal_rows() {
    let env = Uiua::new();
    let f = NatAdd;
    let err = bin_pervade_generic(
        &[2],
        vec![1u64, 2],
        &[3],
        vec![1u64, 2, 3],
        &env,
        &f,
        0,
    )
    .unwrap_err();
    match err {
        UiuaError::ShapeMismatch { a, b, fill_eligible } => {
            assert_eq!(a, vec![2]);
            assert_eq!(b, vec![3]);
            assert!(!fill_eligible);
        },
        other => panic!("unexpected error: {:?}", other),
    }
}

#[test]
fn unary_byte_kernels() {
    assert_eq!(abs::byte(9), 9);
    assert_eq!(sign::byte(9), 1);
    assert_eq!(sign::byte(0), 0);
    assert_eq!(floor::byte(4), 4);
    assert_eq!(ceil::byte(4), 4);
    assert_eq!(round::byte(4), 4);
}

#[test]
fn signature_composition() {
    let a = Signature::new(2, 1);
    let b = Signature::new(1, 1);
    assert!(a.is_compatible_with(Signature::new(3, 2)));
    assert!(!a.is_compatible_with(b));
    assert!(Signature::new(3, 2).is_superset_of(a));
    assert!(a.is_subset_of(Signature::new(3, 2)));
    let m = a.max_with(Signature::new(1, 3));
    assert_eq!((m.args, m.outputs), (2, 3));
    let c = a.compose(b);
    assert_eq!((c.args, c.outputs), (2, 1));
}

#[test]
fn arrayish_views_expose_shape_and_data() {
    let x = Array::<u64> { shape: vec![2, 3], data: vec![1, 2, 3, 4, 5, 6] };
    assert_eq!(<Array<u64> as Arrayish>::rank(&x), 2);
    assert_eq!(<Array<u64> as Arrayish>::flat_len(&x), 6);
    let v = ArrayView { shape: &x.shape, data: &x.data };
    assert_eq!(v.shape(), &[2, 3]);
    assert_eq!(v.data(), &[1, 2, 3, 4, 5, 6]);
    assert!(shape_prefixes_match(&[2, 3], &[2, 3, 4]));
    assert!(shape_prefixes_match(&[], &[9]));
    assert!(!shape_prefixes_match(&[2], &[3]));
}
