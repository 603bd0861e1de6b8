//! The monadic shape algorithms, exercised on concrete arrays.

use uiua::array::Array;
use uiua::monadic::range;
use uiua::{Uiua, UiuaError};

fn nat_array(shape: Vec<usize>, data: Vec<u64>) -> Array<u64> {
    Array { shape, data }
}

#[test]
fn deshape_flattens_to_rank_one() {
    let mut x = nat_array(vec![2, 3], vec![1, 2, 3, 4, 5, 6]);
    x.deshape();
    assert_eq!(x.shape, vec![6]);
    assert_eq!(x.data, vec![1, 2, 3, 4, 5, 6]);
}

#[test]
fn deshape_scalar() {
    let mut x = nat_array(vec![], vec![7]);
    x.deshape();
    assert_eq!(x.shape, vec![1]);
    assert_eq!(x.data, vec![7]);
}

#[test]
fn range_of_two_by_three() {
    let env = Uiua::new();
    let out = range(&[2, 3], &env).unwrap();
    assert_eq!(out.shape, vec![2, 3, 2]);
    assert_eq!(out.data, vec![0, 0, 0, 1, 0, 2, 1, 0, 1, 1, 1, 2]);
}

#[test]
fn range_of_single_number() {
    let env = Uiua::new();
    let out = range(&[4], &env).unwrap();
    assert_eq!(out.shape, vec![4]);
    assert_eq!(out.data, vec![0, 1, 2, 3]);
}

#[test]
fn range_of_empty_shape_is_scalar_zero() {
    let env = Uiua::new();
    let out = range(&[], &env).unwrap();
    assert_eq!(out.shape, Vec::<usize>::new());
    assert_eq!(out.data, vec![0]);
}

#[test]
fn range_with_zero_dimension_is_empty() {
    let env = Uiua::new();
    let out = range(&[0, 3], &env).unwrap();
    assert_eq!(out.shape, vec![0, 3, 2]);
    assert_eq!(out.data, Vec::<u64>::new());
}

#[test]
fn range_too_large_fails() {
    let env = Uiua::new();
    let err = range(&[usize::MAX, 2], &env).unwrap_err();
    match err {
        UiuaError::RangeOverflow { shape } => assert_eq!(shape, vec![usize::MAX, 2]),
        other => panic!("unexpected error: {:?}", other),
    }
}

#[test]
fn first_takes_the_first_row() {
    let env = Uiua::new();
    let x = nat_array(vec![2, 2], vec![1, 2, 3, 4]);
    let out = x.first(&env).unwrap();
    assert_eq!(out.shape, vec![2]);
    assert_eq!(out.data, vec![1, 2]);
}

#[test]
fn last_takes_the_last_row() {
    let env = Uiua::new();
    let x = nat_array(vec![2, 2], vec![1, 2, 3, 4]);
    let out = x.last(&env).unwrap();
    assert_eq!(out.shape, vec![2]);
    assert_eq!(out.data, vec![3, 4]);
}

#[test]
fn first_of_scalar_fails() {
    let env = Uiua::new();
    let x = nat_array(vec![], vec![1]);
    let err = x.first(&env).unwrap_err();
    assert!(matches!(err, UiuaError::DomainError { .. }));
}

#[test]
fn first_of_empty_fails() {
    let env = Uiua::new();
    let x = nat_array(vec![0], vec![]);
    let err = x.first(&env).unwrap_err();
    assert!(matches!(err, UiuaError::DomainError { .. }));
}

#[test]
fn last_of_scalar_fails() {
    let env = Uiua::new();
    let x = nat_array(vec![], vec![1]);
    assert!(x.last(&env).is_err());
}

#[test]
fn reverse_reverses_rows() {
    let mut x = nat_array(vec![3], vec![1, 2, 3]);
    x.reverse();
    assert_eq!(x.data, vec![3, 2, 1]);
    let mut y = nat_array(vec![2, 2], vec![1, 2, 3, 4]);
    y.reverse();
    assert_eq!(y.shape, vec![2, 2]);
    assert_eq!(y.data, vec![3, 4, 1, 2]);
}

#[test]
fn reverse_twice_restores() {
    let mut x = nat_array(vec![3, 2], vec![5, 6, 1, 2, 9, 0]);
    x.reverse();
    x.reverse();
    assert_eq!(x.data, vec![5, 6, 1, 2, 9, 0]);
}

#[test]
fn reverse_of_scalar_is_untouched() {
    let mut x = nat_array(vec![], vec![9]);
    x.reverse();
    assert_eq!(x.data, vec![9]);
}

#[test]
fn transpose_swaps_axes() {
    let mut x = nat_array(vec![2, 3], vec![1, 2, 3, 4, 5, 6]);
    x.transpose();
    assert_eq!(x.shape, vec![3, 2]);
    assert_eq!(x.data, vec![1, 4, 2, 5, 3, 6]);
}

#[test]
fn transpose_then_inverse_restores() {
    let mut x = nat_array(vec![2, 3], vec![1, 2, 3, 4, 5, 6]);
    x.transpose();
    x.inv_transpose();
    assert_eq!(x.shape, vec![2, 3]);
    assert_eq!(x.data, vec![1, 2, 3, 4, 5, 6]);
}

#[test]
fn transpose_of_rank_one_is_untouched() {
    let mut x = nat_array(vec![3], vec![1, 2, 3]);
    x.transpose();
    assert_eq!(x.shape, vec![3]);
    assert_eq!(x.data, vec![1, 2, 3]);
}

#[test]
fn transpose_rotates_shape_of_empty_array() {
    let mut x = nat_array(vec![0, 3], vec![]);
    x.transpose();
    assert_eq!(x.shape, vec![3, 0]);
    assert_eq!(x.data, Vec::<u64>::new());
}

#[test]
fn rise_sorts_ascending() {
    let env = Uiua::new();
    let x = nat_array(vec![3], vec![3, 1, 2]);
    let p = x.rise(&env).unwrap();
    assert_eq!(p, vec![1, 2, 0]);
}

#[test]
fn fall_sorts_descending() {
    let env = Uiua::new();
    let x = nat_array(vec![3], vec![3, 1, 2]);
    let p = x.fall(&env).unwrap();
    assert_eq!(p, vec![0, 2, 1]);
}

#[test]
fn rise_of_rows_uses_lexicographic_order() {
    let env = Uiua::new();
    let x = nat_array(vec![3, 2], vec![2, 9, 1, 5, 2, 3]);
    let p = x.rise(&env).unwrap();
    assert_eq!(p, vec![1, 2, 0]);
}

#[test]
fn rise_of_scalar_fails() {
    let env = Uiua::new();
    let x = nat_array(vec![], vec![1]);
    assert!(x.rise(&env).is_err());
    assert!(x.fall(&env).is_err());
}

#[test]
fn rise_of_empty_is_empty() {
    let env = Uiua::new();
    let x = nat_array(vec![0], vec![]);
    assert_eq!(x.rise(&env).unwrap(), Vec::<usize>::new());
}

#[test]
fn classify_assigns_first_seen_classes() {
    let env = Uiua::new();
    let x = nat_array(vec![5], vec![1, 2, 1, 3, 2]);
    let classes = x.classify(&env).unwrap();
    assert_eq!(classes, vec![0, 1, 0, 2, 1]);
}

#[test]
fn classify_of_rows() {
    let env = Uiua::new();
    let x = nat_array(vec![3, 2], vec![4, 4, 7, 7, 4, 4]);
    let classes = x.classify(&env).unwrap();
    assert_eq!(classes, vec![0, 1, 0]);
}

#[test]
fn classify_of_scalar_fails() {
    let env = Uiua::new();
    let x = nat_array(vec![], vec![1]);
    assert!(x.classify(&env).is_err());
}

#[test]
fn deduplicate_keeps_first_occurrences() {
    let mut x = nat_array(vec![5], vec![1, 2, 1, 3, 2]);
    x.deduplicate();
    assert_eq!(x.shape, vec![3]);
    assert_eq!(x.data, vec![1, 2, 3]);
}

#[test]
fn deduplicate_of_rows() {
    let mut x = nat_array(vec![3, 2], vec![4, 4, 7, 7, 4, 4]);
    x.deduplicate();
    assert_eq!(x.shape, vec![2, 2]);
    assert_eq!(x.data, vec![4, 4, 7, 7]);
}

#[test]
fn deduplicate_of_scalar_is_untouched() {
    let mut x = nat_array(vec![], vec![6]);
    x.deduplicate();
    assert_eq!(x.shape, Vec::<usize>::new());
    assert_eq!(x.data, vec![6]);
}

#[test]
fn bits_of_five() {
    let env = Uiua::new();
    let x = nat_array(vec![1], vec![5]);
    let out = x.bits(&env);
    assert_eq!(out.shape, vec![1, 3]);
    assert_eq!(out.data, vec![1, 0, 1]);
    let back = out.inverse_bits(&env).unwrap();
    assert_eq!(back.shape, vec![1]);
    assert_eq!(back.data, vec![5]);
}

#[test]
fn bits_round_trip_over_rows() {
    let env = Uiua::new();
    let x = nat_array(vec![2, 2], vec![3, 0, 7, 1]);
    let packed = x.bits(&env);
    assert_eq!(packed.shape, vec![2, 2, 3]);
    let back = packed.inverse_bits(&env).unwrap();
    assert_eq!(back.shape, vec![2, 2]);
    assert_eq!(back.data, vec![3, 0, 7, 1]);
}

#[test]
fn bits_of_empty_appends_zero_axis() {
    let env = Uiua::new();
    let x = nat_array(vec![0], vec![]);
    let out = x.bits(&env);
    assert_eq!(out.shape, vec![0, 0]);
    assert_eq!(out.data, Vec::<u8>::new());
    let back = out.inverse_bits(&env).unwrap();
    assert_eq!(back.shape, vec![0]);
}

#[test]
fn bits_of_zeros_round_trips() {
    let env = Uiua::new();
    let x = nat_array(vec![2], vec![0, 0]);
    let out = x.bits(&env);
    assert_eq!(out.shape, vec![2, 0]);
    let back = out.inverse_bits(&env).unwrap();
    assert_eq!(back.shape, vec![2]);
    assert_eq!(back.data, vec![0, 0]);
}

#[test]
fn inverse_bits_of_scalar_bit() {
    let env = Uiua::new();
    let x = Array::<u8> { shape: vec![], data: vec![1] };
    let out = x.inverse_bits(&env).unwrap();
    assert_eq!(out.shape, Vec::<usize>::new());
    assert_eq!(out.data, vec![1]);
}

#[test]
fn inverse_bits_rejects_non_booleans() {
    let env = Uiua::new();
    let x = Array::<u8> { shape: vec![3], data: vec![1, 2, 0] };
    let err = x.inverse_bits(&env).unwrap_err();
    match err {
        UiuaError::DomainError { message } => {
            assert_eq!(message, "Array must be a list of booleans")
        },
        other => panic!("unexpected error: {:?}", other),
    }
}

#[test]
fn classify_collected_by_class_matches_deduplicate() {
    let env = Uiua::new();
    let x = nat_array(vec![5, 1], vec![4, 7, 4, 2, 7]);
    let classes = x.classify(&env).unwrap();
    let mut deduped = nat_array(vec![5, 1], vec![4, 7, 4, 2, 7]);
    deduped.deduplicate();
    // The first row of each class, in class order, is the deduplicated row.
    for c in 0..deduped.shape[0] {
        let first_row_of_class = classes.iter().position(|&k| k == c).unwrap();
        assert_eq!(x.data[first_row_of_class], deduped.data[c]);
    }
}
