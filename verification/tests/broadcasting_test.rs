//! Tests for broadcasting of shapes and strides.

use raptors_core::broadcasting::{broadcast_all, broadcast_shapes, broadcast_strides};

#[test]
fn test_broadcast_equal_shapes() {
    assert_eq!(broadcast_shapes(&[2, 3], &[2, 3]).unwrap(), vec![2, 3]);
}

#[test]
fn test_broadcast_stretches_ones() {
    assert_eq!(broadcast_shapes(&[3], &[1]).unwrap(), vec![3]);
    assert_eq!(broadcast_shapes(&[4, 1], &[1, 5]).unwrap(), vec![4, 5]);
    assert_eq!(broadcast_shapes(&[8, 1, 6, 1], &[7, 1, 5]).unwrap(), vec![8, 7, 6, 5]);
}

#[test]
fn test_broadcast_pads_shorter_shape_on_the_left() {
    assert_eq!(broadcast_shapes(&[2, 3, 4], &[4]).unwrap(), vec![2, 3, 4]);
    assert_eq!(broadcast_shapes(&[4], &[2, 3, 4]).unwrap(), vec![2, 3, 4]);
    assert_eq!(broadcast_shapes(&[], &[2, 3]).unwrap(), vec![2, 3]);
    assert_eq!(broadcast_shapes(&[], &[]).unwrap(), Vec::<i64>::new());
}

#[test]
fn test_broadcast_with_zero_dimension() {
    assert_eq!(broadcast_shapes(&[0, 3], &[1, 3]).unwrap(), vec![0, 3]);
    assert_eq!(broadcast_shapes(&[1], &[0]).unwrap(), vec![0]);
}

#[test]
fn test_broadcast_incompatible() {
    assert!(broadcast_shapes(&[3], &[4]).is_err());
    assert!(broadcast_shapes(&[2, 3], &[3, 2]).is_err());
    assert!(broadcast_shapes(&[2, 3], &[2]).is_err());
    assert!(broadcast_shapes(&[0], &[2]).is_err());
}

#[test]
fn test_broadcast_is_commutative() {
    let shapes: [&[i64]; 7] = [&[], &[1], &[3], &[4, 1], &[1, 5], &[2, 3, 4], &[0, 1]];
    for a in shapes {
        for b in shapes {
            assert_eq!(broadcast_shapes(a, b).ok(), broadcast_shapes(b, a).ok());
        }
    }
}

#[test]
fn test_broadcast_all_folds_left_to_right() {
    let shapes = vec![vec![4, 1], vec![1, 5], vec![3, 1, 1]];
    assert_eq!(broadcast_all(&shapes).unwrap(), vec![3, 4, 5]);
    assert_eq!(broadcast_all(&[vec![2, 3]]).unwrap(), vec![2, 3]);
    assert_eq!(broadcast_all(&[]).unwrap(), Vec::<i64>::new());
    assert!(broadcast_all(&[vec![2], vec![1], vec![3]]).is_err());
}

#[test]
fn test_broadcast_strides_zero_on_stretched_axes() {
    // A [3] operand walked over [2, 3]: the axis it lacks gets stride 0.
    assert_eq!(broadcast_strides(&[3], &[8], &[2, 3]).unwrap(), vec![0, 8]);
    // A [1] operand walked over [3]: its one element is read three times.
    assert_eq!(broadcast_strides(&[1], &[8], &[3]).unwrap(), vec![0]);
    // A [4, 1] operand over [4, 5].
    assert_eq!(broadcast_strides(&[4, 1], &[8, 8], &[4, 5]).unwrap(), vec![8, 0]);
    // Nothing stretched: the strides stay.
    assert_eq!(broadcast_strides(&[2, 3], &[24, 8], &[2, 3]).unwrap(), vec![24, 8]);
}

#[test]
fn test_broadcast_strides_keeps_stride_where_both_are_one() {
    assert_eq!(broadcast_strides(&[1, 3], &[24, 8], &[1, 3]).unwrap(), vec![24, 8]);
}

#[test]
fn test_broadcast_strides_rejects_what_cannot_stretch() {
    assert!(broadcast_strides(&[3], &[8], &[4]).is_err());
    assert!(broadcast_strides(&[2, 3], &[24, 8], &[3]).is_err());
    assert!(broadcast_strides(&[3], &[8, 8], &[3]).is_err());
}
