//! Tests for reductions.

use raptors_core::array::{Array, ArrayError};
use raptors_core::types::{DType, NpyType};
use raptors_core::ufunc::reduction::{
    greatest_bits, least_bits, max_along_axis, mean_along_axis, min_along_axis, reduce_loop,
    sum_along_axis,
};
use raptors_core::zeros;

fn long_array(shape: Vec<i64>, values: &[i64]) -> Array {
    let mut array = Array::new(shape, DType::new(NpyType::Long)).unwrap();
    for (k, value) in values.iter().enumerate() {
        array.set(k, *value as u64).unwrap();
    }
    array
}

fn longs(array: &Array) -> Vec<i64> {
    (0..array.size()).map(|k| array.get(k).unwrap() as i64).collect()
}

fn byte_array(shape: Vec<i64>, values: &[i8]) -> Array {
    let mut array = Array::new(shape, DType::new(NpyType::Byte)).unwrap();
    for (k, value) in values.iter().enumerate() {
        array.set(k, *value as u8 as u64).unwrap();
    }
    array
}

fn bytes(array: &Array) -> Vec<i8> {
    (0..array.size()).map(|k| array.get(k).unwrap() as u8 as i8).collect()
}

fn double_array(shape: Vec<i64>, values: &[f64]) -> Array {
    let mut array = Array::new(shape, DType::new(NpyType::Double)).unwrap();
    for (k, value) in values.iter().enumerate() {
        array.set(k, value.to_bits()).unwrap();
    }
    array
}

fn doubles(array: &Array) -> Vec<f64> {
    (0..array.size()).map(|k| f64::from_bits(array.get(k).unwrap())).collect()
}

#[test]
fn test_sum_of_all_elements_is_a_scalar() {
    let a = long_array(vec![2, 3], &[1, 2, 3, 4, 5, 6]);
    let sum = sum_along_axis(&a, None).unwrap();
    assert_eq!(sum.shape(), &[] as &[i64]);
    assert_eq!(sum.ndim(), 0);
    assert_eq!(sum.size(), 1);
    assert_eq!(longs(&sum), vec![21]);
}

#[test]
fn test_sum_along_each_axis() {
    let a = long_array(vec![2, 3], &[1, 2, 3, 4, 5, 6]);
    let rows = sum_along_axis(&a, Some(0)).unwrap();
    assert_eq!(rows.shape(), &[3]);
    assert_eq!(longs(&rows), vec![5, 7, 9]);
    let columns = sum_along_axis(&a, Some(1)).unwrap();
    assert_eq!(columns.shape(), &[2]);
    assert_eq!(longs(&columns), vec![6, 15]);
}

#[test]
fn test_sum_along_middle_axis() {
    let values: Vec<i64> = (0..24).collect();
    let a = long_array(vec![2, 3, 4], &values);
    let middle = sum_along_axis(&a, Some(1)).unwrap();
    assert_eq!(middle.shape(), &[2, 4]);
    assert_eq!(longs(&middle), vec![12, 15, 18, 21, 48, 51, 54, 57]);
    let first = sum_along_axis(&a, Some(0)).unwrap();
    assert_eq!(first.shape(), &[3, 4]);
    assert_eq!(longs(&first), vec![12, 14, 16, 18, 20, 22, 24, 26, 28, 30, 32, 34]);
    let last = sum_along_axis(&a, Some(2)).unwrap();
    assert_eq!(last.shape(), &[2, 3]);
    assert_eq!(longs(&last), vec![6, 22, 38, 54, 70, 86]);
}

#[test]
fn test_sum_of_zeros_is_zero() {
    for n in [1i64, 2, 7, 100] {
        let z = zeros(vec![n], DType::new(NpyType::Long)).unwrap();
        assert_eq!(longs(&sum_along_axis(&z, None).unwrap()), vec![0]);
        assert_eq!(longs(&sum_along_axis(&z, Some(0)).unwrap()), vec![0]);
    }
}

#[test]
fn test_sum_wraps_at_width() {
    let a = byte_array(vec![3], &[100, 100, 100]);
    assert_eq!(bytes(&sum_along_axis(&a, None).unwrap()), vec![44]);
}

#[test]
fn test_mean_of_one_two_three_is_two() {
    let a = long_array(vec![3], &[1, 2, 3]);
    assert_eq!(longs(&mean_along_axis(&a, None).unwrap()), vec![2]);
    assert_eq!(longs(&mean_along_axis(&a, Some(0)).unwrap()), vec![2]);
}

#[test]
fn test_mean_rounds_down() {
    let a = long_array(vec![2], &[1, 2]);
    assert_eq!(longs(&mean_along_axis(&a, None).unwrap()), vec![1]);
    let b = long_array(vec![2], &[-1, -2]);
    assert_eq!(longs(&mean_along_axis(&b, None).unwrap()), vec![-2]);
    let c = long_array(vec![3], &[-3, -3, -3]);
    assert_eq!(longs(&mean_along_axis(&c, None).unwrap()), vec![-3]);
    let d = long_array(vec![4], &[-1, 0, 0, 0]);
    assert_eq!(longs(&mean_along_axis(&d, None).unwrap()), vec![-1]);
}

#[test]
fn test_mean_uses_the_exact_sum() {
    // The sum does not fit the elements; the mean does.
    let a = byte_array(vec![3], &[100, 100, 101]);
    assert_eq!(bytes(&mean_along_axis(&a, None).unwrap()), vec![100]);
    let b = long_array(vec![2], &[i64::MAX, i64::MAX]);
    assert_eq!(longs(&mean_along_axis(&b, None).unwrap()), vec![i64::MAX]);
    let c = long_array(vec![2], &[i64::MIN, i64::MIN]);
    assert_eq!(longs(&mean_along_axis(&c, None).unwrap()), vec![i64::MIN]);
}

#[test]
fn test_mean_along_axis() {
    let a = long_array(vec![2, 3], &[1, 2, 3, 5, 7, 9]);
    assert_eq!(longs(&mean_along_axis(&a, Some(0)).unwrap()), vec![3, 4, 6]);
    assert_eq!(longs(&mean_along_axis(&a, Some(1)).unwrap()), vec![2, 7]);
}

#[test]
fn test_min_and_max() {
    let a = long_array(vec![2, 3], &[3, -1, 4, 1, -5, 9]);
    assert_eq!(longs(&min_along_axis(&a, None).unwrap()), vec![-5]);
    assert_eq!(longs(&max_along_axis(&a, None).unwrap()), vec![9]);
    assert_eq!(longs(&min_along_axis(&a, Some(0)).unwrap()), vec![1, -5, 4]);
    assert_eq!(longs(&max_along_axis(&a, Some(0)).unwrap()), vec![3, -1, 9]);
    assert_eq!(longs(&min_along_axis(&a, Some(1)).unwrap()), vec![-1, -5]);
    assert_eq!(longs(&max_along_axis(&a, Some(1)).unwrap()), vec![4, 9]);
}

#[test]
fn test_min_and_max_of_doubles() {
    let a = double_array(vec![5], &[2.5, -0.5, 1e300, -1e300, 0.0]);
    assert_eq!(doubles(&min_along_axis(&a, None).unwrap()), vec![-1e300]);
    assert_eq!(doubles(&max_along_axis(&a, None).unwrap()), vec![1e300]);
    let with_infinities = double_array(vec![3], &[f64::INFINITY, 1.0, f64::NEG_INFINITY]);
    assert_eq!(doubles(&min_along_axis(&with_infinities, None).unwrap()), vec![f64::NEG_INFINITY]);
    assert_eq!(doubles(&max_along_axis(&with_infinities, None).unwrap()), vec![f64::INFINITY]);
}

#[test]
fn test_min_and_max_propagate_nan() {
    let a = double_array(vec![3], &[1.0, f64::NAN, -1.0]);
    assert!(doubles(&min_along_axis(&a, None).unwrap())[0].is_nan());
    assert!(doubles(&max_along_axis(&a, None).unwrap())[0].is_nan());
}

#[test]
fn test_least_and_greatest_kernels() {
    assert_eq!(least_bits(NpyType::Byte, 200, 100), 200);
    assert_eq!(greatest_bits(NpyType::Byte, 200, 100), 100);
    assert_eq!(least_bits(NpyType::String, 200, 100), 100);
    assert_eq!(least_bits(NpyType::Long, 5, 5), 5);
    let one = 1.0f64.to_bits();
    let minus = (-1.0f64).to_bits();
    assert_eq!(least_bits(NpyType::Double, one, minus), minus);
    assert_eq!(greatest_bits(NpyType::Double, one, minus), one);
}

#[test]
fn test_reduction_over_empty_axis_is_an_error() {
    let empty = long_array(vec![0], &[]);
    assert_eq!(sum_along_axis(&empty, None).err(), Some(ArrayError::InvalidShape));
    assert_eq!(sum_along_axis(&empty, Some(0)).err(), Some(ArrayError::InvalidShape));
    assert_eq!(mean_along_axis(&empty, None).err(), Some(ArrayError::InvalidShape));
    assert_eq!(mean_along_axis(&empty, Some(0)).err(), Some(ArrayError::InvalidShape));
    assert_eq!(min_along_axis(&empty, None).err(), Some(ArrayError::InvalidShape));
    assert_eq!(max_along_axis(&empty, Some(0)).err(), Some(ArrayError::InvalidShape));
    let wide = long_array(vec![3, 0], &[]);
    assert_eq!(sum_along_axis(&wide, Some(1)).err(), Some(ArrayError::InvalidShape));
}

#[test]
fn test_reduction_along_axis_of_empty_array_with_full_lanes() {
    // No lanes at all, each of them three long: an empty result.
    let a = long_array(vec![3, 0], &[]);
    let out = sum_along_axis(&a, Some(0)).unwrap();
    assert_eq!(out.shape(), &[0]);
    assert_eq!(out.size(), 0);
}

#[test]
fn test_reduction_axis_out_of_range() {
    let a = long_array(vec![2, 3], &[1, 2, 3, 4, 5, 6]);
    assert_eq!(sum_along_axis(&a, Some(2)).err(), Some(ArrayError::InvalidDimension));
    assert_eq!(mean_along_axis(&a, Some(5)).err(), Some(ArrayError::InvalidDimension));
    assert_eq!(min_along_axis(&a, Some(2)).err(), Some(ArrayError::InvalidDimension));
    assert_eq!(max_along_axis(&a, Some(usize::MAX)).err(), Some(ArrayError::InvalidDimension));
}

#[test]
fn test_sum_and_mean_type_mismatch() {
    let d = double_array(vec![2], &[1.0, 2.0]);
    assert_eq!(sum_along_axis(&d, None).err(), Some(ArrayError::TypeMismatch));
    assert_eq!(mean_along_axis(&d, None).err(), Some(ArrayError::TypeMismatch));
    let b = Array::new(vec![2], DType::new(NpyType::Bool)).unwrap();
    assert_eq!(sum_along_axis(&b, Some(0)).err(), Some(ArrayError::TypeMismatch));
}

#[test]
fn test_reduce_loop_with_a_floating_point_kernel() {
    let a = double_array(vec![2, 3], &[1.0, 2.0, 3.0, 4.0, 5.0, 6.5]);
    let add = |acc: u64, x: u64| (f64::from_bits(acc) + f64::from_bits(x)).to_bits();
    assert_eq!(doubles(&reduce_loop(&a, None, add).unwrap()), vec![21.5]);
    assert_eq!(doubles(&reduce_loop(&a, Some(0), add).unwrap()), vec![5.0, 7.0, 9.5]);
    assert_eq!(doubles(&reduce_loop(&a, Some(1), add).unwrap()), vec![6.0, 15.5]);
}

#[test]
fn test_reduce_loop_folds_in_lane_order() {
    let a = long_array(vec![4], &[1, 2, 3, 4]);
    // A kernel that is not commutative: 10 * acc + x.
    let out = reduce_loop(&a, None, |acc, x| acc * 10 + x).unwrap();
    assert_eq!(longs(&out), vec![1234]);
}
