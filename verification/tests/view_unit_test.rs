//! Tests for views of arrays: transpose, squeeze, expand and flatten.

use raptors_core::array::{Array, ArrayError};
use raptors_core::indexing::index_array;
use raptors_core::types::{DType, NpyType};

fn long_array(shape: Vec<i64>, values: &[i64]) -> Array {
    let mut array = Array::new(shape, DType::new(NpyType::Long)).unwrap();
    for (k, value) in values.iter().enumerate() {
        array.set(k, *value as u64).unwrap();
    }
    array
}

fn longs(array: &Array) -> Vec<i64> {
    (0..array.size()).map(|k| array.get(k).unwrap() as i64).collect()
}

fn counting(shape: Vec<i64>) -> Array {
    let size: i64 = shape.iter().product();
    long_array(shape, &(0..size).collect::<Vec<i64>>())
}

fn at(array: &Array, index: &[i64]) -> i64 {
    array.read(index_array(array, index).unwrap()).unwrap() as i64
}

#[test]
fn test_transpose_reverses_axes_by_default() {
    let t = counting(vec![2, 3]).transpose(None).unwrap();
    assert_eq!(t.shape(), &[3, 2]);
    assert_eq!(t.strides(), &[8, 24]);
    assert_eq!(t.size(), 6);
    assert_eq!(longs(&t), vec![0, 3, 1, 4, 2, 5]);
}

#[test]
fn test_transpose_moves_each_element_with_its_index() {
    let a = counting(vec![2, 3, 4]);
    let t = a.clone().transpose(Some(&[2, 0, 1])).unwrap();
    assert_eq!(t.shape(), &[4, 2, 3]);
    assert_eq!(t.strides(), &[8, 96, 32]);
    for i in 0..2 {
        for j in 0..3 {
            for k in 0..4 {
                assert_eq!(at(&t, &[k, i, j]), at(&a, &[i, j, k]));
            }
        }
    }
}

#[test]
fn test_transpose_twice_gives_the_array_again() {
    let a = counting(vec![2, 3]);
    let back = a.clone().transpose(None).unwrap().transpose(None).unwrap();
    assert_eq!(back.shape(), a.shape());
    assert_eq!(back.strides(), a.strides());
    assert!(back.is_c_contiguous());
    assert_eq!(longs(&back), longs(&a));
}

#[test]
fn test_transpose_with_identity_keeps_the_array_packed() {
    let t = counting(vec![2, 3]).transpose(Some(&[0, 1])).unwrap();
    assert!(t.is_c_contiguous());
    assert_eq!(longs(&t), vec![0, 1, 2, 3, 4, 5]);
}

#[test]
fn test_transpose_errors() {
    let make = || counting(vec![2, 3]);
    assert_eq!(make().transpose(Some(&[0, 0])).err(), Some(ArrayError::InvalidDimension));
    assert_eq!(make().transpose(Some(&[0, 2])).err(), Some(ArrayError::InvalidDimension));
    assert_eq!(make().transpose(Some(&[0])).err(), Some(ArrayError::InvalidDimension));
    assert_eq!(make().transpose(Some(&[0, 1, 2])).err(), Some(ArrayError::InvalidDimension));
}

#[test]
fn test_transpose_of_scalar_and_vector() {
    let s = long_array(vec![], &[5]).transpose(None).unwrap();
    assert_eq!(s.shape(), &[] as &[i64]);
    assert_eq!(longs(&s), vec![5]);
    let v = counting(vec![4]).transpose(None).unwrap();
    assert_eq!(v.shape(), &[4]);
    assert_eq!(longs(&v), vec![0, 1, 2, 3]);
}

#[test]
fn test_array_squeeze_all_unit_axes() {
    let a = counting(vec![1, 2, 1, 3, 1]);
    let s = a.squeeze(None);
    assert_eq!(s.shape(), &[2, 3]);
    assert_eq!(s.strides(), &[24, 8]);
    assert!(s.is_c_contiguous());
    assert_eq!(longs(&s), vec![0, 1, 2, 3, 4, 5]);
}

#[test]
fn test_array_squeeze_one_axis() {
    let a = counting(vec![1, 2, 1]);
    let first = a.clone().squeeze(Some(0));
    assert_eq!(first.shape(), &[2, 1]);
    let last = a.clone().squeeze(Some(2));
    assert_eq!(last.shape(), &[1, 2]);
    assert_eq!(longs(&last), vec![0, 1]);
    // An axis that is not 1 long, or that is not there, stays.
    assert_eq!(a.clone().squeeze(Some(1)).shape(), &[1, 2, 1]);
    assert_eq!(a.squeeze(Some(9)).shape(), &[1, 2, 1]);
}

#[test]
fn test_squeeze_of_a_transposed_array() {
    let t = counting(vec![2, 1, 3]).transpose(None).unwrap();
    assert_eq!(t.shape(), &[3, 1, 2]);
    let s = t.squeeze(None);
    assert_eq!(s.shape(), &[3, 2]);
    assert_eq!(s.strides(), &[8, 24]);
    assert_eq!(longs(&s), vec![0, 3, 1, 4, 2, 5]);
}

#[test]
fn test_array_expand_dims() {
    let a = counting(vec![2, 3]);
    let front = a.clone().expand_dims(0).unwrap();
    assert_eq!(front.shape(), &[1, 2, 3]);
    assert_eq!(front.strides(), &[48, 24, 8]);
    assert!(front.is_c_contiguous());
    let middle = a.clone().expand_dims(1).unwrap();
    assert_eq!(middle.shape(), &[2, 1, 3]);
    assert_eq!(middle.strides(), &[24, 24, 8]);
    assert!(middle.is_c_contiguous());
    let back = a.clone().expand_dims(2).unwrap();
    assert_eq!(back.shape(), &[2, 3, 1]);
    assert_eq!(back.strides(), &[24, 8, 8]);
    assert!(back.is_c_contiguous());
    for expanded in [&front, &middle, &back] {
        assert_eq!(longs(expanded), vec![0, 1, 2, 3, 4, 5]);
    }
    assert_eq!(a.expand_dims(3).err(), Some(ArrayError::InvalidDimension));
}

#[test]
fn test_expand_then_squeeze_gives_the_array_again() {
    let a = counting(vec![2, 3]);
    for axis in 0..3usize {
        let round = a.clone().expand_dims(axis).unwrap().squeeze(Some(axis));
        assert_eq!(round.shape(), a.shape());
        assert_eq!(round.strides(), a.strides());
        assert_eq!(longs(&round), longs(&a));
    }
}

#[test]
fn test_array_flatten() {
    let f = counting(vec![2, 3]).flatten().unwrap();
    assert_eq!(f.shape(), &[6]);
    assert_eq!(longs(&f), vec![0, 1, 2, 3, 4, 5]);
    let scalar = long_array(vec![], &[7]).flatten().unwrap();
    assert_eq!(scalar.shape(), &[1]);
    assert_eq!(longs(&scalar), vec![7]);
    let none = counting(vec![3, 0]).flatten().unwrap();
    assert_eq!(none.shape(), &[0]);
    let t = counting(vec![2, 3]).transpose(None).unwrap();
    assert_eq!(t.flatten().err(), Some(ArrayError::InvalidShape));
}
