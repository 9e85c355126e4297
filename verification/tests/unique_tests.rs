use rsnumpy::array::{ArrayError, NdArray};
use rsnumpy::unique::{unique, unique_axis};

fn arr(data: Vec<i64>, shape: Vec<usize>) -> NdArray<i64> {
    NdArray { data, shape }
}

#[test]
fn unique_sorts_and_drops_repeats() {
    assert_eq!(unique(&vec![3, 1, 3, 2, 1]), vec![1, 2, 3]);
    assert_eq!(unique(&vec![]), Vec::<u64>::new());
}

#[test]
fn unique_rows_sorted_groups() {
    let a = arr(vec![3, 1, 3], vec![3, 1]);
    let u = unique_axis(&a, 0, &vec![1, 0, 2], &vec![false, false, true], true).unwrap();
    assert_eq!(u.values.shape, vec![2, 1]);
    assert_eq!(u.values.data, vec![1, 3]);
    assert_eq!(u.index, vec![1, 0]);
    assert_eq!(u.inverse, vec![1, 0, 1]);
    assert_eq!(u.counts, vec![1, 2]);
}

#[test]
fn unique_rows_first_appearance() {
    let a = arr(vec![3, 1, 3], vec![3, 1]);
    let u = unique_axis(&a, 0, &vec![1, 0, 2], &vec![false, false, true], false).unwrap();
    assert_eq!(u.values.data, vec![3, 1]);
    assert_eq!(u.index, vec![0, 1]);
    assert_eq!(u.inverse, vec![0, 1, 0]);
    assert_eq!(u.counts, vec![2, 1]);
}

#[test]
fn unique_columns() {
    let a = arr(vec![1, 0, 1, 2, 5, 2], vec![2, 3]);
    let u = unique_axis(&a, -1, &vec![1, 0, 2], &vec![false, false, true], true).unwrap();
    assert_eq!(u.values.shape, vec![2, 2]);
    assert_eq!(u.values.data, vec![0, 1, 5, 2]);
    assert_eq!(u.inverse, vec![1, 0, 1]);
}

#[test]
fn unique_axis_refusals() {
    let scalar = arr(vec![7], vec![]);
    assert_eq!(unique_axis(&scalar, 0, &vec![], &vec![], true).err(), Some(ArrayError::InvalidDimension));
    let a = arr(vec![1, 2], vec![1, 2]);
    assert_eq!(unique_axis(&a, 2, &vec![], &vec![], true).err(), Some(ArrayError::AxisOutOfBounds));
}
