use rsnumpy::array::{roll, ArrayError, NdArray};
use rsnumpy::joining::{column_stack, concatenate, hstack, stack, vstack};
use rsnumpy::manipulation::{compress, delete_rs, flip};
use rsnumpy::moving::moveaxis;
use rsnumpy::permute::{swapaxes, transpose, transpose_axes};
use rsnumpy::reshaping::{flatten_full, resize_rs, rot90, tile};
use rsnumpy::shapes::{atleast_1d, atleast_2d, atleast_3d, axis_reduce_layout, broadcast_shapes, expand_dims};
use rsnumpy::splitting::{split_rs, SplitSpec};

fn arr<T>(data: Vec<T>, shape: Vec<usize>) -> NdArray<T> {
    NdArray { data, shape }
}

fn two_by_three() -> NdArray<i64> {
    arr(vec![1, 2, 3, 4, 5, 6], vec![2, 3])
}

#[test]
fn flatten_keeps_c_order() {
    let f = two_by_three().flatten();
    assert_eq!(f.data, vec![1, 2, 3, 4, 5, 6]);
    assert_eq!(f.shape, vec![6]);
}

#[test]
fn squeeze_drops_unit_dimensions() {
    let s = arr(vec![1, 2, 3], vec![1, 3, 1]).squeeze().unwrap();
    assert_eq!(s.shape, vec![3]);
    assert_eq!(s.data, vec![1, 2, 3]);
}

#[test]
fn expand_dims_front_and_back() {
    assert_eq!(expand_dims(&two_by_three(), 0).shape, vec![1, 2, 3]);
    assert_eq!(expand_dims(&two_by_three(), -1).shape, vec![2, 3, 1]);
}

#[test]
fn atleast_shapes() {
    let scalar = arr(vec![5], vec![]);
    assert_eq!(atleast_1d(&scalar).shape, vec![1]);
    assert_eq!(atleast_2d(&scalar).shape, vec![1, 1]);
    let v = arr(vec![1, 2, 3], vec![3]);
    assert_eq!(atleast_2d(&v).shape, vec![1, 3]);
    assert_eq!(atleast_3d(&v).shape, vec![1, 3, 1]);
    assert_eq!(atleast_3d(&two_by_three()).shape, vec![2, 3, 1]);
}

#[test]
fn broadcast_shapes_rules() {
    assert_eq!(broadcast_shapes(&vec![2, 1], &vec![3]), Some(vec![2, 3]));
    assert_eq!(broadcast_shapes(&vec![2], &vec![3]), None);
    assert_eq!(broadcast_shapes(&vec![], &vec![4, 5]), Some(vec![4, 5]));
}

#[test]
fn axis_reduce_layout_geometry() {
    let (pre, n, post, shape) = axis_reduce_layout(&vec![2, 3, 4], Some(1), false).unwrap();
    assert_eq!((pre, n, post), (2, 3, 4));
    assert_eq!(shape, vec![2, 4]);
    let (_, _, _, kept) = axis_reduce_layout(&vec![2, 3, 4], Some(-1), true).unwrap();
    assert_eq!(kept, vec![2, 3, 1]);
    let (pre, n, post, all) = axis_reduce_layout(&vec![2, 3], None, false).unwrap();
    assert_eq!((pre, n, post), (1, 6, 1));
    assert!(all.is_empty());
    assert_eq!(axis_reduce_layout(&vec![2, 3], Some(2), false).err(), Some(ArrayError::AxisOutOfBounds));
}

#[test]
fn repeat_elements_and_axis() {
    let a = two_by_three();
    assert_eq!(a.repeat(2, None).data, vec![1, 1, 2, 2, 3, 3, 4, 4, 5, 5, 6, 6]);
    let r = a.repeat(2, Some(0));
    assert_eq!(r.shape, vec![4, 3]);
    assert_eq!(r.data, vec![1, 2, 3, 4, 5, 6, 1, 2, 3, 4, 5, 6]);
}

#[test]
fn take_along_axis_and_flat() {
    let a = two_by_three();
    let t = a.take(&vec![0, 2], Some(1), 0).unwrap();
    assert_eq!(t.shape, vec![2, 2]);
    assert_eq!(t.data, vec![1, 3, 4, 6]);
    let flat = a.take(&vec![5, -1, 9], None, 0).unwrap();
    assert_eq!(flat.data, vec![6, 1, 0]);
}

#[test]
fn reshape_infers_and_refuses() {
    let a = two_by_three();
    let r = a.reshape(&vec![3, -1]).unwrap();
    assert_eq!(r.shape, vec![3, 2]);
    assert_eq!(r.data, a.data);
    assert_eq!(a.reshape(&vec![-1, -1]).err(), Some(ArrayError::MultipleUnknownDimensions));
    assert_eq!(a.reshape(&vec![4, 2]).err(), Some(ArrayError::ShapeMismatch));
    assert_eq!(a.reshape(&vec![0, 6]).err(), Some(ArrayError::InvalidDimension));
}

#[test]
fn put_writes_cyclically_and_skips_outside() {
    let mut a = two_by_three();
    a.put(&vec![0, -1, 7], &vec![9, 8]);
    assert_eq!(a.data, vec![9, 2, 3, 4, 5, 8]);
}

#[test]
fn resize_in_place_truncates_and_repeats() {
    let mut a = two_by_three();
    a.resize(&vec![4]);
    assert_eq!(a.data, vec![1, 2, 3, 4]);
    let mut b = two_by_three();
    b.resize(&vec![2, 4]);
    assert_eq!(b.data, vec![1, 2, 3, 4, 5, 6, 1, 2]);
    assert_eq!(b.shape, vec![2, 4]);
}

#[test]
fn transpose_and_swapaxes_agree() {
    let a = two_by_three();
    let t = transpose(&a);
    assert_eq!(t.shape, vec![3, 2]);
    assert_eq!(t.data, vec![1, 4, 2, 5, 3, 6]);
    let s = swapaxes(&a, 0, 1).unwrap();
    assert_eq!(s.data, t.data);
    let p = transpose_axes(&a, Some(&vec![-1, 0])).unwrap();
    assert_eq!(p.data, t.data);
    assert_eq!(transpose_axes(&a, Some(&vec![0])).err(), Some(ArrayError::ShapeMismatch));
}

#[test]
fn moveaxis_first_to_last() {
    let x = arr((0..24).collect::<Vec<i64>>(), vec![2, 3, 4]);
    let m = moveaxis(&x, &vec![0], &vec![-1]).unwrap();
    assert_eq!(m.shape, vec![3, 4, 2]);
    assert_eq!(m.data[1], 12);
    assert_eq!(m.data[2], 1);
    assert_eq!(m.data[23], 23);
}

#[test]
fn moveaxis_errors() {
    let x = arr((0..24).collect::<Vec<i64>>(), vec![2, 3, 4]);
    assert_eq!(moveaxis(&x, &vec![0, 1], &vec![2]).err(), Some(ArrayError::InvalidArgument));
    assert_eq!(moveaxis(&x, &vec![3], &vec![0]).err(), Some(ArrayError::AxisOutOfBounds));
    assert_eq!(moveaxis(&x, &vec![0], &vec![3]).err(), Some(ArrayError::AxisOutOfBounds));
}

#[test]
fn moveaxis_keeps_every_axis() {
    let x = arr((0..24).collect::<Vec<i64>>(), vec![2, 3, 4]);
    let m = moveaxis(&x, &vec![0, 2], &vec![1, 0]).unwrap();
    let mut dims = m.shape.clone();
    dims.sort();
    assert_eq!(dims, vec![2, 3, 4]);
    assert_eq!(m.shape, vec![4, 3, 2]);
}

#[test]
fn flip_all_and_axis() {
    let a = two_by_three();
    assert_eq!(flip(&a, None).data, vec![6, 5, 4, 3, 2, 1]);
    assert_eq!(flip(&a, Some(1)).data, vec![3, 2, 1, 6, 5, 4]);
    assert_eq!(flip(&a, Some(5)).data, a.data);
}

#[test]
fn compress_rows_and_flat() {
    let a = two_by_three();
    let c = compress(&vec![false, true], &a, Some(0));
    assert_eq!(c.shape, vec![1, 3]);
    assert_eq!(c.data, vec![4, 5, 6]);
    let f = compress(&vec![true, false, true], &a, None);
    assert_eq!(f.data, vec![1, 3]);
    assert_eq!(f.shape, vec![2]);
}

#[test]
fn delete_positions() {
    let a = two_by_three();
    let d = delete_rs(&a, &vec![1], Some(1));
    assert_eq!(d.shape, vec![2, 2]);
    assert_eq!(d.data, vec![1, 3, 4, 6]);
    assert_eq!(delete_rs(&a, &vec![0, -1], None).data, vec![2, 3, 4, 5]);
    assert_eq!(delete_rs(&a, &vec![10], None).data, vec![1, 2, 3, 4, 5]);
}

#[test]
fn roll_defaults_to_first_axis() {
    let a = two_by_three();
    assert_eq!(roll(&a, 1, None).data, vec![4, 5, 6, 1, 2, 3]);
    assert_eq!(roll(&a, 1, Some(1)).data, vec![3, 1, 2, 6, 4, 5]);
    assert_eq!(roll(&a, -1, Some(-1)).data, vec![2, 3, 1, 5, 6, 4]);
}

#[test]
fn tile_repeats_axes() {
    let v = arr(vec![1, 2], vec![2]);
    assert_eq!(tile(&v, &vec![2]).data, vec![1, 2, 1, 2]);
    let t = tile(&v, &vec![2, 2]);
    assert_eq!(t.shape, vec![2, 4]);
    assert_eq!(t.data, vec![1, 2, 1, 2, 1, 2, 1, 2]);
    assert_eq!(tile(&v, &vec![0]).data, vec![1, 2]);
}

#[test]
fn rot90_quarter_turn() {
    let r = rot90(&two_by_three(), 1, 0, 1).unwrap();
    assert_eq!(r.shape, vec![3, 2]);
    assert_eq!(r.data, vec![4, 1, 5, 2, 6, 3]);
    let back = rot90(&r, -1, 0, 1).unwrap();
    assert_eq!(back.data, two_by_three().data);
    let half = rot90(&two_by_three(), 2, 0, 1).unwrap();
    assert_eq!(half.data, vec![6, 5, 4, 3, 2, 1]);
}

#[test]
fn rot90_errors() {
    let v = arr(vec![1, 2], vec![2]);
    assert_eq!(rot90(&v, 1, 0, 1).err(), Some(ArrayError::TooFewDimensions));
    assert_eq!(rot90(&two_by_three(), 1, 0, 2).err(), Some(ArrayError::AxisOutOfBounds));
    assert_eq!(rot90(&two_by_three(), 1, 1, 1).err(), Some(ArrayError::SameAxis));
}

#[test]
fn resize_copy_cycles() {
    let r = resize_rs(&two_by_three(), &vec![3, 3]).unwrap();
    assert_eq!(r.data, vec![1, 2, 3, 4, 5, 6, 1, 2, 3]);
    let empty: NdArray<i64> = arr(vec![], vec![0]);
    assert_eq!(resize_rs(&empty, &vec![2]).err(), Some(ArrayError::ShapeMismatch));
    assert_eq!(resize_rs(&empty, &vec![0, 3]).unwrap().data.len(), 0);
}

#[test]
fn flatten_fortran_order() {
    assert_eq!(flatten_full(&two_by_three(), true).data, vec![1, 4, 2, 5, 3, 6]);
    assert_eq!(flatten_full(&two_by_three(), false).data, vec![1, 2, 3, 4, 5, 6]);
}

#[test]
fn split_into_sections_and_at_indices() {
    let x = arr((0..6).collect::<Vec<i64>>(), vec![6]);
    let parts = split_rs(&x, &SplitSpec::Sections(3), 0).unwrap();
    let datas: Vec<Vec<i64>> = parts.iter().map(|p| p.data.clone()).collect();
    assert_eq!(datas, vec![vec![0, 1], vec![2, 3], vec![4, 5]]);
    let parts = split_rs(&x, &SplitSpec::Indices(vec![2, -2]), 0).unwrap();
    let datas: Vec<Vec<i64>> = parts.iter().map(|p| p.data.clone()).collect();
    assert_eq!(datas, vec![vec![0, 1], vec![2, 3], vec![4, 5]]);
    let parts = split_rs(&x, &SplitSpec::Sections(4), 0).unwrap();
    let lens: Vec<usize> = parts.iter().map(|p| p.data.len()).collect();
    assert_eq!(lens, vec![1, 2, 1, 2]);
    assert_eq!(split_rs(&x, &SplitSpec::Sections(2), 1).err(), Some(ArrayError::AxisOutOfBounds));
}

#[test]
fn concatenate_rows_and_errors() {
    let a = two_by_three();
    let b = arr(vec![7, 8, 9], vec![1, 3]);
    let c = concatenate(&vec![two_by_three(), b], 0).unwrap();
    assert_eq!(c.shape, vec![3, 3]);
    assert_eq!(c.data, vec![1, 2, 3, 4, 5, 6, 7, 8, 9]);
    let side = concatenate(&vec![two_by_three(), two_by_three()], 1).unwrap();
    assert_eq!(side.shape, vec![2, 6]);
    assert_eq!(side.data, vec![1, 2, 3, 1, 2, 3, 4, 5, 6, 4, 5, 6]);
    let none: Vec<NdArray<i64>> = vec![];
    assert_eq!(concatenate(&none, 0).err(), Some(ArrayError::EmptyInput));
    assert_eq!(concatenate(&vec![two_by_three()], 2).err(), Some(ArrayError::AxisOutOfBounds));
    let odd = arr(vec![1, 2], vec![1, 2]);
    assert_eq!(concatenate(&vec![a, odd], 0).err(), Some(ArrayError::ShapeMismatch));
}

#[test]
fn stack_new_axis() {
    let x1 = arr(vec![1, 2], vec![2]);
    let x2 = arr(vec![3, 4], vec![2]);
    let s0 = stack(&vec![arr(vec![1, 2], vec![2]), arr(vec![3, 4], vec![2])], 0).unwrap();
    assert_eq!(s0.shape, vec![2, 2]);
    assert_eq!(s0.data, vec![1, 2, 3, 4]);
    let s1 = stack(&vec![x1, x2], 1).unwrap();
    assert_eq!(s1.data, vec![1, 3, 2, 4]);
    let bad = stack(&vec![arr(vec![1, 2], vec![2]), arr(vec![3], vec![1])], 0);
    assert_eq!(bad.err(), Some(ArrayError::ShapeMismatch));
}

#[test]
fn hstack_vstack_column_stack() {
    let h = hstack(&vec![arr(vec![1, 2], vec![2]), arr(vec![3], vec![1])]).unwrap();
    assert_eq!(h.data, vec![1, 2, 3]);
    let v = vstack(&vec![arr(vec![1, 2], vec![2]), arr(vec![3, 4], vec![2])]).unwrap();
    assert_eq!(v.shape, vec![2, 2]);
    assert_eq!(v.data, vec![1, 2, 3, 4]);
    let c = column_stack(&vec![arr(vec![1, 2], vec![2]), arr(vec![3, 4], vec![2])]).unwrap();
    assert_eq!(c.shape, vec![2, 2]);
    assert_eq!(c.data, vec![1, 3, 2, 4]);
}
