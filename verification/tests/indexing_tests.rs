use rsnumpy::advanced::{getitem_multi, getitem_scalar, normalize_slice, select_from, slice_indices_vec, IndexDesc};
use rsnumpy::along::{put_along_axis, take_along_axis};
use rsnumpy::array::{ArrayError, NdArray};
use rsnumpy::multi_index::{ravel_multi_index, unravel_index, ClipMode, IndexOrder};
use rsnumpy::scatter::{calculate_target_count, setitem_multi};
use rsnumpy::slicing::tuple_getitem;

fn arr<T>(data: Vec<T>, shape: Vec<usize>) -> NdArray<T> {
    NdArray { data, shape }
}

fn grid() -> NdArray<i64> {
    arr((0..12).collect(), vec![3, 4])
}

#[test]
fn slice_positions_forward_and_back() {
    assert_eq!(slice_indices_vec(0, 5, 2), vec![0, 2, 4]);
    assert_eq!(slice_indices_vec(4, -1, -2), vec![4, 2, 0]);
    assert!(slice_indices_vec(3, 1, 1).is_empty());
}

#[test]
fn normalize_slice_like_python() {
    assert_eq!(normalize_slice(None, None, Some(-1), 5), Ok((4, -1, -1)));
    assert_eq!(normalize_slice(Some(-2), None, None, 5), Ok((3, 5, 1)));
    assert_eq!(normalize_slice(Some(10), Some(-10), Some(1), 5), Ok((5, 0, 1)));
    assert_eq!(normalize_slice(None, None, Some(0), 5), Err(ArrayError::ZeroStep));
}

#[test]
fn resolved_slice_stays_in_axis() {
    let (b, e, s) = normalize_slice(Some(-100), Some(100), Some(3), 7).unwrap();
    let pos = slice_indices_vec(b, e, s);
    assert_eq!(pos, vec![0, 3, 6]);
    assert!(pos.iter().all(|&p| p < 7));
    let (b, e, s) = normalize_slice(Some(100), Some(-100), Some(-2), 7).unwrap();
    let pos = slice_indices_vec(b, e, s);
    assert_eq!(pos, vec![6, 4, 2, 0]);
}

#[test]
fn select_slice_and_fancy() {
    let r = select_from(&grid(), &vec![IndexDesc::Slice(0, 3, 2), IndexDesc::Fancy(vec![1, 3])]).unwrap();
    assert_eq!(r.shape, vec![2, 2]);
    assert_eq!(r.data, vec![1, 3, 9, 11]);
}

#[test]
fn select_integer_consumes_axis() {
    let r = select_from(&grid(), &vec![IndexDesc::Int(1), IndexDesc::Slice(0, 4, 1)]).unwrap();
    assert_eq!(r.shape, vec![4]);
    assert_eq!(r.data, vec![4, 5, 6, 7]);
}

#[test]
fn select_fancy_pairs_broadcast() {
    let r = select_from(&grid(), &vec![IndexDesc::Fancy(vec![0, 2]), IndexDesc::Fancy(vec![1, 3])]).unwrap();
    assert_eq!(r.shape, vec![2]);
    assert_eq!(r.data, vec![1, 11]);
}

#[test]
fn select_errors() {
    let bad = select_from(&grid(), &vec![IndexDesc::Fancy(vec![0, 1]), IndexDesc::Fancy(vec![0, 1, 2])]);
    assert_eq!(bad.err(), Some(ArrayError::ShapeMismatch));
    let out = select_from(&grid(), &vec![IndexDesc::Fancy(vec![5]), IndexDesc::Slice(0, 4, 1)]);
    assert_eq!(out.err(), Some(ArrayError::IndexOutOfBounds));
}

#[test]
fn getitem_pads_missing_axes() {
    let r = getitem_multi(&grid(), vec![IndexDesc::Int(2)]).unwrap();
    assert_eq!(r.shape, vec![4]);
    assert_eq!(r.data, vec![8, 9, 10, 11]);
}

#[test]
fn getitem_scalar_positions() {
    assert_eq!(getitem_scalar(&grid(), &vec![-1, -1]), Ok(11));
    assert_eq!(getitem_scalar(&grid(), &vec![1]), Ok(4));
    assert_eq!(getitem_scalar(&grid(), &vec![3, 0]), Err(ArrayError::IndexOutOfBounds));
}

#[test]
fn setitem_row_broadcast() {
    let mut a = grid();
    setitem_multi(&mut a, vec![IndexDesc::Int(0)], &vec![7]).unwrap();
    assert_eq!(a.data, vec![7, 7, 7, 7, 4, 5, 6, 7, 8, 9, 10, 11]);
}

#[test]
fn setitem_fancy_pairs() {
    let mut a = grid();
    setitem_multi(&mut a, vec![IndexDesc::Fancy(vec![0, 2]), IndexDesc::Int(1)], &vec![100, 200]).unwrap();
    assert_eq!(a.data[1], 100);
    assert_eq!(a.data[9], 200);
}

#[test]
fn setitem_refuses_wrong_count() {
    let mut a = grid();
    let r = setitem_multi(&mut a, vec![IndexDesc::Int(0)], &vec![1, 2]);
    assert_eq!(r, Err(ArrayError::ShapeMismatch));
    assert_eq!(a.data, grid().data);
}

#[test]
fn setitem_rows_by_array_fill_whole_rows() {
    let mut a = grid();
    setitem_multi(&mut a, vec![IndexDesc::Fancy(vec![0, 2]), IndexDesc::Slice(0, 4, 1)], &vec![1, 2, 3, 4, 5, 6, 7, 8])
        .unwrap();
    assert_eq!(a.data, vec![1, 2, 3, 4, 4, 5, 6, 7, 5, 6, 7, 8]);
}

#[test]
fn setitem_columns_by_array_follow_selection_order() {
    let mut a = grid();
    let sel = getitem_multi(&grid(), vec![IndexDesc::Slice(0, 3, 1), IndexDesc::Fancy(vec![3, 0])]).unwrap();
    assert_eq!(sel.shape, vec![3, 2]);
    setitem_multi(&mut a, vec![IndexDesc::Slice(0, 3, 1), IndexDesc::Fancy(vec![3, 0])], &vec![10, 20, 30, 40, 50, 60])
        .unwrap();
    assert_eq!(a.data, vec![20, 1, 2, 10, 40, 5, 6, 30, 60, 9, 10, 50]);
    let back = getitem_multi(&a, vec![IndexDesc::Slice(0, 3, 1), IndexDesc::Fancy(vec![3, 0])]).unwrap();
    assert_eq!(back.data, vec![10, 20, 30, 40, 50, 60]);
}

#[test]
fn setitem_broadcast_through_two_dimensional_index() {
    let mut a = grid();
    setitem_multi(&mut a, vec![IndexDesc::FancyMulti(vec![0, 2, 1, 2], vec![2, 2]), IndexDesc::Int(3)], &vec![-1]).unwrap();
    assert_eq!(a.data, vec![0, 1, 2, -1, 4, 5, 6, -1, 8, 9, 10, -1]);
}

#[test]
fn setitem_later_writes_win() {
    let mut a = grid();
    setitem_multi(&mut a, vec![IndexDesc::Fancy(vec![1, 1]), IndexDesc::Int(0)], &vec![100, 200]).unwrap();
    assert_eq!(a.data[4], 200);
}

#[test]
fn setitem_refusals() {
    let mut a = grid();
    let r = setitem_multi(&mut a, vec![IndexDesc::Fancy(vec![0, 5])], &vec![1]);
    assert_eq!(r, Err(ArrayError::IndexOutOfBounds));
    let r2 = setitem_multi(&mut a, vec![IndexDesc::Fancy(vec![0, 1]), IndexDesc::Fancy(vec![0, 1, 2])], &vec![1]);
    assert_eq!(r2, Err(ArrayError::ShapeMismatch));
    assert_eq!(a.data, grid().data);
}

#[test]
fn target_count_multiplies() {
    assert_eq!(calculate_target_count(&vec![IndexDesc::Fancy(vec![0, 2]), IndexDesc::Slice(0, 4, 1)]), 8);
    assert_eq!(calculate_target_count(&vec![IndexDesc::Int(0), IndexDesc::Slice(0, 4, 2)]), 2);
}

#[test]
fn tuple_getitem_block() {
    let r = tuple_getitem(&grid(), &vec![(0, 3, 2), (1, 4, 2)]).unwrap();
    assert_eq!(r.shape, vec![2, 2]);
    assert_eq!(r.data, vec![1, 3, 9, 11]);
    let empty = tuple_getitem(&grid(), &vec![(2, 1, 1), (0, 4, 1)]).unwrap();
    assert_eq!(empty.shape, vec![0, 4]);
    assert!(empty.data.is_empty());
}

#[test]
fn tuple_getitem_errors() {
    assert_eq!(tuple_getitem(&grid(), &vec![(0, 3, 1)]).err(), Some(ArrayError::InvalidArgument));
    assert_eq!(tuple_getitem(&grid(), &vec![(0, 5, 1), (0, 4, 1)]).err(), Some(ArrayError::ShapeMismatch));
}

#[test]
fn ravel_multi_index_orders_and_modes() {
    let mi = vec![vec![0, 1, 2], vec![1, 2, 3]];
    assert_eq!(ravel_multi_index(&mi, &vec![3, 4], ClipMode::Raise, IndexOrder::C), Ok(vec![1, 6, 11]));
    assert_eq!(ravel_multi_index(&mi, &vec![3, 4], ClipMode::Raise, IndexOrder::F), Ok(vec![3, 7, 11]));
    assert_eq!(ravel_multi_index(&vec![vec![4], vec![5]], &vec![3, 4], ClipMode::Wrap, IndexOrder::C), Ok(vec![5]));
    assert_eq!(ravel_multi_index(&vec![vec![-1], vec![9]], &vec![3, 4], ClipMode::Clip, IndexOrder::C), Ok(vec![3]));
    assert_eq!(
        ravel_multi_index(&vec![vec![3], vec![0]], &vec![3, 4], ClipMode::Raise, IndexOrder::C),
        Err(ArrayError::IndexOutOfBounds)
    );
}

#[test]
fn unravel_index_orders() {
    assert_eq!(unravel_index(&vec![5, 11], &vec![3, 4], IndexOrder::C), vec![vec![1, 2], vec![1, 3]]);
    assert_eq!(unravel_index(&vec![5, 11], &vec![3, 4], IndexOrder::F), vec![vec![2, 2], vec![1, 3]]);
}

#[test]
fn unravel_then_ravel_round_trip() {
    let dims = vec![3, 4, 5];
    for f in 0..60i64 {
        let coords = unravel_index(&vec![f], &dims, IndexOrder::C);
        let mi: Vec<Vec<i64>> = coords.iter().map(|c| vec![c[0]]).collect();
        for (c, d) in coords.iter().zip(dims.iter()) {
            assert!(c[0] >= 0 && (c[0] as usize) < *d);
        }
        assert_eq!(ravel_multi_index(&mi, &dims, ClipMode::Raise, IndexOrder::C), Ok(vec![f]));
    }
}

#[test]
fn ravel_then_unravel_round_trip() {
    let dims = vec![3, 4];
    let mi = vec![vec![2, 0, 1], vec![3, 0, 2]];
    let flat = ravel_multi_index(&mi, &dims, ClipMode::Raise, IndexOrder::C).unwrap();
    assert_eq!(unravel_index(&flat, &dims, IndexOrder::C), mi);
}

#[test]
fn column_major_round_trips() {
    let dims = vec![3, 4, 5];
    for f in 0..60i64 {
        let coords = unravel_index(&vec![f], &dims, IndexOrder::F);
        let mi: Vec<Vec<i64>> = coords.iter().map(|c| vec![c[0]]).collect();
        assert_eq!(ravel_multi_index(&mi, &dims, ClipMode::Raise, IndexOrder::F), Ok(vec![f]));
    }
    let mi = vec![vec![2, 0, 1], vec![3, 0, 2]];
    let flat = ravel_multi_index(&mi, &vec![3, 4], ClipMode::Raise, IndexOrder::F).unwrap();
    assert_eq!(unravel_index(&flat, &vec![3, 4], IndexOrder::F), mi);
}

#[test]
fn take_along_picks_per_row() {
    let a = arr(vec![10, 30, 20, 60, 40, 50], vec![2, 3]);
    let idx = arr(vec![0usize, 1], vec![2, 1]);
    let r = take_along_axis(&a, &idx, 1).unwrap();
    assert_eq!(r.shape, vec![2, 1]);
    assert_eq!(r.data, vec![10, 40]);
    let bad = arr(vec![3usize, 0], vec![2, 1]);
    assert_eq!(take_along_axis(&a, &bad, 1).err(), Some(ArrayError::IndexOutOfBounds));
}

#[test]
fn put_along_writes_per_row() {
    let mut a = arr(vec![10, 30, 20, 60, 40, 50], vec![2, 3]);
    let idx = arr(vec![2usize, 0], vec![2, 1]);
    let vals = arr(vec![99, 77], vec![2, 1]);
    put_along_axis(&mut a, &idx, &vals, 1).unwrap();
    assert_eq!(a.data, vec![10, 30, 99, 77, 40, 50]);
}

#[test]
fn along_refuses_mismatched_shapes() {
    let mut a = arr(vec![10, 30, 20, 60, 40, 50], vec![2, 3]);
    let idx = arr(vec![0usize, 1, 2], vec![3, 1]);
    assert_eq!(take_along_axis(&a, &idx, 1).err(), Some(ArrayError::ShapeMismatch));
    let flat = arr(vec![0usize, 1], vec![2]);
    assert_eq!(take_along_axis(&a, &flat, 1).err(), Some(ArrayError::ShapeMismatch));
    let good = arr(vec![2usize, 0], vec![2, 1]);
    let vals = arr(vec![1, 2, 3, 4], vec![2, 2]);
    assert_eq!(put_along_axis(&mut a, &good, &vals, 1), Err(ArrayError::ShapeMismatch));
    assert_eq!(put_along_axis(&mut a, &idx, &arr(vec![1], vec![1, 1]), 1), Err(ArrayError::ShapeMismatch));
    assert_eq!(a.data, vec![10, 30, 20, 60, 40, 50]);
}
