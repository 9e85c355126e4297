use rsnumpy::array::{ArrayError, NdArray};
use rsnumpy::assign::{copyto, fill_diagonal, place, putmask};
use rsnumpy::bitwise::{
    bitwise_and, bitwise_count, bitwise_not, bitwise_or, bitwise_xor, left_shift, packbits, right_shift, unpackbits,
};
use rsnumpy::broadcast::broadcast_map;
use rsnumpy::choosing::choose_rs;
use rsnumpy::counting::bincount;
use rsnumpy::diagonal::diagonal_ext;
use rsnumpy::grids::{_arange_arrays, ix_rs, meshgrid, MeshIndexing};
use rsnumpy::inserting::insert_rs;
use rsnumpy::matrix::{diag, eye, tril_indices, triu_indices};
use rsnumpy::searching::{argwhere, count_nonzero, extract, flatnonzero, masked_select, nonzero, select_rs, where_select};

fn arr<T>(data: Vec<T>, shape: Vec<usize>) -> NdArray<T> {
    NdArray { data, shape }
}

fn mask() -> NdArray<bool> {
    arr(vec![true, false, true, true], vec![2, 2])
}

#[test]
fn nonzero_family() {
    assert_eq!(count_nonzero(&mask()), 3);
    let f = flatnonzero(&mask());
    assert_eq!(f.data, vec![0, 2, 3]);
    assert_eq!(f.shape, vec![3]);
    assert_eq!(nonzero(&mask()), vec![vec![0, 1, 1], vec![0, 0, 1]]);
    let w = argwhere(&mask());
    assert_eq!(w.shape, vec![3, 2]);
    assert_eq!(w.data, vec![0, 0, 1, 0, 1, 1]);
}

#[test]
fn where_and_extract() {
    let c = arr(vec![true, false, true], vec![3]);
    assert_eq!(where_select(&c, &vec![1, 2, 3], &vec![9, 8, 7]).unwrap().data, vec![1, 8, 3]);
    assert_eq!(where_select(&c, &vec![1, 2], &vec![9, 8, 7]).err(), Some(ArrayError::ShapeMismatch));
    assert_eq!(extract(&vec![true, false, true], &vec![1, 2, 3]), vec![1, 3]);
}

#[test]
fn select_last_true_condition_wins() {
    let conds = vec![arr(vec![true, false, false], vec![3]), arr(vec![false, true, false], vec![3])];
    let r = select_rs(&conds, &vec![vec![1, 2, 3], vec![4, 5, 6]], 0).unwrap();
    assert_eq!(r.data, vec![1, 5, 0]);
    let overlap = vec![arr(vec![true, true], vec![2]), arr(vec![true, false], vec![2])];
    assert_eq!(select_rs(&overlap, &vec![vec![1, 2], vec![3, 4]], 0).unwrap().data, vec![3, 2]);
    let none: Vec<NdArray<bool>> = vec![];
    assert_eq!(select_rs(&none, &vec![vec![1]], 0).err(), Some(ArrayError::EmptyInput));
    assert_eq!(select_rs(&conds, &vec![vec![1, 2, 3]], 0).err(), Some(ArrayError::ShapeMismatch));
}

#[test]
fn masked_select_blocks() {
    assert_eq!(masked_select(&vec![1, 2, 3, 4, 5, 6], &vec![true, false, true], 2), vec![1, 2, 5, 6]);
    assert_eq!(masked_select(&vec![1, 2, 3], &vec![false, true, true, true], 1), vec![2, 3]);
}

#[test]
fn place_cycles_values() {
    let mut a = arr(vec![1, 2, 3, 4], vec![4]);
    place(&mut a, &arr(vec![false, true, false, true], vec![4]), &vec![9]).unwrap();
    assert_eq!(a.data, vec![1, 9, 3, 9]);
    let mut b = arr(vec![1, 2, 3, 4], vec![4]);
    let r = place(&mut b, &arr(vec![true, true], vec![2]), &vec![9]);
    assert_eq!(r, Err(ArrayError::ShapeMismatch));
}

#[test]
fn putmask_same_position_or_single() {
    let mut a = arr(vec![1, 2, 3, 4], vec![4]);
    putmask(&mut a, &vec![true, false, true, false], &vec![7, 8, 9, 10]).unwrap();
    assert_eq!(a.data, vec![7, 2, 9, 4]);
    let mut b = arr(vec![1, 2, 3, 4], vec![4]);
    putmask(&mut b, &vec![true, false, true, false], &vec![0]).unwrap();
    assert_eq!(b.data, vec![0, 2, 0, 4]);
    let mut c = arr(vec![1, 2, 3, 4], vec![4]);
    assert_eq!(putmask(&mut c, &vec![true, false, true, false], &vec![1, 2]), Err(ArrayError::ShapeMismatch));
    assert_eq!(c.data, vec![1, 2, 3, 4]);
}

#[test]
fn fill_diagonal_square_and_tall() {
    let mut a = arr(vec![0; 9], vec![3, 3]);
    fill_diagonal(&mut a, &vec![5], false).unwrap();
    assert_eq!(a.data, vec![5, 0, 0, 0, 5, 0, 0, 0, 5]);
    let mut t = arr(vec![0; 10], vec![5, 2]);
    fill_diagonal(&mut t, &vec![1], false).unwrap();
    assert_eq!(t.data, vec![1, 0, 0, 1, 0, 0, 0, 0, 0, 0]);
    let mut w = arr(vec![0; 10], vec![5, 2]);
    fill_diagonal(&mut w, &vec![1], true).unwrap();
    assert_eq!(w.data, vec![1, 0, 0, 1, 0, 0, 1, 0, 0, 1]);
    let mut cube = arr(vec![0; 8], vec![2, 2, 2]);
    fill_diagonal(&mut cube, &vec![3, 4], false).unwrap();
    assert_eq!(cube.data, vec![3, 0, 0, 0, 0, 0, 0, 4]);
}

#[test]
fn fill_diagonal_errors() {
    let mut v = arr(vec![0; 3], vec![3]);
    assert_eq!(fill_diagonal(&mut v, &vec![1], false), Err(ArrayError::TooFewDimensions));
    let mut c = arr(vec![0; 12], vec![2, 2, 3]);
    assert_eq!(fill_diagonal(&mut c, &vec![1], false), Err(ArrayError::ShapeMismatch));
}

#[test]
fn copyto_broadcasts_rows() {
    let mut d = arr(vec![0; 6], vec![2, 3]);
    copyto(&mut d, &arr(vec![1, 2, 3], vec![3])).unwrap();
    assert_eq!(d.data, vec![1, 2, 3, 1, 2, 3]);
    let mut e = arr(vec![0; 6], vec![2, 3]);
    copyto(&mut e, &arr(vec![7], vec![1])).unwrap();
    assert_eq!(e.data, vec![7; 6]);
    let mut f = arr(vec![0; 6], vec![2, 3]);
    assert!(copyto(&mut f, &arr(vec![1, 2], vec![2])).is_err());
    assert_eq!(f.data, vec![0; 6]);
}

#[test]
fn bitwise_broadcasting() {
    let a = arr(vec![12i64, 10], vec![2]);
    let b = arr(vec![10i64], vec![1]);
    assert_eq!(bitwise_and(&a, &b).unwrap().data, vec![8, 10]);
    assert_eq!(bitwise_or(&a, &b).unwrap().data, vec![14, 10]);
    assert_eq!(bitwise_xor(&a, &b).unwrap().data, vec![6, 0]);
    let c = arr(vec![1i64, 2, 3], vec![3]);
    assert_eq!(bitwise_and(&a, &c).err(), Some(ArrayError::ShapeMismatch));
}

#[test]
fn shifts_broadcast_over_amounts() {
    let a = arr(vec![1i64, -8, 5], vec![3]);
    let b = arr(vec![0i64, 2], vec![2, 1]);
    let l = left_shift(&a, &b).unwrap();
    assert_eq!(l.shape, vec![2, 3]);
    assert_eq!(l.data, vec![1, -8, 5, 4, -32, 20]);
    let r = right_shift(&a, &b).unwrap();
    assert_eq!(r.data, vec![1, -8, 5, 0, -2, 1]);
    let c = arr(vec![1i64, 1], vec![2]);
    assert_eq!(left_shift(&a, &c).err(), Some(ArrayError::ShapeMismatch));
}

#[test]
fn not_and_count_ones() {
    let a = arr(vec![0i64, 5, -1, 255], vec![2, 2]);
    let n = bitwise_not(&a);
    assert_eq!(n.shape, vec![2, 2]);
    assert_eq!(n.data, vec![-1, -6, 0, -256]);
    let c = bitwise_count(&a);
    assert_eq!(c.data, vec![0, 2, 64, 8]);
}

#[test]
fn packbits_both_orders() {
    let flags = vec![true, false, true, true, false, false, false, false, true];
    assert_eq!(packbits(&flags, true), vec![176, 128]);
    assert_eq!(packbits(&flags, false), vec![13, 1]);
}

#[test]
fn unpackbits_with_count() {
    assert_eq!(unpackbits(&vec![176], None, true), vec![1, 0, 1, 1, 0, 0, 0, 0]);
    assert_eq!(unpackbits(&vec![176], Some(3), true), vec![1, 0, 1]);
    assert_eq!(unpackbits(&vec![13], None, false), vec![1, 0, 1, 1, 0, 0, 0, 0]);
}

#[test]
fn unpack_after_pack_gives_flags() {
    let flags = vec![true, true, false, true, false, false, true, false, true, true, false];
    for big in [true, false] {
        let packed = packbits(&flags, big);
        let back = unpackbits(&packed, Some(flags.len()), big);
        let expected: Vec<u8> = flags.iter().map(|&f| if f { 1 } else { 0 }).collect();
        assert_eq!(back, expected);
    }
}

#[test]
fn bincount_counts() {
    let x = arr(vec![0i64, 1, 1, 3], vec![4]);
    assert_eq!(bincount(&x, 0).data, vec![1, 2, 0, 1]);
    let padded = bincount(&x, 6);
    assert_eq!(padded.data, vec![1, 2, 0, 1, 0, 0]);
    assert_eq!(padded.shape, vec![6]);
    assert_eq!(bincount(&arr(vec![-1i64, 2], vec![2]), 0).data, vec![0, 0, 1]);
    assert!(bincount(&arr(Vec::<i64>::new(), vec![0]), 0).data.is_empty());
}

#[test]
fn choose_same_shape_and_scalar() {
    let a = arr(vec![0usize, 1, 0], vec![3]);
    let choices = vec![arr(vec![1, 2, 3], vec![3]), arr(vec![10, 20, 30], vec![3])];
    assert_eq!(choose_rs(&a, &choices, 0).unwrap().data, vec![1, 20, 3]);
    let scalars = vec![arr(vec![5], vec![1]), arr(vec![6], vec![1])];
    assert_eq!(choose_rs(&a, &scalars, 0).unwrap().data, vec![5, 6, 5]);
}

#[test]
fn choose_broadcasts_rows_and_columns() {
    let a = arr(vec![1usize; 6], vec![2, 3]);
    let row = vec![arr(vec![0], vec![1]), arr(vec![7, 8, 9], vec![3])];
    assert_eq!(choose_rs(&a, &row, 0).unwrap().data, vec![7, 8, 9, 7, 8, 9]);
    let col = vec![arr(vec![0], vec![1]), arr(vec![1, 2], vec![2, 1])];
    assert_eq!(choose_rs(&a, &col, 0).unwrap().data, vec![1, 1, 1, 2, 2, 2]);
    let deep = vec![arr(vec![0], vec![1]), arr((0..6).collect(), vec![1, 2, 3])];
    assert_eq!(choose_rs(&a, &deep, 0).unwrap().data, vec![0, 2, 4, 1, 3, 5]);
}

#[test]
fn choose_errors() {
    let a = arr(vec![0usize, 2], vec![2]);
    let choices = vec![arr(vec![1, 2], vec![2]), arr(vec![3, 4], vec![2])];
    assert_eq!(choose_rs(&a, &choices, 0).err(), Some(ArrayError::IndexOutOfBounds));
    let none: Vec<NdArray<i32>> = vec![];
    assert_eq!(choose_rs(&a, &none, 0).err(), Some(ArrayError::EmptyInput));
}

#[test]
fn insert_flat_positions() {
    let a = arr(vec![1, 2, 3], vec![3]);
    let r = insert_rs(&a, &vec![1], &vec![9], None);
    assert_eq!(r.data, vec![1, 9, 2, 3]);
    assert_eq!(r.shape, vec![4]);
    assert_eq!(insert_rs(&a, &vec![2, 0], &vec![7], None).data, vec![7, 1, 2, 7, 3]);
    assert_eq!(insert_rs(&a, &vec![-1], &vec![9], None).data, vec![1, 2, 9, 3]);
    assert_eq!(insert_rs(&a, &vec![10], &vec![4, 5], None).data, vec![1, 2, 3, 4, 5]);
}

#[test]
fn insert_along_axis() {
    let a = arr(vec![1, 2, 3, 4], vec![2, 2]);
    let r = insert_rs(&a, &vec![1], &vec![9], Some(1));
    assert_eq!(r.shape, vec![2, 3]);
    assert_eq!(r.data, vec![1, 9, 2, 3, 9, 4]);
    assert_eq!(insert_rs(&a, &vec![1], &vec![8, 9], Some(1)).data, vec![1, 8, 2, 3, 9, 4]);
    assert_eq!(insert_rs(&a, &vec![1, 1], &vec![9], Some(1)).data, vec![1, 9, 2, 3, 9, 4]);
    let rows = insert_rs(&a, &vec![0, 2], &vec![0], Some(0));
    assert_eq!(rows.shape, vec![4, 2]);
    assert_eq!(rows.data, vec![0, 0, 1, 2, 0, 0, 3, 4]);
}

#[test]
fn diagonal_offsets() {
    let a = arr((0..9).collect::<Vec<i64>>(), vec![3, 3]);
    assert_eq!(diagonal_ext(&a, 0, 0, 1).unwrap().data, vec![0, 4, 8]);
    assert_eq!(diagonal_ext(&a, 1, 0, 1).unwrap().data, vec![1, 5]);
    assert_eq!(diagonal_ext(&a, -1, 0, 1).unwrap().data, vec![3, 7]);
    assert_eq!(a.diagonal(0, 0, 1).unwrap().data, vec![0, 4, 8]);
    assert_eq!(diagonal_ext(&arr(vec![1], vec![1]), 0, 0, 1).err(), Some(ArrayError::TooFewDimensions));
    assert_eq!(diagonal_ext(&a, 0, 1, -1).err(), Some(ArrayError::SameAxis));
    assert_eq!(diagonal_ext(&a, 0, 0, 2).err(), Some(ArrayError::AxisOutOfBounds));
}

#[test]
fn eye_and_diag() {
    let e = eye(2, Some(3), 1, 0, 1);
    assert_eq!(e.shape, vec![2, 3]);
    assert_eq!(e.data, vec![0, 1, 0, 0, 0, 1]);
    let d = diag(&arr(vec![1, 2], vec![2]), 1, 0);
    assert_eq!(d.shape, vec![3, 3]);
    assert_eq!(d.data, vec![0, 1, 0, 0, 0, 2, 0, 0, 0]);
    let m = arr((0..9).collect::<Vec<i64>>(), vec![3, 3]);
    assert_eq!(diag(&m, 0, 0).data, vec![0, 4, 8]);
}

#[test]
fn triangle_indices() {
    let (r, c) = tril_indices(3, 0, None);
    assert_eq!(r, vec![0, 1, 1, 2, 2, 2]);
    assert_eq!(c, vec![0, 0, 1, 0, 1, 2]);
    let (r, c) = triu_indices(3, 1, None);
    assert_eq!(r, vec![0, 0, 1]);
    assert_eq!(c, vec![1, 2, 2]);
}

#[test]
fn open_and_index_grids() {
    let g = ix_rs(&vec![vec![1, 2], vec![3, 4, 5]]);
    assert_eq!(g[0].shape, vec![2, 1]);
    assert_eq!(g[1].shape, vec![1, 3]);
    assert_eq!(g[1].data, vec![3, 4, 5]);
    let a = _arange_arrays(&vec![2, 3]);
    assert_eq!(a[0].data, vec![0, 1]);
    assert_eq!(a[1].data, vec![0, 1, 2]);
}

#[test]
fn meshgrid_conventions() {
    let x = arr(vec![1, 2, 3], vec![3]);
    let y = arr(vec![4, 5], vec![2]);
    let xy = meshgrid(&vec![arr(vec![1, 2, 3], vec![3]), arr(vec![4, 5], vec![2])], MeshIndexing::XY).unwrap();
    assert_eq!(xy[0].shape, vec![2, 3]);
    assert_eq!(xy[0].data, vec![1, 2, 3, 1, 2, 3]);
    assert_eq!(xy[1].data, vec![4, 4, 4, 5, 5, 5]);
    let ij = meshgrid(&vec![x, y], MeshIndexing::IJ).unwrap();
    assert_eq!(ij[0].shape, vec![3, 2]);
    assert_eq!(ij[0].data, vec![1, 1, 2, 2, 3, 3]);
    assert_eq!(ij[1].data, vec![4, 5, 4, 5, 4, 5]);
    let none: Vec<NdArray<i32>> = vec![];
    assert_eq!(meshgrid(&none, MeshIndexing::XY).err(), Some(ArrayError::EmptyInput));
    let flat = arr(vec![1, 2, 3, 4], vec![2, 2]);
    assert_eq!(meshgrid(&vec![flat], MeshIndexing::XY).err(), Some(ArrayError::InvalidDimension));
}

#[test]
fn broadcast_map_adds() {
    let a = arr(vec![1, 2, 3], vec![3]);
    let s = arr(vec![10], vec![]);
    assert_eq!(broadcast_map(&a, &s, |x: i32, y: i32| x + y).unwrap().data, vec![11, 12, 13]);
    let col = arr(vec![100, 200], vec![2, 1]);
    let r = broadcast_map(&a, &col, |x: i32, y: i32| x + y).unwrap();
    assert_eq!(r.shape, vec![2, 3]);
    assert_eq!(r.data, vec![101, 102, 103, 201, 202, 203]);
    let bad = arr(vec![1, 2], vec![2]);
    assert_eq!(broadcast_map(&a, &bad, |x: i32, y: i32| x + y).err(), Some(ArrayError::ShapeMismatch));
}
