use rsnumpy::accumulate::cumulative;
use rsnumpy::array::{ArrayError, NdArray};
use rsnumpy::broadcast::broadcast_to;

fn arr(data: Vec<i64>, shape: Vec<usize>) -> NdArray<i64> {
    NdArray { data, shape }
}

#[test]
fn cumulative_flat_and_along_axes() {
    let a = arr(vec![1, 2, 3, 4, 5, 6], vec![2, 3]);
    let flat = cumulative(&a, None, 0, |x: i64, y: i64| x + y).unwrap();
    assert_eq!(flat.shape, vec![6]);
    assert_eq!(flat.data, vec![1, 3, 6, 10, 15, 21]);
    let rows = cumulative(&a, Some(1), 0, |x: i64, y: i64| x + y).unwrap();
    assert_eq!(rows.shape, vec![2, 3]);
    assert_eq!(rows.data, vec![1, 3, 6, 4, 9, 15]);
    let cols = cumulative(&a, Some(-2), 1, |x: i64, y: i64| x * y).unwrap();
    assert_eq!(cols.data, vec![1, 2, 3, 4, 10, 18]);
    assert_eq!(cumulative(&a, Some(2), 0, |x: i64, y: i64| x + y).err(), Some(ArrayError::AxisOutOfBounds));
}

#[test]
fn cumulative_of_empty_array() {
    let a = arr(vec![], vec![0, 3]);
    let r = cumulative(&a, Some(0), 0, |x: i64, y: i64| x + y).unwrap();
    assert_eq!(r.shape, vec![0, 3]);
    assert!(r.data.is_empty());
}

#[test]
fn broadcast_to_repeats_rows_and_columns() {
    let a = arr(vec![1, 2, 3], vec![3]);
    let b = broadcast_to(&a, &vec![2, 3]).unwrap();
    assert_eq!(b.shape, vec![2, 3]);
    assert_eq!(b.data, vec![1, 2, 3, 1, 2, 3]);
    let c = arr(vec![7, 8], vec![2, 1]);
    let d = broadcast_to(&c, &vec![2, 2]).unwrap();
    assert_eq!(d.data, vec![7, 7, 8, 8]);
    let e = broadcast_to(&c, &vec![2, 0]).unwrap();
    assert_eq!(e.shape, vec![2, 0]);
    assert!(e.data.is_empty());
}

#[test]
fn broadcast_to_refusals() {
    let a = arr(vec![1, 2, 3], vec![3]);
    assert_eq!(broadcast_to(&a, &vec![2, 2]).err(), Some(ArrayError::ShapeMismatch));
    assert_eq!(broadcast_to(&a, &vec![]).err(), Some(ArrayError::ShapeMismatch));
    let one = arr(vec![5], vec![1]);
    let huge = vec![1usize << 32, 1usize << 32];
    assert_eq!(broadcast_to(&one, &huge).err(), Some(ArrayError::ShapeMismatch));
}

#[test]
fn item_reads_coordinates() {
    let a = arr(vec![1, 2, 3, 4, 5, 6], vec![2, 3]);
    assert_eq!(a.item(&vec![1, 2]), Ok(6));
    assert_eq!(a.item(&vec![-1, -3]), Ok(4));
    assert_eq!(a.item(&vec![1]), Ok(4));
    assert_eq!(a.item(&vec![0, 1, 9]), Ok(2));
    assert_eq!(a.item(&vec![2, 0]), Err(ArrayError::IndexOutOfBounds));
    assert_eq!(a.item(&vec![]), Err(ArrayError::InvalidArgument));
    let one = arr(vec![9], vec![1, 1]);
    assert_eq!(one.item(&vec![]), Ok(9));
}

#[test]
fn rows_read_along_the_first_axis() {
    let a = arr(vec![1, 2, 3, 4, 5, 6], vec![3, 2]);
    let r = a.get_row(-1).unwrap();
    assert_eq!(r.shape, vec![2]);
    assert_eq!(r.data, vec![5, 6]);
    let v = arr(vec![4, 5], vec![2]);
    let s = v.get_row(1).unwrap();
    assert!(s.shape.is_empty());
    assert_eq!(s.data, vec![5]);
    assert_eq!(a.get_row(3).err(), Some(ArrayError::IndexOutOfBounds));
    let scalar = arr(vec![9], vec![]);
    assert_eq!(scalar.get_row(7).unwrap().data, vec![9]);
}

#[test]
fn rows_written_from_their_start() {
    let mut a = arr(vec![1, 2, 3, 4, 5, 6], vec![2, 3]);
    a.set_row(1, &vec![7, 8]).unwrap();
    assert_eq!(a.data, vec![1, 2, 3, 7, 8, 6]);
    a.set_row(-2, &vec![9, 9, 9, 9]).unwrap();
    assert_eq!(a.data, vec![9, 9, 9, 7, 8, 6]);
    assert_eq!(a.set_row(2, &vec![0]), Err(ArrayError::IndexOutOfBounds));
    let mut scalar = arr(vec![1], vec![]);
    assert_eq!(scalar.set_row(0, &vec![2]), Err(ArrayError::InvalidDimension));
    assert_eq!(scalar.data, vec![1]);
}

#[test]
fn full_fills_every_position() {
    let f = rsnumpy::matrix::full(&vec![2, 3], 7i64);
    assert_eq!(f.shape, vec![2, 3]);
    assert_eq!(f.data, vec![7; 6]);
    let e = rsnumpy::matrix::full(&vec![4, 0], 1i64);
    assert!(e.data.is_empty());
    let s = rsnumpy::matrix::full(&vec![], 3i64);
    assert_eq!(s.data, vec![3]);
}
