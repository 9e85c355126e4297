use rsnumpy::array::{ArrayError, NdArray};
use rsnumpy::random::{choice, integers, new_rng, permutation, randint_values, shuffle, shuffled_indices};

fn arr<T>(data: Vec<T>, shape: Vec<usize>) -> NdArray<T> {
    NdArray { data, shape }
}

#[test]
fn shuffled_indices_is_permutation() {
    let mut rng = new_rng(Some(42));
    let mut p = shuffled_indices(&mut rng, 50);
    p.sort();
    assert_eq!(p, (0..50).collect::<Vec<usize>>());
    assert!(shuffled_indices(&mut rng, 0).is_empty());
}

#[test]
fn same_seed_same_draws() {
    let mut a = new_rng(Some(7));
    let mut b = new_rng(Some(7));
    assert_eq!(shuffled_indices(&mut a, 20), shuffled_indices(&mut b, 20));
    assert_eq!(randint_values(&mut a, 0, 1000, 10), randint_values(&mut b, 0, 1000, 10));
}

#[test]
fn permutation_keeps_elements() {
    let mut rng = new_rng(Some(1));
    let a = arr(vec![5, 1, 4, 2, 3], vec![5]);
    let p = permutation(&mut rng, &a);
    assert_eq!(p.shape, vec![5]);
    let mut d = p.data.clone();
    d.sort();
    assert_eq!(d, vec![1, 2, 3, 4, 5]);
}

#[test]
fn shuffle_one_dimension_only() {
    let mut rng = new_rng(Some(3));
    let mut a = arr(vec![1, 2, 3, 4], vec![4]);
    shuffle(&mut rng, &mut a).unwrap();
    let mut d = a.data.clone();
    d.sort();
    assert_eq!(d, vec![1, 2, 3, 4]);
    let mut m = arr(vec![1, 2, 3, 4], vec![2, 2]);
    assert_eq!(shuffle(&mut rng, &mut m), Err(ArrayError::InvalidDimension));
    assert_eq!(m.data, vec![1, 2, 3, 4]);
}

#[test]
fn choice_with_and_without_replacement() {
    let mut rng = new_rng(Some(11));
    let vals = vec![10, 20, 30, 40];
    let drawn = choice(&mut rng, &vals, Some(100), true).unwrap();
    assert_eq!(drawn.len(), 100);
    assert!(drawn.iter().all(|v| vals.contains(v)));
    let mut distinct = choice(&mut rng, &vals, Some(4), false).unwrap();
    distinct.sort();
    assert_eq!(distinct, vals);
    assert_eq!(choice(&mut rng, &vals, None, true).unwrap().len(), 1);
}

#[test]
fn choice_errors() {
    let mut rng = new_rng(Some(11));
    let empty: Vec<i32> = vec![];
    assert_eq!(choice(&mut rng, &empty, Some(1), true), Err(ArrayError::EmptyInput));
    assert_eq!(choice(&mut rng, &vec![1, 2], Some(3), false), Err(ArrayError::InvalidArgument));
}

#[test]
fn randint_stays_in_range() {
    let mut rng = new_rng(Some(5));
    let v = randint_values(&mut rng, -3, 4, 200).unwrap();
    assert_eq!(v.len(), 200);
    assert!(v.iter().all(|&x| (-3..4).contains(&x)));
    assert_eq!(randint_values(&mut rng, 4, 4, 1), Err(ArrayError::InvalidArgument));
}

#[test]
fn integers_bounds_and_endpoint() {
    let mut rng = new_rng(Some(9));
    let v = integers(&mut rng, 5, None, 100, false).unwrap();
    assert!(v.iter().all(|&x| (0..5).contains(&x)));
    let w = integers(&mut rng, 2, Some(3), 100, true).unwrap();
    assert!(w.iter().all(|&x| x == 2 || x == 3));
    assert_eq!(integers(&mut rng, 0, None, 1, false), Err(ArrayError::InvalidArgument));
    assert_eq!(integers(&mut rng, 3, Some(3), 1, true).unwrap(), vec![3]);
}
