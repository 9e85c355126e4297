use rsnumpy::intmath::{gcd_i64, imax, isum, lcm_i64};

#[test]
fn gcd_of_twelve_and_eighteen() {
    assert_eq!(gcd_i64(12, 18), 6);
}

#[test]
fn gcd_with_negative_operand() {
    assert_eq!(gcd_i64(-12, 18), 6);
}

#[test]
fn lcm_of_four_and_six() {
    assert_eq!(lcm_i64(4, 6), 12);
}

#[test]
fn isum_adds_all() {
    assert_eq!(isum(vec![1, 2, 3, 4]), 10);
}

#[test]
fn imax_finds_largest() {
    assert_eq!(imax(vec![3, -1, 7, 2]), Ok(7));
}
