use linalg::{Ratio, Scalar};

fn q(n: i64, d: i64) -> Ratio {
    Ratio::new(n, d).unwrap()
}

#[test]
fn fractions_are_kept_in_lowest_terms() {
    let x = q(6, -4);
    assert_eq!(x.numerator(), -3);
    assert_eq!(x.denominator(), 2);
    let z = q(0, -7);
    assert_eq!(z.numerator(), 0);
    assert_eq!(z.denominator(), 1);
    assert_eq!(q(-6, -4), q(3, 2));
    assert_eq!(Ratio::new(1, 0), None);
    assert_eq!(Ratio::new(i64::MIN, 1), None);
    assert_eq!(Ratio::new(1, i64::MIN), None);
    assert_eq!(q(i64::MIN, 2).numerator(), i64::MIN / 2);
    assert_eq!(q(i64::MIN, i64::MIN), q(1, 1));
    assert_eq!(Ratio::from_int(i64::MIN), None);
    assert_eq!(Ratio::from_int(5), Some(q(5, 1)));
}

#[test]
fn the_four_operations_are_exact() {
    assert_eq!(q(1, 2).add(q(1, 3)), Some(q(5, 6)));
    assert_eq!(q(1, 2).sub(q(1, 3)), Some(q(1, 6)));
    assert_eq!(q(1, 3).sub(q(1, 2)), Some(q(-1, 6)));
    assert_eq!(q(2, 3).mul(q(-3, 4)), Some(q(-1, 2)));
    assert_eq!(q(2, 3).div(q(-4, 9)), Some(q(-3, 2)));
    assert_eq!(q(2, 3).div(q(4, 9)), Some(q(3, 2)));
    assert_eq!(q(2, 3).div(q(0, 1)), None);
    assert_eq!(Ratio::zero(), q(0, 1));
    assert_eq!(Ratio::one(), q(1, 1));
    assert_eq!(q(1, 6).add(q(1, 3)), Some(q(1, 2)));
}

#[test]
fn an_operation_without_a_result_gives_none() {
    let big = q(i64::MAX, 1);
    let tiny = q(1, i64::MAX);
    assert_eq!(big.add(q(1, 1)), None);
    assert_eq!(big.mul(q(2, 1)), None);
    assert_eq!(q(-i64::MAX, 1).sub(q(1, 1)), None);
    assert_eq!(big.div(tiny), None);
    assert_eq!(tiny.mul(tiny), None);
    assert_eq!(big.add(q(-1, 1)), Some(q(i64::MAX - 1, 1)));
    assert_eq!(big.mul(tiny), Some(q(1, 1)));
    assert_eq!(big.sub(big), Some(q(0, 1)));
}

#[test]
fn tests_and_comparisons() {
    assert!(q(0, 5).is_zero());
    assert!(!q(1, 5).is_zero());
    assert!(q(1, 2).gt(q(1, 3)));
    assert!(!q(1, 3).gt(q(1, 2)));
    assert!(!q(1, 2).gt(q(2, 4)));
    assert!(q(-1, 3).gt(q(-1, 2)));
    assert!(q(1, 2).close_to(q(501, 1000)));
    assert!(q(1, 2).close_to(q(499, 1000)));
    assert!(!q(1, 2).close_to(q(502, 1000)));
    assert!(!q(1, 2).close_to(q(5011, 10000)));
    assert!(q(i64::MAX, 1).close_to(q(i64::MAX, 1)));
    assert!(!q(i64::MAX, 1).close_to(q(-i64::MAX, 1)));
}
