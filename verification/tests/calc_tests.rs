use r2deob::calc::{Operator, SimdOperator};

#[test]
fn test_simd_add_i64() {
    let result = Operator::simd_add(
        &[1i64, 2i64, 3i64, 4i64, 5i64, 6i64, 7i64, 8i64],
        &[8i64, 7i64, 6i64, 5i64, 4i64, 3i64, 2i64, 1i64],
    );
    assert!(result == [9, 9, 9, 9, 9, 9, 9, 9], "Test result was: {:?}", result);
}

#[test]
fn test_simd_sub_i64() {
    let result = Operator::simd_sub(
        &[1i64, 2i64, 3i64, 4i64, 5i64, 6i64, 7i64, 8i64],
        &[1i64, 2i64, 3i64, 4i64, 5i64, 6i64, 7i64, 8i64],
    );
    assert!(result == [0, 0, 0, 0, 0, 0, 0, 0], "Test result was: {:?}", result);
}

#[test]
fn test_sisd_mul_i64() {
    let result = Operator::simd_mul(
        &[1i64, 2i64, 3i64, 4i64, 5i64, 6i64, 7i64, 8i64],
        &[1i64, 2i64, 3i64, 4i64, 5i64, 6i64, 7i64, 8i64],
    );
    assert!(result == [1, 4, 9, 16, 25, 36, 49, 64], "Test result was: {:?}", result);
}

#[test]
fn test_sisd_div_i64() {
    let result = Operator::sisd_div(
        &[1i64, 2i64, 3i64, 4i64, 5i64, 6i64, 7i64, 8i64],
        &[1i64, 2i64, 3i64, 4i64, 5i64, 6i64, 7i64, 8i64],
    );
    assert!(result == [1, 1, 1, 1, 1, 1, 1, 1], "Test result was: {:?}", result);
}

#[test]
fn simd_and_sisd_agree_on_odd_lengths() {
    let a: Vec<i64> = (0..19).map(|i| i * 7 - 40).collect();
    let b: Vec<i64> = (0..19).map(|i| 11 - i * 3).collect();
    assert_eq!(Operator::simd_add(&a, &b), Operator::sisd_add(&a, &b));
    assert_eq!(Operator::simd_sub(&a, &b), Operator::sisd_sub(&a, &b));
    assert_eq!(Operator::simd_mul(&a, &b), Operator::sisd_mul(&a, &b));
    assert_eq!(Operator::simd_div(&a, &b), Operator::sisd_div(&a, &b));
}

#[test]
fn simd_i32_lanes() {
    let a: Vec<i32> = (0..33).collect();
    let b: Vec<i32> = (0..33).rev().collect();
    let sum = Operator::simd_add(&a, &b);
    assert!(sum.iter().all(|&x| x == 32));
    assert_eq!(Operator::simd_mul(&a, &b), Operator::sisd_mul(&a, &b));
}

#[test]
fn division_by_zero_yields_zero() {
    // the checked division convention: x / 0 is 0, MIN / -1 is 0
    let result = Operator::sisd_div(&[5i64, 0i64, i64::MIN, -7i64], &[0i64, 0i64, -1i64, 2i64]);
    assert_eq!(result, vec![0, 0, 0, -3]);
    let out = Operator::Div.perform(&[9i64, 1i64], &[0i64, 1i64]).unwrap();
    assert_eq!(out, vec![0, 1]);
}

#[test]
fn arithmetic_wraps_around() {
    let sum = Operator::Add.perform(&[i64::MAX], &[1i64]).unwrap();
    assert_eq!(sum, vec![i64::MIN]);
    let diff = Operator::Sub.perform(&[i64::MIN], &[1i64]).unwrap();
    assert_eq!(diff, vec![i64::MAX]);
    let prod = Operator::Mul.perform(&[i64::MAX], &[2i64]).unwrap();
    assert_eq!(prod, vec![-2]);
}

#[test]
fn operator_symbols() {
    assert_eq!(Operator::Add.symbol(), "+");
    assert_eq!(Operator::Sub.symbol(), "-");
    assert_eq!(Operator::Mul.symbol(), "*");
    assert_eq!(Operator::Div.symbol(), "/");
}
