use bigint::bigint::BigInteger;
use bigint::bigint::Sign;

#[test]
fn test_optimize() {
    let num1 = BigInteger::new_from_int(000012342);

    assert_eq!(num1.optimize_digits(), BigInteger::new_from_int(12342));
}

#[test]
fn test_add() {
    let num1 = BigInteger::new_from_int(12342);
    let num2 = BigInteger::new_from_int(434321);

    assert_eq!(num1.add(num2), BigInteger::new_from_int(446663));
}

#[test]
fn test_sub() {
    let num1 = BigInteger::new_from_int(12342);
    let num2 = BigInteger::new_from_int(434321);

    assert_eq!(num1.add(num2), BigInteger::new_from_int(446663));
}

#[test]
fn test_mul() {
    let num1 = BigInteger::new_from_int(123);
    let num2 = BigInteger::new_from_int(43);

    assert_eq!(num1.mul(num2), BigInteger::new_from_int(5289));
}

#[test]
fn mixed_sign_addition() {
    assert_eq!(
        BigInteger::new_from_int(-5).add(BigInteger::new_from_int(3)),
        BigInteger::new_from_int(-2)
    );
    assert_eq!(
        BigInteger::new_from_int(3).add(BigInteger::new_from_int(-5)),
        BigInteger::new_from_int(-2)
    );
}

#[test]
fn subtraction_crossing_zero() {
    assert_eq!(
        BigInteger::new_from_int(5).sub(BigInteger::new_from_int(8)),
        BigInteger::new_from_int(-3)
    );
    assert_eq!(
        BigInteger::new_from_int(8).sub(BigInteger::new_from_int(5)),
        BigInteger::new_from_int(3)
    );
}

#[test]
fn subtraction_of_equal_values_is_positive_zero() {
    let d = BigInteger::new_from_int(5).sub(BigInteger::new_from_int(5));
    assert_eq!(d, BigInteger::zero());
    assert_eq!(d.to_decimal_string(), "0");
}

#[test]
fn both_negative_addition_keeps_the_sign() {
    assert_eq!(
        BigInteger::new_from_int(-12).add(BigInteger::new_from_int(-30)),
        BigInteger::new_from_int(-42)
    );
}

#[test]
fn multiplication_signs() {
    assert_eq!(
        BigInteger::new_from_int(-4).mul(BigInteger::new_from_int(-6)),
        BigInteger::new_from_int(24)
    );
    assert_eq!(
        BigInteger::new_from_int(-4).mul(BigInteger::new_from_int(6)),
        BigInteger::new_from_int(-24)
    );
    assert_eq!(
        BigInteger::new_from_int(4).mul(BigInteger::new_from_int(-6)),
        BigInteger::new_from_int(-24)
    );
}

#[test]
fn addition_is_commutative() {
    let r1 = BigInteger::new_from_int(987).add(BigInteger::new_from_int(-654));
    let r2 = BigInteger::new_from_int(-654).add(BigInteger::new_from_int(987));
    assert_eq!(r1, r2);
}

#[test]
fn multiplication_is_commutative() {
    let r1 = BigInteger::new_from_int(-87).mul(BigInteger::new_from_int(65));
    let r2 = BigInteger::new_from_int(65).mul(BigInteger::new_from_int(-87));
    assert_eq!(r1, r2);
}

#[test]
fn adding_zero_is_an_identity() {
    let r = BigInteger::new_from_int(-1020).add(BigInteger::zero());
    assert_eq!(r, BigInteger::new_from_int(-1020));
    let r = BigInteger::new_from_int(77).add(BigInteger::zero());
    assert_eq!(r, BigInteger::new_from_int(77));
}

#[test]
fn multiplying_by_zero_gives_zero() {
    let r = BigInteger::new_from_int(-1020).mul(BigInteger::zero());
    assert_eq!(r, BigInteger::zero());
    assert_eq!(r.to_decimal_string(), "0");
}

#[test]
fn one_is_a_multiplicative_identity() {
    let r = BigInteger::new_from_int(-314).mul(BigInteger::one());
    assert_eq!(r, BigInteger::new_from_int(-314));
}

#[test]
fn rendering_matches_native_rendering() {
    for n in [
        0i128,
        7,
        -1,
        100,
        -102,
        102030,
        9999999,
        -1000000,
        1234567890123456789,
        i128::MAX,
        i128::MIN + 1,
    ] {
        assert_eq!(BigInteger::new_from_int(n).to_decimal_string(), format!("{}", n));
    }
}

#[test]
fn construction_keeps_internal_and_trailing_zeros() {
    assert_eq!(BigInteger::new_from_int(100).to_decimal_string(), "100");
    assert_eq!(BigInteger::new_from_int(-102).to_decimal_string(), "-102");
}

#[test]
fn addition_beyond_the_native_range() {
    let sum = BigInteger::new_from_int(i128::MAX).add(BigInteger::new_from_int(i128::MAX));
    assert_eq!(
        sum.to_decimal_string(),
        "340282366920938463463374607431768211454"
    );
}

#[test]
fn equality_ignores_trailing_zeros() {
    let a = BigInteger::new(vec![1, 0], Sign::Positive);
    let b = BigInteger::new(vec![1], Sign::Positive);
    assert_eq!(a, b);
}

#[test]
fn equality_of_zero_ignores_the_sign() {
    let negative_zero = BigInteger::new(vec![0, 0], Sign::Negative);
    assert_eq!(negative_zero, BigInteger::zero());
}

#[test]
fn equality_distinguishes_signs_of_nonzero_values() {
    let a = BigInteger::new(vec![1], Sign::Positive);
    let b = BigInteger::new(vec![1], Sign::Negative);
    assert!(a != b);
}

#[test]
fn normalization_is_idempotent_on_canonical_values() {
    let a = BigInteger::new_from_int(120).optimize_digits();
    assert_eq!(a, BigInteger::new_from_int(120));
    let z = BigInteger::zero().optimize_digits();
    assert_eq!(z, BigInteger::zero());
    assert_eq!(z.to_decimal_string(), "0");
}

#[test]
fn normalization_fixes_a_negative_zero() {
    let n = BigInteger::new(vec![0, 0, 0], Sign::Negative).optimize_digits();
    assert_eq!(n.to_decimal_string(), "0");
    assert_eq!(n, BigInteger::zero());
}
