use apnum::{APNum, BigInt, BigNat};

#[test]
fn round_trip_strips_leading_zeros() {
    let n = BigNat::from_decimal("00005").unwrap();
    assert!(n.to_decimal() == "5");
    let n = BigNat::from_decimal("9546970867456973047694867034678").unwrap();
    assert!(n.to_decimal() == "9546970867456973047694867034678");
}

#[test]
fn round_trip_signed() {
    let n = BigInt::from_decimal("-00987").unwrap();
    assert!(n.to_decimal() == "-987");
    let n = BigInt::from_decimal("00000").unwrap();
    assert!(n.to_decimal() == "0");
    let n = BigInt::from_decimal("120").unwrap();
    assert!(n.to_decimal() == "120");
}

#[test]
fn format_zero() {
    assert!(BigNat::zero().to_decimal() == "0");
    assert!(BigInt::zero().to_decimal() == "0");
}

#[test]
fn add_neg_inverse() {
    let a = BigInt::from_decimal("12345678901234567890123456789").unwrap();
    let s = a.add(&a.neg());
    assert!(s == BigInt::zero());
    assert!(s.natural.digits.is_empty());
}

#[test]
fn single_digit_mul_consistency() {
    let a = BigNat::from_decimal("340282366920938463426481119284349108225").unwrap();
    let full = a.mul(&BigNat::from_u64(7));
    let fast = a.mul_digit(7);
    assert!(full == fast);
    let full = a.mul(&BigNat::from_u64(u32::MAX as u64));
    let fast = a.mul_digit(u32::MAX);
    assert!(full == fast);
}

#[test]
fn division_identity_example() {
    // -1000 = -2 * 900 + 800: the remainder takes the divisor's sign
    let (q, r) = BigInt::from_i64(-1000).div(&BigInt::from_i64(900));
    assert!(q == BigInt::from_i64(-2));
    assert!(r == BigInt::from_i64(800));
    assert!(q.mul(&BigInt::from_i64(900)).add(&r) == BigInt::from_i64(-1000));
}

#[test]
fn division_even_magnitudes_mixed_sign() {
    // with evenly dividing magnitudes and mixed signs the remainder
    // equals the divisor, keeping q*b + r == a
    let (q, r) = BigInt::from_i64(10).div(&BigInt::from_i64(-2));
    assert!(q == BigInt::from_i64(-6));
    assert!(r == BigInt::from_i64(-2));
}

#[test]
fn long_division_wide_divisor() {
    // the scaled divisor gains a digit here; the quotient must still be exact
    let a = BigNat::from_decimal("73786976286248271871").unwrap();
    let b = BigNat::from_u64(8589934591);
    let (q, r) = a.div(&b);
    assert!(q == BigNat::from_u64(8589934591));
    assert!(r == BigNat::from_u64(8589934590));
}

#[test]
fn long_division_random_shape() {
    let a = BigNat::from_decimal("123456789012345678901234567890123456789").unwrap();
    let b = BigNat::from_decimal("9876543210987654321").unwrap();
    let (q, r) = a.div(&b);
    assert!(q.mul(&b).add(&r) == a);
    assert!(r < b);
}

#[test]
fn narrowing_conversions() {
    assert!(BigNat::from_u64(7).try_into_u32() == Ok(7));
    assert!(BigNat::zero().try_into_u32() == Ok(0));
    assert!(BigNat::from_u64(u32::MAX as u64 + 1).try_into_u32() == Err(()));
    assert!(BigInt::from_i64(-2147483648).try_into_i32() == Ok(i32::MIN));
    assert!(BigInt::from_i64(2147483647).try_into_i32() == Ok(i32::MAX));
    assert!(BigInt::from_i64(2147483648).try_into_i32() == Err(()));
    assert!(BigInt::zero().try_into_i32() == Ok(0));
}

#[test]
fn ordering_vs_difference_sign() {
    let a = BigInt::from_i64(123);
    let b = BigInt::from_i64(321);
    assert!(a < b);
    assert!(a.sub(&b).is_negative());
    assert!(!b.sub(&a).is_negative());
}

#[test]
fn sign_predicates_and_abs() {
    let a = BigInt::from_i64(-5);
    assert!(a.is_negative());
    assert!(!a.is_positive());
    assert!(a.abs() == BigInt::from_i64(5));
    assert!(BigInt::zero().abs() == BigInt::zero());
    let b = BigInt::from_bignat(BigNat::from_u64(9));
    assert!(b.is_positive());
    assert!(b == BigInt::from_i64(9));
}

#[test]
fn pow_uint_values() {
    let ten = BigNat::from_u64(10);
    assert!(ten.pow_uint(0) == BigNat::from_u64(1));
    assert!(ten.pow_uint(3) == BigNat::from_u64(1000));
    assert!(ten.pow_uint(20) == BigNat::from_decimal("100000000000000000000").unwrap());
}

#[test]
fn short_division_digits() {
    let a = BigNat::from_decimal("18446744073709551616").unwrap();
    let (q, r) = a.div_digit(10);
    assert!(q == BigNat::from_decimal("1844674407370955161").unwrap());
    assert!(r == 6);
}

#[test]
fn carry_boundaries() {
    let x = BigNat::from_u64(u32::MAX as u64);
    assert!(x.add(&x) == BigNat::from_u64(8589934590));
    assert!(x.mul(&x) == BigNat::from_u64(18446744065119617025));
}

#[test]
fn zero_normalized_strips() {
    let raw = BigNat { digits: vec![8, 0, 0] };
    let n = raw.zero_normalized();
    assert!(matches!(n.digits[..], [8]));
    let raw = BigNat { digits: vec![0, 0] };
    assert!(raw.zero_normalized().digit_count() == 0);
}

#[test]
fn long_division_three_digit_divisor() {
    let a = BigNat::from_decimal("123456789098765432101234567890987654321012345678909876543210")
        .unwrap();
    // 2^65 - 1: three digits whose leading digit is 1, so the first scale
    // factor would widen the divisor and the fallback factor is used
    let b = BigNat::from_decimal("36893488147419103231").unwrap();
    let (q, r) = a.div(&b);
    assert!(q == BigNat::from_decimal("3346302973724155563051967285476687908871").unwrap());
    assert!(r == BigNat::from_decimal("12311749086406881009").unwrap());

    let b = BigNat::from_decimal("79228162514264337593543962681").unwrap();
    let (q, r) = a.div(&b);
    assert!(q == BigNat::from_decimal("1558243750466106255986385531826").unwrap());
    assert!(r == BigNat::from_decimal("74285999558209370700194757704").unwrap());
    assert!(q.mul(&b).add(&r) == a);
}
