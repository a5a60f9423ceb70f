use apnum::{APNum, APNumParseError, BigInt, BigNat, Sign};

#[test]
fn bignat_simple_valid() {
    let result = BigNat::from_decimal("9546970867456973047694867034678");
    assert!(result.is_ok_and(|bignat| matches!(
        bignat.digits[..],
        [1443885622, 2721072739, 2146252237, 120]
    )))
}

#[test]
fn bignat_leading_zeros() {
    let result = BigNat::from_decimal("0009546970867456973047694867034678");
    assert!(result.is_ok_and(|bignat| matches!(
        bignat.digits[..],
        [1443885622, 2721072739, 2146252237, 120]
    )))
}

#[test]
fn bignat_empty_string() {
    let result = BigNat::from_decimal("");
    assert!(result.is_err_and(|err| matches!(err, APNumParseError::Empty)))
}

#[test]
fn bignat_invalid_string() {
    let result = BigNat::from_decimal("1234f");
    assert!(result.is_err_and(|err| matches!(err, APNumParseError::Invalid)));
    let result = BigNat::from_decimal("-1234");
    assert!(result.is_err_and(|err| matches!(err, APNumParseError::Invalid)))
}

#[test]
fn bigint_simple_valid() {
    let result = BigInt::from_decimal("-9546970867456973047694867034678");
    assert!(result.is_ok_and(|bigint| matches!(
        bigint.natural.digits[..],
        [1443885622, 2721072739, 2146252237, 120]
    ) && bigint.sign == Sign::Negative))
}

#[test]
fn bigint_zero() {
    let result = BigInt::from_decimal("00000");
    assert!(result.is_ok_and(|bigint| bigint.is_zero()))
}

#[test]
fn bigint_empty_with_minus() {
    let result = BigInt::from_decimal("-");
    assert!(result.is_err_and(|err| matches!(err, APNumParseError::Empty)))
}

#[test]
fn bigint_multiple_minuses() {
    let result = BigInt::from_decimal("--");
    assert!(result.is_err_and(|err| matches!(err, APNumParseError::Invalid)))
}

#[test]
fn mod_simple_valid() {
    let result = BigInt::from_decimal("-9546970867456973047694867034678");
    assert!(result.is_ok_and(|bigint| matches!(
        bigint.natural.digits[..],
        [1443885622, 2721072739, 2146252237, 120]
    ) && bigint.sign == Sign::Negative))
}

#[test]
fn mod_zero() {
    let result = BigInt::from_decimal("00000");
    assert!(result.is_ok_and(|bigint| bigint.is_zero()))
}

#[test]
fn mod_empty_with_minus() {
    let result = BigInt::from_decimal("-");
    assert!(result.is_err_and(|err| matches!(err, APNumParseError::Empty)))
}

#[test]
fn mod_multiple_minuses() {
    let result = BigInt::from_decimal("--");
    assert!(result.is_err_and(|err| matches!(err, APNumParseError::Invalid)))
}

#[test]
fn mod_simple_valid_nat() {
    let result = BigNat::from_decimal("9546970867456973047694867034678");
    assert!(result.is_ok_and(|bignat| matches!(
        bignat.digits[..],
        [1443885622, 2721072739, 2146252237, 120]
    )))
}

#[test]
fn mod_leading_zeros() {
    let result = BigNat::from_decimal("0009546970867456973047694867034678");
    assert!(result.is_ok_and(|bignat| matches!(
        bignat.digits[..],
        [1443885622, 2721072739, 2146252237, 120]
    )))
}

#[test]
fn mod_empty_string() {
    let result = BigNat::from_decimal("");
    assert!(result.is_err_and(|err| matches!(err, APNumParseError::Empty)))
}

#[test]
fn mod_invalid_string() {
    let result = BigNat::from_decimal("1234f");
    assert!(result.is_err_and(|err| matches!(err, APNumParseError::Invalid)));
    let result = BigNat::from_decimal("-1234");
    assert!(result.is_err_and(|err| matches!(err, APNumParseError::Invalid)))
}
