use apnum::{APNum, BigInt, BigNat};

#[test]
fn bignat_add() {
    let x = BigNat::zero();
    let y = BigNat::from_u64(123);
    assert!(x.add(&y) == y);
    let x = BigNat::from_u64(u32::MAX as u64);
    let y = BigNat::from_u64(u32::MAX as u64);
    assert!(x.add(&y) == BigNat::from_u64(8589934590));
    let x = BigNat::from_u64(u64::MAX);
    let y = BigNat::from_u64(u64::MAX);
    assert!(x.add(&y) == BigNat::from_decimal("36893488147419103230").unwrap());
    let x = BigNat::from_u64(77);
    let y = BigNat::from_u64(33);
    assert!(x.add(&y) == BigNat::from_u64(110));
}

#[test]
fn bignat_mul() {
    let x = BigNat::zero();
    let y = BigNat::from_u64(123);
    assert!(x.mul(&y) == BigNat::zero());
    let x = BigNat::from_u64(u32::MAX as u64);
    let y = BigNat::from_u64(u32::MAX as u64);
    assert!(x.mul(&y) == BigNat::from_u64(18446744065119617025));
    let x = BigNat::from_u64(u64::MAX);
    let y = BigNat::from_u64(u64::MAX);
    assert!(
        x.mul(&y) == BigNat::from_decimal("340282366920938463426481119284349108225").unwrap()
    );
    let x = BigNat::from_u64(77);
    let y = BigNat::from_u64(33);
    assert!(x.mul(&y) == BigNat::from_u64(2541));
}

#[test]
fn bignat_sub() {
    let x = BigNat::from_u64(100);
    let y = BigNat::from_u64(98);
    assert!(x.sub(&y) == BigInt::from_i64(2));
    assert!(y.sub(&x) == BigInt::from_i64(-2));
    assert!(x.sub(&x) == BigInt::zero());

    let x = BigNat::from_u64(121110987654321);
    let y = BigNat::from_u64(u64::MAX);
    assert!(x.sub(&y) == BigInt::from_decimal("-18446622962721897294").unwrap());
    assert!(y.sub(&x) == BigInt::from_decimal("18446622962721897294").unwrap());

    let x = BigNat::from_u64(5);
    assert!(x.sub(&BigNat::zero()) == BigInt::from_i64(5));
    assert!(BigNat::zero().sub(&x) == BigInt::from_i64(-5));

    assert!(BigNat::zero().sub(&BigNat::zero()) == BigInt::zero());
}

#[test]
fn bignat_div() {
    let x = BigNat::from_u64(1000);
    let y = BigNat::from_u64(900);
    assert!(x.div(&y) == (BigNat::from_u64(1), BigNat::from_u64(100)));
    let x = BigNat::from_u64(42);
    let y = BigNat::from_u64(10);
    assert!(x.div(&y) == (BigNat::from_u64(4), BigNat::from_u64(2)));
    // this example also reaches the add-back step with multi-digit numbers
    let x = BigNat::from_u64(10987654321);
    let y = BigNat::from_u64(10987654319);
    assert!(x.div(&y) == (BigNat::from_u64(1), BigNat::from_u64(2)));
    let x = BigNat::from_u64(0);
    let y = BigNat::from_u64(2);
    assert!(x.div(&y) == (BigNat::zero(), BigNat::zero()));
    // a case where the trial quotient digit needs correction
    let x = BigNat::from_u64(4100);
    let y = BigNat::from_u64(588);
    assert!(x.div(&y) == (BigNat::from_u64(6), BigNat::from_u64(572)));
}

#[test]
fn bignat_cmp() {
    let x = BigNat::from_u64(9999999999998);
    let y = BigNat::from_u64(9999999999999);
    assert!(x < y);
    let x = BigNat::from_u64(1234567891011121314);
    let y = BigNat::from_u64(12345678910111213);
    assert!(x > y);
    let x = BigNat::from_u64(u64::MAX);
    let y = BigNat::from_u64(u64::MAX);
    assert!(x == y);
    let x = BigNat::from_u64(0);
    let y = BigNat::from_u64(0);
    assert!(x == y);
    let x = BigNat::from_u64(0);
    let y = BigNat::from_u64(4);
    assert!(x < y);
}
