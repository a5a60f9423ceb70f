use apnum::{APNum, BigInt};

// These tests exercise the sign handling; the magnitude arithmetic is
// covered by the natural-number tests.

#[test]
fn bigint_add() {
    let x = BigInt::zero();
    let y = BigInt::from_i64(123);
    assert!(x.add(&y) == y);
    let x = BigInt::from_i64(321);
    let y = BigInt::from_i64(-296);
    assert!(x.add(&y) == BigInt::from_i64(25));
    let x = BigInt::from_i64(-321);
    let y = BigInt::from_i64(12);
    assert!(x.add(&y) == BigInt::from_i64(-309));
    let x = BigInt::from_i64(77);
    let y = BigInt::from_i64(-33);
    assert!(x.add(&y) == BigInt::from_i64(44));
}

#[test]
fn bigint_mul() {
    let x = BigInt::zero();
    let y = BigInt::from_i64(123);
    assert!(x.mul(&y) == BigInt::zero());
    let x = BigInt::from_i64(321);
    let y = BigInt::from_i64(-296);
    assert!(x.mul(&y) == BigInt::from_i64(-95016));
    let x = BigInt::from_i64(-321);
    let y = BigInt::from_i64(12);
    assert!(x.mul(&y) == BigInt::from_i64(-3852));
    let x = BigInt::from_i64(-77);
    let y = BigInt::from_i64(-33);
    assert!(x.mul(&y) == BigInt::from_i64(2541));
}

#[test]
fn bigint_sub() {
    let x = BigInt::from_i64(100);
    let y = BigInt::from_i64(-98);
    assert!(x.sub(&y) == BigInt::from_i64(198));
    assert!(y.sub(&x) == BigInt::from_i64(-198));
    assert!(x.sub(&x) == BigInt::zero());

    let x = BigInt::from_i64(4464);
    let y = BigInt::from_i64(-18);
    assert!(x.sub(&y) == BigInt::from_i64(4482));
    assert!(y.sub(&x) == BigInt::from_i64(-4482));

    let x = BigInt::from_i64(5);
    assert!(x.sub(&BigInt::zero()) == BigInt::from_i64(5));
    assert!(BigInt::zero().sub(&x) == BigInt::from_i64(-5));

    assert!(BigInt::zero().sub(&BigInt::zero()) == BigInt::zero());
}

#[test]
fn bigint_div() {
    let x = BigInt::from_i64(-1000);
    let y = BigInt::from_i64(900);
    assert!(x.div(&y) == (BigInt::from_i64(-2), BigInt::from_i64(800)));
    let x = BigInt::from_i64(42);
    let y = BigInt::from_i64(-10);
    assert!(x.div(&y) == (BigInt::from_i64(-5), BigInt::from_i64(-8)));
    let x = BigInt::from_i64(43);
    let y = BigInt::from_i64(-2);
    assert!(x.div(&y) == (BigInt::from_i64(-22), BigInt::from_i64(-1)));
    let x = BigInt::from_i64(-789);
    let y = BigInt::from_i64(-34);
    assert!(x.div(&y) == (BigInt::from_i64(23), BigInt::from_i64(-7)));
    assert!(x.neg().div(&y) == (BigInt::from_i64(-24), BigInt::from_i64(-27)));
    let x = BigInt::from_i64(0);
    let y = BigInt::from_i64(2);
    assert!(x.div(&y) == (BigInt::zero(), BigInt::zero()));
}

#[test]
fn bigint_cmp() {
    let x = BigInt::from_i64(123);
    let y = BigInt::from_i64(321);
    assert!(x < y);
    assert!(x.neg() < y);
    let x = BigInt::from_i64(123);
    let y = BigInt::from_i64(21);
    assert!(x > y);
    assert!(x.neg() < y.neg());
    let x = BigInt::from_i64(4);
    let y = BigInt::from_i64(4);
    assert!(x == y);
    assert!(x > y.neg());
    let x = BigInt::from_i64(0);
    let y = BigInt::from_i64(0);
    assert!(x == y);
    assert!(x == y.neg());
    let x = BigInt::from_i64(0);
    let y = BigInt::from_i64(4);
    assert!(x < y);
    assert!(x > y.neg());
}
