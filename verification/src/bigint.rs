//! Arbitrary-precision signed integers: a sign tag over a `BigNat`
//! magnitude, with every signed operation reduced to a case analysis over
//! sign combinations that delegates to the magnitude engines.

use crate::bignat::BigNat;
use crate::digits::{cmp3_ordering, lemma_canonical_zero, seq_cmp3};
use crate::APNum;
use vstd::prelude::*;

verus! {

/// The sign tag of a `BigInt`; `Zero` marks the single representation of
/// zero, whose magnitude is the empty digit vector.
#[derive(Clone, Copy, PartialEq, Eq, Structural)]
pub enum Sign {
    Positive,
    Negative,
    Zero,
}

/// Arbitrary-precision signed integer.
pub struct BigInt {
    /// The sign tag; `Zero` exactly when the magnitude is zero.
    pub sign: Sign,
    /// The unsigned magnitude.
    pub natural: BigNat,
}

impl BigInt {
    /// The signed numeric value.
    pub open spec fn value(&self) -> int {
        match self.sign {
            Sign::Positive => self.natural.value() as int,
            Sign::Negative => -(self.natural.value() as int),
            Sign::Zero => 0,
        }
    }

    /// Well-formed: the magnitude is canonical and the tag is `Zero`
    /// exactly when the magnitude is empty, so zero has one representation.
    pub open spec fn wf(&self) -> bool {
        &&& self.natural.wf()
        &&& self.sign is Zero <==> self.natural.digits@.len() == 0
    }

    /// Whether this value is strictly below zero.
    pub fn is_negative(&self) -> (r: bool)
        requires
            self.wf(),
        ensures
            r <==> self.value() < 0,
            r <==> self.sign is Negative,
    {
        proof {
            crate::digits::lemma_canonical_zero(self.natural.digits@);
        }
        matches!(self.sign, Sign::Negative)
    }

    /// Whether this value is strictly above zero.
    pub fn is_positive(&self) -> (r: bool)
        requires
            self.wf(),
        ensures
            r <==> self.value() > 0,
            r <==> self.sign is Positive,
    {
        proof {
            crate::digits::lemma_canonical_zero(self.natural.digits@);
        }
        matches!(self.sign, Sign::Positive)
    }

    /// The absolute value.
    pub fn abs(&self) -> (r: BigInt)
        requires
            self.wf(),
        ensures
            r.wf(),
            r.value() == if self.value() >= 0 {
                self.value()
            } else {
                -self.value()
            },
    {
        let sign = match self.sign {
            Sign::Negative => Sign::Positive,
            Sign::Positive => Sign::Positive,
            Sign::Zero => Sign::Zero,
        };
        BigInt { sign, natural: self.natural.clone() }
    }

    /// Negation: flips the sign tag and keeps the magnitude.
    pub fn neg(&self) -> (r: BigInt)
        requires
            self.wf(),
        ensures
            r.wf(),
            r.value() == -self.value(),
    {
        let sign = match self.sign {
            Sign::Positive => Sign::Negative,
            Sign::Negative => Sign::Positive,
            Sign::Zero => Sign::Zero,
        };
        BigInt { sign, natural: self.natural.clone() }
    }
}


impl crate::APNum for BigInt {
    /// The magnitude is canonical and the tag is `Zero` exactly on the
    /// empty magnitude.
    open spec fn well_formed(&self) -> bool {
        self.wf()
    }

    /// The signed numeric value.
    open spec fn as_int(&self) -> int {
        self.value()
    }

    /// Re-canonicalization is meaningful unless a zero tag sits on a
    /// nonzero magnitude, which no sign could represent.
    open spec fn norm_ready(&self) -> bool {
        !(self.sign is Zero) || self.natural.value() == 0
    }

    open spec fn spec_digit_count(&self) -> nat {
        self.natural.digits@.len()
    }

    /// The signed integer zero: tag `Zero` over the empty magnitude.
    fn zero() -> (r: BigInt) {
        BigInt { sign: Sign::Zero, natural: BigNat::zero() }
    }

    /// Whether this value is zero: canonically, whether the tag is `Zero`.
    fn is_zero(&self) -> (r: bool) {
        proof {
            crate::digits::lemma_canonical_zero(self.natural.digits@);
        }
        matches!(self.sign, Sign::Zero)
    }

    /// Normalizes the magnitude and moves the tag to `Zero` if the
    /// magnitude turned out to be zero.
    fn zero_normalized(self) -> (r: BigInt) {
        let BigInt { sign, natural } = self;
        let natural = natural.zero_normalized();
        proof {
            crate::digits::lemma_canonical_zero(natural.digits@);
        }
        if natural.digit_count() == 0 {
            BigInt { sign: Sign::Zero, natural }
        } else {
            BigInt { sign, natural }
        }
    }

    /// Number of stored magnitude digits.
    fn digit_count(&self) -> (r: usize) {
        self.natural.digits.len()
    }
}


/// Structural comparison of signed values: by sign rank, then by
/// magnitude (reversed under two negative signs).
pub open spec fn int_cmp3(a: BigInt, b: BigInt) -> int {
    match (a.sign, b.sign) {
        (Sign::Positive, Sign::Positive) => seq_cmp3(a.natural.digits@, b.natural.digits@),
        (Sign::Negative, Sign::Negative) => seq_cmp3(b.natural.digits@, a.natural.digits@),
        (Sign::Zero, Sign::Zero) => seq_cmp3(a.natural.digits@, b.natural.digits@),
        (Sign::Positive, _) => 1,
        (Sign::Negative, _) => -1,
        (Sign::Zero, Sign::Negative) => 1,
        (Sign::Zero, Sign::Positive) => -1,
    }
}

impl BigInt {
    /// Wraps a magnitude as a non-negative signed integer.
    pub fn from_bignat(natural: BigNat) -> (r: BigInt)
        requires
            natural.wf(),
        ensures
            r.wf(),
            r.value() == natural.value(),
    {
        proof {
            lemma_canonical_zero(natural.digits@);
        }
        if natural.digit_count() == 0 {
            BigInt::zero()
        } else {
            BigInt { sign: Sign::Positive, natural }
        }
    }

    /// Builds the signed integer of an unsigned machine integer.
    pub fn from_u64(value: u64) -> (r: BigInt)
        ensures
            r.wf(),
            r.value() == value,
    {
        BigInt::from_bignat(BigNat::from_u64(value))
    }

    /// Builds the signed integer of a signed machine integer.
    pub fn from_i64(value: i64) -> (r: BigInt)
        ensures
            r.wf(),
            r.value() == value,
    {
        if value == 0 {
            return BigInt::zero();
        }
        let mag: u64 = if value == i64::MIN {
            0x8000_0000_0000_0000u64
        } else if value < 0 {
            (-value) as u64
        } else {
            value as u64
        };
        let natural = BigNat::from_u64(mag);
        proof {
            lemma_canonical_zero(natural.digits@);
        }
        let sign = if value < 0 {
            Sign::Negative
        } else {
            Sign::Positive
        };
        BigInt { sign, natural }
    }

    /// Signed addition: same signs add magnitudes and keep the sign,
    /// opposite signs subtract magnitudes, a zero operand passes the other
    /// through.
    pub fn add(&self, rhs: &BigInt) -> (r: BigInt)
        requires
            self.wf(),
            rhs.wf(),
        ensures
            r.wf(),
            r.value() == self.value() + rhs.value(),
    {
        proof {
            lemma_canonical_zero(self.natural.digits@);
            lemma_canonical_zero(rhs.natural.digits@);
        }
        match (self.sign, rhs.sign) {
            (Sign::Positive, Sign::Positive) => {
                let natural = self.natural.add(&rhs.natural);
                proof {
                    lemma_canonical_zero(natural.digits@);
                }
                BigInt { sign: Sign::Positive, natural }
            },
            (Sign::Negative, Sign::Negative) => {
                let natural = self.natural.add(&rhs.natural);
                proof {
                    lemma_canonical_zero(natural.digits@);
                }
                BigInt { sign: Sign::Negative, natural }
            },
            (Sign::Positive, Sign::Negative) => self.natural.sub(&rhs.natural),
            (Sign::Negative, Sign::Positive) => rhs.natural.sub(&self.natural),
            (_, Sign::Zero) => self.clone(),
            (Sign::Zero, _) => rhs.clone(),
        }
    }

    /// Signed subtraction, as addition of the negation.
    pub fn sub(&self, rhs: &BigInt) -> (r: BigInt)
        requires
            self.wf(),
            rhs.wf(),
        ensures
            r.wf(),
            r.value() == self.value() - rhs.value(),
    {
        self.add(&rhs.neg())
    }

    /// Signed multiplication: the magnitude is the product of magnitudes,
    /// the sign is positive on matching signs, negative on mixed ones, and
    /// zero when either operand is zero.
    pub fn mul(&self, rhs: &BigInt) -> (r: BigInt)
        requires
            self.wf(),
            rhs.wf(),
        ensures
            r.wf(),
            r.value() == self.value() * rhs.value(),
    {
        proof {
            lemma_canonical_zero(self.natural.digits@);
            lemma_canonical_zero(rhs.natural.digits@);
        }
        let sign = match (self.sign, rhs.sign) {
            (Sign::Positive, Sign::Positive) | (Sign::Negative, Sign::Negative) => Sign::Positive,
            (Sign::Positive, Sign::Negative) | (Sign::Negative, Sign::Positive) => Sign::Negative,
            (_, Sign::Zero) | (Sign::Zero, _) => Sign::Zero,
        };
        let natural = self.natural.mul(&rhs.natural);
        proof {
            lemma_canonical_zero(natural.digits@);
            let na = self.natural.value() as int;
            let nb = rhs.natural.value() as int;
            if self.sign is Zero || rhs.sign is Zero {
                assert(na * nb == 0) by (nonlinear_arith)
                    requires
                        na == 0 || nb == 0,
                ;
                assert(self.value() * rhs.value() == 0) by (nonlinear_arith)
                    requires
                        self.value() == 0 || rhs.value() == 0,
                ;
            } else {
                assert(na * nb > 0) by (nonlinear_arith)
                    requires
                        na > 0,
                        nb > 0,
                ;
                assert((-na) * nb == -(na * nb) && na * (-nb) == -(na * nb) && (-na) * (-nb) == na
                    * nb) by (nonlinear_arith);
            }
        }
        BigInt { sign, natural }
    }

    /// Signed division with floor (toward negative infinity) semantics:
    /// the magnitude quotient and remainder are adjusted per sign
    /// combination so that the remainder takes the divisor's sign (it
    /// equals the divisor when the magnitudes divide evenly under mixed
    /// signs, as the unadjusted magnitude remainder is then zero).
    pub fn div(&self, rhs: &BigInt) -> (r: (BigInt, BigInt))
        requires
            self.wf(),
            rhs.wf(),
            rhs.value() != 0,
        ensures
            r.0.wf(),
            r.1.wf(),
            r.0.value() * rhs.value() + r.1.value() == self.value(),
            rhs.value() > 0 ==> 0 <= r.1.value() <= rhs.value(),
            rhs.value() < 0 ==> rhs.value() <= r.1.value() <= 0,
            ({
                let a = self.value();
                let b = rhs.value();
                let am = if a >= 0 { a } else { -a };
                let bm = if b >= 0 { b } else { -b };
                let qm = am / bm;
                let rm = am % bm;
                if a == 0 {
                    r.0.value() == 0 && r.1.value() == 0
                } else if a > 0 && b > 0 {
                    r.0.value() == qm && r.1.value() == rm
                } else if a < 0 && b < 0 {
                    r.0.value() == qm && r.1.value() == -rm
                } else if a > 0 && b < 0 {
                    r.0.value() == -qm - 1 && r.1.value() == b + rm
                } else {
                    r.0.value() == -qm - 1 && r.1.value() == b - rm
                }
            }),
    {
        proof {
            lemma_canonical_zero(self.natural.digits@);
            lemma_canonical_zero(rhs.natural.digits@);
        }
        let (q, rm) = self.natural.div(&rhs.natural);
        proof {
            lemma_canonical_zero(q.digits@);
            lemma_canonical_zero(rm.digits@);
            vstd::arithmetic::div_mod::lemma_fundamental_div_mod_converse(
                self.natural.value() as int,
                rhs.natural.value() as int,
                q.value() as int,
                rm.value() as int,
            );
        }
        let ghost qv = q.value() as int;
        let ghost rv = rm.value() as int;
        let ghost nb = rhs.natural.value() as int;
        match (self.sign, rhs.sign) {
            (Sign::Zero, _) => {
                proof {
                    assert(0 * rhs.value() == 0) by (nonlinear_arith);
                }
                (BigInt::zero(), BigInt::zero())
            },
            (Sign::Positive, Sign::Positive) => (BigInt::from_bignat(q), BigInt::from_bignat(rm)),
            (Sign::Negative, Sign::Negative) => {
                proof {
                    assert(qv * (-nb) + (-rv) == -(qv * nb + rv)) by (nonlinear_arith);
                }
                (BigInt::from_bignat(q), BigInt::from_bignat(rm).neg())
            },
            (Sign::Positive, Sign::Negative) => {
                let q2 = BigInt::from_bignat(q).neg().sub(&BigInt::from_u64(1));
                let r2 = rhs.add(&BigInt::from_bignat(rm));
                proof {
                    assert((-qv - 1) * (-nb) + (-nb + rv) == qv * nb + rv) by (nonlinear_arith);
                }
                (q2, r2)
            },
            (Sign::Negative, Sign::Positive) => {
                let q2 = BigInt::from_bignat(q).neg().sub(&BigInt::from_u64(1));
                let r2 = rhs.sub(&BigInt::from_bignat(rm));
                proof {
                    assert((-qv - 1) * nb + (nb - rv) == -(qv * nb + rv)) by (nonlinear_arith);
                }
                (q2, r2)
            },
            (_, Sign::Zero) => {
                proof {
                    assert(false);
                }
                (BigInt::zero(), BigInt::zero())
            },
        }
    }

    /// Comparison of signed values: negative below zero below positive,
    /// magnitudes decide within one sign (reversed when both negative).
    pub fn cmp(&self, other: &BigInt) -> (r: core::cmp::Ordering)
        ensures
            r == cmp3_ordering(int_cmp3(*self, *other)),
            self.wf() && other.wf() ==> {
                &&& r is Less <==> self.value() < other.value()
                &&& r is Equal <==> self.value() == other.value()
                &&& r is Greater <==> self.value() > other.value()
            },
    {
        proof {
            if self.wf() && other.wf() {
                lemma_canonical_zero(self.natural.digits@);
                lemma_canonical_zero(other.natural.digits@);
            }
        }
        match (self.sign, other.sign) {
            (Sign::Positive, Sign::Positive) => self.natural.cmp(&other.natural),
            (Sign::Negative, Sign::Negative) => other.natural.cmp(&self.natural),
            (Sign::Zero, Sign::Zero) => self.natural.cmp(&other.natural),
            (Sign::Positive, _) => core::cmp::Ordering::Greater,
            (Sign::Negative, _) => core::cmp::Ordering::Less,
            (Sign::Zero, Sign::Negative) => core::cmp::Ordering::Greater,
            (Sign::Zero, Sign::Positive) => core::cmp::Ordering::Less,
        }
    }

    /// Narrowing conversion: the value as an `i32` when it fits the
    /// machine range, an error otherwise.
    pub fn try_into_i32(&self) -> (r: Result<i32, ()>)
        requires
            self.wf(),
        ensures
            match r {
                Ok(v) => v == self.value(),
                Err(_) => self.value() < -0x8000_0000 || self.value() > 0x7fff_ffff,
            },
    {
        proof {
            if self.natural.digits@.len() >= 2 {
                crate::digits::lemma_canonical_lower(self.natural.digits@);
                vstd::arithmetic::power::lemma_pow1(crate::digits::base() as int);
                if self.natural.digits@.len() >= 3 {
                    vstd::arithmetic::power::lemma_pow_increases(
                        crate::digits::base(),
                        1,
                        (self.natural.digits@.len() - 1) as nat,
                    );
                }
            }
            if self.natural.digits@.len() == 1 {
                crate::digits::lemma_nat_of_single(self.natural.digits@);
            }
        }
        match self.sign {
            Sign::Zero => Ok(0),
            Sign::Positive => {
                if self.natural.digits.len() == 1 && self.natural.digits[0] <= 0x7fff_ffff {
                    Ok(self.natural.digits[0] as i32)
                } else {
                    Err(())
                }
            },
            Sign::Negative => {
                if self.natural.digits.len() == 1 && self.natural.digits[0] <= 0x8000_0000 {
                    Ok((-(self.natural.digits[0] as i64)) as i32)
                } else {
                    Err(())
                }
            },
        }
    }
}

impl Clone for BigInt {
    /// Copies the sign tag and the magnitude.
    fn clone(&self) -> (r: Self)
        ensures
            r.sign == self.sign,
            r.natural.digits@ == self.natural.digits@,
    {
        BigInt { sign: self.sign, natural: self.natural.clone() }
    }
}

impl PartialEq for BigInt {
    /// Structural equality: same sign tag and same magnitude digits. On
    /// well-formed values this coincides with value equality.
    fn eq(&self, other: &Self) -> (r: bool) {
        let same_sign = match (self.sign, other.sign) {
            (Sign::Positive, Sign::Positive) => true,
            (Sign::Negative, Sign::Negative) => true,
            (Sign::Zero, Sign::Zero) => true,
            _ => false,
        };
        same_sign && self.natural == other.natural
    }
}

impl vstd::std_specs::cmp::PartialEqSpecImpl for BigInt {
    open spec fn obeys_eq_spec() -> bool {
        true
    }

    open spec fn eq_spec(&self, other: &Self) -> bool {
        self.sign == other.sign && self.natural.digits@ == other.natural.digits@
    }
}

impl PartialOrd for BigInt {
    /// Total structural comparison; on well-formed values it is the value
    /// order, so `<` and friends order by numeric value.
    fn partial_cmp(&self, other: &Self) -> (r: Option<core::cmp::Ordering>) {
        Some(self.cmp(other))
    }
}

impl vstd::std_specs::cmp::PartialOrdSpecImpl for BigInt {
    open spec fn obeys_partial_cmp_spec() -> bool {
        true
    }

    open spec fn partial_cmp_spec(&self, other: &Self) -> Option<core::cmp::Ordering> {
        Some(cmp3_ordering(int_cmp3(*self, *other)))
    }
}

} // verus!
