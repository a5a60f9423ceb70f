//! Arbitrary-precision natural numbers: a canonical digit vector in base
//! 2^32 (least-significant digit first, no most-significant zeros), with
//! verified addition, subtraction, multiplication, division, comparison,
//! and decimal conversion.

use crate::digits::{
    base, canonical, cmp3_ordering, lemma_canonical_from_value, lemma_canonical_lower,
    lemma_canonical_zero, lemma_cmp3_at, lemma_cmp3_total, lemma_cmp3_value, lemma_cmp3_zero,
    lemma_nat_of_bound, lemma_nat_of_push, lemma_nat_of_push_zero, lemma_nat_of_split,
    lemma_nat_of_upto_full, lemma_value_shorter_lt, nat_of, nat_of_upto, seq_cmp3,
};
use vstd::arithmetic::div_mod::*;
use vstd::arithmetic::mul::*;
use vstd::arithmetic::power::*;
use crate::APNum;
use vstd::prelude::*;

verus! {

/// Arbitrary-precision natural number.
pub struct BigNat {
    /// Digits in base 2^32, least significant first.
    pub digits: Vec<u32>,
}

impl BigNat {
    /// The numeric value this digit vector stands for.
    pub open spec fn value(&self) -> nat {
        nat_of(self.digits@)
    }

    /// Canonical form: no most-significant zero digits, so zero is the
    /// empty vector and equal values have equal representations.
    pub open spec fn wf(&self) -> bool {
        canonical(self.digits@)
    }

    /// Builds the canonical representation of a machine integer.
    pub fn from_u64(value: u64) -> (r: BigNat)
        ensures
            r.wf(),
            r.value() == value,
    {
        let mut digits: Vec<u32> = Vec::new();
        let mut v: u64 = value;
        proof {
            lemma_pow0(base() as int);
        }
        while v != 0
            invariant
                nat_of(digits@) + v * pow(base() as int, digits@.len() as nat) == value,
                v == 0 ==> canonical(digits@),
            decreases v,
        {
            let ghost len = digits@.len();
            let ghost vold = v as int;
            let d: u32 = (v % crate::BASE) as u32;
            proof {
                lemma_nat_of_push(digits@, d);
                lemma_pow_adds(base() as int, len as nat, 1);
                lemma_pow1(base() as int);
                lemma_pow_positive(base() as int, len as nat);
                let p = pow(base() as int, len as nat);
                lemma_fundamental_div_mod(vold, base() as int);
                assert((d + base() * (vold / base() as int)) * p == d * p + (vold / base() as int)
                    * (base() * p)) by (nonlinear_arith);
                assert(vold * p == (d + base() * (vold / base() as int)) * p);
            }
            digits.push(d);
            v = v / crate::BASE;
        }
        proof {
            lemma_pow_positive(base() as int, digits@.len() as nat);
        }
        BigNat { digits }
    }

    /// Comparison of two canonical digit vectors: by digit count, then by
    /// digits from the most significant end.
    pub fn cmp(&self, other: &BigNat) -> (r: core::cmp::Ordering)
        ensures
            r == cmp3_ordering(seq_cmp3(self.digits@, other.digits@)),
            self.wf() && other.wf() ==> {
                &&& r is Less <==> self.value() < other.value()
                &&& r is Equal <==> self.value() == other.value()
                &&& r is Greater <==> self.value() > other.value()
            },
    {
        proof {
            if self.wf() && other.wf() {
                lemma_cmp3_value(self.digits@, other.digits@);
            }
            lemma_cmp3_total(self.digits@, other.digits@);
        }
        let sl = self.digits.len();
        let ol = other.digits.len();
        if sl < ol {
            return core::cmp::Ordering::Less;
        }
        if sl > ol {
            return core::cmp::Ordering::Greater;
        }
        let mut i: usize = sl;
        while i > 0
            invariant
                i <= sl,
                sl == ol == self.digits@.len() == other.digits@.len(),
                forall|j: int| i <= j < sl ==> self.digits@[j] == other.digits@[j],
            decreases i,
        {
            i = i - 1;
            let a = self.digits[i];
            let b = other.digits[i];
            if a < b {
                proof {
                    lemma_cmp3_at(self.digits@, other.digits@, i as int);
                }
                return core::cmp::Ordering::Less;
            }
            if a > b {
                proof {
                    lemma_cmp3_at(self.digits@, other.digits@, i as int);
                }
                return core::cmp::Ordering::Greater;
            }
        }
        proof {
            assert(self.digits@ =~= other.digits@);
            lemma_cmp3_zero(self.digits@, other.digits@);
        }
        core::cmp::Ordering::Equal
    }

    /// Magnitude addition: digit-wise sum with carry propagation.
    pub fn add(&self, rhs: &BigNat) -> (r: BigNat)
        requires
            self.wf(),
            rhs.wf(),
        ensures
            r.wf(),
            r.value() == self.value() + rhs.value(),
    {
        if self.digits.len() == 0 {
            return rhs.clone();
        }
        if rhs.digits.len() == 0 {
            return self.clone();
        }
        let a = &self.digits;
        let b = &rhs.digits;
        let len = if a.len() > b.len() {
            a.len()
        } else {
            b.len()
        };
        let mut result: Vec<u32> = Vec::new();
        let mut carry: u32 = 0;
        let mut position: usize = 0;
        while position < len
            invariant
                position <= len,
                carry <= 1,
                result@.len() == position,
                nat_of(result@) + carry * pow(base() as int, position as nat) == nat_of_upto(
                    a@,
                    position as int,
                ) + nat_of_upto(b@, position as int),
            decreases len - position,
        {
            let ghost p = pow(base() as int, position as nat);
            let left: u64 = if position < a.len() {
                a[position] as u64
            } else {
                0
            };
            let right: u64 = if position < b.len() {
                b[position] as u64
            } else {
                0
            };
            let digit_sum: u64 = left + right + carry as u64;
            let d: u32 = (digit_sum % crate::BASE) as u32;
            let new_carry: u32 = (digit_sum / crate::BASE) as u32;
            proof {
                lemma_pow_positive(base() as int, position as nat);
                lemma_pow_adds(base() as int, position as nat, 1);
                lemma_pow1(base() as int);
                lemma_nat_of_push(result@, d);
                lemma_fundamental_div_mod(digit_sum as int, base() as int);
                assert((d + base() * new_carry) * p == d * p + new_carry * (base() * p))
                    by (nonlinear_arith);
                assert(digit_sum * p == (d + base() * new_carry) * p);
                assert((left + right + carry) * p == left * p + right * p + carry * p)
                    by (nonlinear_arith);
            }
            result.push(d);
            carry = new_carry;
            position = position + 1;
        }
        proof {
            lemma_nat_of_upto_full(a@, len as int);
            lemma_nat_of_upto_full(b@, len as int);
            assert(position == len);
            assert(nat_of_upto(a@, position as int) == nat_of(a@));
            assert(nat_of_upto(b@, position as int) == nat_of(b@));
            assert(nat_of(result@) + carry * pow(base() as int, position as nat) == nat_of(a@)
                + nat_of(b@));
        }
        if carry > 0 {
            proof {
                lemma_nat_of_push(result@, carry);
                lemma_canonical_lower(a@);
                lemma_canonical_lower(b@);
                lemma_pow_positive(base() as int, len as nat);
            }
            result.push(carry);
            proof {
                lemma_mul_inequality(1, carry as int, pow(base() as int, len as nat));
                lemma_canonical_from_value(result@);
            }
        } else {
            proof {
                assert(carry == 0);
                assert(carry * pow(base() as int, position as nat) == 0) by (nonlinear_arith)
                    requires
                        carry == 0,
                ;
                assert(nat_of(result@) == nat_of(a@) + nat_of(b@));
                lemma_canonical_lower(a@);
                lemma_canonical_lower(b@);
                assert(result@.len() == len);
                if a@.len() >= b@.len() {
                    assert(a@.len() == len);
                    assert(nat_of(result@) >= pow(base() as int, (len - 1) as nat));
                } else {
                    assert(b@.len() == len);
                    assert(nat_of(result@) >= pow(base() as int, (len - 1) as nat));
                }
                lemma_canonical_from_value(result@);
            }
        }
        BigNat { digits: result }
    }

    /// Magnitude subtraction. Two magnitudes can have a negative
    /// difference, so the result carries a sign: the smaller operand is
    /// subtracted from the larger with borrow propagation, and the sign
    /// records which operand was larger.
    pub fn sub(&self, rhs: &BigNat) -> (r: crate::bigint::BigInt)
        requires
            self.wf(),
            rhs.wf(),
        ensures
            r.wf(),
            r.value() == self.value() - rhs.value(),
    {
        let ord = self.cmp(rhs);
        let (bigger, smaller, sign) = match ord {
            core::cmp::Ordering::Less => (rhs, self, crate::bigint::Sign::Negative),
            core::cmp::Ordering::Greater => (self, rhs, crate::bigint::Sign::Positive),
            core::cmp::Ordering::Equal => {
                return crate::bigint::BigInt::zero();
            },
        };
        let a = &bigger.digits;
        let b = &smaller.digits;
        let len = a.len();
        let ghost diff = nat_of(a@) - nat_of(b@);
        assert(nat_of(a@) > nat_of(b@));
        let mut result: Vec<u32> = Vec::new();
        let mut borrowed = false;
        let mut position: usize = 0;
        proof {
            if a@.len() < b@.len() {
                lemma_value_shorter_lt(a@, b@);
            }
        }
        while position < len
            invariant
                position <= len,
                len == a@.len() >= b@.len(),
                result@.len() == position,
                nat_of(result@) == nat_of_upto(a@, position as int) - nat_of_upto(
                    b@,
                    position as int,
                ) + (if borrowed {
                    pow(base() as int, position as nat)
                } else {
                    0
                }),
            decreases len - position,
        {
            let ghost p = pow(base() as int, position as nat);
            let mut left: u64 = if position < a.len() {
                a[position] as u64
            } else {
                0
            };
            let mut right: u64 = if position < b.len() {
                b[position] as u64
            } else {
                0
            };
            let ghost la = left as int;
            let ghost ra = right as int;
            left = left + 1;
            right = right + 1;
            if borrowed {
                left = left - 1;
            }
            let new_borrow = left < right;
            if new_borrow {
                left = left + crate::BASE;
            }
            let d: u32 = (left - right) as u32;
            proof {
                lemma_pow_positive(base() as int, position as nat);
                lemma_pow_adds(base() as int, position as nat, 1);
                lemma_pow1(base() as int);
                lemma_nat_of_push(result@, d);
                let bin: int = if borrowed {
                    1
                } else {
                    0
                };
                let bout: int = if new_borrow {
                    1
                } else {
                    0
                };
                assert(d == la - bin + base() * bout - ra);
                assert((la - bin + base() * bout - ra) * p == la * p - bin * p + bout * (base() * p)
                    - ra * p) by (nonlinear_arith);
            }
            result.push(d);
            borrowed = new_borrow;
            position = position + 1;
        }
        proof {
            lemma_nat_of_upto_full(a@, len as int);
            lemma_nat_of_upto_full(b@, len as int);
            if borrowed {
                lemma_nat_of_bound(result@);
                assert(false);
            }
            assert(nat_of(result@) == diff);
        }
        let natural = BigNat { digits: result }.zero_normalized();
        proof {
            lemma_canonical_zero(natural.digits@);
        }
        crate::bigint::BigInt { sign, natural }
    }

    /// Single-digit multiplication: the digit-wise product with carry,
    /// the fast path the full multiplication builds on.
    pub fn mul_digit(&self, k: u32) -> (r: BigNat)
        requires
            self.wf(),
        ensures
            r.wf(),
            r.value() == self.value() * k,
    {
        if self.digits.len() == 0 || k == 0 {
            proof {
                if self.digits@.len() == 0 {
                    assert(self.value() * k == 0) by (nonlinear_arith)
                        requires
                            self.value() == 0,
                    ;
                } else {
                    assert(self.value() * k == 0) by (nonlinear_arith)
                        requires
                            k == 0,
                    ;
                }
            }
            return BigNat::zero();
        }
        let a = &self.digits;
        let len = a.len();
        let mut product: Vec<u32> = Vec::new();
        let mut carry: u32 = 0;
        let mut i: usize = 0;
        proof {
            lemma_pow0(base() as int);
            assert(a@.take(0) =~= Seq::<u32>::empty());
            assert(nat_of(a@.take(0)) * k == 0) by (nonlinear_arith)
                requires
                    nat_of(a@.take(0)) == 0,
            ;
        }
        while i < len
            invariant
                i <= len,
                len == a@.len(),
                product@.len() == i,
                nat_of(product@) + carry * pow(base() as int, i as nat) == nat_of(a@.take(i as int))
                    * k,
            decreases len - i,
        {
            let ghost p = pow(base() as int, i as nat);
            proof {
                assert(a@[i as int] as int * k as int <= 0xffff_ffff * 0xffff_ffff)
                    by (nonlinear_arith)
                    requires
                        a@[i as int] <= 0xffff_ffffu32,
                        k <= 0xffff_ffffu32,
                ;
            }
            let dp: u64 = a[i] as u64 * k as u64 + carry as u64;
            let d: u32 = (dp % crate::BASE) as u32;
            let new_carry: u32 = (dp / crate::BASE) as u32;
            proof {
                lemma_pow_positive(base() as int, i as nat);
                lemma_pow_adds(base() as int, i as nat, 1);
                lemma_pow1(base() as int);
                lemma_nat_of_push(product@, d);
                lemma_fundamental_div_mod(dp as int, base() as int);
                assert(a@.take(i + 1).drop_last() =~= a@.take(i as int));
                lemma_nat_of_push(a@.take(i as int), a@[i as int]);
                assert(a@.take(i + 1) =~= a@.take(i as int).push(a@[i as int]));
                assert((d + base() * new_carry) * p == d * p + new_carry * (base() * p))
                    by (nonlinear_arith);
                assert(dp * p == (d + base() * new_carry) * p);
                assert((nat_of(a@.take(i as int)) + a@[i as int] * p) * k == nat_of(
                    a@.take(i as int),
                ) * k + (a@[i as int] * k) * p) by (nonlinear_arith);
                assert((a@[i as int] * k + carry) * p == (a@[i as int] * k) * p + carry * p)
                    by (nonlinear_arith);
            }
            product.push(d);
            carry = new_carry;
            i = i + 1;
        }
        proof {
            assert(a@.take(len as int) =~= a@);
        }
        if carry > 0 {
            proof {
                lemma_nat_of_push(product@, carry);
            }
            product.push(carry);
            proof {
                lemma_pow_positive(base() as int, len as nat);
                lemma_mul_inequality(1, carry as int, pow(base() as int, len as nat));
                lemma_canonical_from_value(product@);
            }
        } else {
            proof {
                assert(carry * pow(base() as int, len as nat) == 0) by (nonlinear_arith)
                    requires
                        carry == 0,
                ;
                lemma_canonical_lower(a@);
                lemma_mul_inequality(1, k as int, self.value() as int);
                assert(nat_of(product@) == self.value() * k);
                assert(self.value() * 1 <= self.value() * k) by (nonlinear_arith)
                    requires
                        1 <= k,
                ;
                lemma_canonical_from_value(product@);
            }
        }
        BigNat { digits: product }
    }

    /// Schoolbook multiplication: each digit of `rhs` multiplies `self`,
    /// shifted to its position, and the partial products are accumulated
    /// by addition.
    pub fn mul(&self, rhs: &BigNat) -> (r: BigNat)
        requires
            self.wf(),
            rhs.wf(),
        ensures
            r.wf(),
            r.value() == self.value() * rhs.value(),
    {
        if self.digits.len() == 0 || rhs.digits.len() == 0 {
            proof {
                assert(self.value() * rhs.value() == 0) by (nonlinear_arith)
                    requires
                        self.value() == 0 || rhs.value() == 0,
                ;
            }
            return BigNat::zero();
        }
        let b = &rhs.digits;
        let mut result = BigNat::zero();
        let mut j: usize = 0;
        proof {
            lemma_pow0(base() as int);
            assert(b@.take(0) =~= Seq::<u32>::empty());
            assert(self.value() * nat_of(b@.take(0)) == 0) by (nonlinear_arith)
                requires
                    nat_of(b@.take(0)) == 0,
            ;
        }
        while j < b.len()
            invariant
                j <= b@.len(),
                b@ == rhs.digits@,
                result.wf(),
                result.value() == self.value() * nat_of(b@.take(j as int)),
            decreases b@.len() - j,
        {
            let ghost p = pow(base() as int, j as nat);
            let partial = self.mul_digit(b[j]);
            let mut shifted: Vec<u32> = Vec::new();
            let mut z: usize = 0;
            while z < j
                invariant
                    z <= j,
                    shifted@.len() == z,
                    nat_of(shifted@) == 0,
                    forall|t: int| 0 <= t < z ==> shifted@[t] == 0,
                decreases j - z,
            {
                proof {
                    lemma_nat_of_push_zero(shifted@);
                }
                shifted.push(0);
                z = z + 1;
            }
            let ghost zeros = shifted@;
            let mut t: usize = 0;
            while t < partial.digits.len()
                invariant
                    t <= partial.digits@.len(),
                    shifted@.len() == j + t,
                    forall|q: int| 0 <= q < j ==> shifted@[q] == 0,
                    forall|q: int| 0 <= q < t ==> shifted@[j + q] == partial.digits@[q],
                decreases partial.digits@.len() - t,
            {
                shifted.push(partial.digits[t]);
                t = t + 1;
            }
            proof {
                assert(shifted@.skip(j as int) =~= partial.digits@);
                assert(shifted@.take(j as int) =~= zeros);
                lemma_nat_of_split(shifted@, j as int);
                assert(nat_of(shifted@) == p * nat_of(partial.digits@));
                if j + 1 <= b@.len() {
                    assert(b@.take(j + 1).drop_last() =~= b@.take(j as int));
                    assert(b@.take(j + 1) =~= b@.take(j as int).push(b@[j as int]));
                    lemma_nat_of_push(b@.take(j as int), b@[j as int]);
                }
                lemma_pow_positive(base() as int, j as nat);
            }
            let shifted_nat = BigNat { digits: shifted }.zero_normalized();
            let ghost old_result = result;
            result = result.add(&shifted_nat);
            proof {
                let va = self.value() as int;
                let bj = b@[j as int] as int;
                let prev = nat_of(b@.take(j as int)) as int;
                assert(result.value() == va * prev + p * (va * bj));
                assert(va * (prev + bj * p) == va * prev + p * (va * bj)) by (nonlinear_arith);
            }
            j = j + 1;
        }
        proof {
            assert(b@.take(b@.len() as int) =~= b@);
        }
        result
    }

    /// Raises this value to the given power by repeated multiplication.
    pub fn pow_uint(&self, power: usize) -> (r: BigNat)
        requires
            self.wf(),
        ensures
            r.wf(),
            r.value() == pow(self.value() as int, power as nat),
    {
        proof {
            lemma_pow0(self.value() as int);
        }
        if power == 0 {
            return BigNat::from_u64(1);
        }
        let mut acc = BigNat::from_u64(1);
        let mut i: usize = 0;
        while i < power
            invariant
                i <= power,
                acc.wf(),
                acc.value() == pow(self.value() as int, i as nat),
            decreases power - i,
        {
            acc = acc.mul(self);
            proof {
                lemma_pow_adds(self.value() as int, i as nat, 1);
                lemma_pow1(self.value() as int);
                lemma_mul_is_commutative(
                    pow(self.value() as int, i as nat),
                    self.value() as int,
                );
            }
            i = i + 1;
        }
        acc
    }
}

impl BigNat {
    /// Narrowing conversion: the value as one digit when it fits, an
    /// error otherwise.
    pub fn try_into_u32(&self) -> (r: Result<u32, ()>)
        requires
            self.wf(),
        ensures
            match r {
                Ok(d) => d == self.value(),
                Err(_) => self.value() > 0xffff_ffff,
            },
    {
        if self.digits.len() == 0 {
            Ok(0)
        } else if self.digits.len() == 1 {
            proof {
                crate::digits::lemma_nat_of_single(self.digits@);
            }
            Ok(self.digits[0])
        } else {
            proof {
                lemma_canonical_lower(self.digits@);
                lemma_pow1(base() as int);
                if self.digits@.len() >= 3 {
                    lemma_pow_increases(base(), 1, (self.digits@.len() - 1) as nat);
                }
            }
            Err(())
        }
    }
}

impl crate::APNum for BigNat {
    /// Canonical form of the digit vector.
    open spec fn well_formed(&self) -> bool {
        self.wf()
    }

    /// The (non-negative) numeric value.
    open spec fn as_int(&self) -> int {
        self.value() as int
    }

    /// A natural number can always be re-canonicalized.
    open spec fn norm_ready(&self) -> bool {
        true
    }

    open spec fn spec_digit_count(&self) -> nat {
        self.digits@.len()
    }

    /// The natural number zero, as the empty digit vector.
    fn zero() -> (r: BigNat) {
        BigNat { digits: Vec::new() }
    }

    /// Whether this value is zero: canonically, whether it has no digits.
    fn is_zero(&self) -> (r: bool) {
        proof {
            lemma_canonical_zero(self.digits@);
        }
        self.digits.len() == 0
    }

    /// Strips most-significant zero digits, restoring canonical form
    /// without changing the value.
    fn zero_normalized(self) -> (r: BigNat) {
        let mut digits = self.digits;
        loop
            invariant
                nat_of(digits@) == nat_of(self.digits@),
            decreases digits@.len(),
        {
            let n = digits.len();
            if n == 0 {
                break ;
            }
            if digits[n - 1] != 0 {
                break ;
            }
            proof {
                assert(digits@ =~= digits@.drop_last().push(0));
                lemma_nat_of_push_zero(digits@.drop_last());
            }
            digits.pop();
        }
        BigNat { digits }
    }

    /// Number of stored digits.
    fn digit_count(&self) -> (r: usize) {
        self.digits.len()
    }
}

impl Default for BigNat {
    /// The default natural number is zero.
    fn default() -> (r: Self)
        ensures
            r.wf(),
            r.value() == 0,
    {
        BigNat::zero()
    }
}

impl Clone for BigNat {
    /// Copies the digit vector.
    fn clone(&self) -> (r: Self)
        ensures
            r.digits@ == self.digits@,
    {
        let mut digits: Vec<u32> = Vec::new();
        let mut i: usize = 0;
        while i < self.digits.len()
            invariant
                i <= self.digits@.len(),
                digits@ =~= self.digits@.take(i as int),
            decreases self.digits@.len() - i,
        {
            digits.push(self.digits[i]);
            i = i + 1;
        }
        proof {
            assert(digits@ =~= self.digits@);
        }
        BigNat { digits }
    }
}


impl PartialEq for BigNat {
    /// Structural equality of the digit vectors; on canonical values this
    /// is exactly value equality.
    fn eq(&self, other: &Self) -> (r: bool) {
        proof {
            lemma_cmp3_zero(self.digits@, other.digits@);
        }
        matches!(self.cmp(other), core::cmp::Ordering::Equal)
    }
}

impl vstd::std_specs::cmp::PartialEqSpecImpl for BigNat {
    open spec fn obeys_eq_spec() -> bool {
        true
    }

    open spec fn eq_spec(&self, other: &Self) -> bool {
        self.digits@ == other.digits@
    }
}

impl PartialOrd for BigNat {
    /// Total structural comparison; on canonical values it is the value
    /// order, so `<` and friends order by numeric value.
    fn partial_cmp(&self, other: &Self) -> (r: Option<core::cmp::Ordering>) {
        Some(self.cmp(other))
    }
}

impl vstd::std_specs::cmp::PartialOrdSpecImpl for BigNat {
    open spec fn obeys_partial_cmp_spec() -> bool {
        true
    }

    open spec fn partial_cmp_spec(&self, other: &Self) -> Option<core::cmp::Ordering> {
        Some(cmp3_ordering(seq_cmp3(self.digits@, other.digits@)))
    }
}

} // verus!
