//! Library-wide laws, stated and proved over the specification model that
//! the public contracts speak in: the digit-vector value, the sign tag,
//! and the decimal text functions.

use crate::bigint::BigInt;
use crate::bignat::BigNat;
use crate::dec::{
    all_dec_digits, canonical_decimal, dec_body, dec_chars_of, dec_neg, dec_value,
    lemma_dec_round_trip, lemma_dec_value_lower, lemma_nonzero_digit, lemma_strip_zeros,
    strip_zeros,
};
use crate::digits::{lemma_canonical_unique, lemma_canonical_zero};
use vstd::arithmetic::power::lemma_pow_positive;
use vstd::prelude::*;

verus! {

/// Canonical zero: a well-formed natural number that is numerically zero
/// has the empty digit vector, so zero has exactly one representation.
pub proof fn lemma_single_zero_nat(v: BigNat)
    requires
        v.wf(),
        v.value() == 0,
    ensures
        v.digits@ =~= Seq::<u32>::empty(),
{
    lemma_canonical_zero(v.digits@);
}

/// Canonical zero: a well-formed signed integer that is numerically zero
/// carries the `Zero` tag over the empty digit vector.
pub proof fn lemma_single_zero_int(v: BigInt)
    requires
        v.wf(),
        v.value() == 0,
    ensures
        v.sign is Zero,
        v.natural.digits@ =~= Seq::<u32>::empty(),
{
    lemma_canonical_zero(v.natural.digits@);
}

/// Equal values have equal representations: well-formed naturals of one
/// value are one digit vector.
pub proof fn lemma_value_determines_digits(x: BigNat, y: BigNat)
    requires
        x.wf(),
        y.wf(),
        x.value() == y.value(),
    ensures
        x.digits@ == y.digits@,
{
    lemma_canonical_unique(x.digits@, y.digits@);
}

/// Addition/negation inverse: what negation returns for `a` (a value of
/// `-a`), added to `a` as addition promises (a value of the sum), is the
/// canonical zero.
pub proof fn lemma_add_neg_inverse(a: BigInt, na: BigInt, s: BigInt)
    requires
        a.wf(),
        na.wf(),
        s.wf(),
        na.value() == -a.value(),
        s.value() == a.value() + na.value(),
    ensures
        s.value() == 0,
        s.sign is Zero,
        s.natural.digits@ =~= Seq::<u32>::empty(),
{
    lemma_single_zero_int(s);
}

/// Single-digit consistency: the full multi-digit product with a one-digit
/// value and the single-digit fast path return the same representation.
pub proof fn lemma_mul_digit_consistent(a: BigNat, k: u32, kn: BigNat, full: BigNat, fast: BigNat)
    requires
        a.wf(),
        kn.wf(),
        kn.value() == k,
        full.wf(),
        fast.wf(),
        full.value() == a.value() * kn.value(),
        fast.value() == a.value() * k,
    ensures
        full.digits@ == fast.digits@,
{
    lemma_canonical_unique(full.digits@, fast.digits@);
}

/// Ordering consistency: `a < b` exactly when the difference `a - b` is
/// tagged negative.
pub proof fn lemma_ordering_consistent(a: BigInt, b: BigInt, d: BigInt)
    requires
        a.wf(),
        b.wf(),
        d.wf(),
        d.value() == a.value() - b.value(),
    ensures
        a.value() < b.value() <==> d.sign is Negative,
{
    lemma_canonical_zero(d.natural.digits@);
}

/// Decimal round trip: formatting the value parsed from a valid digit
/// string gives the canonical form of that string (leading zeros removed;
/// plain `0` when the value is zero).
pub proof fn lemma_decimal_round_trip(s: Seq<char>)
    requires
        s.len() > 0,
        all_dec_digits(s),
    ensures
        (if dec_value(s) == 0 {
            seq!['0']
        } else {
            dec_chars_of(dec_value(s))
        }) == canonical_decimal(s),
{
    lemma_strip_zeros(s);
    let t = strip_zeros(s);
    if t.len() == 0 {
        assert(dec_value(s) == 0);
    } else {
        lemma_nonzero_digit(t[0]);
        lemma_dec_value_lower(t);
        lemma_pow_positive(10, (t.len() - 1) as nat);
        assert(dec_value(s) > 0);
        lemma_dec_round_trip(t);
    }
}


/// Decimal round trip, signed: formatting the signed value parsed from
/// valid decimal text gives the canonical form of that text (leading
/// zeros removed, the minus kept only on a nonzero value).
pub proof fn lemma_decimal_round_trip_signed(s: Seq<char>, v: BigInt)
    requires
        dec_body(s).len() > 0,
        all_dec_digits(dec_body(s)),
        v.wf(),
        v.value() == if dec_neg(s) {
            -(dec_value(dec_body(s)) as int)
        } else {
            dec_value(dec_body(s)) as int
        },
    ensures
        (if v.value() == 0 {
            seq!['0']
        } else if v.value() < 0 {
            seq!['-'] + dec_chars_of(v.natural.value())
        } else {
            dec_chars_of(v.natural.value())
        }) == (if dec_value(dec_body(s)) == 0 {
            seq!['0']
        } else if dec_neg(s) {
            seq!['-'] + strip_zeros(dec_body(s))
        } else {
            strip_zeros(dec_body(s))
        }),
{
    let body = dec_body(s);
    let mag = dec_value(body);
    lemma_decimal_round_trip(body);
    lemma_strip_zeros(body);
    lemma_canonical_zero(v.natural.digits@);
    if mag == 0 {
    } else {
        assert(strip_zeros(body).len() > 0) by {
            if strip_zeros(body).len() == 0 {
                assert(dec_value(strip_zeros(body)) == 0);
            }
        }
        assert(v.natural.value() == mag);
        assert(dec_chars_of(mag) == canonical_decimal(body));
        assert(canonical_decimal(body) == strip_zeros(body));
    }
}

} // verus!
