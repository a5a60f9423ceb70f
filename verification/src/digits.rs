//! The digit-vector value model: a sequence of base-2^32 digits stored
//! least-significant first, its numeric value, and the canonical-form
//! predicate (no most-significant zero digits), together with the lemmas
//! the arithmetic engines are proved against.

use vstd::arithmetic::div_mod::*;
use vstd::arithmetic::mul::*;
use vstd::arithmetic::power::*;
use vstd::prelude::*;

verus! {

/// The radix, as a spec-level natural.
pub open spec fn base() -> nat {
    crate::BASE as nat
}

/// Numeric value of a digit sequence, least-significant digit first.
pub open spec fn nat_of(s: Seq<u32>) -> nat
    decreases s.len(),
{
    if s.len() == 0 {
        0
    } else {
        s[0] as nat + base() * nat_of(s.drop_first())
    }
}

/// A digit vector is canonical when it has no trailing (most-significant)
/// zero digits; zero is the empty sequence.
pub open spec fn canonical(s: Seq<u32>) -> bool {
    s.len() == 0 || s[s.len() - 1] != 0
}

/// Appending a most-significant digit adds its weighted value.
pub proof fn lemma_nat_of_push(s: Seq<u32>, d: u32)
    ensures
        nat_of(s.push(d)) == nat_of(s) + d * pow(base() as int, s.len()),
    decreases s.len(),
{
    if s.len() == 0 {
        assert(s.push(d).drop_first() =~= Seq::<u32>::empty());
        assert(s.push(d)[0] == d);
        lemma_pow0(base() as int);
        assert(nat_of(s.push(d)) == d as nat + base() * nat_of(s.push(d).drop_first()));
        assert(nat_of(s.push(d)) == d as nat);
        assert(d * pow(base() as int, s.len()) == d);
    } else {
        assert(s.push(d).drop_first() =~= s.drop_first().push(d));
        lemma_nat_of_push(s.drop_first(), d);
        lemma_pow1(base() as int);
        lemma_pow_adds(base() as int, 1, (s.len() - 1) as nat);
        let b = base() as int;
        let p1 = pow(b, (s.len() - 1) as nat);
        lemma_pow_positive(b, (s.len() - 1) as nat);
        assert(pow(b, s.len()) == b * p1);
        assert(s.push(d)[0] == s[0]);
        assert(nat_of(s.push(d)) == s[0] as nat + base() * nat_of(s.drop_first().push(d)));
        assert(nat_of(s.drop_first().push(d)) == nat_of(s.drop_first()) + d * p1);
        assert(b * (nat_of(s.drop_first()) + d * p1) == b * nat_of(s.drop_first()) + b * (d * p1))
            by (nonlinear_arith);
        assert(b * (d * p1) == d * (b * p1)) by (nonlinear_arith);
        assert(base() * nat_of(s.drop_first().push(d)) == b * nat_of(s.drop_first()) + d * pow(
            b,
            s.len(),
        ));
        assert(nat_of(s) == s[0] as nat + base() * nat_of(s.drop_first()));
    }
}

/// The value of a digit sequence is below the radix power of its length.
pub proof fn lemma_nat_of_bound(s: Seq<u32>)
    ensures
        nat_of(s) < pow(base() as int, s.len()),
    decreases s.len(),
{
    lemma_pow_positive(base() as int, s.len());
    if s.len() > 0 {
        lemma_nat_of_bound(s.drop_first());
        lemma_pow1(base() as int);
        lemma_pow_adds(base() as int, 1, (s.len() - 1) as nat);
        assert(nat_of(s.drop_first()) + 1 <= pow(base() as int, (s.len() - 1) as nat));
        assert(base() * (nat_of(s.drop_first()) + 1) <= base() * pow(
            base() as int,
            (s.len() - 1) as nat,
        )) by (nonlinear_arith)
            requires
                nat_of(s.drop_first()) + 1 <= pow(base() as int, (s.len() - 1) as nat),
        ;
        assert(s[0] as nat + base() * nat_of(s.drop_first()) < base() * (nat_of(s.drop_first())
            + 1)) by (nonlinear_arith)
            requires
                s[0] < base(),
        ;
    }
}

/// A canonical nonempty digit sequence reaches the radix power of its
/// length less one.
pub proof fn lemma_canonical_lower(s: Seq<u32>)
    requires
        canonical(s),
        s.len() > 0,
    ensures
        nat_of(s) >= pow(base() as int, (s.len() - 1) as nat),
    decreases s.len(),
{
    if s.len() == 1 {
        lemma_pow0(base() as int);
        assert(nat_of(s) == s[0] as nat + base() * nat_of(s.drop_first()));
    } else {
        assert(canonical(s.drop_first()));
        lemma_canonical_lower(s.drop_first());
        lemma_pow1(base() as int);
        lemma_pow_adds(base() as int, 1, (s.len() - 2) as nat);
        assert(base() * nat_of(s.drop_first()) >= base() * pow(
            base() as int,
            (s.len() - 2) as nat,
        )) by (nonlinear_arith)
            requires
                nat_of(s.drop_first()) >= pow(base() as int, (s.len() - 2) as nat),
        ;
    }
}

/// Splitting a digit sequence at position `i` splits its value.
pub proof fn lemma_nat_of_split(s: Seq<u32>, i: int)
    requires
        0 <= i <= s.len(),
    ensures
        nat_of(s) == nat_of(s.take(i)) + pow(base() as int, i as nat) * nat_of(s.skip(i)),
    decreases i,
{
    if i == 0 {
        assert(s.take(0) =~= Seq::<u32>::empty());
        assert(s.skip(0) =~= s);
        lemma_pow0(base() as int);
    } else {
        lemma_nat_of_split(s.drop_first(), i - 1);
        assert(s.take(i).drop_first() =~= s.drop_first().take(i - 1));
        assert(s.skip(i) =~= s.drop_first().skip(i - 1));
        lemma_pow1(base() as int);
        lemma_pow_adds(base() as int, 1, (i - 1) as nat);
        let p = pow(base() as int, (i - 1) as nat);
        lemma_pow_positive(base() as int, (i - 1) as nat);
        assert(nat_of(s) == s[0] as nat + base() * nat_of(s.drop_first()));
        assert(nat_of(s.drop_first()) == nat_of(s.drop_first().take(i - 1)) + p * nat_of(
            s.drop_first().skip(i - 1),
        ));
        assert(nat_of(s.take(i)) == s[0] as nat + base() * nat_of(s.drop_first().take(i - 1)));
        assert(base() * (nat_of(s.drop_first().take(i - 1)) + p * nat_of(s.skip(i))) == base()
            * nat_of(s.drop_first().take(i - 1)) + (base() * p) * nat_of(s.skip(i)))
            by (nonlinear_arith);
    }
}

/// A most-significant zero digit does not change the value.
pub proof fn lemma_nat_of_push_zero(s: Seq<u32>)
    ensures
        nat_of(s.push(0)) == nat_of(s),
{
    lemma_nat_of_push(s, 0);
}

/// A canonical digit vector is empty exactly when its value is zero.
pub proof fn lemma_canonical_zero(s: Seq<u32>)
    requires
        canonical(s),
    ensures
        nat_of(s) == 0 <==> s.len() == 0,
{
    if s.len() > 0 {
        lemma_canonical_lower(s);
        lemma_pow_positive(base() as int, (s.len() - 1) as nat);
    }
}

/// Two digit sequences of the same length that agree above position `i` are
/// ordered by their digits at position `i`.
pub proof fn lemma_value_cmp_at(s: Seq<u32>, t: Seq<u32>, i: int)
    requires
        s.len() == t.len(),
        0 <= i < s.len(),
        forall|j: int| i < j < s.len() ==> s[j] == t[j],
        s[i] < t[i],
    ensures
        nat_of(s) < nat_of(t),
{
    lemma_nat_of_split(s, i);
    lemma_nat_of_split(t, i);
    assert(s.skip(i).drop_first() =~= s.skip(i + 1));
    assert(t.skip(i).drop_first() =~= t.skip(i + 1));
    assert(s.skip(i + 1) =~= t.skip(i + 1));
    assert(s.skip(i)[0] == s[i]);
    assert(t.skip(i)[0] == t[i]);
    let x = nat_of(s.skip(i));
    let y = nat_of(t.skip(i));
    assert(x == s[i] as nat + base() * nat_of(s.skip(i + 1)));
    assert(y == t[i] as nat + base() * nat_of(s.skip(i + 1)));
    assert(x + 1 <= y);
    let p = pow(base() as int, i as nat);
    lemma_pow_positive(base() as int, i as nat);
    lemma_nat_of_bound(s.take(i));
    assert(s.take(i).len() == i);
    assert(nat_of(s.take(i)) < p);
    lemma_mul_inequality(x as int + 1, y as int, p);
    assert((x + 1) * p == x * p + p) by (nonlinear_arith);
    lemma_mul_is_commutative(p, x as int);
    lemma_mul_is_commutative(p, y as int);
    assert(nat_of(s) == nat_of(s.take(i)) + p * x);
    assert(nat_of(t) == nat_of(t.take(i)) + p * y);
}

/// A digit vector shorter than a canonical one has the smaller value.
pub proof fn lemma_value_shorter_lt(s: Seq<u32>, t: Seq<u32>)
    requires
        s.len() < t.len(),
        canonical(t),
    ensures
        nat_of(s) < nat_of(t),
{
    lemma_nat_of_bound(s);
    lemma_canonical_lower(t);
    lemma_pow_increases(base(), s.len(), (t.len() - 1) as nat);
}

/// The canonical representation of a value is unique.
pub proof fn lemma_canonical_unique(s: Seq<u32>, t: Seq<u32>)
    requires
        canonical(s),
        canonical(t),
        nat_of(s) == nat_of(t),
    ensures
        s == t,
    decreases s.len(),
{
    lemma_canonical_zero(s);
    lemma_canonical_zero(t);
    if s.len() == 0 {
        assert(t.len() == 0);
        assert(s =~= t);
    } else if t.len() == 0 {
        assert(s.len() == 0);
    } else {
        let b = base() as int;
        let v = nat_of(s) as int;
        assert(v == s[0] + b * nat_of(s.drop_first()));
        assert(v == t[0] + b * nat_of(t.drop_first()));
        lemma_fundamental_div_mod_converse(v, b, nat_of(s.drop_first()) as int, s[0] as int);
        lemma_fundamental_div_mod_converse(v, b, nat_of(t.drop_first()) as int, t[0] as int);
        assert(s[0] == t[0]);
        assert(nat_of(s.drop_first()) == nat_of(t.drop_first()));
        assert(canonical(s.drop_first())) by {
            if s.len() > 1 {
                assert(s.drop_first()[s.len() - 2] == s[s.len() - 1]);
            }
        }
        assert(canonical(t.drop_first())) by {
            if t.len() > 1 {
                assert(t.drop_first()[t.len() - 2] == t[t.len() - 1]);
            }
        }
        lemma_canonical_unique(s.drop_first(), t.drop_first());
        assert forall|k: int| 0 <= k < s.len() implies s[k] == t[k] by {
            if k > 0 {
                assert(s.drop_first()[k - 1] == t.drop_first()[k - 1]);
            }
        }
        assert(s =~= t);
    }
}

/// The digit at position `i`, reading positions past the end as zero.
pub open spec fn dig(s: Seq<u32>, i: int) -> u32 {
    if 0 <= i < s.len() {
        s[i]
    } else {
        0
    }
}

/// Value of the first `n` digit positions, reading past the end as zero.
pub open spec fn nat_of_upto(s: Seq<u32>, n: int) -> nat
    decreases n,
{
    if n <= 0 {
        0
    } else {
        nat_of_upto(s, n - 1) + (dig(s, n - 1) as nat) * (pow(base() as int, (n - 1) as nat) as nat)
    }
}

/// Within the sequence, the prefix value is the value of the prefix.
pub proof fn lemma_nat_of_upto_take(s: Seq<u32>, n: int)
    requires
        0 <= n <= s.len(),
    ensures
        nat_of_upto(s, n) == nat_of(s.take(n)),
    decreases n,
{
    if n > 0 {
        lemma_nat_of_upto_take(s, n - 1);
        assert(s.take(n).drop_last() =~= s.take(n - 1));
        assert(s.take(n) =~= s.take(n - 1).push(s[n - 1]));
        lemma_nat_of_push(s.take(n - 1), s[n - 1]);
        lemma_pow_positive(base() as int, (n - 1) as nat);
    }
}

/// Beyond the last digit, the prefix value is the whole value.
pub proof fn lemma_nat_of_upto_full(s: Seq<u32>, n: int)
    requires
        n >= s.len(),
    ensures
        nat_of_upto(s, n) == nat_of(s),
    decreases n,
{
    if n > s.len() {
        lemma_nat_of_upto_full(s, n - 1);
        assert(dig(s, n - 1) == 0);
        assert(nat_of_upto(s, n) == nat_of_upto(s, n - 1) + (dig(s, n - 1) as nat) * (pow(
            base() as int,
            (n - 1) as nat,
        ) as nat));
    } else {
        lemma_nat_of_upto_take(s, n);
        assert(s.take(n) =~= s);
    }
}

/// A nonempty digit vector whose value reaches the radix power of its
/// length less one is canonical.
pub proof fn lemma_canonical_from_value(s: Seq<u32>)
    requires
        s.len() > 0,
        nat_of(s) >= pow(base() as int, (s.len() - 1) as nat),
    ensures
        canonical(s),
{
    if s[s.len() - 1] == 0 {
        assert(s =~= s.drop_last().push(0));
        lemma_nat_of_push_zero(s.drop_last());
        lemma_nat_of_bound(s.drop_last());
    }
}

/// The `Ordering` a three-valued structural comparison stands for.
pub open spec fn cmp3_ordering(c: int) -> core::cmp::Ordering {
    if c < 0 {
        core::cmp::Ordering::Less
    } else if c == 0 {
        core::cmp::Ordering::Equal
    } else {
        core::cmp::Ordering::Greater
    }
}

/// Structural comparison of two digit vectors: by length, then by digits
/// from the most significant end; yields -1, 0, or 1.
pub open spec fn seq_cmp3(s: Seq<u32>, t: Seq<u32>) -> int
    decreases s.len(),
{
    if s.len() < t.len() {
        -1
    } else if s.len() > t.len() {
        1
    } else if s.len() == 0 {
        0
    } else if s.last() < t.last() {
        -1
    } else if s.last() > t.last() {
        1
    } else {
        seq_cmp3(s.drop_last(), t.drop_last())
    }
}

/// Structural comparison is decided at the highest differing digit.
pub proof fn lemma_cmp3_at(s: Seq<u32>, t: Seq<u32>, i: int)
    requires
        s.len() == t.len(),
        0 <= i < s.len(),
        forall|j: int| i < j < s.len() ==> s[j] == t[j],
        s[i] != t[i],
    ensures
        seq_cmp3(s, t) == if s[i] < t[i] {
            -1int
        } else {
            1int
        },
    decreases s.len(),
{
    if i == s.len() - 1 {
    } else {
        assert(s.last() == t.last());
        assert(forall|j: int| i < j < s.drop_last().len() ==> s.drop_last()[j] == t.drop_last()[j]);
        lemma_cmp3_at(s.drop_last(), t.drop_last(), i);
    }
}

/// Structural comparison returns zero exactly on equal digit vectors.
pub proof fn lemma_cmp3_zero(s: Seq<u32>, t: Seq<u32>)
    ensures
        seq_cmp3(s, t) == 0 <==> s == t,
    decreases s.len(),
{
    if s.len() == t.len() && s.len() > 0 && s.last() == t.last() {
        lemma_cmp3_zero(s.drop_last(), t.drop_last());
        if s.drop_last() == t.drop_last() {
            assert forall|k: int| 0 <= k < s.len() implies s[k] == t[k] by {
                if k < s.len() - 1 {
                    assert(s.drop_last()[k] == t.drop_last()[k]);
                }
            }
            assert(s =~= t);
        }
        if s == t {
            assert(s.drop_last() =~= t.drop_last());
        }
    } else if s.len() == t.len() && s.len() == 0 {
        assert(s =~= t);
    }
}

/// For canonical operands, structural comparison agrees with value order.
pub proof fn lemma_cmp3_value(s: Seq<u32>, t: Seq<u32>)
    requires
        canonical(s),
        canonical(t),
    ensures
        seq_cmp3(s, t) == -1 <==> nat_of(s) < nat_of(t),
        seq_cmp3(s, t) == 1 <==> nat_of(s) > nat_of(t),
        seq_cmp3(s, t) == 0 <==> nat_of(s) == nat_of(t),
{
    lemma_cmp3_zero(s, t);
    if s.len() < t.len() {
        lemma_value_shorter_lt(s, t);
    } else if s.len() > t.len() {
        lemma_value_shorter_lt(t, s);
        lemma_cmp3_total(s, t);
    } else {
        if s == t {
        } else {
            let i = choose|i: int|
                0 <= i < s.len() && s[i] != t[i] && forall|j: int| i < j < s.len() ==> s[j] == t[j];
            lemma_highest_diff(s, t);
            lemma_cmp3_at(s, t, i);
            if s[i] < t[i] {
                lemma_value_cmp_at(s, t, i);
            } else {
                lemma_value_cmp_at(t, s, i);
                lemma_cmp3_total(s, t);
            }
        }
    }
}

/// Structural comparison only ever returns -1, 0, or 1.
pub proof fn lemma_cmp3_total(s: Seq<u32>, t: Seq<u32>)
    ensures
        -1 <= seq_cmp3(s, t) <= 1,
    decreases s.len(),
{
    if s.len() == t.len() && s.len() > 0 && s.last() == t.last() {
        lemma_cmp3_total(s.drop_last(), t.drop_last());
    }
}

/// Two unequal sequences of one length have a highest position at which
/// they differ.
proof fn lemma_highest_diff(s: Seq<u32>, t: Seq<u32>)
    requires
        s.len() == t.len(),
        s != t,
    ensures
        exists|i: int|
            0 <= i < s.len() && s[i] != t[i] && forall|j: int| i < j < s.len() ==> s[j] == t[j],
    decreases s.len(),
{
    if s.len() == 0 {
        assert(s =~= t);
    } else if s.last() != t.last() {
        let i = s.len() - 1;
        assert(0 <= i < s.len() && s[i] != t[i] && forall|j: int| i < j < s.len() ==> s[j] == t[j]);
    } else {
        if s.drop_last() == t.drop_last() {
            assert forall|k: int| 0 <= k < s.len() implies s[k] == t[k] by {
                if k < s.len() - 1 {
                    assert(s.drop_last()[k] == t.drop_last()[k]);
                }
            }
            assert(s =~= t);
        }
        lemma_highest_diff(s.drop_last(), t.drop_last());
        let i = choose|i: int|
            0 <= i < s.len() - 1 && s.drop_last()[i] != t.drop_last()[i] && forall|j: int|
                i < j < s.len() - 1 ==> s.drop_last()[j] == t.drop_last()[j];
        assert(s[i] != t[i]);
        assert(forall|j: int| i < j < s.len() ==> s[j] == t[j]) by {
            assert(forall|j: int|
                i < j < s.len() - 1 ==> s[j] == s.drop_last()[j] && t[j] == t.drop_last()[j]);
        }
    }
}


/// The value of a single digit is that digit.
pub proof fn lemma_nat_of_single(s: Seq<u32>)
    requires
        s.len() == 1,
    ensures
        nat_of(s) == s[0],
{
    assert(s.drop_first() =~= Seq::<u32>::empty());
    lemma_mul_basics(base() as int);
    assert(nat_of(s) == s[0] + base() * nat_of(s.drop_first()));
}

} // verus!
