//! Decimal text conversion: the grammar `["-"] digit+`, the value of a
//! digit string, the canonical digit string of a value, and the verified
//! parse and format passes over them.

use crate::bigint::{BigInt, Sign};
use crate::bignat::BigNat;
use crate::digits::lemma_canonical_zero;
use crate::APNum;
use crate::APNumParseError;
use vstd::arithmetic::div_mod::lemma_fundamental_div_mod_converse;
use vstd::arithmetic::mul::{lemma_mul_basics, lemma_mul_inequality};
use vstd::arithmetic::power::{lemma_pow0, lemma_pow1, lemma_pow_adds, lemma_pow_positive, pow};
use vstd::prelude::*;

verus! {

/// Whether a character is a decimal digit.
pub open spec fn is_dec_digit(c: char) -> bool {
    48 <= c as u32 <= 57
}

/// The numeric value of a decimal digit character.
pub open spec fn dec_digit_val(c: char) -> nat {
    (c as u32 - 48) as nat
}

/// Whether every character of the text is a decimal digit.
pub open spec fn all_dec_digits(s: Seq<char>) -> bool {
    forall|i: int| 0 <= i < s.len() ==> is_dec_digit(#[trigger] s[i])
}

/// The numeric value of a digit string, read most significant first.
pub open spec fn dec_value(s: Seq<char>) -> nat
    decreases s.len(),
{
    if s.len() == 0 {
        0
    } else {
        10 * dec_value(s.drop_last()) + dec_digit_val(s.last())
    }
}

/// The canonical decimal digit string of a value; zero is the empty
/// string (a formatter prints the single character `0` for it).
pub open spec fn dec_chars_of(n: nat) -> Seq<char>
    decreases n,
{
    if n == 0 {
        Seq::empty()
    } else {
        dec_chars_of(n / 10).push((((n % 10) + 48) as u8) as char)
    }
}

/// A digit string's leading digit carries its power-of-ten weight.
pub proof fn lemma_dec_value_first(s: Seq<char>)
    requires
        s.len() > 0,
    ensures
        dec_value(s) == dec_digit_val(s[0]) * pow(10, (s.len() - 1) as nat) + dec_value(
            s.drop_first(),
        ),
    decreases s.len(),
{
    if s.len() == 1 {
        lemma_pow0(10);
        lemma_mul_basics(dec_digit_val(s[0]) as int);
        assert(s.drop_last() =~= Seq::<char>::empty());
        assert(s.drop_first() =~= Seq::<char>::empty());
        assert(s.last() == s[0]);
    } else {
        let dl = s.drop_last();
        lemma_dec_value_first(dl);
        assert(dl.drop_first() =~= s.drop_first().drop_last());
        assert(s.drop_first().last() == s.last());
        assert(dl[0] == s[0]);
        let p2 = pow(10, (s.len() - 2) as nat);
        lemma_pow_adds(10, 1, (s.len() - 2) as nat);
        lemma_pow1(10);
        lemma_pow_positive(10, (s.len() - 2) as nat);
        let d0 = dec_digit_val(s[0]) as int;
        assert(10 * (d0 * p2 + dec_value(dl.drop_first())) == d0 * (10 * p2) + 10 * dec_value(
            dl.drop_first(),
        )) by (nonlinear_arith);
    }
}

/// A leading zero digit does not change the value of a digit string.
pub proof fn lemma_dec_value_zero_prefix(s: Seq<char>)
    requires
        s.len() > 0,
        s[0] == '0',
    ensures
        dec_value(s) == dec_value(s.drop_first()),
{
    lemma_dec_value_first(s);
    lemma_mul_basics(pow(10, (s.len() - 1) as nat));
    assert(dec_digit_val('0') == 0);
}

/// A digit string with a nonzero leading digit reaches the power of ten
/// of its length less one.
pub proof fn lemma_dec_value_lower(s: Seq<char>)
    requires
        s.len() > 0,
        dec_digit_val(s[0]) >= 1,
    ensures
        dec_value(s) >= pow(10, (s.len() - 1) as nat),
{
    lemma_dec_value_first(s);
    lemma_pow_positive(10, (s.len() - 1) as nat);
    lemma_mul_inequality(1, dec_digit_val(s[0]) as int, pow(10, (s.len() - 1) as nat));
    lemma_mul_basics(pow(10, (s.len() - 1) as nat));
}

/// Formatting the value of a digit string without leading zeros gives
/// that string back.
pub proof fn lemma_dec_round_trip(t: Seq<char>)
    requires
        t.len() > 0,
        all_dec_digits(t),
        t[0] != '0',
    ensures
        dec_chars_of(dec_value(t)) == t,
    decreases t.len(),
{
    let tl = t.drop_last();
    let c = t.last();
    let d = dec_digit_val(c) as int;
    let vl = dec_value(tl) as int;
    let v = dec_value(t) as int;
    assert(is_dec_digit(c));
    assert(is_dec_digit(t[0]));
    assert(v == 10 * vl + d);
    assert(0 <= d < 10);
    lemma_fundamental_div_mod_converse(v, 10, vl, d);
    assert(vl == v / 10 && d == v % 10);
    vstd::utf8::char_u32_cast('0', '0' as u32);
    assert(dec_digit_val(t[0]) >= 1) by {
        vstd::utf8::char_u32_cast(t[0], t[0] as u32);
        if t[0] as u32 == 48 {
            assert(t[0] == '0');
        }
    }
    if t.len() == 1 {
        assert(tl =~= Seq::<char>::empty());
        assert(c == t[0]);
        assert(d >= 1);
        assert(v >= 1);
        assert(dec_chars_of(v as nat) == dec_chars_of((v / 10) as nat).push(
            (((v % 10) + 48) as u8) as char,
        ));
        vstd::utf8::char_u32_cast(c, c as u32);
        assert((((d + 48) as u8) as char) == c);
        assert(dec_chars_of(v as nat) =~= t);
    } else {
        assert(tl[0] == t[0]);
        assert(all_dec_digits(tl)) by {
            assert(forall|i: int| 0 <= i < tl.len() ==> tl[i] == t[i]);
        }
        lemma_dec_value_lower(tl);
        lemma_pow_positive(10, (tl.len() - 1) as nat);
        assert(v >= 1);
        lemma_dec_round_trip(tl);
        assert(dec_chars_of(v as nat) == dec_chars_of((v / 10) as nat).push(
            (((v % 10) + 48) as u8) as char,
        ));
        vstd::utf8::char_u32_cast(c, c as u32);
        assert((((d + 48) as u8) as char) == c);
        assert(dec_chars_of(v as nat) =~= t);
    }
}

/// Relies on str::chars: it yields exactly the characters of the string,
/// in order.
#[verifier::external_body]
pub(crate) fn str_to_chars(s: &str) -> (r: Vec<char>)
    ensures
        r@ == s@,
{
    s.chars().collect()
}

/// Relies on String's FromIterator over char: collecting characters
/// builds the string of exactly those characters, in order.
#[verifier::external_body]
pub(crate) fn chars_to_string(cs: Vec<char>) -> (r: String)
    ensures
        r@ == cs@,
{
    cs.into_iter().collect()
}

/// Parses the digit characters of `cs` from position `start` on: leading
/// zeros are consumed without effect, any non-digit rejects the text, and
/// the digits are folded into base 2^32 by their power-of-ten weights.
fn parse_digits(cs: &Vec<char>, start: usize) -> (r: Result<BigNat, APNumParseError>)
    requires
        start <= cs@.len(),
    ensures
        match r {
            Ok(bn) => {
                &&& bn.wf()
                &&& cs@.len() > start
                &&& all_dec_digits(cs@.skip(start as int))
                &&& bn.value() == dec_value(cs@.skip(start as int))
            },
            Err(e) => match e {
                APNumParseError::Empty => cs@.len() == start,
                APNumParseError::Invalid => cs@.len() > start && !all_dec_digits(
                    cs@.skip(start as int),
                ),
            },
        },
{
    let len = cs.len();
    if start == len {
        return Err(APNumParseError::Empty);
    }
    // consume leading zeros
    let mut i: usize = start;
    while i < len && cs[i] == '0'
        invariant
            start <= i <= len,
            len == cs@.len(),
            forall|t: int| start <= t < i ==> cs@[t] == '0',
            dec_value(cs@.skip(i as int)) == dec_value(cs@.skip(start as int)),
        decreases len - i,
    {
        proof {
            assert(cs@.skip(i as int)[0] == cs@[i as int]);
            assert(cs@.skip(i as int).drop_first() =~= cs@.skip(i + 1));
            lemma_dec_value_zero_prefix(cs@.skip(i as int));
        }
        i = i + 1;
    }
    let mut result = BigNat::zero();
    let ten = BigNat::from_u64(10);
    let mut position: usize = 0;
    let mut k: usize = len;
    proof {
        assert(cs@.skip(len as int) =~= Seq::<char>::empty());
    }
    while k > i
        invariant
            i <= k <= len,
            len == cs@.len(),
            position == len - k,
            ten.wf(),
            ten.value() == 10,
            result.wf(),
            result.value() == dec_value(cs@.skip(k as int)),
            forall|t: int| k <= t < len ==> is_dec_digit(#[trigger] cs@[t]),
        decreases k,
    {
        k = k - 1;
        let c = cs[k];
        let cu = c as u32;
        if cu < 48 || cu > 57 {
            proof {
                assert(!is_dec_digit(cs@[k as int]));
                assert(cs@.skip(start as int)[k - start] == cs@[k as int]);
                assert(!all_dec_digits(cs@.skip(start as int)));
            }
            return Err(APNumParseError::Invalid);
        }
        let dv = cu - 48;
        let p = ten.pow_uint(position);
        let term = BigNat::from_u64(dv as u64).mul(&p);
        let ghost old_result = result;
        result = result.add(&term);
        position = position + 1;
        proof {
            let suffix = cs@.skip(k as int);
            assert(suffix[0] == cs@[k as int]);
            assert(suffix.drop_first() =~= cs@.skip(k + 1));
            lemma_dec_value_first(suffix);
            assert(dec_digit_val(cs@[k as int]) == dv);
            assert(suffix.len() - 1 == len - 1 - k);
        }
    }
    proof {
        assert(forall|t: int| start <= t < i ==> is_dec_digit(#[trigger] cs@[t])) by {
            assert(forall|t: int| start <= t < i ==> cs@[t] == '0');
        }
        assert(all_dec_digits(cs@.skip(start as int))) by {
            assert(forall|t: int|
                0 <= t < cs@.skip(start as int).len() ==> cs@.skip(start as int)[t] == cs@[t
                    + start]);
        }
    }
    Ok(result)
}

impl BigNat {
    /// Parses decimal text `digit+`: an empty text is `Empty`, any other
    /// character is `Invalid`, and leading zeros are accepted and ignored.
    pub fn from_decimal(s: &str) -> (r: Result<BigNat, APNumParseError>)
        ensures
            match r {
                Ok(bn) => {
                    &&& bn.wf()
                    &&& s@.len() > 0
                    &&& all_dec_digits(s@)
                    &&& bn.value() == dec_value(s@)
                },
                Err(e) => match e {
                    APNumParseError::Empty => s@.len() == 0,
                    APNumParseError::Invalid => s@.len() > 0 && !all_dec_digits(s@),
                },
            },
    {
        let cs = str_to_chars(s);
        proof {
            assert(cs@.skip(0) =~= cs@);
        }
        parse_digits(&cs, 0)
    }

    /// The decimal digit characters of this value, most significant
    /// first; zero prints as the single character `0`.
    fn dec_chars(&self) -> (r: Vec<char>)
        requires
            self.wf(),
        ensures
            r@ == if self.value() == 0 {
                seq!['0']
            } else {
                dec_chars_of(self.value())
            },
    {
        if self.is_zero() {
            let mut v: Vec<char> = Vec::new();
            v.push('0');
            proof {
                assert(v@ =~= seq!['0']);
            }
            return v;
        }
        let mut number = self.clone();
        let mut out: Vec<char> = Vec::new();
        proof {
            assert(out@.reverse() =~= Seq::<char>::empty());
            assert(dec_chars_of(number.value()) + out@.reverse() =~= dec_chars_of(self.value()));
        }
        while !(number.digit_count() == 0)
            invariant
                number.wf(),
                dec_chars_of(number.value()) + out@.reverse() == dec_chars_of(self.value()),
            decreases number.value(),
        {
            proof {
                lemma_canonical_zero(number.digits@);
            }
            let (nn, dg) = number.div_digit(10);
            proof {
                lemma_fundamental_div_mod_converse(
                    number.value() as int,
                    10,
                    nn.value() as int,
                    dg as int,
                );
                assert(nn.value() < number.value()) by (nonlinear_arith)
                    requires
                        nn.value() * 10 + dg == number.value(),
                        number.value() > 0,
                        dg < 10,
                        nn.value() >= 0,
                ;
            }
            let ch: char = (dg as u8 + 48) as char;
            let ghost out_old = out@;
            out.push(ch);
            proof {
                assert(out@.reverse() =~= seq![ch].add(out_old.reverse()));
                let v = number.value();
                assert(dec_chars_of(v) == dec_chars_of(v / 10).push((((v % 10) + 48) as u8) as char));
                assert((((v % 10) + 48) as u8) as char == ch);
                assert(dec_chars_of(nn.value()) + out@.reverse() =~= dec_chars_of(nn.value()).push(
                    ch,
                ) + out_old.reverse());
                assert(dec_chars_of(nn.value()) + out@.reverse() =~= dec_chars_of(self.value()));
            }
            number = nn;
        }
        proof {
            lemma_canonical_zero(number.digits@);
            assert(dec_chars_of(0) + out@.reverse() =~= out@.reverse());
        }
        let r = crate::div::reversed(&out);
        r
    }

    /// Formats this value as canonical decimal text.
    pub fn to_decimal(&self) -> (r: String)
        requires
            self.wf(),
        ensures
            r@ == if self.value() == 0 {
                seq!['0']
            } else {
                dec_chars_of(self.value())
            },
    {
        chars_to_string(self.dec_chars())
    }
}

impl BigInt {
    /// Parses decimal text `["-"] digit+`: an optional leading minus sets
    /// the sign, the rest is the magnitude; a signless or bodyless text is
    /// `Empty`, a stray character (a second minus included) is `Invalid`.
    pub fn from_decimal(s: &str) -> (r: Result<BigInt, APNumParseError>)
        ensures
            match r {
                Ok(v) => {
                    &&& v.wf()
                    &&& dec_body(s@).len() > 0
                    &&& all_dec_digits(dec_body(s@))
                    &&& v.value() == if dec_neg(s@) {
                        -(dec_value(dec_body(s@)) as int)
                    } else {
                        dec_value(dec_body(s@)) as int
                    }
                },
                Err(e) => match e {
                    APNumParseError::Empty => dec_body(s@).len() == 0,
                    APNumParseError::Invalid => dec_body(s@).len() > 0 && !all_dec_digits(
                        dec_body(s@),
                    ),
                },
            },
    {
        let cs = str_to_chars(s);
        if cs.len() == 0 {
            return Err(APNumParseError::Empty);
        }
        let neg = cs[0] == '-';
        let start: usize = if neg {
            1
        } else {
            0
        };
        proof {
            if neg {
                assert(cs@.skip(1) =~= dec_body(s@));
            } else {
                assert(cs@.skip(0) =~= dec_body(s@));
            }
        }
        match parse_digits(&cs, start) {
            Err(e) => Err(e),
            Ok(natural) => {
                proof {
                    lemma_canonical_zero(natural.digits@);
                }
                if natural.digit_count() == 0 {
                    Ok(BigInt::zero())
                } else {
                    let sign = if neg {
                        Sign::Negative
                    } else {
                        Sign::Positive
                    };
                    Ok(BigInt { sign, natural })
                }
            },
        }
    }

    /// Formats this value as canonical decimal text, with exactly one
    /// leading minus for negative values; zero prints as `0`.
    pub fn to_decimal(&self) -> (r: String)
        requires
            self.wf(),
        ensures
            r@ == if self.value() == 0 {
                seq!['0']
            } else if self.value() < 0 {
                seq!['-'] + dec_chars_of(self.natural.value())
            } else {
                dec_chars_of(self.natural.value())
            },
    {
        proof {
            lemma_canonical_zero(self.natural.digits@);
        }
        match self.sign {
            Sign::Zero => {
                let mut v: Vec<char> = Vec::new();
                v.push('0');
                proof {
                    assert(v@ =~= seq!['0']);
                }
                chars_to_string(v)
            },
            Sign::Positive => self.natural.to_decimal(),
            Sign::Negative => {
                let mag = self.natural.dec_chars();
                let mut v: Vec<char> = Vec::new();
                v.push('-');
                let mut t: usize = 0;
                while t < mag.len()
                    invariant
                        t <= mag@.len(),
                        v@.len() == t + 1,
                        v@[0] == '-',
                        forall|q: int| 0 <= q < t ==> v@[q + 1] == mag@[q],
                    decreases mag@.len() - t,
                {
                    v.push(mag[t]);
                    t = t + 1;
                }
                proof {
                    assert(v@ =~= seq!['-'] + mag@);
                }
                chars_to_string(v)
            },
        }
    }
}

/// Whether signed decimal text carries a leading minus.
pub open spec fn dec_neg(s: Seq<char>) -> bool {
    s.len() > 0 && s[0] == '-'
}

/// The magnitude part of signed decimal text: everything after an
/// optional leading minus.
pub open spec fn dec_body(s: Seq<char>) -> Seq<char> {
    if dec_neg(s) {
        s.drop_first()
    } else {
        s
    }
}


/// The digit string with its leading zeros removed.
pub open spec fn strip_zeros(s: Seq<char>) -> Seq<char>
    decreases s.len(),
{
    if s.len() > 0 && s[0] == '0' {
        strip_zeros(s.drop_first())
    } else {
        s
    }
}

/// The canonical decimal form of a digit string: leading zeros removed,
/// and the single character `0` when nothing is left.
pub open spec fn canonical_decimal(s: Seq<char>) -> Seq<char> {
    if strip_zeros(s).len() == 0 {
        seq!['0']
    } else {
        strip_zeros(s)
    }
}

/// Removing leading zeros keeps the value, leaves no leading zero, and
/// keeps every character a digit.
pub proof fn lemma_strip_zeros(s: Seq<char>)
    ensures
        dec_value(strip_zeros(s)) == dec_value(s),
        strip_zeros(s).len() > 0 ==> strip_zeros(s)[0] != '0',
        all_dec_digits(s) ==> all_dec_digits(strip_zeros(s)),
    decreases s.len(),
{
    if s.len() > 0 && s[0] == '0' {
        lemma_dec_value_zero_prefix(s);
        lemma_strip_zeros(s.drop_first());
        if all_dec_digits(s) {
            assert(all_dec_digits(s.drop_first())) by {
                assert(forall|i: int|
                    0 <= i < s.drop_first().len() ==> s.drop_first()[i] == s[i + 1]);
            }
        }
    }
}

/// A digit character other than `0` has a nonzero value.
pub proof fn lemma_nonzero_digit(c: char)
    requires
        is_dec_digit(c),
        c != '0',
    ensures
        dec_digit_val(c) >= 1,
{
    vstd::utf8::char_u32_cast('0', '0' as u32);
    vstd::utf8::char_u32_cast(c, c as u32);
    if c as u32 == 48 {
        assert(c == '0');
    }
}

} // verus!
