//! The division engine: multi-word long division producing quotient and
//! remainder from two magnitudes, by digit normalization, per-digit trial
//! quotient estimation with bounded-error correction and add-back, and a
//! reduced linear-pass short division for single-digit divisors.

use crate::bignat::BigNat;
use crate::digits::{
    base, lemma_canonical_lower, lemma_canonical_zero, lemma_nat_of_bound, lemma_nat_of_push_zero,
    lemma_nat_of_split, lemma_value_shorter_lt, nat_of,
};
use vstd::arithmetic::div_mod::{
    lemma_fundamental_div_mod, lemma_fundamental_div_mod_converse, lemma_mod_bound,
};
use vstd::arithmetic::mul::{
    lemma_mul_basics, lemma_mul_inequality, lemma_mul_is_commutative, lemma_mul_strict_inequality,
};
use vstd::arithmetic::power::{lemma_pow0, lemma_pow1, lemma_pow_adds, lemma_pow_positive, pow};
use crate::APNum;
use vstd::prelude::*;

verus! {

/// Reverses a digit vector, restoring significance order for quotient
/// digits that were produced most-significant first.
pub(crate) fn reversed<T: Copy>(v: &Vec<T>) -> (r: Vec<T>)
    ensures
        r@ == v@.reverse(),
{
    let mut r: Vec<T> = Vec::new();
    let mut i: usize = v.len();
    while i > 0
        invariant
            i <= v@.len(),
            r@.len() == v@.len() - i,
            forall|t: int| 0 <= t < r@.len() ==> r@[t] == v@[v@.len() - 1 - t],
        decreases i,
    {
        i = i - 1;
        r.push(v[i]);
    }
    proof {
        assert(r@ =~= v@.reverse());
    }
    r
}

/// When the two-digit trial test fires, the trial digit is too big: its
/// product with the divisor exceeds the whole window.
proof fn lemma_trial_too_big(w: Seq<u32>, v: Seq<u32>, qh: int, rh: int)
    requires
        v.len() >= 2,
        w.len() == v.len() + 1,
        qh >= 0,
        rh >= 0,
        rh == w[w.len() - 1] * base() + w[w.len() - 2] - qh * v[v.len() - 1],
        qh * v[v.len() - 2] > base() * rh + w[w.len() - 3],
    ensures
        qh * nat_of(v) > nat_of(w),
{
    let n = v.len() as int;
    let b = base() as int;
    let v1 = v[n - 1] as int;
    let v2 = v[n - 2] as int;
    let f = w[n] as int;
    let s = w[n - 1] as int;
    let u3 = w[n - 2] as int;
    let p2 = pow(b, (n - 2) as nat);
    lemma_pow_positive(b, (n - 2) as nat);
    let hv = nat_of(v.skip(n - 2)) as int;
    assert(hv == v2 + b * v1) by {
        assert(v.skip(n - 2).drop_first() =~= v.skip(n - 1));
        assert(v.skip(n - 1).drop_first() =~= Seq::<u32>::empty());
        assert(v.skip(n - 2)[0] == v2);
        assert(v.skip(n - 1)[0] == v1);
        assert(nat_of(Seq::<u32>::empty()) == 0);
        lemma_mul_basics(b);
        assert(nat_of(v.skip(n - 1)) == v1 + b * nat_of(v.skip(n - 1).drop_first()));
        assert(nat_of(v.skip(n - 2)) == v2 + b * nat_of(v.skip(n - 2).drop_first()));
    }
    let hw = nat_of(w.skip(n - 2)) as int;
    assert(hw == u3 + b * (s + b * f)) by {
        assert(w.skip(n - 2).drop_first() =~= w.skip(n - 1));
        assert(w.skip(n - 1).drop_first() =~= w.skip(n));
        assert(w.skip(n).drop_first() =~= Seq::<u32>::empty());
        assert(w.skip(n - 2)[0] == u3);
        assert(w.skip(n - 1)[0] == s);
        assert(w.skip(n)[0] == f);
        assert(nat_of(Seq::<u32>::empty()) == 0);
        lemma_mul_basics(b);
        assert(nat_of(w.skip(n)) == f + b * nat_of(w.skip(n).drop_first()));
        assert(nat_of(w.skip(n - 1)) == s + b * nat_of(w.skip(n - 1).drop_first()));
        assert(nat_of(w.skip(n - 2)) == u3 + b * nat_of(w.skip(n - 2).drop_first()));
    }
    let vv = nat_of(v) as int;
    let ww = nat_of(w) as int;
    lemma_nat_of_split(v, n - 2);
    lemma_nat_of_split(w, n - 2);
    lemma_nat_of_bound(w.take(n - 2));
    let wlow = nat_of(w.take(n - 2)) as int;
    assert(vv == nat_of(v.take(n - 2)) + p2 * hv);
    assert(ww == wlow + p2 * hw);
    assert(wlow < p2);
    assert(vv >= p2 * hv);
    lemma_mul_inequality(p2 * hv, vv, qh);
    assert(qh * (p2 * hv) >= p2 * (b * rh + u3 + 1 + b * (qh * v1))) by (nonlinear_arith)
        requires
            qh * v2 >= b * rh + u3 + 1,
            qh >= 0,
            p2 > 0,
            hv == v2 + b * v1,
    ;
    assert(p2 * (b * rh + u3 + 1 + b * (qh * v1)) == p2 * hw + p2) by (nonlinear_arith)
        requires
            rh + qh * v1 == f * b + s,
            hw == u3 + b * (s + b * f),
    ;
    assert(qh * vv >= qh * (p2 * hv));
}

/// The trial digit read from the top two digits of the window over the
/// divisor's leading digit never underestimates the true quotient digit.
proof fn lemma_trial_init(w: Seq<u32>, v: Seq<u32>)
    requires
        v.len() >= 2,
        w.len() == v.len() + 1,
        v[v.len() - 1] >= 1,
    ensures
        nat_of(v) >= 1,
        (nat_of(w) as int) / (nat_of(v) as int) <= ((w[w.len() - 1] * base() + w[w.len() - 2]) as int)
            / (v[v.len() - 1] as int),
{
    let n = v.len() as int;
    let b = base() as int;
    let v1 = v[n - 1] as int;
    let top2 = w[n] * b + w[n - 1];
    let p1 = pow(b, (n - 1) as nat);
    lemma_pow_positive(b, (n - 1) as nat);
    lemma_nat_of_split(v, n - 1);
    lemma_nat_of_split(w, n - 1);
    assert(nat_of(v.skip(n - 1)) == v1) by {
        assert(v.skip(n - 1).drop_first() =~= Seq::<u32>::empty());
        assert(v.skip(n - 1)[0] == v[n - 1]);
        assert(nat_of(Seq::<u32>::empty()) == 0);
        lemma_mul_basics(b);
        assert(nat_of(v.skip(n - 1)) == v1 + b * nat_of(v.skip(n - 1).drop_first()));
    }
    assert(nat_of(w.skip(n - 1)) == top2) by {
        assert(w.skip(n - 1).drop_first() =~= w.skip(n));
        assert(w.skip(n).drop_first() =~= Seq::<u32>::empty());
        assert(w.skip(n - 1)[0] == w[n - 1]);
        assert(w.skip(n)[0] == w[n]);
        assert(nat_of(Seq::<u32>::empty()) == 0);
        lemma_mul_basics(b);
        assert(nat_of(w.skip(n)) == w[n] + b * nat_of(w.skip(n).drop_first()));
        assert(nat_of(w.skip(n - 1)) == w[n - 1] + b * nat_of(w.skip(n - 1).drop_first()));
        lemma_mul_is_commutative(w[n] as int, b);
    }
    let vv = nat_of(v) as int;
    let ww = nat_of(w) as int;
    assert(vv >= p1 * v1);
    assert(vv >= 1) by (nonlinear_arith)
        requires
            vv >= p1 * v1,
            p1 >= 1,
            v1 >= 1,
    ;
    lemma_nat_of_bound(w.take(n - 1));
    assert(ww < p1 * (top2 + 1)) by (nonlinear_arith)
        requires
            ww == nat_of(w.take(n - 1)) + p1 * top2,
            nat_of(w.take(n - 1)) < p1,
    ;
    let q = ww / vv;
    lemma_fundamental_div_mod(ww, vv);
    lemma_mod_bound(ww, vv);
    assert(q >= 0) by (nonlinear_arith)
        requires
            ww == vv * q + ww % vv,
            ww >= 0,
            0 <= ww % vv < vv,
            vv >= 1,
    ;
    assert(q * vv <= ww);
    assert(q * v1 < top2 + 1) by (nonlinear_arith)
        requires
            q * vv <= ww,
            ww < p1 * (top2 + 1),
            vv >= p1 * v1,
            p1 >= 1,
            q >= 0,
            v1 >= 1,
    ;
    assert(q * v1 <= top2);
    lemma_fundamental_div_mod(top2 as int, v1);
    lemma_mod_bound(top2 as int, v1);
    let qt = (top2 as int) / v1;
    assert(q <= qt) by (nonlinear_arith)
        requires
            q * v1 <= top2,
            top2 == v1 * qt + (top2 as int) % v1,
            0 <= (top2 as int) % v1 < v1,
            v1 >= 1,
            q >= 0,
    ;
}

impl BigNat {
    /// Short division: for a divisor that fits in one digit, one linear
    /// pass from the most significant digit computes quotient digit and
    /// running remainder.
    pub fn div_digit(&self, v: u32) -> (r: (BigNat, u32))
        requires
            self.wf(),
            v != 0,
        ensures
            r.0.wf(),
            r.0.value() * v + r.1 == self.value(),
            r.1 < v,
    {
        if v == 1 {
            proof {
                assert(self.value() * 1 == self.value()) by (nonlinear_arith);
            }
            return (self.clone(), 0);
        }
        let n = self.digits.len();
        if n == 0 {
            proof {
                assert(0 * v == 0) by (nonlinear_arith);
            }
            return (BigNat::zero(), 0);
        }
        let a = &self.digits;
        let mut w: Vec<u32> = Vec::new();
        let mut r: u64 = 0;
        let mut j: usize = n;
        proof {
            assert(a@.skip(n as int) =~= Seq::<u32>::empty());
            assert(w@.reverse() =~= Seq::<u32>::empty());
            assert(nat_of(w@.reverse()) * v == 0) by (nonlinear_arith)
                requires
                    nat_of(w@.reverse()) == 0,
            ;
        }
        while j > 0
            invariant
                j <= n,
                n == a@.len(),
                r < v,
                w@.len() == n - j,
                nat_of(w@.reverse()) * v + r == nat_of(a@.skip(j as int)),
            decreases j,
        {
            j = j - 1;
            proof {
                assert(r * crate::BASE + 0xffff_ffffu64 < 0x1_0000_0000_0000_0000)
                    by (nonlinear_arith)
                    requires
                        r <= 0xffff_fffeu64,
                ;
            }
            let cur: u64 = r * crate::BASE + a[j] as u64;
            proof {
                lemma_fundamental_div_mod(cur as int, v as int);
                lemma_mod_bound(cur as int, v as int);
                assert(cur < v * crate::BASE) by (nonlinear_arith)
                    requires
                        cur == r * crate::BASE + a@[j as int],
                        r < v,
                        a@[j as int] < crate::BASE,
                ;
                assert((cur as int) / (v as int) < crate::BASE) by (nonlinear_arith)
                    requires
                        cur == (v as int) * ((cur as int) / (v as int)) + ((cur as int) % (v as int)),
                        0 <= (cur as int) % (v as int),
                        cur < v * crate::BASE,
                        v >= 1,
                ;
            }
            let qd: u32 = (cur / v as u64) as u32;
            let ghost wold = w@;
            let ghost rold = r as int;
            w.push(qd);
            r = cur % v as u64;
            proof {
                assert(w@.reverse() =~= seq![qd].add(wold.reverse()));
                assert(seq![qd].add(wold.reverse()).drop_first() =~= wold.reverse());
                assert(nat_of(w@.reverse()) == qd + base() * nat_of(wold.reverse()));
                assert(a@.skip(j as int).drop_first() =~= a@.skip(j + 1));
                assert(a@.skip(j as int)[0] == a@[j as int]);
                let qq = nat_of(wold.reverse()) as int;
                assert((qd + base() * qq) * v == qd * v + base() * (qq * v)) by (nonlinear_arith);
                assert(base() * (qq * v + rold) == base() * (qq * v) + base() * rold)
                    by (nonlinear_arith);
                assert(qd * v + r == rold * base() + a@[j as int]) by {
                    assert(cur == (v as int) * ((cur as int) / (v as int)) + ((cur as int) % (v as int)));
                }
            }
        }
        proof {
            assert(a@.skip(0) =~= a@);
        }
        let q_digits = reversed(&w);
        let quotient = BigNat { digits: q_digits }.zero_normalized();
        (quotient, r as u32)
    }

    /// Long division by Knuth's Algorithm D: normalizes divisor and
    /// dividend by a single-digit scale factor, produces one quotient
    /// digit per window from a corrected two-digit trial estimate with
    /// add-back, and unnormalizes the remainder by short division.
    #[verifier::rlimit(60)]
    pub fn div(&self, rhs: &BigNat) -> (r: (BigNat, BigNat))
        requires
            self.wf(),
            rhs.wf(),
            rhs.value() != 0,
        ensures
            r.0.wf(),
            r.1.wf(),
            r.0.value() * rhs.value() + r.1.value() == self.value(),
            r.1.value() < rhs.value(),
    {
        let ghost a_val = self.value() as int;
        let ghost b_val = rhs.value() as int;
        proof {
            lemma_canonical_zero(rhs.digits@);
        }
        // a divisor that fits one digit takes the short-division pass
        if rhs.digits.len() == 1 {
            proof {
                assert(rhs.digits@.drop_first() =~= Seq::<u32>::empty());
                assert(nat_of(Seq::<u32>::empty()) == 0);
                lemma_mul_basics(base() as int);
                assert(rhs.value() == rhs.digits@[0] + base() * nat_of(
                    rhs.digits@.drop_first(),
                ));
                assert(rhs.value() == rhs.digits@[0]);
            }
            let (q, rr) = self.div_digit(rhs.digits[0]);
            return (q, BigNat::from_u64(rr as u64));
        }
        match self.cmp(rhs) {
            core::cmp::Ordering::Less => {
                proof {
                    assert(0 * rhs.value() == 0) by (nonlinear_arith);
                }
                return (BigNat::zero(), self.clone());
            },
            core::cmp::Ordering::Equal => {
                proof {
                    assert(1 * rhs.value() == rhs.value()) by (nonlinear_arith);
                }
                return (BigNat::from_u64(1), BigNat::zero());
            },
            core::cmp::Ordering::Greater => {},
        }
        // D1: normalize so the divisor's leading digit is large
        let n0 = rhs.digits.len();
        proof {
            assert(rhs.digits@[n0 - 1] != 0);
        }
        let dtop: u64 = (crate::BASE - 1) / (rhs.digits[n0 - 1] as u64);
        proof {
            let v1o = rhs.digits@[n0 - 1] as int;
            lemma_fundamental_div_mod(crate::BASE as int - 1, v1o);
            lemma_mod_bound(crate::BASE as int - 1, v1o);
            assert(1 <= (crate::BASE as int - 1) / v1o <= crate::BASE - 1) by (nonlinear_arith)
                requires
                    crate::BASE as int - 1 == v1o * ((crate::BASE as int - 1) / v1o) + (
                    crate::BASE as int - 1) % v1o,
                    0 <= (crate::BASE as int - 1) % v1o < v1o,
                    1 <= v1o <= crate::BASE - 1,
            ;
        }
        let d1: u32 = dtop as u32;
        let v_try = rhs.mul_digit(d1);
        // that factor can widen the divisor by a digit, which would leave
        // its new leading digit small and the trial estimates far off; in
        // that case scale instead by the largest factor that keeps the
        // divisor's width, which also keeps its leading digit large
        let wide = v_try.digit_count() != n0;
        let (d, v): (u32, BigNat) = if !wide {
            (d1, v_try)
        } else {
            let v1w: u64 = rhs.digits[n0 - 1] as u64 + 1;
            let d2top: u64 = crate::BASE / v1w;
            proof {
                let v1x = v1w as int;
                lemma_fundamental_div_mod(crate::BASE as int, v1x);
                lemma_mod_bound(crate::BASE as int, v1x);
                assert(1 <= (crate::BASE as int) / v1x <= crate::BASE - 1) by (nonlinear_arith)
                    requires
                        crate::BASE as int == v1x * ((crate::BASE as int) / v1x) + (
                        crate::BASE as int) % v1x,
                        0 <= (crate::BASE as int) % v1x < v1x,
                        2 <= v1x <= crate::BASE,
                ;
            }
            let d2: u32 = d2top as u32;
            (d2, rhs.mul_digit(d2))
        };
        let u_scaled = self.mul_digit(d);
        let ghost vv = v.value() as int;
        let ghost av = u_scaled.value() as int;
        proof {
            lemma_mul_strict_inequality(b_val, a_val, d as int);
            lemma_mul_inequality(1, d as int, b_val);
            assert(b_val * 1 == b_val && b_val * d == d * b_val && a_val * d == d * a_val)
                by (nonlinear_arith);
            assert(vv >= b_val);
            lemma_canonical_lower(rhs.digits@);
            lemma_nat_of_bound(v.digits@);
            // the scaled divisor keeps at least two digits
            if v.digits@.len() < 2 {
                lemma_pow1(base() as int);
                lemma_pow_positive(base() as int, (n0 - 1) as nat);
                lemma_pow_adds(base() as int, 1, (n0 - 2) as nat);
                lemma_pow_positive(base() as int, (n0 - 2) as nat);
                assert(base() * 1 <= base() * pow(base() as int, (n0 - 2) as nat))
                    by (nonlinear_arith)
                    requires
                        pow(base() as int, (n0 - 2) as nat) >= 1,
                ;
                assert(b_val >= base());
                assert(false);
            }
            if u_scaled.digits@.len() < v.digits@.len() {
                lemma_value_shorter_lt(u_scaled.digits@, v.digits@);
                assert(false);
            }
        }
        let n = v.digit_count();
        let mut u = u_scaled.digits;
        let m = u.len() - n;
        let ghost u_orig = u@;
        proof {
            lemma_nat_of_push_zero(u@);
        }
        u.push(0);
        let mut qds: Vec<u32> = Vec::new();
        let mut jj: usize = m + 1;
        proof {
            // initial window bound: the scaled dividend is below B^(m+1) * V
            lemma_canonical_lower(v.digits@);
            lemma_nat_of_bound(u_orig);
            lemma_pow_adds(base() as int, (m + 1) as nat, (n - 1) as nat);
            lemma_pow_positive(base() as int, (m + 1) as nat);
            lemma_pow_positive(base() as int, (n - 1) as nat);
            assert(pow(base() as int, (m + 1) as nat) * vv >= pow(base() as int, (m + 1) as nat)
                * pow(base() as int, (n - 1) as nat)) by (nonlinear_arith)
                requires
                    vv >= pow(base() as int, (n - 1) as nat),
                    pow(base() as int, (m + 1) as nat) > 0,
            ;
            assert(qds@.reverse() =~= Seq::<u32>::empty());
            assert(pow(base() as int, (m + 1) as nat) * (nat_of(qds@.reverse()) * vv) == 0)
                by (nonlinear_arith)
                requires
                    nat_of(qds@.reverse()) == 0,
            ;
        }
        while jj > 0
            invariant
                jj <= m + 1,
                u@.len() == jj + n,
                v.wf(),
                n == v.digits@.len(),
                2 <= n,
                vv == v.value(),
                vv >= 1,
                qds@.len() == m + 1 - jj,
                av == pow(base() as int, jj as nat) * (nat_of(qds@.reverse()) * vv) + nat_of(u@),
                nat_of(u@) < pow(base() as int, jj as nat) * vv,
            decreases jj,
        {
            let j = jj - 1;
            let ghost pj = pow(base() as int, j as nat);
            let ghost pjj = pow(base() as int, jj as nat);
            let ghost wseq = u@.skip(j as int);
            let ghost ww = nat_of(wseq) as int;
            proof {
                lemma_pow_adds(base() as int, j as nat, 1);
                lemma_pow1(base() as int);
                lemma_pow_positive(base() as int, j as nat);
                lemma_nat_of_split(u@, j as int);
                lemma_nat_of_bound(u@.take(j as int));
                // window bound: W < B * V
                assert(ww < base() * vv) by (nonlinear_arith)
                    requires
                        nat_of(u@.take(j as int)) + pj * ww < pjj * vv,
                        pjj == pj * base(),
                        nat_of(u@.take(j as int)) >= 0,
                        pj > 0,
                        ww >= 0,
                        vv >= 0,
                ;
            }
            let ghost qt = ww / vv;
            proof {
                lemma_fundamental_div_mod(ww, vv);
                lemma_mod_bound(ww, vv);
                assert(qt >= 0 && qt * vv <= ww) by (nonlinear_arith)
                    requires
                        ww == vv * qt + ww % vv,
                        0 <= ww % vv < vv,
                        ww >= 0,
                        vv >= 1,
                ;
                // the true quotient digit fits in one digit
                assert(qt < crate::BASE) by (nonlinear_arith)
                    requires
                        qt * vv <= ww,
                        ww < base() * vv,
                        vv >= 1,
                        qt >= 0,
                ;
            }
            // D3: estimate the trial quotient digit from the top two digits
            let f = u[j + n];
            let s2 = u[j + n - 1];
            let u3 = u[j + n - 2];
            let v1 = v.digits[n - 1];
            let v2 = v.digits[n - 2];
            proof {
                assert(v.digits@[n - 1] != 0);
                assert((f as int) * (crate::BASE as int) + (s2 as int) < 0x1_0000_0000_0000_0000)
                    by (nonlinear_arith)
                    requires
                        f <= 0xffff_ffffu32,
                        s2 <= 0xffff_ffffu32,
                ;
            }
            let top2: u64 = (f as u64) * crate::BASE + (s2 as u64);
            let mut qh: u64 = top2 / (v1 as u64);
            let mut rh: u64 = top2 % (v1 as u64);
            proof {
                lemma_trial_init(wseq, v.digits@);
                assert(wseq[wseq.len() - 1] == f && wseq[wseq.len() - 2] == s2);
                assert(qt <= qh);
                lemma_fundamental_div_mod(top2 as int, v1 as int);
                lemma_mod_bound(top2 as int, v1 as int);
                assert(rh == top2 - qh * v1) by (nonlinear_arith)
                    requires
                        top2 == (v1 as int) * qh + rh,
                ;
            }
            // correct the estimate while the two-digit test shows it too big
            let mut done = false;
            while !done
                invariant
                    !done ==> rh < crate::BASE,
                    qh >= qt,
                    rh == top2 - qh * v1,
                    v1 == v.digits@[n - 1],
                    v2 == v.digits@[n - 2],
                    u3 == wseq[wseq.len() - 3],
                    f == wseq[wseq.len() - 1],
                    s2 == wseq[wseq.len() - 2],
                    top2 == (f as int) * base() + s2,
                    2 <= n == v.digits@.len(),
                    wseq.len() == n + 1,
                    ww == nat_of(wseq),
                    vv == v.value(),
                    vv >= 1,
                    qt == ww / vv,
                    qt * vv <= ww,
                decreases 2 * qh + (if done {
                    0int
                } else {
                    1int
                }),
            {
                let fire = if qh == crate::BASE {
                    true
                } else {
                    let qh_nat = BigNat::from_u64(qh);
                    let lhs_t = qh_nat.mul_digit(v2);
                    proof {
                        assert(rh * crate::BASE + u3 < 0x1_0000_0000_0000_0000)
                            by (nonlinear_arith)
                            requires
                                rh <= 0xffff_ffffu64,
                                u3 <= 0xffff_ffffu32,
                        ;
                    }
                    let rhs_t = BigNat::from_u64(rh * crate::BASE + (u3 as u64));
                    matches!(lhs_t.cmp(&rhs_t), core::cmp::Ordering::Greater)
                };
                if fire {
                    proof {
                        if qh == crate::BASE {
                            assert(qh > qt);
                        } else {
                            lemma_trial_too_big(wseq, v.digits@, qh as int, rh as int);
                            assert(qh * vv > ww);
                            assert(qh > qt) by (nonlinear_arith)
                                requires
                                    qh * vv > ww,
                                    qt * vv <= ww,
                                    vv >= 1,
                            ;
                        }
                    }
                    qh = qh - 1;
                    rh = rh + v1 as u64;
                    proof {
                        assert(rh == top2 - qh * v1) by (nonlinear_arith)
                            requires
                                rh - v1 == top2 - (qh + 1) * v1,
                        ;
                    }
                    if rh >= crate::BASE {
                        done = true;
                    }
                } else {
                    done = true;
                }
            }
            // D4: multiply and subtract over the whole window
            let ul = u.len();
            proof {
                assert(n < ul);
            }
            let mut window: Vec<u32> = Vec::new();
            let mut t: usize = 0;
            while t < n + 1
                invariant
                    t <= n + 1,
                    u@.len() == jj + n,
                    jj == j + 1,
                    window@.len() == t,
                    forall|q: int| 0 <= q < t ==> window@[q] == u@[j + q],
                decreases n + 1 - t,
            {
                window.push(u[j + t]);
                t = t + 1;
            }
            proof {
                assert(window@ =~= u@.skip(j as int));
            }
            let wb = BigNat { digits: window }.zero_normalized();
            let qh_nat = BigNat::from_u64(qh);
            let prod = qh_nat.mul(&v);
            let mut ms = wb.sub(&prod);
            let mut qhc: u64 = qh;
            // D5/D6: while the difference is negative the trial digit is
            // still too big; add the divisor back and retry
            while ms.is_negative()
                invariant
                    ms.wf(),
                    ms.value() == ww - qhc * vv,
                    qhc >= qt,
                    vv == v.value(),
                    vv >= 1,
                    v.wf(),
                    qt == ww / vv,
                    qt * vv <= ww,
                    ww >= 0,
                decreases qhc,
            {
                proof {
                    assert(qhc > qt) by (nonlinear_arith)
                        requires
                            qhc * vv > ww,
                            qt * vv <= ww,
                            vv >= 1,
                    ;
                }
                qhc = qhc - 1;
                let ghost old_ms = ms.value();
                ms = v.sub(&ms.natural);
                proof {
                    assert(ms.value() == ww - qhc * vv) by (nonlinear_arith)
                        requires
                            ms.value() == vv - (qhc + 1) * vv + ww,
                    ;
                }
            }
            let ghost rr_val = ms.value();
            proof {
                assert(rr_val >= 0);
                lemma_fundamental_div_mod(ww, vv);
                lemma_mod_bound(ww, vv);
                lemma_mul_is_commutative(vv, qt);
                lemma_mul_inequality(qt, qhc as int, vv);
                assert(rr_val < vv);
                lemma_fundamental_div_mod_converse(ww, vv, qhc as int, rr_val);
                assert(qhc == qt);
            }
            // write the remainder back over the window, padded to width n
            let mut rd = ms.natural.digits;
            proof {
                lemma_nat_of_bound(v.digits@);
                if rd@.len() > n {
                    lemma_canonical_lower(rd@);
                    lemma_pow_positive(base() as int, n as nat);
                    if rd@.len() - 1 > n {
                        vstd::arithmetic::power::lemma_pow_increases(
                            base(),
                            n as nat,
                            (rd@.len() - 1) as nat,
                        );
                    }
                    assert(false);
                }
            }
            while rd.len() < n
                invariant
                    rd@.len() <= n,
                    nat_of(rd@) == rr_val,
                decreases n - rd@.len(),
            {
                proof {
                    lemma_nat_of_push_zero(rd@);
                }
                rd.push(0);
            }
            let mut nu: Vec<u32> = Vec::new();
            let mut t2: usize = 0;
            while t2 < j
                invariant
                    t2 <= j,
                    u@.len() == jj + n,
                    jj == j + 1,
                    nu@.len() == t2,
                    forall|q: int| 0 <= q < t2 ==> nu@[q] == u@[q],
                decreases j - t2,
            {
                nu.push(u[t2]);
                t2 = t2 + 1;
            }
            let ghost nu_low = nu@;
            let mut t3: usize = 0;
            while t3 < n
                invariant
                    t3 <= n == rd@.len(),
                    nu@.len() == j + t3,
                    nu@.take(j as int) =~= nu_low,
                    forall|q: int| 0 <= q < t3 ==> nu@[j + q] == rd@[q],
                decreases n - t3,
            {
                nu.push(rd[t3]);
                t3 = t3 + 1;
            }
            let ghost old_q = nat_of(qds@.reverse()) as int;
            let ghost qds_old = qds@;
            let ghost uold = u@;
            let ghost tkj = nat_of(u@.take(j as int)) as int;
            qds.push(qhc as u32);
            u = nu;
            jj = jj - 1;
            proof {
                // quotient digits gained one more least-significant digit
                assert(qds@.reverse() =~= seq![qhc as u32].add(qds_old.reverse()));
                assert(seq![qhc as u32].add(qds_old.reverse()).drop_first() =~= qds_old.reverse());
                let newq = nat_of(qds@.reverse()) as int;
                assert(newq == qhc + base() * old_q);
                // the rebuilt dividend keeps the low digits and holds the
                // remainder of this window in the next n positions
                assert(u@.take(j as int) =~= uold.take(j as int));
                assert(u@.skip(j as int) =~= rd@);
                lemma_nat_of_split(u@, j as int);
                assert(nat_of(u@) == tkj + pj * rr_val);
                assert(uold.skip(j as int) =~= wseq);
                assert(nat_of(uold) == tkj + pj * ww);
                assert(ww == qhc * vv + rr_val);
                assert(pj * (newq * vv) + nat_of(u@) == av) by (nonlinear_arith)
                    requires
                        newq == qhc + base() * old_q,
                        av == pjj * (old_q * vv) + (tkj + pj * ww),
                        nat_of(u@) == tkj + pj * rr_val,
                        ww == qhc * vv + rr_val,
                        pjj == pj * base(),
                ;
                lemma_nat_of_bound(uold.take(j as int));
                assert(nat_of(u@) < pj * vv) by (nonlinear_arith)
                    requires
                        nat_of(u@) == tkj + pj * rr_val,
                        0 <= tkj < pj,
                        0 <= rr_val < vv,
                        pj > 0,
                ;
            }
        }
        proof {
            lemma_pow0(base() as int);
        }
        let q_digits = reversed(&qds);
        let quotient = BigNat { digits: q_digits }.zero_normalized();
        let rem_scaled = BigNat { digits: u }.zero_normalized();
        // D8: unnormalize; the scaled remainder divides evenly by the scale
        let (remainder, rr) = rem_scaled.div_digit(d);
        proof {
            let qv = quotient.value() as int;
            let rv = rem_scaled.value() as int;
            assert(av == qv * vv + rv) by (nonlinear_arith)
                requires
                    av == 1 * (qv * vv) + rv,
            ;
            let k = a_val - qv * b_val;
            assert(k * d == rv) by (nonlinear_arith)
                requires
                    av == qv * vv + rv,
                    av == a_val * d,
                    vv == b_val * d,
                    k == a_val - qv * b_val,
            ;
            assert(k >= 0) by (nonlinear_arith)
                requires
                    k * d == rv,
                    rv >= 0,
                    d >= 1,
            ;
            lemma_fundamental_div_mod_converse(rv, d as int, k, 0);
            lemma_fundamental_div_mod_converse(
                rv,
                d as int,
                remainder.value() as int,
                rr as int,
            );
            assert(remainder.value() == k);
            assert(rr == 0);
            assert(remainder.value() < b_val) by (nonlinear_arith)
                requires
                    remainder.value() * d == rv,
                    rv < b_val * d,
                    d >= 1,
                    remainder.value() >= 0,
            ;
        }
        (quotient, remainder)
    }
}

} // verus!
