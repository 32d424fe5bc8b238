//! Softmax normalisation of the external output segment.
//!
//! The engine's exponential is a piecewise-linear, base-two approximation on
//! fixed-point scalars: the input (clamped to a working interval) selects an
//! octave by its integer part and interpolates linearly within it. It is
//! positive and bounded, so the normalised weights form a probability
//! distribution up to the rounding of integer division: every entry lies in
//! `[0, SCALE]` and the entries sum to one unit, short by less than one
//! rounding step per slot.

use vstd::prelude::*;
use crate::fixed::{SCALE, BOUND, seq_in_range};

verus! {

/// Two to the power `k` (one for negative `k`).
pub open spec fn pow2(k: int) -> int
    decreases k,
{
    if k <= 0 {
        1
    } else {
        2 * pow2(k - 1)
    }
}

proof fn lemma_pow2_pos(k: int)
    ensures
        pow2(k) >= 1,
    decreases k,
{
    if k > 0 {
        lemma_pow2_pos(k - 1);
    }
}

proof fn lemma_pow2_mono(a: int, b: int)
    requires
        a <= b,
    ensures
        pow2(a) <= pow2(b),
    decreases b - a,
{
    if a < b {
        lemma_pow2_mono(a, b - 1);
        lemma_pow2_pos(b - 1);
    }
}

/// The engine's exponential: clamp the scaled input to `[-16, 14]` units,
/// split it into integer part `q - 16` and fraction `f`, and return
/// `(1 + f) * 2^(q - 16)` in fixed point — a monotone, positive,
/// piecewise-linear approximation of the base-two exponential.
pub open spec fn spec_exp(x: i64) -> i64 {
    let c: int = if x < -1048576 {
        -1048576
    } else if x > 917504 {
        917504
    } else {
        x as int
    };
    let d = c + 1048576;
    let q = d / 65536;
    let f = d - q * 65536;
    let base = 65536 + f;
    if q >= 16 {
        (base * pow2(q - 16)) as i64
    } else {
        (base / pow2(16 - q)) as i64
    }
}

/// The approximate exponential of every scalar is at least one rounding step
/// and at most `BOUND`.
pub proof fn lemma_spec_exp_bounds(x: i64)
    ensures
        1 <= spec_exp(x) <= BOUND,
{
    let c: int = if x < -1048576 {
        -1048576
    } else if x > 917504 {
        917504
    } else {
        x as int
    };
    let d = c + 1048576;
    let q = d / 65536;
    let f = d - q * 65536;
    let base = 65536 + f;
    vstd::arithmetic::div_mod::lemma_fundamental_div_mod(d, 65536);
    vstd::arithmetic::div_mod::lemma_mod_bound(d, 65536);
    assert(0 <= q <= 30);
    assert(65536 <= base <= 131071);
    if q >= 16 {
        let p = pow2(q - 16);
        lemma_pow2_pos(q - 16);
        lemma_pow2_mono(q - 16, 14);
        assert(pow2(14) == 16384) by {
            reveal_with_fuel(pow2, 16);
        }
        assert(base * p <= 131071 * 16384) by (nonlinear_arith)
            requires
                1 <= p <= 16384,
                65536 <= base <= 131071,
        ;
        assert(base * p >= 1) by (nonlinear_arith)
            requires
                p >= 1,
                base >= 1,
        ;
    } else {
        let p = pow2(16 - q);
        lemma_pow2_pos(16 - q);
        lemma_pow2_mono(16 - q, 16);
        assert(pow2(16) == 65536) by {
            reveal_with_fuel(pow2, 18);
        }
        let qq = base / p;
        vstd::arithmetic::div_mod::lemma_fundamental_div_mod(base, p);
        vstd::arithmetic::div_mod::lemma_mod_bound(base, p);
        let rr = base % p;
        assert(p * qq == base - rr);
        assert(base - rr > 0);
        assert(qq >= 1) by (nonlinear_arith)
            requires
                p * qq > 0,
                p >= 1,
        ;
        assert(qq <= base) by (nonlinear_arith)
            requires
                p * qq <= base,
                p >= 1,
                qq >= 0,
        ;
    }
}

/// Compute the approximate exponential of one scalar.
pub fn fx_exp(x: i64) -> (r: i64)
    ensures
        r == spec_exp(x),
        1 <= r <= BOUND,
{
    proof {
        lemma_spec_exp_bounds(x);
    }
    let c: i64 = if x < -1048576 {
        -1048576
    } else if x > 917504 {
        917504
    } else {
        x
    };
    let du: u64 = (c + 1048576) as u64;
    let qu: u64 = du / 65536;
    proof {
        vstd::arithmetic::div_mod::lemma_fundamental_div_mod(du as int, 65536);
        vstd::arithmetic::div_mod::lemma_mod_bound(du as int, 65536);
    }
    let f: u64 = du - qu * 65536;
    let base: u64 = 65536 + f;
    if qu >= 16 {
        let mut acc: u64 = base;
        let mut k: u64 = 16;
        while k < qu
            invariant
                16 <= k <= qu,
                qu <= 30,
                65536 <= base <= 131071,
                acc == base * pow2(k as int - 16),
            decreases qu - k,
        {
            proof {
                lemma_pow2_pos(k as int - 16);
                lemma_pow2_mono(k as int - 16, 13);
                assert(pow2(13) == 8192) by {
                    reveal_with_fuel(pow2, 15);
                }
                assert(base * pow2(k as int - 16) <= 131071 * 8192) by (nonlinear_arith)
                    requires
                        1 <= pow2(k as int - 16) <= 8192,
                        65536 <= base <= 131071,
                ;
                assert(base * pow2(k as int - 16) >= 0) by (nonlinear_arith)
                    requires
                        pow2(k as int - 16) >= 1,
                        base >= 0,
                ;
                assert(2 * (base * pow2(k as int - 16)) == base * pow2(k as int - 15))
                    by (nonlinear_arith)
                    requires
                        pow2(k as int - 15) == 2 * pow2(k as int - 16),
                ;
            }
            acc = acc * 2;
            k += 1;
        }
        proof {
            lemma_pow2_pos(qu as int - 16);
            lemma_pow2_mono(qu as int - 16, 14);
            assert(pow2(14) == 16384) by {
                reveal_with_fuel(pow2, 16);
            }
            assert(base * pow2(qu as int - 16) <= 131071 * 16384) by (nonlinear_arith)
                requires
                    1 <= pow2(qu as int - 16) <= 16384,
                    65536 <= base <= 131071,
            ;
        }
        acc as i64
    } else {
        let mut acc: u64 = base;
        let mut k: u64 = qu;
        while k < 16
            invariant
                qu <= k <= 16,
                qu <= 30,
                65536 <= base <= 131071,
                acc as int == base as int / pow2(k as int - qu as int),
            decreases 16 - k,
        {
            proof {
                let j = k as int - qu as int;
                lemma_pow2_pos(j);
                vstd::arithmetic::div_mod::lemma_div_denominator(base as int, pow2(j), 2);
                assert(pow2(j) * 2 == pow2(j + 1));
                vstd::arithmetic::div_mod::lemma_div_pos_is_pos(base as int, pow2(j));
                vstd::arithmetic::div_mod::lemma_div_is_ordered_by_denominator(
                    base as int,
                    1,
                    pow2(j),
                );
                vstd::arithmetic::div_mod::lemma_div_basics(base as int);
            }
            acc = acc / 2;
            k += 1;
        }
        proof {
            lemma_pow2_pos(16 - qu as int);
            vstd::arithmetic::div_mod::lemma_div_is_ordered_by_denominator(
                base as int,
                1,
                pow2(16 - qu as int),
            );
            vstd::arithmetic::div_mod::lemma_div_basics(base as int);
            vstd::arithmetic::div_mod::lemma_div_pos_is_pos(base as int, pow2(16 - qu as int));
        }
        acc as i64
    }
}

/// The sum of a vector's entries.
pub open spec fn seq_sum(s: Seq<i64>) -> int
    decreases s.len(),
{
    if s.len() == 0 {
        0
    } else {
        seq_sum(s.drop_last()) + s.last()
    }
}

/// The elementwise approximate exponential of a vector.
pub open spec fn exp_seq(s: Seq<i64>) -> Seq<i64> {
    s.map_values(|x: i64| spec_exp(x))
}

/// Softmax: each entry's exponential weight, normalised by the total weight,
/// in fixed point.
pub open spec fn spec_softmax(s: Seq<i64>) -> Seq<i64> {
    let e = exp_seq(s);
    let t = seq_sum(e);
    Seq::new(s.len(), |i: int| ((e[i] * 65536) / t) as i64)
}

proof fn lemma_sum_bounds(s: Seq<i64>, lo: int, hi: int)
    requires
        forall|i: int| 0 <= i < s.len() ==> lo <= #[trigger] s[i] <= hi,
        0 <= lo,
    ensures
        s.len() * lo <= seq_sum(s) <= s.len() * hi,
    decreases s.len(),
{
    if s.len() > 0 {
        lemma_sum_bounds(s.drop_last(), lo, hi);
        assert((s.len() - 1) * lo + lo == s.len() * lo) by (nonlinear_arith);
        assert((s.len() - 1) * hi + hi == s.len() * hi) by (nonlinear_arith);
    }
}

proof fn lemma_element_le_sum(s: Seq<i64>, i: int)
    requires
        forall|j: int| 0 <= j < s.len() ==> #[trigger] s[j] >= 0,
        0 <= i < s.len(),
    ensures
        s[i] <= seq_sum(s),
    decreases s.len(),
{
    if i == s.len() - 1 {
        lemma_sum_bounds(s.drop_last(), 0, i64::MAX as int);
        assert(s.drop_last().len() * 0 == 0) by (nonlinear_arith);
    } else {
        lemma_element_le_sum(s.drop_last(), i);
    }
}

/// The normalised entries, as a function of the weights and their total.
pub open spec fn div_seq(e: Seq<i64>, t: int) -> Seq<i64> {
    Seq::new(e.len(), |i: int| ((e[i] * 65536) / t) as i64)
}

proof fn lemma_sum_div(e: Seq<i64>, t: int)
    requires
        t >= 1,
        forall|i: int| 0 <= i < e.len() ==> 1 <= #[trigger] e[i] <= BOUND,
    ensures
        t * seq_sum(div_seq(e, t)) <= 65536 * seq_sum(e),
        t * seq_sum(div_seq(e, t)) >= 65536 * seq_sum(e) - e.len() * t,
    decreases e.len(),
{
    if e.len() == 0 {
        assert(div_seq(e, t) =~= Seq::<i64>::empty());
        assert(t * 0 == 0) by (nonlinear_arith);
    } else {
        let e2 = e.drop_last();
        lemma_sum_div(e2, t);
        assert(div_seq(e2, t) =~= div_seq(e, t).drop_last());
        let last = e.last();
        let num = last * 65536;
        vstd::arithmetic::div_mod::lemma_fundamental_div_mod(num, t);
        vstd::arithmetic::div_mod::lemma_mod_bound(num, t);
        let q = num / t;
        vstd::arithmetic::div_mod::lemma_div_pos_is_pos(num, t);
        assert(q <= num) by (nonlinear_arith)
            requires
                t * q <= num,
                t >= 1,
                q >= 0,
        ;
        assert(div_seq(e, t).last() == q as i64);
        assert(seq_sum(div_seq(e, t)) == seq_sum(div_seq(e2, t)) + q);
        let s2 = seq_sum(div_seq(e2, t));
        assert(t * (s2 + q) == t * s2 + t * q) by (nonlinear_arith);
        assert(e.len() * t == e2.len() * t + t) by (nonlinear_arith)
            requires
                e.len() == e2.len() + 1,
        ;
    }
}

/// Law: the softmax output is a valid probability distribution: every entry
/// lies in `[0, SCALE]` and the entries sum to one unit (`SCALE`), short by
/// at most one rounding step per slot.
pub proof fn lemma_softmax_distribution(s: Seq<i64>)
    requires
        1 <= s.len() <= 0x100000000,
        seq_in_range(s),
    ensures
        forall|i: int| 0 <= i < s.len() ==> 0 <= #[trigger] spec_softmax(s)[i] <= SCALE,
        (SCALE as int) - s.len() <= seq_sum(spec_softmax(s)) <= SCALE as int,
{
    let e = exp_seq(s);
    assert forall|i: int| 0 <= i < e.len() implies 1 <= #[trigger] e[i] <= BOUND by {
        lemma_spec_exp_bounds(s[i]);
    }
    let t = seq_sum(e);
    lemma_sum_bounds(e, 1, BOUND as int);
    assert(e.len() * 1 == e.len()) by (nonlinear_arith);
    assert(t >= 1);
    assert forall|i: int| 0 <= i < s.len() implies 0 <= #[trigger] spec_softmax(s)[i] <= SCALE by {
        let num = e[i] * 65536;
        vstd::arithmetic::div_mod::lemma_div_pos_is_pos(num, t);
        lemma_element_le_sum(e, i);
        vstd::arithmetic::mul::lemma_mul_inequality(e[i] as int, t, 65536);
        vstd::arithmetic::div_mod::lemma_div_is_ordered(num, t * 65536, t);
        vstd::arithmetic::div_mod::lemma_div_multiples_vanish(65536, t);
        assert(t * 65536 == 65536 * t) by (nonlinear_arith);
    }
    assert(spec_softmax(s) =~= div_seq(e, t));
    lemma_sum_div(e, t);
    let ss = seq_sum(div_seq(e, t));
    assert(ss <= 65536) by (nonlinear_arith)
        requires
            t * ss <= 65536 * t,
            t >= 1,
    ;
    assert(ss >= 65536 - e.len()) by (nonlinear_arith)
        requires
            t * ss >= 65536 * t - e.len() * t,
            t >= 1,
    ;
}

/// Normalise a vector into the softmax distribution over its slots.
pub fn softmax(v: &Vec<i64>) -> (r: Vec<i64>)
    requires
        1 <= v@.len() <= 0x100000000,
        seq_in_range(v@),
    ensures
        r@ == spec_softmax(v@),
        seq_in_range(r@),
{
    let n = v.len();
    let mut e: Vec<i64> = Vec::new();
    let mut i: usize = 0;
    while i < n
        invariant
            i <= n,
            n == v@.len(),
            seq_in_range(v@),
            e@.len() == i,
            forall|t: int| 0 <= t < i ==> #[trigger] e@[t] == spec_exp(v@[t]),
            forall|t: int| 0 <= t < i ==> 1 <= #[trigger] e@[t] <= BOUND,
        decreases n - i,
    {
        e.push(fx_exp(v[i]));
        i += 1;
    }
    proof {
        assert(e@ =~= exp_seq(v@));
    }
    let mut total: u64 = 0;
    let mut i: usize = 0;
    while i < n
        invariant
            i <= n,
            n == e@.len() == v@.len(),
            n <= 0x100000000,
            forall|t: int| 0 <= t < n ==> 1 <= #[trigger] e@[t] <= BOUND,
            total as int == seq_sum(e@.take(i as int)),
            total as int <= (i as int) * (BOUND as int),
        decreases n - i,
    {
        proof {
            assert(e@.take(i + 1).drop_last() =~= e@.take(i as int));
            assert((i as int) * (BOUND as int) + BOUND as int == (i as int + 1) * (BOUND as int))
                by (nonlinear_arith);
            assert((i as int + 1) * (BOUND as int) <= 0x100000000 * (BOUND as int))
                by (nonlinear_arith)
                requires
                    i as int + 1 <= 0x100000000,
            ;
        }
        total = total + (e[i] as u64);
        i += 1;
    }
    proof {
        assert(e@.take(n as int) =~= e@);
        lemma_sum_bounds(e@, 1, BOUND as int);
        assert((n as int) * 1 == n as int) by (nonlinear_arith);
    }
    let mut out: Vec<i64> = Vec::new();
    let mut i: usize = 0;
    while i < n
        invariant
            i <= n,
            n == e@.len() == v@.len(),
            total as int == seq_sum(e@),
            total >= 1,
            e@ == exp_seq(v@),
            forall|t: int| 0 <= t < n ==> 1 <= #[trigger] e@[t] <= BOUND,
            out@.len() == i,
            forall|t: int| 0 <= t < i ==> #[trigger] out@[t] == ((e@[t] * 65536) / (total as int)) as i64,
            forall|t: int| 0 <= t < i ==> 0 <= #[trigger] out@[t] <= SCALE,
        decreases n - i,
    {
        let num: u64 = (e[i] as u64) * 65536;
        let qd: u64 = num / total;
        proof {
            let ti = total as int;
            let ni = num as int;
            vstd::arithmetic::div_mod::lemma_div_pos_is_pos(ni, ti);
            lemma_element_le_sum(e@, i as int);
            vstd::arithmetic::mul::lemma_mul_inequality(e@[i as int] as int, ti, 65536);
            vstd::arithmetic::div_mod::lemma_div_is_ordered(ni, ti * 65536, ti);
            vstd::arithmetic::div_mod::lemma_div_multiples_vanish(65536, ti);
            assert(ti * 65536 == 65536 * ti) by (nonlinear_arith);
        }
        out.push(qd as i64);
        i += 1;
    }
    proof {
        assert(out@ =~= spec_softmax(v@));
    }
    out
}

} // verus!
