//! Tables that are products of smaller tables, and sums over blocks.
use vstd::prelude::*;
use vstd::arithmetic::power2::{lemma_pow2_adds, lemma_pow2_pos, pow2};
use crate::field::{BinaryField, lemma_mul_swap, lemma_units};
use crate::mle::{eq_at, lemma_half_pow2, lemma_mle_sum, mle};
use crate::sum::{lemma_sum_add, lemma_sum_ext, lemma_sum_scale, lemma_sum_split, sum};

verus! {

/// A sum over `m * n` indices is a sum over `m` blocks of `n`.
pub proof fn lemma_sum_blocks<F: BinaryField>(m: nat, n: nat, f: spec_fn(int) -> F)
    ensures
        sum(m * n, f) == sum(m, |a: int| sum(n, |b: int| f(a * n + b))),
    decreases m,
{
    if m == 0 {
    } else {
        let k = (m - 1) as nat;
        lemma_sum_blocks(k, n, f);
        assert(m * n == k * n + n) by (nonlinear_arith)
            requires
                m == k + 1,
        ;
        lemma_sum_split(k * n, n, f);
        let last = |b: int| f(k * n + b);
        lemma_sum_ext(n, |i: int| f((k * n) as nat + i), last);
    }
}

/// A sum around a circle may start anywhere; here, one place earlier.
pub proof fn lemma_sum_rotate<F: BinaryField>(n: nat, f: spec_fn(int) -> F)
    requires
        n > 0,
    ensures
        sum(n, |i: int| f((i + n - 1) % n as int)) == sum(n, f),
{
    let g = |i: int| f((i + n - 1) % n as int);
    let m = (n - 1) as nat;
    lemma_sum_split(1, m, g);
    assert(sum(1, g) == sum(0, g).add(g(0)));
    lemma_units(g(0));
    let shifted = |i: int| g(1 + i);
    assert forall|i: int| 0 <= i < m implies #[trigger] shifted(i) == f(i) by {
        assert((1 + i + n - 1) % n as int == i) by {
            assert(1 + i + n - 1 == i + n);
            vstd::arithmetic::div_mod::lemma_mod_add_multiples_vanish(i, n as int);
            vstd::arithmetic::div_mod::lemma_small_mod(i as nat, n);
        }
    }
    lemma_sum_ext(m, shifted, f);
    assert((0 + n - 1) % n as int == n - 1) by {
        vstd::arithmetic::div_mod::lemma_small_mod((n - 1) as nat, n);
    }
    F::add_comm(g(0), sum(m, f));
}

/// The weights at a point sum to one.
pub proof fn lemma_weights_sum<F: BinaryField>(p: Seq<F>)
    ensures
        sum(pow2(p.len()), |i: int| eq_at(p, i)) == F::one(),
    decreases p.len(),
{
    let f = |i: int| eq_at(p, i);
    if p.len() == 0 {
        vstd::arithmetic::power2::lemma2_to64();
        assert(sum(1, f) == sum(0, f).add(f(0)));
        lemma_units(F::one());
    } else {
        let q = p.drop_last();
        let h = pow2(q.len());
        lemma_half_pow2(p.len());
        lemma_weights_sum(q);
        lemma_sum_split(h, h, f);
        let hi = |i: int| f(h + i);
        lemma_sum_add(h, f, hi);
        let both = |i: int| f(i).add(hi(i));
        let e = |i: int| eq_at(q, i);
        assert forall|i: int| 0 <= i < h implies #[trigger] both(i) == e(i) by {
            let w = eq_at(q, i);
            let r = p.last();
            F::mul_add(w, F::one().add(r), r);
            crate::field::lemma_add_cancel(F::one(), r);
            F::mul_one(w);
        }
        lemma_sum_ext(h, both, e);
    }
}

/// The weight of an index factors into the weights of its low and high parts.
pub proof fn lemma_eq_at_concat<F: BinaryField>(p: Seq<F>, q: Seq<F>, i: int)
    requires
        0 <= i < pow2(p.len() + q.len()),
    ensures
        eq_at(p + q, i) == eq_at(p, i % pow2(p.len()) as int).mul(
            eq_at(q, i / pow2(p.len()) as int),
        ),
        0 <= i / pow2(p.len()) as int,
        i / (pow2(p.len()) as int) < pow2(q.len()),
        0 <= i % pow2(p.len()) as int,
        i % (pow2(p.len()) as int) < pow2(p.len()),
    decreases q.len(),
{
    let a = p.len();
    let m = pow2(a) as int;
    lemma_pow2_pos(a);
    lemma_pow2_adds(a, q.len());
    let b = pow2(q.len()) as int;
    vstd::arithmetic::div_mod::lemma_fundamental_div_mod(i, m);
    assert(0 <= i % m < m) by {
        vstd::arithmetic::div_mod::lemma_mod_bound(i, m);
    }
    assert(0 <= i / m) by {
        vstd::arithmetic::div_mod::lemma_div_pos_is_pos(i, m);
    }
    assert(i / m < b) by {
        vstd::arithmetic::div_mod::lemma_multiply_divide_lt(i, m, b);
    }
    if q.len() == 0 {
        vstd::arithmetic::power2::lemma2_to64();
        assert(p + q =~= p);
        vstd::arithmetic::div_mod::lemma_small_mod(i as nat, m as nat);
        lemma_units(eq_at(p, i));
    } else {
        let q1 = q.drop_last();
        let r = q.last();
        assert((p + q).drop_last() =~= p + q1);
        let h = pow2(a + q1.len()) as int;
        lemma_half_pow2((a + q.len()) as nat);
        lemma_half_pow2(q.len());
        lemma_pow2_adds(a, q1.len());
        let c = pow2(q1.len()) as int;
        assert(h == m * c);
        if i < h {
            lemma_eq_at_concat(p, q1, i);
            F::mul_assoc(eq_at(p, i % m), eq_at(q1, i / m), F::one().add(r));
        } else {
            let k = i - h;
            lemma_eq_at_concat(p, q1, k);
            // k == i - m c
            assert(i == k + c * m) by (nonlinear_arith)
                requires
                    i == k + h,
                    h == m * c,
            ;
            vstd::arithmetic::div_mod::lemma_mod_multiples_vanish(c, k, m);
            vstd::arithmetic::div_mod::lemma_div_multiples_vanish_fancy(c, k % m, m);
            vstd::arithmetic::div_mod::lemma_fundamental_div_mod(k, m);
            assert(i / m == k / m + c) by {
                vstd::arithmetic::div_mod::lemma_hoist_over_denominator(k, c, m as nat);
            }
            assert(i % m == k % m);
            F::mul_assoc(eq_at(p, k % m), eq_at(q1, k / m), r);
        }
    }
}

/// The table of products `low[i % 2^a] * high[i / 2^a]`.
pub open spec fn outer<F: BinaryField>(low: Seq<F>, high: Seq<F>) -> Seq<F> {
    Seq::new(
        low.len() * high.len(),
        |i: int| low[i % low.len() as int].mul(high[i / low.len() as int]),
    )
}

/// The extension of a table of products is the product of the extensions.
pub proof fn lemma_mle_outer<F: BinaryField>(low: Seq<F>, high: Seq<F>, p: Seq<F>, q: Seq<F>)
    requires
        low.len() == pow2(p.len()),
        high.len() == pow2(q.len()),
    ensures
        mle(outer(low, high), p + q) == mle(low, p).mul(mle(high, q)),
        outer(low, high).len() == pow2(p.len() + q.len()),
{
    let m = low.len();
    let n = high.len();
    let t = outer(low, high);
    lemma_pow2_adds(p.len(), q.len());
    lemma_pow2_pos(p.len());
    assert(t.len() == n * m) by (nonlinear_arith)
        requires
            t.len() == m * n,
    ;
    lemma_mle_sum(t, p + q);
    let f = |i: int| eq_at(p + q, i).mul(t[i]);
    lemma_sum_blocks(n, m, f);
    let fl = |b: int| eq_at(p, b).mul(low[b]);
    let fh = |a: int| eq_at(q, a).mul(high[a]);
    let rows = |a: int| sum(m, |b: int| f(a * m + b));
    let sl = sum(m, fl);
    let scaled = |a: int| sl.mul(fh(a));
    assert forall|a: int| 0 <= a < n implies #[trigger] rows(a) == scaled(a) by {
        let row = |b: int| f(a * m + b);
        let want = |b: int| fh(a).mul(fl(b));
        assert forall|b: int| 0 <= b < m implies #[trigger] row(b) == want(b) by {
            let i = a * m + b;
            assert(0 <= i < m * n) by (nonlinear_arith)
                requires
                    0 <= a < n,
                    0 <= b < m,
                    i == a * m + b,
            ;
            vstd::arithmetic::div_mod::lemma_fundamental_div_mod_converse(i, m as int, a, b);
            lemma_eq_at_concat(p, q, i);
            let (ep, eq, l, h) = (eq_at(p, b), eq_at(q, a), low[b], high[a]);
            assert(t[i] == l.mul(h));
            lemma_mul_swap(ep, eq, l, h);
            F::mul_comm(ep.mul(l), eq.mul(h));
        }
        lemma_sum_ext(m, row, want);
        lemma_sum_scale(m, fh(a), fl);
        F::mul_comm(fh(a), sl);
    }
    lemma_sum_ext(n, rows, scaled);
    lemma_sum_scale(n, sl, fh);
    lemma_mle_sum(low, p);
    lemma_mle_sum(high, q);
}

} // verus!
