//! Lagrange interpolation.
use vstd::prelude::*;
use crate::field::{BinaryField, TowerField, lemma_add_cancel, lemma_add_eq_zero, lemma_mul_eq_zero, lemma_units};
use crate::mle::line;
use crate::poly::{is_poly, lemma_poly_const, lemma_poly_line, lemma_poly_mul, lemma_poly_sum, lemma_poly_unique, slice_of};
use crate::sum::{lemma_sum_ext, lemma_sum_single, sum};

verus! {

/// The product of `x + p_j` over the first `m` points but the `k`-th.
pub open spec fn numerator<F: BinaryField>(points: Seq<F>, k: int, x: F, m: nat) -> F
    decreases m,
{
    if m == 0 {
        F::one()
    } else if m - 1 == k {
        numerator(points, k, x, (m - 1) as nat)
    } else {
        numerator(points, k, x, (m - 1) as nat).mul(x.add(points[m - 1]))
    }
}

/// The `k`-th summand of the interpolation.
pub open spec fn summand<F: BinaryField>(points: Seq<F>, evals: Seq<F>, k: int, x: F) -> F {
    let n = points.len();
    evals[k].mul(numerator(points, k, x, n)).mul(numerator(points, k, points[k], n).inv())
}

/// The value at `x` of the polynomial through the given values at the given
/// points.
pub open spec fn interpolate<F: BinaryField>(points: Seq<F>, evals: Seq<F>, x: F) -> F {
    sum(points.len(), |k: int| summand(points, evals, k, x))
}

/// The points 0, 1, .., n - 1 of the field.
pub open spec fn small_points<F: TowerField>(n: nat) -> Seq<F> {
    Seq::new(n, |k: int| F::of_u128(k as u128))
}

/// The points 0, 1, .., n - 1 are distinct.
pub proof fn lemma_small_points<F: TowerField>(n: nat)
    requires
        n <= u128::MAX,
    ensures
        small_points::<F>(n).no_duplicates(),
        small_points::<F>(n).len() == n,
{
    let s = small_points::<F>(n);
    assert forall|i: int, j: int| 0 <= i < n && 0 <= j < n && i != j implies s[i] != s[j] by {
        F::bits_of_u128(i as u128);
        F::bits_of_u128(j as u128);
    }
}

proof fn lemma_numerator_poly<F: BinaryField>(points: Seq<F>, k: int, m: nat, g: spec_fn(F) -> F)
    requires
        forall|x: F| #[trigger] g(x) == numerator(points, k, x, m),
    ensures
        is_poly(g, if 0 <= k < m { m } else { m + 1 }),
    decreases m,
{
    if m == 0 {
        lemma_poly_const(F::one(), g);
    } else {
        let j = (m - 1) as nat;
        let h = |x: F| numerator(points, k, x, j);
        lemma_numerator_poly(points, k, j, h);
        if j == k {
            let c = choose|c: Seq<F>| #[trigger]
                c.len() == m && forall|x: F| #[trigger] h(x) == crate::poly::peval(c, x);
            assert forall|x: F| #[trigger] g(x) == crate::poly::peval(c, x) by {
                assert(h(x) == crate::poly::peval(c, x));
            }
        } else {
            let p = points[j as int];
            let l = |x: F| x.add(p);
            assert forall|x: F| #[trigger] l(x) == line(p, p.add(F::one()), x) by {
                lemma_add_cancel(p, F::one());
                F::mul_one(x);
                F::add_comm(x, p);
            }
            lemma_poly_line(p, p.add(F::one()), l);
            let d: nat = if 0 <= k < j { j } else { (j + 1) as nat };
            assert forall|x: F| #[trigger] g(x) == h(x).mul(l(x)) by {}
            lemma_poly_mul(h, d, l, 2, g);
        }
    }
}

proof fn lemma_numerator_zero<F: BinaryField>(points: Seq<F>, k: int, j: int, m: nat)
    requires
        0 <= j < m,
        j != k,
    ensures
        numerator(points, k, points[j], m) == F::zero(),
    decreases m,
{
    let h = numerator(points, k, points[j], (m - 1) as nat);
    if j == m - 1 {
        F::add_self(points[j]);
        lemma_units(h);
    } else {
        lemma_numerator_zero(points, k, j, (m - 1) as nat);
        lemma_units(points[j].add(points[m - 1]));
    }
}

proof fn lemma_numerator_nonzero<F: BinaryField>(points: Seq<F>, k: int, m: nat)
    requires
        points.no_duplicates(),
        m <= points.len(),
        0 <= k < points.len(),
    ensures
        numerator(points, k, points[k], m) != F::zero(),
    decreases m,
{
    if m == 0 {
        F::one_not_zero();
    } else {
        lemma_numerator_nonzero(points, k, (m - 1) as nat);
        if m - 1 != k {
            lemma_add_eq_zero(points[k], points[m - 1]);
            lemma_mul_eq_zero(
                numerator(points, k, points[k], (m - 1) as nat),
                points[k].add(points[m - 1]),
            );
        }
    }
}

/// The denominator of each summand is invertible.
pub proof fn lemma_denominator<F: BinaryField>(points: Seq<F>, k: int)
    requires
        points.no_duplicates(),
        0 <= k < points.len(),
    ensures
        numerator(points, k, points[k], points.len()) != F::zero(),
{
    lemma_numerator_nonzero(points, k, points.len());
}

/// The interpolation takes the given values at the given points.
pub proof fn lemma_interpolate_at_point<F: BinaryField>(points: Seq<F>, evals: Seq<F>, j: int)
    requires
        points.no_duplicates(),
        0 <= j < points.len(),
    ensures
        interpolate(points, evals, points[j]) == evals[j],
{
    let n = points.len();
    let f = |k: int| summand(points, evals, k, points[j]);
    assert forall|k: int| 0 <= k < n && k != j implies #[trigger] f(k) == F::zero() by {
        lemma_numerator_zero(points, k, j, n);
        lemma_units(evals[k]);
        lemma_units(numerator(points, k, points[k], n).inv());
    }
    lemma_sum_single(n, j, f);
    let d = numerator(points, j, points[j], n);
    lemma_numerator_nonzero(points, j, n);
    F::mul_inv(d);
    F::mul_assoc(evals[j], d, d.inv());
    F::mul_one(evals[j]);
}

/// The interpolation is a polynomial with as many coefficients as points.
pub proof fn lemma_interpolate_poly<F: BinaryField>(
    points: Seq<F>,
    evals: Seq<F>,
    g: spec_fn(F) -> F,
)
    requires
        forall|x: F| #[trigger] g(x) == interpolate(points, evals, x),
    ensures
        is_poly(g, points.len()),
{
    let n = points.len();
    let s = |k: int, x: F| summand(points, evals, k, x);
    assert forall|k: int| 0 <= k < n implies is_poly(#[trigger] slice_of(s, k), n) by {
        let num = |x: F| numerator(points, k, x, n);
        lemma_numerator_poly(points, k, n, num);
        let e = |x: F| evals[k];
        lemma_poly_const(evals[k], e);
        let m = |x: F| e(x).mul(num(x));
        lemma_poly_mul(e, 1, num, n, m);
        let d = |x: F| numerator(points, k, points[k], n).inv();
        lemma_poly_const(numerator(points, k, points[k], n).inv(), d);
        lemma_poly_mul(m, n, d, 1, slice_of(s, k));
    }
    assert forall|x: F| #[trigger] g(x) == sum(n, |k: int| s(k, x)) by {
        lemma_sum_ext(n, |k: int| summand(points, evals, k, x), |k: int| s(k, x));
    }
    lemma_poly_sum(n, s, g, n);
}

/// Interpolation recovers a polynomial from its values: a polynomial with `n`
/// coefficients is given by its values at any `n` distinct points.
pub proof fn lemma_interpolate<F: BinaryField>(
    g: spec_fn(F) -> F,
    points: Seq<F>,
    evals: Seq<F>,
    x: F,
)
    requires
        is_poly(g, points.len()),
        points.no_duplicates(),
        evals.len() == points.len(),
        forall|k: int| 0 <= k < points.len() ==> #[trigger] evals[k] == g(points[k]),
    ensures
        interpolate(points, evals, x) == g(x),
{
    let h = |x: F| interpolate(points, evals, x);
    lemma_interpolate_poly(points, evals, h);
    assert forall|i: int| 0 <= i < points.len() implies g(#[trigger] points[i]) == h(points[i]) by {
        lemma_interpolate_at_point(points, evals, i);
        assert(evals[i] == g(points[i]));
    }
    lemma_poly_unique(g, h, points.len(), points, x);
}

/// Evaluates at `r` the polynomial through the given values at 0, 1, .., n - 1.
pub fn lagrange_at_small_points<F: TowerField>(evals: &[F], r: F) -> (v: F)
    requires
        evals.len() <= u64::MAX,
    ensures
        v == interpolate(small_points::<F>(evals.len() as nat), evals@, r),
{
    let n: usize = evals.len();
    let ghost points = small_points::<F>(n as nat);
    let ghost term = |k: int| summand(points, evals@, k, r);
    proof {
        lemma_small_points::<F>(n as nat);
    }
    let mut acc = F::zero_value();
    let mut k: usize = 0;
    while k < n
        invariant
            k <= n,
            n == evals.len(),
            n <= u64::MAX,
            points == small_points::<F>(n as nat),
            points.no_duplicates(),
            term == (|k: int| summand(points, evals@, k, r)),
            acc == sum(k as nat, term),
        decreases n - k,
    {
        let xk = F::from_u128(k as u128);
        let mut num = F::one_value();
        let mut den = F::one_value();
        let mut j: usize = 0;
        while j < n
            invariant
                j <= n,
                k < n,
                n <= u64::MAX,
                points == small_points::<F>(n as nat),
                xk == points[k as int],
                num == numerator(points, k as int, r, j as nat),
                den == numerator(points, k as int, xk, j as nat),
            decreases n - j,
        {
            if j != k {
                let xj = F::from_u128(j as u128);
                num = num.times(r.plus(xj));
                den = den.times(xk.plus(xj));
            }
            j += 1;
        }
        proof {
            lemma_denominator(points, k as int);
        }
        acc = acc.plus(evals[k].times(num).times(den.invert()));
        k += 1;
    }
    acc
}

} // verus!
