//! Round polynomials and the operations that build them.
use vstd::prelude::*;
use crate::field::{BinaryField, TowerField, lemma_add_cancel, lemma_add_mul, lemma_square_add, lemma_units};
use crate::interpolate::{interpolate, lemma_denominator, lemma_small_points, numerator, small_points, summand};
use crate::poly::{conv, conv_at, lemma_peval_add, lemma_peval_concat, lemma_peval_conv, lemma_peval_pad, lemma_peval_scale, peval, pow};
use crate::sum::{lemma_sum_ext, sum};

verus! {

/// A round polynomial by its coefficients, lowest first.
#[derive(Clone, Debug, PartialEq, Eq)]
pub struct RoundPolynomial<F> {
    pub coeffs: Vec<F>,
}

/// `count` zeros.
pub fn zeros<F: BinaryField>(count: usize) -> (r: Vec<F>)
    ensures
        r@ == Seq::new(count as nat, |k: int| F::zero()),
{
    let mut r: Vec<F> = Vec::new();
    let mut k: usize = 0;
    while k < count
        invariant
            k <= count,
            r.len() == k,
            forall|j: int| 0 <= j < k ==> #[trigger] r[j] == F::zero(),
        decreases count - k,
    {
        r.push(F::zero_value());
        k += 1;
    }
    proof {
        assert(r@ =~= Seq::new(count as nat, |k: int| F::zero()));
    }
    r
}

/// The values of a polynomial of zeros.
pub proof fn lemma_peval_zeros<F: BinaryField>(n: nat, x: F)
    ensures
        peval(Seq::new(n, |k: int| F::zero()), x) == F::zero(),
{
    lemma_peval_pad(Seq::<F>::empty(), n, x);
    assert(Seq::new(n, |k: int| F::zero()) =~= Seq::new(
        n,
        |k: int| if k < Seq::<F>::empty().len() { Seq::<F>::empty()[k] } else { F::zero() },
    ));
}

/// The product of two polynomials.
pub fn poly_mul<F: BinaryField>(a: &[F], b: &[F]) -> (r: Vec<F>)
    requires
        a.len() > 0,
        b.len() > 0,
        a.len() + b.len() <= usize::MAX + 1,
    ensures
        r@ == conv(a@, b@, (a.len() + b.len() - 1) as nat),
        r.len() == a.len() + b.len() - 1,
        forall|x: F| #[trigger] peval(r@, x) == peval(a@, x).mul(peval(b@, x)),
{
    let n: usize = a.len() + (b.len() - 1);
    let mut out = zeros::<F>(n);
    let mut i: usize = 0;
    let ghost part = |k: int|
        |i: int|
            if 0 <= k - i < b.len() {
                a@[i].mul(b@[k - i])
            } else {
                F::zero()
            };
    while i < a.len()
        invariant
            i <= a.len(),
            n == a.len() + b.len() - 1,
            b.len() > 0,
            out.len() == n,
            part == (|k: int|
                |i: int|
                    if 0 <= k - i < b.len() {
                        a@[i].mul(b@[k - i])
                    } else {
                        F::zero()
                    }),
            forall|k: int| 0 <= k < n ==> #[trigger] out[k] == sum(i as nat, part(k)),
        decreases a.len() - i,
    {
        let ghost before = out@;
        let mut j: usize = 0;
        while j < b.len()
            invariant
                j <= b.len(),
                i < a.len(),
                n == a.len() + b.len() - 1,
                    out.len() == n,
                before.len() == n,
                forall|k: int|
                    0 <= k < n ==> #[trigger] out[k] == if i <= k < i + j {
                        before[k].add(a@[i as int].mul(b@[k - i]))
                    } else {
                        before[k]
                    },
            decreases b.len() - j,
        {
            let e = out[i + j].plus(a[i].times(b[j]));
            out.set(i + j, e);
            j += 1;
        }
        proof {
            assert forall|k: int| 0 <= k < n implies #[trigger] out[k] == sum(
                (i + 1) as nat,
                part(k),
            ) by {
                assert(before[k] == sum(i as nat, part(k)));
                if !(i <= k < i + b.len()) {
                    F::add_zero(before[k]);
                }
            }
        }
        i += 1;
    }
    proof {
        assert forall|k: int| 0 <= k < n implies out[k] == conv_at(a@, b@, k) by {
            lemma_sum_ext(
                a.len() as nat,
                part(k),
                |i: int|
                    if 0 <= k - i < b.len() {
                        a@[i].mul(b@[k - i])
                    } else {
                        F::zero()
                    },
            );
        }
        assert(out@ =~= conv(a@, b@, n as nat));
        assert forall|x: F| #[trigger] peval(out@, x) == peval(a@, x).mul(peval(b@, x)) by {
            lemma_peval_conv(a@, b@, n as nat, x);
        }
    }
    out
}

/// The polynomial times a constant.
pub fn poly_scalar_mul<F: BinaryField>(p: &[F], s: F) -> (r: Vec<F>)
    ensures
        r.len() == p.len(),
        forall|k: int| 0 <= k < r.len() ==> #[trigger] r[k] == s.mul(p@[k]),
        forall|x: F| #[trigger] peval(r@, x) == s.mul(peval(p@, x)),
{
    let mut r: Vec<F> = Vec::new();
    let mut k: usize = 0;
    while k < p.len()
        invariant
            k <= p.len(),
            r.len() == k,
            forall|j: int| 0 <= j < k ==> #[trigger] r[j] == s.mul(p@[j]),
        decreases p.len() - k,
    {
        r.push(s.times(p[k]));
        k += 1;
    }
    proof {
        assert(r@ =~= Seq::new(p@.len(), |i: int| s.mul(p@[i])));
        assert forall|x: F| #[trigger] peval(r@, x) == s.mul(peval(p@, x)) by {
            lemma_peval_scale(s, p@, x);
        }
    }
    r
}

/// Adds a polynomial to a longer one.
pub fn poly_add_assign<F: BinaryField>(acc: &mut Vec<F>, p: &[F])
    requires
        p.len() <= old(acc).len(),
    ensures
        final(acc).len() == old(acc).len(),
        forall|k: int|
            0 <= k < final(acc).len() ==> #[trigger] final(acc)@[k] == if k < p.len() {
                old(acc)@[k].add(p@[k])
            } else {
                old(acc)@[k]
            },
        forall|x: F| #[trigger] peval(final(acc)@, x) == peval(old(acc)@, x).add(peval(p@, x)),
{
    let mut k: usize = 0;
    while k < p.len()
        invariant
            k <= p.len() <= acc.len(),
            acc.len() == old(acc).len(),
            forall|j: int|
                0 <= j < acc.len() ==> #[trigger] acc@[j] == if j < k {
                    old(acc)@[j].add(p@[j])
                } else {
                    old(acc)@[j]
                },
        decreases p.len() - k,
    {
        let e = acc[k].plus(p[k]);
        acc.set(k, e);
        k += 1;
    }
    proof {
        let n = acc@.len();
        let q = Seq::new(n, |k: int| if k < p@.len() { p@[k] } else { F::zero() });
        assert forall|k: int| 0 <= k < n implies acc@[k] == old(acc)@[k].add(q[k]) by {
            if k >= p@.len() {
                F::add_zero(old(acc)@[k]);
            }
        }
        assert(acc@ =~= Seq::new(n, |k: int| old(acc)@[k].add(q[k])));
        assert forall|x: F|
            #[trigger] peval(acc@, x) == peval(old(acc)@, x).add(peval(p@, x)) by {
            lemma_peval_pad(p@, n, x);
            lemma_peval_add(old(acc)@, q, x);
        }
    }
}

/// The line through `a` at zero and `b` at one.
pub fn line_poly<F: BinaryField>(a: F, b: F) -> (r: Vec<F>)
    ensures
        r@ == seq![a, a.add(b)],
        forall|x: F| #[trigger] peval(r@, x) == crate::mle::line(a, b, x),
{
    let mut r: Vec<F> = Vec::new();
    r.push(a);
    r.push(a.plus(b));
    proof {
        assert(r@ =~= seq![a, a.add(b)]);
        assert forall|x: F| #[trigger] peval(r@, x) == crate::mle::line(a, b, x) by {
            reveal_with_fuel(peval, 3);
            let d = r@.drop_first();
            assert(d.drop_first().len() == 0);
            assert(d[0] == a.add(b));
            lemma_units(x);
            lemma_units(a.add(b));
        }
    }
    r
}

/// `x` to the seventh power.
pub open spec fn pow7<F: BinaryField>(x: F) -> F {
    let x2 = x.mul(x);
    x2.mul(x2).mul(x2.mul(x))
}

/// Computes the seventh power.
pub fn pow7_value<F: BinaryField>(x: F) -> (r: F)
    ensures
        r == pow7(x),
{
    let x2 = x.times(x);
    x2.times(x2).times(x2.times(x))
}

/// `pow7` is the seventh power.
pub proof fn lemma_pow7<F: BinaryField>(x: F)
    ensures
        pow7(x) == pow(x, 7),
{
    reveal_with_fuel(pow, 8);
    lemma_units(x);
    let x2 = x.mul(x);
    let x3 = x2.mul(x);
    F::mul_assoc(x2, x, x);
    let x4 = x2.mul(x2);
    assert(pow(x, 4) == x4);
    F::mul_assoc(x4, x2, x);
    F::mul_assoc(x4, x, x);
}

/// The values of a polynomial with the two coefficients `a` and `b`, `gap`
/// degrees apart, for a gap of one and of two.
proof fn lemma_peval_two<F: BinaryField>(a: F, b: F, x: F)
    ensures
        peval(seq![a, b], x) == a.add(x.mul(b)),
        peval(seq![a, F::zero(), b], x) == a.add(x.mul(x).mul(b)),
{
    reveal_with_fuel(peval, 4);
    let s = seq![a, b];
    assert(s.drop_first() =~= seq![b]);
    assert(s.drop_first().drop_first() =~= Seq::empty());
    lemma_units(x);
    lemma_units(b);
    let t = seq![a, F::zero(), b];
    assert(t.drop_first() =~= seq![F::zero(), b]);
    assert(t.drop_first().drop_first() =~= seq![b]);
    assert(t.drop_first().drop_first().drop_first() =~= Seq::empty());
    lemma_units(x.mul(b));
    F::mul_assoc(x, x, b);
}

/// The seventh power of the polynomial `a + b X`.
pub fn pow7_poly<F: BinaryField>(a: F, b: F) -> (r: Vec<F>)
    ensures
        r.len() == 8,
        forall|x: F| #[trigger] peval(r@, x) == pow7(a.add(x.mul(b))),
{
    let a2 = a.times(a);
    let b2 = b.times(b);
    let a4 = a2.times(a2);
    let b4 = b2.times(b2);
    let mut p1: Vec<F> = Vec::new();
    p1.push(a);
    p1.push(b);
    let mut p2: Vec<F> = Vec::new();
    p2.push(a2);
    p2.push(F::zero_value());
    p2.push(b2);
    let p3 = poly_mul(p2.as_slice(), p1.as_slice());
    let mut r = poly_scalar_mul(p3.as_slice(), a4);
    let high = poly_scalar_mul(p3.as_slice(), b4);
    let ghost low = r@;
    let mut k: usize = 0;
    while k < 4
        invariant
            k <= 4,
            low.len() == 4,
            high.len() == 4,
            r@ == low + high@.take(k as int),
        decreases 4 - k,
    {
        r.push(high[k]);
        proof {
            assert(r@ =~= low + high@.take(k + 1));
        }
        k += 1;
    }
    proof {
        assert(high@.take(4) =~= high@);
        assert forall|x: F| #[trigger] peval(r@, x) == pow7(a.add(x.mul(b))) by {
            let t = x.mul(b);
            let p = a.add(t);
            lemma_peval_two(a, b, x);
            lemma_peval_two(a2, b2, x);
            assert(p1@ =~= seq![a, b]);
            assert(p2@ =~= seq![a2, F::zero(), b2]);
            let x2 = x.mul(x);
            // p^2 == a^2 + x^2 b^2
            lemma_square_add(a, t);
            crate::field::lemma_mul_swap(x, b, x, b);
            let q = p.mul(p);
            assert(q == a2.add(x2.mul(b2)));
            assert(peval(p3@, x) == q.mul(p));
            // p^4 == a^4 + x^4 b^4
            lemma_square_add(a2, x2.mul(b2));
            crate::field::lemma_mul_swap(x2, b2, x2, b2);
            let x4 = x2.mul(x2);
            assert(q.mul(q) == a4.add(x4.mul(b4)));
            lemma_peval_concat(low, high@, x);
            assert(pow(x, 4) == x4) by {
                reveal_with_fuel(pow, 5);
                lemma_units(x);
                F::mul_assoc(x2, x, x);
            }
            F::mul_assoc(x4, b4, q.mul(p));
            lemma_add_mul(a4, x4.mul(b4), q.mul(p));
        }
    }
    r
}

impl<F: TowerField> RoundPolynomial<F> {
    /// The polynomial with the given coefficients.
    pub fn from_coeffs(coeffs: Vec<F>) -> (r: Self)
        ensures
            r.coeffs@ == coeffs@,
    {
        RoundPolynomial { coeffs }
    }

    /// One less than the number of coefficients.
    pub fn degree(&self) -> (r: usize)
        ensures
            r == if self.coeffs.len() == 0 {
                0
            } else {
                self.coeffs.len() - 1
            },
    {
        if self.coeffs.len() == 0 {
            0
        } else {
            self.coeffs.len() - 1
        }
    }

    /// The value at `x`.
    pub fn evaluate(&self, x: F) -> (v: F)
        ensures
            v == peval(self.coeffs@, x),
    {
        let mut acc = F::zero_value();
        let mut i: usize = self.coeffs.len();
        while i > 0
            invariant
                i <= self.coeffs.len(),
                acc == peval(self.coeffs@.skip(i as int), x),
            decreases i,
        {
            i -= 1;
            acc = self.coeffs[i].plus(x.times(acc));
            proof {
                assert(self.coeffs@.skip(i as int).drop_first() =~= self.coeffs@.skip(i + 1));
            }
        }
        proof {
            assert(self.coeffs@.skip(0) =~= self.coeffs@);
        }
        acc
    }

    /// The polynomial with the given values at 0, 1, .., n - 1.
    pub fn from_evals(evals: &[F]) -> (r: Self)
        requires
            0 < evals.len() < u64::MAX,
        ensures
            r.coeffs.len() == evals.len(),
            forall|x: F|
                #[trigger] peval(r.coeffs@, x) == interpolate(
                    small_points::<F>(evals.len() as nat),
                    evals@,
                    x,
                ),
    {
        let n: usize = evals.len();
        let ghost points = small_points::<F>(n as nat);
        proof {
            lemma_small_points::<F>(n as nat);
        }
        let mut acc = zeros::<F>(n);
        let mut k: usize = 0;
        proof {
            assert forall|x: F| #[trigger] peval(acc@, x) == sum(
                0,
                |k: int| summand(points, evals@, k, x),
            ) by {
                lemma_peval_zeros(n as nat, x);
            }
        }
        while k < n
            invariant
                k <= n,
                n == evals.len(),
                0 < n < u64::MAX,
                points == small_points::<F>(n as nat),
                points.no_duplicates(),
                points.len() == n,
                acc.len() == n,
                forall|x: F|
                    #[trigger] peval(acc@, x) == sum(
                        k as nat,
                        |k: int| summand(points, evals@, k, x),
                    ),
            decreases n - k,
        {
            let xk = F::from_u128(k as u128);
            let mut num: Vec<F> = Vec::new();
            num.push(F::one_value());
            let mut den = F::one_value();
            let mut j: usize = 0;
            proof {
                assert forall|x: F| #[trigger] peval(num@, x) == numerator(
                    points,
                    k as int,
                    x,
                    0,
                ) by {
                    reveal_with_fuel(peval, 2);
                    assert(num@.drop_first().len() == 0);
                    lemma_units(x);
                    lemma_units(F::one());
                }
            }
            while j < n
                invariant
                    j <= n,
                    k < n,
                    0 < n < u64::MAX,
                    points == small_points::<F>(n as nat),
                    xk == points[k as int],
                    num.len() == if j > k {
                        j as int
                    } else {
                        j + 1
                    },
                    den == numerator(points, k as int, xk, j as nat),
                    forall|x: F|
                        #[trigger] peval(num@, x) == numerator(points, k as int, x, j as nat),
                decreases n - j,
            {
                if j != k {
                    let xj = F::from_u128(j as u128);
                    let factor = line_poly(xj, xj.plus(F::one_value()));
                    let ghost before = num@;
                    num = poly_mul(num.as_slice(), factor.as_slice());
                    den = den.times(xk.plus(xj));
                    proof {
                        assert forall|x: F| #[trigger] peval(num@, x) == numerator(
                            points,
                            k as int,
                            x,
                            (j + 1) as nat,
                        ) by {
                            lemma_add_cancel(xj, F::one());
                            F::mul_one(x);
                            F::add_comm(x, xj);
                            assert(peval(before, x) == numerator(points, k as int, x, j as nat));
                        }
                    }
                }
                j += 1;
            }
            proof {
                lemma_denominator(points, k as int);
            }
            let inv = den.invert();
            let scaled = poly_scalar_mul(num.as_slice(), evals[k]);
            let term = poly_scalar_mul(scaled.as_slice(), inv);
            let ghost before = acc@;
            poly_add_assign(&mut acc, term.as_slice());
            proof {
                assert forall|x: F| #[trigger] peval(acc@, x) == sum(
                    (k + 1) as nat,
                    |k: int| summand(points, evals@, k, x),
                ) by {
                    assert(peval(before, x) == sum(
                        k as nat,
                        |k: int| summand(points, evals@, k, x),
                    ));
                    assert(peval(scaled@, x) == evals@[k as int].mul(peval(num@, x)));
                    F::mul_comm(inv, peval(scaled@, x));
                }
            }
            k += 1;
        }
        RoundPolynomial { coeffs: acc }
    }
}

} // verus!
