//! Univariate polynomials by their coefficients, lowest first.
use vstd::prelude::*;
use crate::field::{BinaryField, TowerField, lemma_add_cancel, lemma_add_eq_zero, lemma_add_mul, lemma_add_swap, lemma_mul_eq_zero, lemma_units};
use crate::sum::{lemma_sum_ext, lemma_sum_scale, lemma_sum_split, sum};

verus! {

/// The value of a polynomial at `x`.
pub open spec fn peval<F: BinaryField>(c: Seq<F>, x: F) -> F
    decreases c.len(),
{
    if c.len() == 0 {
        F::zero()
    } else {
        c[0].add(x.mul(peval(c.drop_first(), x)))
    }
}

/// `x` to the power `k`.
pub open spec fn pow<F: BinaryField>(x: F, k: nat) -> F
    decreases k,
{
    if k == 0 {
        F::one()
    } else {
        pow(x, (k - 1) as nat).mul(x)
    }
}

/// A function given by a polynomial with at most `n` coefficients.
pub open spec fn is_poly<F: BinaryField>(g: spec_fn(F) -> F, n: nat) -> bool {
    exists|c: Seq<F>| #[trigger] c.len() == n && forall|x: F| #[trigger] g(x) == peval(c, x)
}

/// The value of a polynomial as a sum of powers.
pub proof fn lemma_peval_sum<F: BinaryField>(c: Seq<F>, x: F)
    ensures
        peval(c, x) == sum(c.len(), |k: int| c[k].mul(pow(x, k as nat))),
    decreases c.len(),
{
    let f = |k: int| c[k].mul(pow(x, k as nat));
    if c.len() > 0 {
        let d = c.drop_first();
        let n = d.len();
        let g = |k: int| d[k].mul(pow(x, k as nat));
        lemma_peval_sum(d, x);
        lemma_sum_split(1, n, f);
        assert(sum(1, f) == sum(0, f).add(f(0)));
        lemma_units(c[0]);
        lemma_sum_scale(n, x, g);
        let left = |k: int| x.mul(g(k));
        let right = |k: int| f(1 + k);
        assert forall|k: int| 0 <= k < n implies #[trigger] left(k) == right(k) by {
            let p = pow(x, k as nat);
            F::mul_comm(x, d[k].mul(p));
            F::mul_assoc(d[k], p, x);
        }
        lemma_sum_ext(n, left, right);
    }
}

/// Padding a polynomial with zeros keeps its values.
pub proof fn lemma_peval_pad<F: BinaryField>(c: Seq<F>, n: nat, x: F)
    requires
        c.len() <= n,
    ensures
        peval(Seq::new(n, |k: int| if k < c.len() { c[k] } else { F::zero() }), x) == peval(c, x),
    decreases n,
{
    let d = Seq::new(n, |k: int| if k < c.len() { c[k] } else { F::zero() });
    if n > 0 {
        if c.len() > 0 {
            lemma_peval_pad(c.drop_first(), (n - 1) as nat, x);
            assert(d.drop_first() =~= Seq::new(
                (n - 1) as nat,
                |k: int| if k < c.drop_first().len() { c.drop_first()[k] } else { F::zero() },
            ));
        } else {
            lemma_peval_pad(c, (n - 1) as nat, x);
            assert(d.drop_first() =~= Seq::new(
                (n - 1) as nat,
                |k: int| if k < c.len() { c[k] } else { F::zero() },
            ));
            lemma_units(x);
            lemma_units(F::zero());
        }
    }
}

/// Adding coefficients adds values.
pub proof fn lemma_peval_add<F: BinaryField>(c: Seq<F>, d: Seq<F>, x: F)
    requires
        c.len() == d.len(),
    ensures
        peval(Seq::new(c.len(), |k: int| c[k].add(d[k])), x) == peval(c, x).add(peval(d, x)),
    decreases c.len(),
{
    let e = Seq::new(c.len(), |k: int| c[k].add(d[k]));
    if c.len() == 0 {
        F::add_zero(F::zero());
    } else {
        let (c1, d1) = (c.drop_first(), d.drop_first());
        lemma_peval_add(c1, d1, x);
        assert(e.drop_first() =~= Seq::new(c1.len(), |k: int| c1[k].add(d1[k])));
        F::mul_add(x, peval(c1, x), peval(d1, x));
        lemma_add_swap(c[0], d[0], x.mul(peval(c1, x)), x.mul(peval(d1, x)));
    }
}

/// Scaling coefficients scales values.
pub proof fn lemma_peval_scale<F: BinaryField>(k: F, c: Seq<F>, x: F)
    ensures
        peval(Seq::new(c.len(), |i: int| k.mul(c[i])), x) == k.mul(peval(c, x)),
    decreases c.len(),
{
    let e = Seq::new(c.len(), |i: int| k.mul(c[i]));
    lemma_units(k);
    if c.len() > 0 {
        let c1 = c.drop_first();
        lemma_peval_scale(k, c1, x);
        assert(e.drop_first() =~= Seq::new(c1.len(), |i: int| k.mul(c1[i])));
        F::mul_add(k, c[0], x.mul(peval(c1, x)));
        F::mul_assoc(k, x, peval(c1, x));
        F::mul_comm(k, x);
        F::mul_assoc(x, k, peval(c1, x));
    }
}

/// The coefficient of degree `k` of a product.
pub open spec fn conv_at<F: BinaryField>(a: Seq<F>, b: Seq<F>, k: int) -> F {
    sum(
        a.len(),
        |i: int|
            if 0 <= k - i < b.len() {
                a[i].mul(b[k - i])
            } else {
                F::zero()
            },
    )
}

/// The product of two polynomials, as `n` coefficients.
pub open spec fn conv<F: BinaryField>(a: Seq<F>, b: Seq<F>, n: nat) -> Seq<F> {
    Seq::new(n, |k: int| conv_at(a, b, k))
}

/// `c` moved up by `m` degrees, as `n` coefficients.
spec fn shifted<F: BinaryField>(k: F, b: Seq<F>, m: nat, n: nat) -> Seq<F> {
    Seq::new(
        n,
        |j: int|
            if 0 <= j - m < b.len() {
                k.mul(b[j - m])
            } else {
                F::zero()
            },
    )
}

proof fn lemma_peval_shifted<F: BinaryField>(k: F, b: Seq<F>, m: nat, n: nat, x: F)
    requires
        m + b.len() <= n,
    ensures
        peval(shifted(k, b, m, n), x) == k.mul(pow(x, m)).mul(peval(b, x)),
    decreases m,
{
    let s = shifted(k, b, m, n);
    let v = peval(b, x);
    if m == 0 {
        let kb = Seq::new(b.len(), |i: int| k.mul(b[i]));
        lemma_peval_scale(k, b, x);
        lemma_peval_pad(kb, n, x);
        assert(s =~= Seq::new(n, |j: int| if j < kb.len() { kb[j] } else { F::zero() }));
        F::mul_one(k);
    } else {
        let m1 = (m - 1) as nat;
        let n1 = (n - 1) as nat;
        assert(s.drop_first() =~= shifted(k, b, m1, n1));
        lemma_peval_shifted(k, b, m1, n1, x);
        let p = pow(x, m1);
        lemma_units(x.mul(k.mul(p).mul(v)));
        F::mul_assoc(x, k.mul(p), v);
        F::mul_comm(x, k.mul(p));
        F::mul_assoc(k, p, x);
    }
}

/// The values of a product are the products of the values.
pub proof fn lemma_peval_conv<F: BinaryField>(a: Seq<F>, b: Seq<F>, n: nat, x: F)
    requires
        a.len() + b.len() <= n + 1,
        a.len() > 0 ==> b.len() > 0,
    ensures
        peval(conv(a, b, n), x) == peval(a, x).mul(peval(b, x)),
    decreases a.len(),
{
    let va = peval(a, x);
    let vb = peval(b, x);
    if a.len() == 0 {
        let z = conv(a, b, n);
        lemma_peval_pad(Seq::<F>::empty(), n, x);
        assert(z =~= Seq::new(n, |k: int| if k < 0 { Seq::<F>::empty()[k] } else { F::zero() }));
        lemma_units(vb);
    } else {
        let m = (a.len() - 1) as nat;
        let a1 = a.drop_last();
        let k = a.last();
        let c1 = conv(a1, b, n);
        let s = shifted(k, b, m, n);
        lemma_peval_conv(a1, b, n, x);
        lemma_peval_shifted(k, b, m, n, x);
        let both = Seq::new(n, |j: int| c1[j].add(s[j]));
        lemma_peval_add(c1, s, x);
        assert forall|j: int| 0 <= j < n implies conv(a, b, n)[j] == both[j] by {
            let f = |i: int|
                if 0 <= j - i < b.len() {
                    a[i].mul(b[j - i])
                } else {
                    F::zero()
                };
            let f1 = |i: int|
                if 0 <= j - i < b.len() {
                    a1[i].mul(b[j - i])
                } else {
                    F::zero()
                };
            lemma_sum_ext(m, f, f1);
        }
        assert(conv(a, b, n) =~= both);
        lemma_peval_sum(a, x);
        lemma_peval_sum(a1, x);
        lemma_sum_ext(
            m,
            |i: int| a[i].mul(pow(x, i as nat)),
            |i: int| a1[i].mul(pow(x, i as nat)),
        );
        assert(va == peval(a1, x).add(k.mul(pow(x, m))));
        lemma_add_mul(peval(a1, x), k.mul(pow(x, m)), vb);
    }
}

/// Constants are polynomials.
pub proof fn lemma_poly_const<F: BinaryField>(k: F, g: spec_fn(F) -> F)
    requires
        forall|x: F| #[trigger] g(x) == k,
    ensures
        is_poly(g, 1),
{
    let c = seq![k];
    assert(c.len() == 1);
    assert forall|x: F| #[trigger] g(x) == peval(c, x) by {
        reveal_with_fuel(peval, 2);
        assert(c.drop_first().len() == 0);
        lemma_units(x);
        lemma_units(k);
    }
}

/// Lines are polynomials.
pub proof fn lemma_poly_line<F: BinaryField>(a: F, b: F, g: spec_fn(F) -> F)
    requires
        forall|x: F| #[trigger] g(x) == crate::mle::line(a, b, x),
    ensures
        is_poly(g, 2),
{
    let c = seq![a, a.add(b)];
    assert(c.len() == 2);
    assert forall|x: F| #[trigger] g(x) == peval(c, x) by {
        let d = c.drop_first();
        assert(d.drop_first().len() == 0);
        assert(d[0] == a.add(b));
        lemma_units(x);
        lemma_units(a.add(b));
        reveal_with_fuel(peval, 3);
        assert(peval(d, x) == a.add(b));
    }
}

/// Sums of polynomials are polynomials.
pub proof fn lemma_poly_add<F: BinaryField>(
    g: spec_fn(F) -> F,
    h: spec_fn(F) -> F,
    s: spec_fn(F) -> F,
    n: nat,
)
    requires
        is_poly(g, n),
        is_poly(h, n),
        forall|x: F| #[trigger] s(x) == g(x).add(h(x)),
    ensures
        is_poly(s, n),
{
    let c = choose|c: Seq<F>| #[trigger] c.len() == n && forall|x: F| #[trigger] g(x) == peval(c, x);
    let d = choose|c: Seq<F>| #[trigger] c.len() == n && forall|x: F| #[trigger] h(x) == peval(c, x);
    let e = Seq::new(n, |k: int| c[k].add(d[k]));
    assert(e.len() == n);
    assert forall|x: F| #[trigger] s(x) == peval(e, x) by {
        lemma_peval_add(c, d, x);
        assert(g(x) == peval(c, x) && h(x) == peval(d, x));
    }
}

/// Products of polynomials are polynomials.
pub proof fn lemma_poly_mul<F: BinaryField>(
    g: spec_fn(F) -> F,
    m: nat,
    h: spec_fn(F) -> F,
    n: nat,
    s: spec_fn(F) -> F,
)
    requires
        is_poly(g, m),
        is_poly(h, n),
        m > 0,
        n > 0,
        forall|x: F| #[trigger] s(x) == g(x).mul(h(x)),
    ensures
        is_poly(s, (m + n - 1) as nat),
{
    let c = choose|c: Seq<F>| #[trigger] c.len() == m && forall|x: F| #[trigger] g(x) == peval(c, x);
    let d = choose|c: Seq<F>| #[trigger] c.len() == n && forall|x: F| #[trigger] h(x) == peval(c, x);
    let e = conv(c, d, (m + n - 1) as nat);
    assert(e.len() == m + n - 1);
    assert forall|x: F| #[trigger] s(x) == peval(e, x) by {
        lemma_peval_conv(c, d, (m + n - 1) as nat, x);
        assert(g(x) == peval(c, x) && h(x) == peval(d, x));
    }
}

/// A polynomial may be given more coefficients.
pub proof fn lemma_poly_widen<F: BinaryField>(g: spec_fn(F) -> F, m: nat, n: nat)
    requires
        is_poly(g, m),
        m <= n,
    ensures
        is_poly(g, n),
{
    let c = choose|c: Seq<F>| #[trigger] c.len() == m && forall|x: F| #[trigger] g(x) == peval(c, x);
    let e = Seq::new(n, |k: int| if k < c.len() { c[k] } else { F::zero() });
    assert(e.len() == n);
    assert forall|x: F| #[trigger] g(x) == peval(e, x) by {
        lemma_peval_pad(c, n, x);
    }
}

/// Finite sums of polynomials are polynomials.
pub proof fn lemma_poly_sum<F: BinaryField>(
    count: nat,
    g: spec_fn(int, F) -> F,
    s: spec_fn(F) -> F,
    n: nat,
)
    requires
        forall|i: int| 0 <= i < count ==> is_poly(#[trigger] slice_of(g, i), n),
        forall|x: F| #[trigger] s(x) == sum(count, |i: int| g(i, x)),
    ensures
        is_poly(s, n),
    decreases count,
{
    if count == 0 {
        let e = Seq::new(n, |k: int| F::zero());
        assert(e.len() == n);
        assert forall|x: F| #[trigger] s(x) == peval(e, x) by {
            lemma_peval_pad(Seq::<F>::empty(), n, x);
            assert(e =~= Seq::new(n, |k: int| if k < 0 { Seq::<F>::empty()[k] } else { F::zero() }));
        }
    } else {
        let m = (count - 1) as nat;
        let s1 = |x: F| sum(m, |i: int| g(i, x));
        lemma_poly_sum(m, g, s1, n);
        let last = slice_of(g, count - 1);
        assert forall|x: F| #[trigger] s(x) == s1(x).add(last(x)) by {}
        lemma_poly_add(s1, last, s, n);
    }
}

/// One function of a family.
pub open spec fn slice_of<F>(g: spec_fn(int, F) -> F, i: int) -> spec_fn(F) -> F {
    |x: F| g(i, x)
}

/// Division by `x + a`: a polynomial differs from its value at `a` by a
/// multiple of `x + a`.
proof fn lemma_divide<F: BinaryField>(c: Seq<F>, a: F) -> (q: Seq<F>)
    requires
        c.len() > 0,
    ensures
        q.len() == c.len() - 1,
        forall|x: F|
            #[trigger] peval(c, x).add(peval(c, a)) == x.add(a).mul(peval(q, x)),
    decreases c.len(),
{
    let d = c.drop_first();
    if d.len() == 0 {
        let q = Seq::<F>::empty();
        assert forall|x: F|
            #[trigger] peval(c, x).add(peval(c, a)) == x.add(a).mul(peval(q, x)) by {
            reveal_with_fuel(peval, 2);
            lemma_units(x);
            lemma_units(a);
            lemma_units(c[0]);
            F::add_self(c[0]);
            lemma_units(x.add(a));
        }
        q
    } else {
        let r = lemma_divide(d, a);
        let va = peval(d, a);
        let q = seq![va] + r;
        assert(q.drop_first() =~= r);
        assert forall|x: F|
            #[trigger] peval(c, x).add(peval(c, a)) == x.add(a).mul(peval(q, x)) by {
            let vx = peval(d, x);
            let h = peval(r, x);
            // (c0 + x vx) + (c0 + a va) == x vx + a va
            lemma_add_swap(c[0], x.mul(vx), c[0], a.mul(va));
            F::add_self(c[0]);
            lemma_units(x.mul(vx).add(a.mul(va)));
            // x vx + a va == x (vx + va) + (x + a) va
            F::mul_add(x, vx, va);
            lemma_add_mul(x, a, va);
            let (p, s, t) = (x.mul(vx), x.mul(va), a.mul(va));
            F::add_assoc(p, s, s.add(t));
            lemma_add_cancel(s, t);
            assert(vx.add(va) == x.add(a).mul(h));
            // x ((x + a) h) + (x + a) va == (x + a) (va + x h)
            F::mul_assoc(x, x.add(a), h);
            F::mul_comm(x, x.add(a));
            F::mul_assoc(x.add(a), x, h);
            F::mul_add(x.add(a), x.mul(h), va);
            F::add_comm(va, x.mul(h));
        }
        q
    }
}

/// A polynomial with as many distinct roots as coefficients is zero.
pub proof fn lemma_many_roots<F: BinaryField>(c: Seq<F>, roots: Seq<F>, x: F)
    requires
        c.len() == roots.len(),
        roots.no_duplicates(),
        forall|i: int| 0 <= i < roots.len() ==> peval(c, #[trigger] roots[i]) == F::zero(),
    ensures
        peval(c, x) == F::zero(),
    decreases c.len(),
{
    if c.len() > 0 {
        let a = roots.last();
        let rest = roots.drop_last();
        let q = lemma_divide(c, a);
        assert(peval(c, a) == F::zero()) by {
            assert(roots[roots.len() - 1] == a);
        }
        assert forall|i: int| 0 <= i < rest.len() implies peval(q, #[trigger] rest[i]) == F::zero() by {
            let y = rest[i];
            assert(y == roots[i]);
            assert(peval(c, y).add(peval(c, a)) == y.add(a).mul(peval(q, y)));
            F::add_zero(F::zero());
            lemma_mul_eq_zero(y.add(a), peval(q, y));
            lemma_add_eq_zero(y, a);
            assert(y != a);
        }
        lemma_many_roots(q, rest, x);
        assert(peval(c, x).add(peval(c, a)) == x.add(a).mul(peval(q, x)));
        lemma_units(x.add(a));
        F::add_zero(peval(c, x));
    }
}

/// Two polynomials with `n` coefficients that agree at `n` distinct points
/// agree everywhere.
pub proof fn lemma_poly_unique<F: BinaryField>(
    g: spec_fn(F) -> F,
    h: spec_fn(F) -> F,
    n: nat,
    points: Seq<F>,
    x: F,
)
    requires
        is_poly(g, n),
        is_poly(h, n),
        points.len() == n,
        points.no_duplicates(),
        forall|i: int| 0 <= i < n ==> g(#[trigger] points[i]) == h(points[i]),
    ensures
        g(x) == h(x),
{
    let c = choose|c: Seq<F>| #[trigger] c.len() == n && forall|x: F| #[trigger] g(x) == peval(c, x);
    let d = choose|c: Seq<F>| #[trigger] c.len() == n && forall|x: F| #[trigger] h(x) == peval(c, x);
    let e = Seq::new(n, |k: int| c[k].add(d[k]));
    assert forall|i: int| 0 <= i < n implies peval(e, #[trigger] points[i]) == F::zero() by {
        let y = points[i];
        lemma_peval_add(c, d, y);
        assert(g(y) == peval(c, y) && h(y) == peval(d, y));
        F::add_self(peval(c, y));
    }
    lemma_many_roots(e, points, x);
    lemma_peval_add(c, d, x);
    assert(g(x) == peval(c, x) && h(x) == peval(d, x));
    lemma_add_eq_zero(peval(c, x), peval(d, x));
}

/// The values of two polynomials laid end to end.
pub proof fn lemma_peval_concat<F: BinaryField>(c: Seq<F>, d: Seq<F>, x: F)
    ensures
        peval(c + d, x) == peval(c, x).add(pow(x, c.len()).mul(peval(d, x))),
    decreases c.len(),
{
    if c.len() == 0 {
        assert(c + d =~= d);
        lemma_units(peval(d, x));
    } else {
        let c1 = c.drop_first();
        assert((c + d).drop_first() =~= c1 + d);
        lemma_peval_concat(c1, d, x);
        let p = pow(x, c1.len());
        let v = peval(d, x);
        F::mul_add(x, peval(c1, x), p.mul(v));
        F::add_assoc(c[0], x.mul(peval(c1, x)), x.mul(p.mul(v)));
        F::mul_assoc(x, p, v);
        F::mul_comm(x, p);
    }
}

/// The polynomial with `n` coefficients that has the values of `g`.
pub open spec fn coeffs_of<F: BinaryField>(n: nat, g: spec_fn(F) -> F) -> Seq<F> {
    choose|c: Seq<F>| c.len() == n && forall|x: F| #[trigger] peval(c, x) == g(x)
}

/// A polynomial whose values are all zero has no non-zero coefficient, as long
/// as the field has enough elements.
pub proof fn lemma_zero_coeffs<F: TowerField>(c: Seq<F>)
    requires
        c.len() < u64::MAX,
        forall|x: F| #[trigger] peval(c, x) == F::zero(),
    ensures
        forall|k: int| 0 <= k < c.len() ==> #[trigger] c[k] == F::zero(),
    decreases c.len(),
{
    if c.len() > 0 {
        let d = c.drop_first();
        assert(peval(c, F::zero()) == F::zero());
        lemma_units(peval(d, F::zero()));
        F::add_zero(c[0]);
        assert(c[0] == F::zero());
        let n = d.len();
        let points = Seq::new(n, |k: int| F::of_u128((k + 1) as u128));
        F::of_u128_units();
        assert(points.no_duplicates()) by {
            assert forall|i: int, j: int| 0 <= i < n && 0 <= j < n && i != j implies points[i]
                != points[j] by {
                F::bits_of_u128((i + 1) as u128);
                F::bits_of_u128((j + 1) as u128);
            }
        }
        assert forall|i: int| 0 <= i < n implies peval(d, #[trigger] points[i]) == F::zero() by {
            let x = points[i];
            assert(peval(c, x) == F::zero());
            lemma_units(x.mul(peval(d, x)));
            F::bits_of_u128((i + 1) as u128);
            F::bits_of_u128(0);
            lemma_mul_eq_zero(x, peval(d, x));
        }
        assert forall|x: F| #[trigger] peval(d, x) == F::zero() by {
            lemma_many_roots(d, points, x);
        }
        lemma_zero_coeffs(d);
        assert forall|k: int| 0 <= k < c.len() implies #[trigger] c[k] == F::zero() by {
            if k > 0 {
                assert(d[k - 1] == F::zero());
            }
        }
    }
}

/// A polynomial is the only one of its length with its values.
pub proof fn lemma_coeffs_unique<F: TowerField>(c: Seq<F>, g: spec_fn(F) -> F)
    requires
        c.len() < u64::MAX,
        forall|x: F| #[trigger] peval(c, x) == g(x),
    ensures
        c == coeffs_of(c.len(), g),
{
    let d = coeffs_of(c.len(), g);
    let n = c.len();
    assert(d.len() == n && forall|x: F| #[trigger] peval(d, x) == g(x));
    let e = Seq::new(n, |k: int| c[k].add(d[k]));
    assert forall|x: F| #[trigger] peval(e, x) == F::zero() by {
        lemma_peval_add(c, d, x);
        assert(peval(c, x) == g(x) && peval(d, x) == g(x));
        F::add_self(g(x));
    }
    lemma_zero_coeffs(e);
    assert forall|k: int| 0 <= k < n implies c[k] == d[k] by {
        assert(e[k] == F::zero());
        lemma_add_eq_zero(c[k], d[k]);
    }
    assert(c =~= d);
}

/// The seventh power of a line is a polynomial with eight coefficients.
pub proof fn lemma_poly_pow7<F: BinaryField>(g: spec_fn(F) -> F, h: spec_fn(F) -> F)
    requires
        is_poly(g, 2),
        forall|x: F| #[trigger] h(x) == crate::round_poly::pow7(g(x)),
    ensures
        is_poly(h, 8),
{
    let g2 = |x: F| g(x).mul(g(x));
    lemma_poly_mul(g, 2, g, 2, g2);
    let g4 = |x: F| g2(x).mul(g2(x));
    lemma_poly_mul(g2, 3, g2, 3, g4);
    let g3 = |x: F| g2(x).mul(g(x));
    lemma_poly_mul(g2, 3, g, 2, g3);
    lemma_poly_mul(g4, 5, g3, 4, h);
}

} // verus!
