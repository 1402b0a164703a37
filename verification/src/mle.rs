//! Multilinear extensions over the boolean hypercube.
//!
//! A table of `2^n` values is indexed by the points of the hypercube: bit `k`
//! of an index is the value of variable `k`.
use vstd::prelude::*;
use vstd::arithmetic::power2::{lemma_pow2_pos, lemma_pow2_strictly_increases, lemma_pow2_unfold, pow2};
use crate::field::{BinaryField, lemma_add_cancel, lemma_add_mul, lemma_units};
use crate::sum::{lemma_sum_add, lemma_sum_ext, lemma_sum_scale, lemma_sum_single, lemma_sum_split, sum};

verus! {

/// The value at `r` of the line through `a` at zero and `b` at one.
pub open spec fn line<F: BinaryField>(a: F, b: F, r: F) -> F {
    a.add(r.mul(a.add(b)))
}

/// The table with its highest variable set to `r`.
pub open spec fn fold<F: BinaryField>(t: Seq<F>, r: F) -> Seq<F> {
    Seq::new((t.len() / 2) as nat, |j: int| line(t[j], t[j + t.len() / 2], r))
}

/// The multilinear extension of a table at a point.
pub open spec fn mle<F: BinaryField>(t: Seq<F>, p: Seq<F>) -> F
    decreases p.len(),
{
    if p.len() == 0 {
        t[0]
    } else {
        mle(fold(t, p.last()), p.drop_last())
    }
}

/// The weight of index `i` at the point `p`: the product of `p_k` over the one
/// bits of `i` and of `1 + p_k` over its zero bits.
pub open spec fn eq_at<F: BinaryField>(p: Seq<F>, i: int) -> F
    decreases p.len(),
{
    if p.len() == 0 {
        F::one()
    } else {
        let h = pow2((p.len() - 1) as nat);
        if i < h {
            eq_at(p.drop_last(), i).mul(F::one().add(p.last()))
        } else {
            eq_at(p.drop_last(), i - h).mul(p.last())
        }
    }
}

/// The table of all the weights at `p`.
pub open spec fn eq_table<F: BinaryField>(p: Seq<F>) -> Seq<F> {
    Seq::new(pow2(p.len()), |i: int| eq_at(p, i))
}

/// The equality polynomial `prod_k (1 + x_k + y_k)`.
pub open spec fn eq_poly<F: BinaryField>(x: Seq<F>, y: Seq<F>) -> F
    decreases x.len(),
{
    if x.len() == 0 {
        F::one()
    } else {
        eq_poly(x.drop_last(), y.drop_last()).mul(F::one().add(x.last()).add(y.last()))
    }
}

/// The point of the hypercube with index `i`, in `n` variables.
pub open spec fn cube_point<F: BinaryField>(n: nat, i: int) -> Seq<F>
    decreases n,
{
    if n == 0 {
        Seq::empty()
    } else {
        let h = pow2((n - 1) as nat);
        if i < h {
            cube_point((n - 1) as nat, i).push(F::zero())
        } else {
            cube_point((n - 1) as nat, i - h).push(F::one())
        }
    }
}

/// Halving a table of `2^(n+1)` values leaves `2^n`.
pub proof fn lemma_half_pow2(n: nat)
    requires
        n > 0,
    ensures
        pow2(n) == 2 * pow2((n - 1) as nat),
        pow2(n) / 2 == pow2((n - 1) as nat),
        pow2((n - 1) as nat) > 0,
{
    lemma_pow2_unfold(n);
    lemma_pow2_pos((n - 1) as nat);
}

/// `e * line(a, b, r) == (e * (1 + r)) * a + (e * r) * b`.
pub proof fn lemma_line_weights<F: BinaryField>(e: F, a: F, b: F, r: F)
    ensures
        e.mul(line(a, b, r)) == e.mul(F::one().add(r)).mul(a).add(e.mul(r).mul(b)),
{
    // (1 + r) a + r b == line
    lemma_line_form(a, b, r);
    F::mul_add(e, F::one().add(r).mul(a), r.mul(b));
    F::mul_assoc(e, F::one().add(r), a);
    F::mul_assoc(e, r, b);
}

/// `line(a, b, r) == (1 + r) a + r b`.
pub proof fn lemma_line_form<F: BinaryField>(a: F, b: F, r: F)
    ensures
        line(a, b, r) == F::one().add(r).mul(a).add(r.mul(b)),
{
    F::mul_add(r, a, b);
    F::add_assoc(a, r.mul(a), r.mul(b));
    lemma_add_mul(F::one(), r, a);
    lemma_units(a);
}

/// A line passes through its two ends.
pub proof fn lemma_line_ends<F: BinaryField>(a: F, b: F)
    ensures
        line(a, b, F::zero()) == a,
        line(a, b, F::one()) == b,
{
    lemma_units(a.add(b));
    lemma_units(a);
    lemma_add_cancel(a, b);
}

/// The multilinear extension is the sum of the values by their weights.
pub proof fn lemma_mle_sum<F: BinaryField>(t: Seq<F>, p: Seq<F>)
    requires
        t.len() == pow2(p.len()),
    ensures
        mle(t, p) == sum(t.len(), |i: int| eq_at(p, i).mul(t[i])),
    decreases p.len(),
{
    let w = |i: int| eq_at(p, i).mul(t[i]);
    if p.len() == 0 {
        vstd::arithmetic::power2::lemma2_to64();
        assert(sum(1, w) == sum(0, w).add(w(0)));
        lemma_units(t[0]);
    } else {
        let n = p.len();
        let h = pow2((n - 1) as nat);
        lemma_half_pow2(n);
        let q = p.drop_last();
        let r = p.last();
        let u = fold(t, r);
        lemma_mle_sum(u, q);
        let high = |j: int| w(h + j);
        lemma_sum_split(h, h, w);
        lemma_sum_add(h, w, high);
        let left = |j: int| eq_at(q, j).mul(u[j]);
        let right = |j: int| w(j).add(high(j));
        assert forall|j: int| 0 <= j < h implies #[trigger] left(j) == right(j) by {
            lemma_line_weights(eq_at(q, j), t[j], t[j + h], r);
        }
        lemma_sum_ext(h, left, right);
    }
}

/// Two tables are added value by value, and so are their extensions.
pub proof fn lemma_mle_add<F: BinaryField>(s: Seq<F>, t: Seq<F>, p: Seq<F>)
    requires
        s.len() == t.len() == pow2(p.len()),
    ensures
        mle(Seq::new(s.len(), |i: int| s[i].add(t[i])), p) == mle(s, p).add(mle(t, p)),
{
    let u = Seq::new(s.len(), |i: int| s[i].add(t[i]));
    lemma_mle_sum(s, p);
    lemma_mle_sum(t, p);
    lemma_mle_sum(u, p);
    let f = |i: int| eq_at(p, i).mul(s[i]);
    let g = |i: int| eq_at(p, i).mul(t[i]);
    lemma_sum_add(s.len(), f, g);
    let left = |i: int| eq_at(p, i).mul(u[i]);
    let right = |i: int| f(i).add(g(i));
    assert forall|i: int| 0 <= i < s.len() implies #[trigger] left(i) == right(i) by {
        F::mul_add(eq_at(p, i), s[i], t[i]);
    }
    lemma_sum_ext(s.len(), left, right);
}

/// Scaling a table scales its extension.
pub proof fn lemma_mle_scale<F: BinaryField>(k: F, t: Seq<F>, p: Seq<F>)
    requires
        t.len() == pow2(p.len()),
    ensures
        mle(Seq::new(t.len(), |i: int| k.mul(t[i])), p) == k.mul(mle(t, p)),
{
    let u = Seq::new(t.len(), |i: int| k.mul(t[i]));
    lemma_mle_sum(t, p);
    lemma_mle_sum(u, p);
    let f = |i: int| eq_at(p, i).mul(t[i]);
    lemma_sum_scale(t.len(), k, f);
    let left = |i: int| eq_at(p, i).mul(u[i]);
    let right = |i: int| k.mul(f(i));
    assert forall|i: int| 0 <= i < t.len() implies #[trigger] left(i) == right(i) by {
        F::mul_assoc(eq_at(p, i), k, t[i]);
        F::mul_comm(eq_at(p, i), k);
        F::mul_assoc(k, eq_at(p, i), t[i]);
    }
    lemma_sum_ext(t.len(), left, right);
}

/// `cube_point(n, i)` has `n` coordinates.
pub proof fn lemma_cube_point_len<F: BinaryField>(n: nat, i: int)
    ensures
        cube_point::<F>(n, i).len() == n,
    decreases n,
{
    if n > 0 {
        let h = pow2((n - 1) as nat);
        if i < h {
            lemma_cube_point_len::<F>((n - 1) as nat, i);
        } else {
            lemma_cube_point_len::<F>((n - 1) as nat, i - h);
        }
    }
}

/// At the point with index `i` of the hypercube, the weight of `i` is one and
/// every other weight is zero.
pub proof fn lemma_eq_at_cube<F: BinaryField>(n: nat, i: int, j: int)
    requires
        0 <= i < pow2(n),
        0 <= j < pow2(n),
    ensures
        eq_at(cube_point::<F>(n, i), j) == if i == j {
            F::one()
        } else {
            F::zero()
        },
    decreases n,
{
    vstd::arithmetic::power2::lemma2_to64();
    lemma_cube_point_len::<F>(n, i);
    if n > 0 {
        let m = (n - 1) as nat;
        let h = pow2(m) as int;
        lemma_half_pow2(n);
        let p = cube_point::<F>(n, i);
        let i2 = if i < h { i } else { i - h };
        let j2 = if j < h { j } else { j - h };
        assert(p.drop_last() =~= cube_point::<F>(m, i2));
        lemma_eq_at_cube::<F>(m, i2, j2);
        lemma_units(F::one());
        lemma_units(F::zero());
        F::add_self(F::one());
        let e = eq_at(p.drop_last(), j2);
        lemma_units(e);
    }
}

/// The multilinear extension agrees with the table on the hypercube.
pub proof fn lemma_mle_on_cube<F: BinaryField>(t: Seq<F>, n: nat, i: int)
    requires
        t.len() == pow2(n),
        0 <= i < t.len(),
    ensures
        mle(t, cube_point::<F>(n, i)) == t[i],
{
    let p = cube_point::<F>(n, i);
    lemma_cube_point_len::<F>(n, i);
    lemma_mle_sum(t, p);
    let f = |j: int| eq_at(p, j).mul(t[j]);
    assert forall|j: int| 0 <= j < t.len() && j != i implies #[trigger] f(j) == F::zero() by {
        lemma_eq_at_cube::<F>(n, i, j);
        lemma_units(t[j]);
    }
    lemma_sum_single(t.len(), i, f);
    lemma_eq_at_cube::<F>(n, i, i);
    lemma_units(t[i]);
}

/// The extension of a table of weights is the equality polynomial.
pub proof fn lemma_mle_eq_table<F: BinaryField>(p: Seq<F>, x: Seq<F>)
    requires
        p.len() == x.len(),
    ensures
        mle(eq_table(p), x) == eq_poly(p, x),
    decreases p.len(),
{
    vstd::arithmetic::power2::lemma2_to64();
    if p.len() > 0 {
        let n = p.len();
        lemma_half_pow2(n);
        let h = pow2((n - 1) as nat);
        let q = p.drop_last();
        let c = F::one().add(p.last()).add(x.last());
        let small = eq_table(q);
        let folded = fold(eq_table(p), x.last());
        let scaled = Seq::new(small.len(), |i: int| c.mul(small[i]));
        assert forall|j: int| 0 <= j < h implies folded[j] == scaled[j] by {
            // e (1 + p) + x (e (1 + p) + e p) == e (1 + p) + x e
            let e = eq_at(q, j);
            let pl = p.last();
            let a = e.mul(F::one().add(pl));
            let b = e.mul(pl);
            assert(eq_table(p)[j] == a);
            assert(eq_table(p)[j + h] == b);
            F::mul_add(e, F::one(), pl);
            lemma_units(e);
            lemma_add_cancel(e, b);
            assert(a.add(b) == e);
            F::mul_comm(x.last(), e);
            F::mul_add(e, F::one().add(pl), x.last());
            F::mul_comm(e, c);
        }
        assert(folded =~= scaled);
        lemma_mle_scale(c, small, x.drop_last());
        lemma_mle_eq_table(q, x.drop_last());
        F::mul_comm(c, eq_poly(q, x.drop_last()));
    }
}

/// The equality polynomial is symmetric.
pub proof fn lemma_eq_poly_symmetric<F: BinaryField>(x: Seq<F>, y: Seq<F>)
    requires
        x.len() == y.len(),
    ensures
        eq_poly(x, y) == eq_poly(y, x),
    decreases x.len(),
{
    if x.len() > 0 {
        lemma_eq_poly_symmetric(x.drop_last(), y.drop_last());
        F::add_assoc(F::one(), x.last(), y.last());
        F::add_assoc(F::one(), y.last(), x.last());
        F::add_comm(x.last(), y.last());
    }
}

/// Computes `2^n`.
pub fn pow2_usize(n: usize) -> (r: usize)
    requires
        pow2(n as nat) <= usize::MAX,
    ensures
        r == pow2(n as nat),
{
    let mut r: usize = 1;
    let mut i: usize = 0;
    proof {
        vstd::arithmetic::power2::lemma2_to64();
    }
    while i < n
        invariant
            i <= n,
            r == pow2(i as nat),
            pow2(n as nat) <= usize::MAX,
        decreases n - i,
    {
        proof {
            lemma_half_pow2((i + 1) as nat);
            if i + 1 < n {
                lemma_pow2_strictly_increases((i + 1) as nat, n as nat);
            }
        }
        r = r * 2;
        i += 1;
    }
    r
}

/// Computes [`cube_point`].
pub fn boolean_point<F: BinaryField>(n: usize, i: usize) -> (p: Vec<F>)
    requires
        i < pow2(n as nat) <= usize::MAX,
    ensures
        p@ == cube_point::<F>(n as nat, i as int),
        p.len() == n,
    decreases n,
{
    if n == 0 {
        return Vec::new();
    }
    proof {
        lemma_half_pow2(n as nat);
    }
    let h: usize = pow2_usize(n - 1);
    if i < h {
        let mut p = boolean_point::<F>(n - 1, i);
        p.push(F::zero_value());
        p
    } else {
        let mut p = boolean_point::<F>(n - 1, i - h);
        p.push(F::one_value());
        p
    }
}

/// The logarithm of a power of two.
pub fn log2_usize(len: usize) -> (n: usize)
    requires
        exists|n: nat| #[trigger] pow2(n) == len,
    ensures
        pow2(n as nat) == len,
        n < 64,
{
    let ghost target = choose|n: nat| #[trigger] pow2(n) == len;
    let mut n: usize = 0;
    let mut power: usize = 1;
    proof {
        vstd::arithmetic::power2::lemma2_to64();
        if target >= 64 {
            if target > 64 {
                vstd::arithmetic::power2::lemma_pow2_strictly_increases(64, target);
            }
        }
    }
    while power < len
        invariant
            power == pow2(n as nat),
            n <= target < 64,
            pow2(target) == len,
        decreases target - n,
    {
        proof {
            lemma_half_pow2((n + 1) as nat);
            if n + 1 < target {
                vstd::arithmetic::power2::lemma_pow2_strictly_increases((n + 1) as nat, target);
            }
        }
        power = power * 2;
        n += 1;
    }
    proof {
        if n < target {
            vstd::arithmetic::power2::lemma_pow2_strictly_increases(n as nat, target);
        }
    }
    n
}

/// Sets the highest variable of a table to `r`, in place.
pub fn fold_highest_var<F: BinaryField>(t: &mut Vec<F>, r: F)
    ensures
        final(t)@ == fold(old(t)@, r),
{
    let half: usize = t.len() / 2;
    let mut j: usize = 0;
    while j < half
        invariant
            j <= half,
            half == old(t).len() / 2,
            t.len() == old(t).len(),
            forall|k: int| 0 <= k < j ==> t[k] == fold(old(t)@, r)[k],
            forall|k: int| j <= k < t.len() ==> t[k] == old(t)[k],
        decreases half - j,
    {
        let a = t[j];
        let b = t[j + half];
        t.set(j, a.plus(r.times(a.plus(b))));
        j += 1;
    }
    t.truncate(half);
    proof {
        assert(t@ =~= fold(old(t)@, r));
    }
}

/// Evaluates the multilinear extension of a table at a point.
pub fn evaluate_slice<F: BinaryField>(t: &[F], p: &[F]) -> (v: F)
    requires
        t.len() == pow2(p.len() as nat),
    ensures
        v == mle(t@, p@),
{
    let mut cur: Vec<F> = Vec::new();
    let mut i: usize = 0;
    while i < t.len()
        invariant
            i <= t.len(),
            cur@ == t@.take(i as int),
        decreases t.len() - i,
    {
        cur.push(t[i]);
        i += 1;
    }
    proof {
        assert(cur@ =~= t@);
        assert(p@.take(p@.len() as int) =~= p@);
    }
    let mut k: usize = p.len();
    while k > 0
        invariant
            k <= p.len(),
            cur.len() == pow2(k as nat),
            mle(cur@, p@.take(k as int)) == mle(t@, p@),
        decreases k,
    {
        proof {
            assert(p@.take(k as int).drop_last() =~= p@.take(k - 1));
            lemma_half_pow2(k as nat);
        }
        k -= 1;
        fold_highest_var(&mut cur, p[k]);
    }
    proof {
        vstd::arithmetic::power2::lemma2_to64();
    }
    cur[0]
}

/// Builds the table of all the weights at a point, each times `scale`.
pub fn scaled_eq_table<F: BinaryField>(scale: F, p: &[F]) -> (t: Vec<F>)
    requires
        pow2(p.len() as nat) <= usize::MAX,
    ensures
        t.len() == pow2(p.len() as nat),
        forall|i: int| 0 <= i < t.len() ==> #[trigger] t[i] == scale.mul(eq_at(p@, i)),
{
    let mut t: Vec<F> = Vec::new();
    t.push(scale);
    let mut k: usize = 0;
    proof {
        vstd::arithmetic::power2::lemma2_to64();
        F::mul_one(scale);
    }
    while k < p.len()
        invariant
            k <= p.len(),
            pow2(p.len() as nat) <= usize::MAX,
            t.len() == pow2(k as nat),
            forall|i: int|
                0 <= i < t.len() ==> #[trigger] t[i] == scale.mul(eq_at(p@.take(k as int), i)),
        decreases p.len() - k,
    {
        let r = p[k];
        let half: usize = t.len();
        let ghost before = t@;
        let ghost q = p@.take(k as int);
        let ghost q2 = p@.take(k + 1);
        proof {
            lemma_half_pow2((k + 1) as nat);
            if k + 1 < p.len() {
                lemma_pow2_strictly_increases((k + 1) as nat, p.len() as nat);
            }
            assert(q2.drop_last() =~= q);
        }
        let mut j: usize = 0;
        while j < half
            invariant
                j <= half,
                half == before.len(),
                half == pow2(k as nat),
                2 * half <= usize::MAX,
                t.len() == half + j,
                forall|i: int|
                    0 <= i < half ==> #[trigger] before[i] == scale.mul(eq_at(q, i)),
                q2.len() == k + 1,
                q2.drop_last() == q,
                q2.last() == r,
                forall|i: int| 0 <= i < j ==> t[i] == scale.mul(#[trigger] eq_at(q2, i)),
                forall|i: int| j <= i < half ==> t[i] == before[i],
                forall|i: int|
                    half <= i < half + j ==> t[i] == scale.mul(#[trigger] eq_at(q2, i)),
            decreases half - j,
        {
            let e = t[j];
            let prod = e.times(r);
            t.set(j, e.plus(prod));
            t.push(prod);
            proof {
                let w = eq_at(q, j as int);
                assert(before[j as int] == scale.mul(w));
                F::mul_assoc(scale, w, r);
                F::mul_add(w, F::one(), r);
                F::mul_one(w);
                F::mul_add(scale, w, w.mul(r));
                assert(eq_at(q2, j as int) == w.mul(F::one().add(r)));
                assert(eq_at(q2, half + j) == w.mul(r));
            }
            j += 1;
        }
        k += 1;
    }
    proof {
        assert(p@.take(p@.len() as int) =~= p@);
    }
    t
}

/// Builds the table of all the weights at a point.
pub fn eq_ind_partial_eval<F: BinaryField>(p: &[F]) -> (t: Vec<F>)
    requires
        pow2(p.len() as nat) <= usize::MAX,
    ensures
        t@ == eq_table(p@),
{
    let t = scaled_eq_table(F::one_value(), p);
    proof {
        assert forall|i: int| 0 <= i < t.len() implies t[i] == eq_at(p@, i) by {
            lemma_units(eq_at(p@, i));
        }
        assert(t@ =~= eq_table(p@));
    }
    t
}

/// Evaluates the equality polynomial.
pub fn eq_ind<F: BinaryField>(x: &[F], y: &[F]) -> (v: F)
    requires
        x.len() == y.len(),
    ensures
        v == eq_poly(x@, y@),
{
    let mut v = F::one_value();
    let mut k: usize = 0;
    while k < x.len()
        invariant
            k <= x.len(),
            x.len() == y.len(),
            v == eq_poly(x@.take(k as int), y@.take(k as int)),
        decreases x.len() - k,
    {
        v = v.times(F::one_value().plus(x[k]).plus(y[k]));
        proof {
            assert(x@.take(k + 1).drop_last() =~= x@.take(k as int));
            assert(y@.take(k + 1).drop_last() =~= y@.take(k as int));
        }
        k += 1;
    }
    proof {
        assert(x@.take(x@.len() as int) =~= x@);
        assert(y@.take(y@.len() as int) =~= y@);
    }
    v
}

} // verus!
