//! Setting the lowest variables of a table.
use vstd::prelude::*;
use vstd::arithmetic::power2::pow2;
use crate::field::{BinaryField, lemma_add_swap};
use crate::mle::{fold, lemma_half_pow2, line, mle};

verus! {

/// A table with its lowest variable set to `r`: neighbours are paired.
pub open spec fn fold_low<F: BinaryField>(t: Seq<F>, r: F) -> Seq<F> {
    Seq::new((t.len() / 2) as nat, |i: int| line(t[2 * i], t[2 * i + 1], r))
}

/// A table with its `rs.len()` lowest variables set, the lowest first.
pub open spec fn fold_low_all<F: BinaryField>(t: Seq<F>, rs: Seq<F>) -> Seq<F>
    decreases rs.len(),
{
    if rs.len() == 0 {
        t
    } else {
        fold_low(fold_low_all(t, rs.drop_last()), rs.last())
    }
}

/// The length of a folded table.
pub proof fn lemma_fold_low_len<F: BinaryField>(t: Seq<F>, rs: Seq<F>, n: nat)
    requires
        t.len() == pow2(n),
        rs.len() <= n,
    ensures
        fold_low_all(t, rs).len() == pow2((n - rs.len()) as nat),
    decreases rs.len(),
{
    if rs.len() > 0 {
        lemma_fold_low_len(t, rs.drop_last(), n);
        lemma_half_pow2((n - rs.len() + 1) as nat);
    }
}

/// Lines are linear in their ends.
pub proof fn lemma_line_linear<F: BinaryField>(a: F, b: F, c: F, d: F, k: F, r: F)
    ensures
        line(a.add(k.mul(c)), b.add(k.mul(d)), r) == line(a, b, r).add(k.mul(line(c, d, r))),
{
    let s = a.add(b);
    let u = c.add(d);
    // (a + kc) + (b + kd) == s + ku
    lemma_add_swap(a, k.mul(c), b, k.mul(d));
    F::mul_add(k, c, d);
    // r (s + ku) == rs + k (ru)
    F::mul_add(r, s, k.mul(u));
    F::mul_assoc(r, k, u);
    F::mul_comm(r, k);
    F::mul_assoc(k, r, u);
    lemma_add_swap(a, k.mul(c), r.mul(s), k.mul(r.mul(u)));
    F::mul_add(k, c, r.mul(u));
}

/// Setting the lowest and the highest variable commute.
pub proof fn lemma_low_high<F: BinaryField>(t: Seq<F>, r: F, q: F, n: nat)
    requires
        n >= 2,
        t.len() == pow2(n),
    ensures
        fold(fold_low(t, r), q) == fold_low(fold(t, q), r),
{
    lemma_half_pow2(n);
    lemma_half_pow2((n - 1) as nat);
    let quarter = pow2((n - 2) as nat) as int;
    let left = fold(fold_low(t, r), q);
    let right = fold_low(fold(t, q), r);
    assert forall|i: int| 0 <= i < quarter implies left[i] == right[i] by {
        let (a, b) = (t[2 * i], t[2 * i + 1]);
        let (c, d) = (t[2 * (i + quarter)], t[2 * (i + quarter) + 1]);
        assert(fold_low(t, r)[i] == line(a, b, r));
        assert(fold_low(t, r)[i + quarter] == line(c, d, r));
        assert(fold(t, q)[2 * i] == line(a, c, q));
        assert(fold(t, q)[2 * i + 1] == line(b, d, q));
        // X + q (X + Y) with X + Y == line(a + c, b + d, r)
        let x = line(a, b, r);
        let y = line(c, d, r);
        lemma_line_linear(a, b, c, d, F::one(), r);
        crate::field::lemma_units(c);
        crate::field::lemma_units(d);
        crate::field::lemma_units(y);
        lemma_line_linear(a, b, a.add(c), b.add(d), q, r);
    }
    assert(left =~= right);
}

/// Folding the lowest variable sets the first coordinate of the value.
pub proof fn lemma_fold_low_mle<F: BinaryField>(t: Seq<F>, r: F, p: Seq<F>)
    requires
        t.len() == pow2(p.len() + 1),
    ensures
        mle(fold_low(t, r), p) == mle(t, seq![r] + p),
    decreases p.len(),
{
    let whole = seq![r] + p;
    let n = p.len() + 1;
    lemma_half_pow2(n);
    if p.len() == 0 {
        vstd::arithmetic::power2::lemma2_to64();
        assert(whole.last() == r);
        assert(whole.drop_last() =~= Seq::empty());
        assert(fold(t, r)[0] == line(t[0], t[1], r));
        assert(fold_low(t, r)[0] == line(t[0], t[1], r));
        reveal_with_fuel(mle, 2);
    } else {
        let q = p.last();
        assert(whole.last() == q);
        assert(whole.drop_last() =~= seq![r] + p.drop_last());
        lemma_low_high(t, r, q, n);
        lemma_fold_low_mle(fold(t, q), r, p.drop_last());
    }
}

/// Folding the lowest variables sets the first coordinates of the value.
pub proof fn lemma_fold_low_all_mle<F: BinaryField>(t: Seq<F>, rs: Seq<F>, p: Seq<F>)
    requires
        t.len() == pow2(rs.len() + p.len()),
    ensures
        mle(fold_low_all(t, rs), p) == mle(t, rs + p),
    decreases rs.len(),
{
    if rs.len() == 0 {
        assert(rs + p =~= p);
    } else {
        let front = rs.drop_last();
        lemma_fold_low_len(t, front, rs.len() + p.len());
        lemma_fold_low_mle(fold_low_all(t, front), rs.last(), p);
        let rest = seq![rs.last()] + p;
        lemma_fold_low_all_mle(t, front, rest);
        assert(front + rest =~= rs + p);
    }
}

/// Folding is linear.
pub proof fn lemma_fold_low_linear<F: BinaryField>(a: Seq<F>, b: Seq<F>, k: F, rs: Seq<F>)
    requires
        a.len() == b.len(),
    ensures
        fold_low_all(Seq::new(a.len(), |i: int| a[i].add(k.mul(b[i]))), rs) == Seq::new(
            fold_low_all(a, rs).len(),
            |i: int| fold_low_all(a, rs)[i].add(k.mul(fold_low_all(b, rs)[i])),
        ),
        fold_low_all(a, rs).len() == fold_low_all(b, rs).len(),
    decreases rs.len(),
{
    let c = Seq::new(a.len(), |i: int| a[i].add(k.mul(b[i])));
    if rs.len() == 0 {
        assert(c =~= Seq::new(a.len(), |i: int| a[i].add(k.mul(b[i]))));
    } else {
        let front = rs.drop_last();
        lemma_fold_low_linear(a, b, k, front);
        let (u, v, w) = (fold_low_all(a, front), fold_low_all(b, front), fold_low_all(c, front));
        let r = rs.last();
        let out = Seq::new(
            fold_low_all(a, rs).len(),
            |i: int| fold_low_all(a, rs)[i].add(k.mul(fold_low_all(b, rs)[i])),
        );
        assert forall|i: int| 0 <= i < out.len() implies fold_low_all(c, rs)[i] == out[i] by {
            assert(w[2 * i] == u[2 * i].add(k.mul(v[2 * i])));
            assert(w[2 * i + 1] == u[2 * i + 1].add(k.mul(v[2 * i + 1])));
            lemma_line_linear(u[2 * i], u[2 * i + 1], v[2 * i], v[2 * i + 1], k, r);
        }
        assert(fold_low_all(c, rs) =~= out);
    }
}

/// Sets the lowest variable of a table, in place.
pub fn fold_low_in_place<F: BinaryField>(t: &mut Vec<F>, r: F)
    ensures
        final(t)@ == fold_low(old(t)@, r),
{
    let half: usize = t.len() / 2;
    let mut i: usize = 0;
    while i < half
        invariant
            i <= half,
            half == old(t).len() / 2,
            t.len() == old(t).len(),
            forall|k: int| 0 <= k < i ==> #[trigger] t[k] == fold_low(old(t)@, r)[k],
            forall|k: int| 2 * i <= k < t.len() ==> #[trigger] t[k] == old(t)[k],
        decreases half - i,
    {
        let (a, b) = (t[2 * i], t[2 * i + 1]);
        let v = a.plus(r.times(a.plus(b)));
        t.set(i, v);
        i += 1;
    }
    t.truncate(half);
    proof {
        assert(t@ =~= fold_low(old(t)@, r));
    }
}

/// Sets the lowest variables of a table, the lowest first.
pub fn fold_low_vars<F: BinaryField>(t: &mut Vec<F>, rs: &[F])
    ensures
        final(t)@ == fold_low_all(old(t)@, rs@),
{
    let mut k: usize = 0;
    while k < rs.len()
        invariant
            k <= rs.len(),
            t@ == fold_low_all(old(t)@, rs@.take(k as int)),
        decreases rs.len() - k,
    {
        fold_low_in_place(t, rs[k]);
        proof {
            let part = rs@.take(k + 1);
            assert(part.drop_last() =~= rs@.take(k as int));
        }
        k += 1;
    }
    proof {
        assert(rs@.take(rs@.len() as int) =~= rs@);
    }
}

} // verus!
