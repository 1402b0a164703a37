//! Finite sums over a field.
use vstd::prelude::*;
use crate::field::{BinaryField, lemma_add_swap, lemma_units};

verus! {

/// `f(0) + f(1) + ... + f(n - 1)`.
pub open spec fn sum<F: BinaryField>(n: nat, f: spec_fn(int) -> F) -> F
    decreases n,
{
    if n == 0 {
        F::zero()
    } else {
        sum((n - 1) as nat, f).add(f(n - 1))
    }
}

/// Sums of pointwise equal functions agree.
pub proof fn lemma_sum_ext<F: BinaryField>(n: nat, f: spec_fn(int) -> F, g: spec_fn(int) -> F)
    requires
        forall|i: int| 0 <= i < n ==> #[trigger] f(i) == g(i),
    ensures
        sum(n, f) == sum(n, g),
    decreases n,
{
    if n > 0 {
        lemma_sum_ext((n - 1) as nat, f, g);
        assert(f(n - 1) == g(n - 1));
    }
}

/// The sum of sums is the sum of the pointwise sums.
pub proof fn lemma_sum_add<F: BinaryField>(n: nat, f: spec_fn(int) -> F, g: spec_fn(int) -> F)
    ensures
        sum(n, f).add(sum(n, g)) == sum(n, |i: int| f(i).add(g(i))),
    decreases n,
{
    if n == 0 {
        F::add_zero(F::zero());
    } else {
        let m = (n - 1) as nat;
        lemma_sum_add(m, f, g);
        lemma_add_swap(sum(m, f), f(n - 1), sum(m, g), g(n - 1));
    }
}

/// A constant factor moves out of a sum.
pub proof fn lemma_sum_scale<F: BinaryField>(n: nat, k: F, f: spec_fn(int) -> F)
    ensures
        k.mul(sum(n, f)) == sum(n, |i: int| k.mul(f(i))),
    decreases n,
{
    if n == 0 {
        lemma_units(k);
    } else {
        lemma_sum_scale((n - 1) as nat, k, f);
        F::mul_add(k, sum((n - 1) as nat, f), f(n - 1));
    }
}

/// A sum of zeros is zero.
pub proof fn lemma_sum_zero<F: BinaryField>(n: nat, f: spec_fn(int) -> F)
    requires
        forall|i: int| 0 <= i < n ==> #[trigger] f(i) == F::zero(),
    ensures
        sum(n, f) == F::zero(),
    decreases n,
{
    if n > 0 {
        lemma_sum_zero((n - 1) as nat, f);
        assert(f(n - 1) == F::zero());
        F::add_zero(F::zero());
    }
}

/// A sum over `m + n` indices splits after the first `m`.
pub proof fn lemma_sum_split<F: BinaryField>(m: nat, n: nat, f: spec_fn(int) -> F)
    ensures
        sum(m + n, f) == sum(m, f).add(sum(n, |i: int| f(m + i))),
    decreases n,
{
    if n == 0 {
        F::add_zero(sum(m, f));
    } else {
        let k = (n - 1) as nat;
        lemma_sum_split(m, k, f);
        F::add_assoc(sum(m, f), sum(k, |i: int| f(m + i)), f(m + n - 1));
    }
}

/// The order of two nested sums does not matter.
pub proof fn lemma_sum_swap<F: BinaryField>(m: nat, n: nat, f: spec_fn(int, int) -> F)
    ensures
        sum(m, |i: int| sum(n, |j: int| f(i, j))) == sum(n, |j: int| sum(m, |i: int| f(i, j))),
    decreases m,
{
    let row = |i: int| sum(n, |j: int| f(i, j));
    if m == 0 {
        lemma_sum_zero(n, |j: int| sum(0, |i: int| f(i, j)));
    } else {
        let k = (m - 1) as nat;
        lemma_sum_swap(k, n, f);
        let part = |j: int| sum(k, |i: int| f(i, j));
        let last = |j: int| f(m - 1, j);
        lemma_sum_add(n, part, last);
        lemma_sum_ext(
            n,
            |j: int| part(j).add(last(j)),
            |j: int| sum(m, |i: int| f(i, j)),
        );
        assert(row(m - 1) == sum(n, last));
    }
}

/// A sum with at most one non-zero term is that term.
pub proof fn lemma_sum_single<F: BinaryField>(n: nat, k: int, f: spec_fn(int) -> F)
    requires
        0 <= k < n,
        forall|i: int| 0 <= i < n && i != k ==> #[trigger] f(i) == F::zero(),
    ensures
        sum(n, f) == f(k),
    decreases n,
{
    let m = (n - 1) as nat;
    if k == n - 1 {
        lemma_sum_zero(m, f);
        lemma_units(f(k));
    } else {
        lemma_sum_single(m, k, f);
        assert(f(n - 1) == F::zero());
        F::add_zero(f(k));
    }
}

} // verus!
