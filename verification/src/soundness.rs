//! What a verifier can be misled about.
//!
//! A verifier of a sumcheck that ends with a true value can have started with a
//! false claim only if in some round the claim turned from false to true. In
//! each round fewer challenges than the round polynomial has coefficients do
//! that, so a prover depends on drawing one of them.
use vstd::prelude::*;
use vstd::arithmetic::power2::pow2;
use crate::field::{BinaryField, TowerField, lemma_add_eq_zero, lemma_add_mul, lemma_mul_eq_zero, lemma_units};
use crate::high_fold::horner;
use crate::interpolate::{interpolate, lemma_interpolate_at_point, lemma_interpolate_poly, lemma_small_points, small_points};
use crate::mle::{fold, lemma_half_pow2, line, mle};
use crate::poly::{is_poly, lemma_many_roots, lemma_peval_add, lemma_peval_sum, lemma_poly_sum, lemma_poly_unique, lemma_zero_coeffs, peval, pow, slice_of};
use crate::sum::{lemma_sum_ext, sum};
use crate::sumcheck::{entry_of, fold_tables, lemma_fold_tables_wf, lemma_round_sums, lemma_total_one, round_value, tables_wf, total, value_check, value_eval, values_at, verifier_run};
use crate::transcript::FiatShamir;

verus! {

/// The tables with their highest variables set to the challenges, the highest
/// one to the first.
pub open spec fn fold_run<F: BinaryField>(tables: Seq<Seq<F>>, challenges: Seq<F>) -> Seq<Seq<F>>
    decreases challenges.len(),
{
    if challenges.len() == 0 {
        tables
    } else {
        fold_tables(fold_run(tables, challenges.drop_last()), challenges.last())
    }
}

/// Whether a verifier's claim is the sum over the tables after `k` of `n` rounds.
pub open spec fn claim_true<F: BinaryField, T: FiatShamir<F>>(
    tables: Seq<Seq<F>>,
    f: spec_fn(Seq<F>) -> F,
    n: nat,
    claim: F,
    channel: T,
    messages: Seq<Seq<F>>,
    check: spec_fn(Seq<F>, F) -> bool,
    eval: spec_fn(Seq<F>, F, F) -> F,
    k: nat,
) -> bool {
    let run = verifier_run(claim, channel, messages, check, eval, k);
    run.claim == total(fold_run(tables, run.challenges), f, (n - k) as nat)
}

/// Whether the challenge of round `j` turned a false claim into a true one.
pub open spec fn misled<F: BinaryField, T: FiatShamir<F>>(
    tables: Seq<Seq<F>>,
    f: spec_fn(Seq<F>) -> F,
    n: nat,
    claim: F,
    channel: T,
    messages: Seq<Seq<F>>,
    check: spec_fn(Seq<F>, F) -> bool,
    eval: spec_fn(Seq<F>, F, F) -> F,
    j: nat,
) -> bool {
    let before = verifier_run(claim, channel, messages, check, eval, j);
    let after = verifier_run(claim, channel, messages, check, eval, j + 1);
    let left = fold_run(tables, before.challenges);
    let r = after.challenges.last();
    &&& j < n
    &&& before.claim != total(left, f, (n - j) as nat)
    &&& check(messages[j as int], before.claim)
    &&& eval(messages[j as int], before.claim, r) == round_value(left, f, (n - j) as nat, r)
}

/// Soundness: if a verifier accepts every round and ends with the true value of
/// the summand, then its first claim was the sum, or one of its challenges
/// misled it.
pub proof fn lemma_sound<F: BinaryField, T: FiatShamir<F>>(
    tables: Seq<Seq<F>>,
    f: spec_fn(Seq<F>) -> F,
    n: nat,
    claim: F,
    channel: T,
    messages: Seq<Seq<F>>,
    check: spec_fn(Seq<F>, F) -> bool,
    eval: spec_fn(Seq<F>, F, F) -> F,
    k: nat,
)
    requires
        k <= n,
        verifier_run(claim, channel, messages, check, eval, k).ok,
        claim_true(tables, f, n, claim, channel, messages, check, eval, k),
    ensures
        claim == total(tables, f, n) || exists|j: nat|
            j < k && #[trigger] misled(tables, f, n, claim, channel, messages, check, eval, j),
    decreases k,
{
    let run = verifier_run(claim, channel, messages, check, eval, k);
    if k > 0 {
        let j = (k - 1) as nat;
        let before = verifier_run(claim, channel, messages, check, eval, j);
        assert(run.challenges.drop_last() =~= before.challenges);
        if claim_true(tables, f, n, claim, channel, messages, check, eval, j) {
            lemma_sound(tables, f, n, claim, channel, messages, check, eval, j);
        } else {
            assert(misled(tables, f, n, claim, channel, messages, check, eval, j));
        }
    }
}

/// A verifier that accepts draws a challenge a round.
pub proof fn lemma_accepted_challenges<F: BinaryField, T: FiatShamir<F>>(
    claim: F,
    channel: T,
    messages: Seq<Seq<F>>,
    check: spec_fn(Seq<F>, F) -> bool,
    eval: spec_fn(Seq<F>, F, F) -> F,
    k: nat,
)
    requires
        verifier_run(claim, channel, messages, check, eval, k).ok,
    ensures
        verifier_run(claim, channel, messages, check, eval, k).challenges.len() == k,
    decreases k,
{
    if k > 0 {
        lemma_accepted_challenges(claim, channel, messages, check, eval, (k - 1) as nat);
    }
}

/// The tables stay in shape.
pub proof fn lemma_fold_run_wf<F: BinaryField>(tables: Seq<Seq<F>>, n: nat, challenges: Seq<F>)
    requires
        challenges.len() <= n,
        tables_wf(tables, n),
    ensures
        tables_wf(fold_run(tables, challenges), (n - challenges.len()) as nat),
        fold_run(tables, challenges).len() == tables.len(),
    decreases challenges.len(),
{
    if challenges.len() > 0 {
        let rest = challenges.drop_last();
        lemma_fold_run_wf(tables, n, rest);
        lemma_fold_tables_wf(
            fold_run(tables, rest),
            (n - rest.len()) as nat,
            challenges.last(),
        );
    }
}

/// The folded tables evaluate as the tables at the challenges.
pub proof fn lemma_fold_run_mle<F: BinaryField>(
    tables: Seq<Seq<F>>,
    n: nat,
    challenges: Seq<F>,
    c: int,
    p: Seq<F>,
)
    requires
        challenges.len() + p.len() == n,
        tables_wf(tables, n),
        0 <= c < tables.len(),
    ensures
        mle(fold_run(tables, challenges)[c], p) == mle(tables[c], p + challenges.reverse()),
    decreases challenges.len(),
{
    if challenges.len() == 0 {
        assert(p + challenges.reverse() =~= p);
    } else {
        let rest = challenges.drop_last();
        let r = challenges.last();
        let q = p.push(r);
        lemma_fold_run_wf(tables, n, rest);
        lemma_fold_run_mle(tables, n, rest, c, q);
        assert(q.drop_last() =~= p);
        assert(q + rest.reverse() =~= p + challenges.reverse());
    }
}

/// After the last round each table is its value at the challenges.
pub proof fn lemma_fold_run_end<F: BinaryField>(tables: Seq<Seq<F>>, challenges: Seq<F>, c: int)
    requires
        tables_wf(tables, challenges.len()),
        0 <= c < tables.len(),
    ensures
        fold_run(tables, challenges)[c][0] == mle(tables[c], challenges.reverse()),
{
    lemma_fold_run_mle(tables, challenges.len(), challenges, c, Seq::empty());
    lemma_fold_run_wf(tables, challenges.len(), challenges);
    assert(Seq::<F>::empty() + challenges.reverse() =~= challenges.reverse());
    vstd::arithmetic::power2::lemma2_to64();
}

/// Soundness at the point of the challenges: if a verifier accepts every round
/// and ends with the summand at the extensions of the tables, then its first
/// claim was the sum, or one of its challenges misled it.
pub proof fn lemma_sound_at_point<F: BinaryField, T: FiatShamir<F>>(
    tables: Seq<Seq<F>>,
    f: spec_fn(Seq<F>) -> F,
    n: nat,
    claim: F,
    channel: T,
    messages: Seq<Seq<F>>,
    check: spec_fn(Seq<F>, F) -> bool,
    eval: spec_fn(Seq<F>, F, F) -> F,
)
    requires
        tables_wf(tables, n),
        ({
            let run = verifier_run(claim, channel, messages, check, eval, n);
            &&& run.ok
            &&& run.claim == f(
                Seq::new(tables.len(), |c: int| mle(tables[c], run.challenges.reverse())),
            )
        }),
    ensures
        claim == total(tables, f, n) || exists|j: nat|
            j < n && #[trigger] misled(tables, f, n, claim, channel, messages, check, eval, j),
{
    let run = verifier_run(claim, channel, messages, check, eval, n);
    lemma_accepted_challenges(claim, channel, messages, check, eval, n);
    let last = fold_run(tables, run.challenges);
    lemma_fold_run_wf(tables, n, run.challenges);
    assert forall|c: int| 0 <= c < tables.len() implies #[trigger] last[c][0] == mle(
        tables[c],
        run.challenges.reverse(),
    ) by {
        lemma_fold_run_end(tables, run.challenges, c);
    }
    assert(values_at(last, 0) =~= Seq::new(
        tables.len(),
        |c: int| mle(tables[c], run.challenges.reverse()),
    ));
    lemma_total_one(last, f);
    lemma_sound(tables, f, n, claim, channel, messages, check, eval, n);
}

/// Few challenges mislead: a polynomial `g` of `width` coefficients that sums to
/// a false claim meets the round polynomial at fewer than `width` points.
pub proof fn lemma_few_misleading<F: BinaryField>(
    tables: Seq<Seq<F>>,
    f: spec_fn(Seq<F>) -> F,
    n: nat,
    width: nat,
    claim: F,
    g: spec_fn(F) -> F,
    bad: Seq<F>,
)
    requires
        n > 0,
        tables_wf(tables, n),
        forall|i: int|
            0 <= i < pow2((n - 1) as nat) ==> is_poly(
                #[trigger] slice_of(entry_of(tables, f), i),
                width,
            ),
        is_poly(g, width),
        g(F::zero()).add(g(F::one())) == claim,
        claim != total(tables, f, n),
        bad.no_duplicates(),
        forall|k: int|
            0 <= k < bad.len() ==> g(#[trigger] bad[k]) == round_value(tables, f, n, bad[k]),
    ensures
        bad.len() < width,
{
    if bad.len() >= width {
        let points = bad.take(width as int);
        let h = pow2((n - 1) as nat);
        let e = entry_of(tables, f);
        let honest = |x: F| round_value(tables, f, n, x);
        assert forall|x: F| #[trigger] honest(x) == sum(h, |i: int| e(i, x)) by {
            lemma_sum_ext(h, |i: int| f(values_at(fold_tables(tables, x), i)), |i: int| e(i, x));
        }
        lemma_poly_sum(h, e, honest, width);
        assert forall|i: int| 0 <= i < width implies g(#[trigger] points[i]) == honest(
            points[i],
        ) by {
            assert(points[i] == bad[i]);
        }
        lemma_poly_unique(g, honest, width, points, F::zero());
        lemma_poly_unique(g, honest, width, points, F::one());
        lemma_round_sums(tables, f, n);
    }
}

/// Few challenges mislead about a message of values: fewer than it has values.
pub proof fn lemma_few_misleading_values<F: TowerField>(
    tables: Seq<Seq<F>>,
    f: spec_fn(Seq<F>) -> F,
    n: nat,
    claim: F,
    message: Seq<F>,
    bad: Seq<F>,
)
    requires
        n > 0,
        tables_wf(tables, n),
        2 <= message.len() <= u128::MAX,
        forall|i: int|
            0 <= i < pow2((n - 1) as nat) ==> is_poly(
                #[trigger] slice_of(entry_of(tables, f), i),
                message.len(),
            ),
        value_check()(message, claim),
        claim != total(tables, f, n),
        bad.no_duplicates(),
        forall|k: int|
            0 <= k < bad.len() ==> value_eval()(message, claim, #[trigger] bad[k]) == round_value(
                tables,
                f,
                n,
                bad[k],
            ),
    ensures
        bad.len() < message.len(),
{
    let width = message.len();
    let points = small_points::<F>(width);
    let g = |x: F| interpolate(points, message, x);
    lemma_small_points::<F>(width);
    lemma_interpolate_poly(points, message, g);
    lemma_interpolate_at_point(points, message, 0);
    lemma_interpolate_at_point(points, message, 1);
    F::of_u128_units();
    assert(points[0] == F::zero() && points[1] == F::one());
    assert forall|k: int| 0 <= k < bad.len() implies g(#[trigger] bad[k]) == round_value(
        tables,
        f,
        n,
        bad[k],
    ) by {
        assert(value_eval()(message, claim, bad[k]) == g(bad[k]));
    }
    lemma_few_misleading(tables, f, n, width, claim, g, bad);
}

/// Combining by powers: two different lists of `n` values have the same
/// combination for fewer than `n` elements.
pub proof fn lemma_gamma_separates<F: TowerField>(a: Seq<F>, b: Seq<F>, bad: Seq<F>)
    requires
        a.len() == b.len(),
        a != b,
        a.len() < u64::MAX,
        bad.no_duplicates(),
        forall|k: int| 0 <= k < bad.len() ==> horner(#[trigger] bad[k], a) == horner(bad[k], b),
    ensures
        bad.len() < a.len(),
{
    let n = a.len();
    if bad.len() >= n {
        let e = Seq::new(n, |k: int| a[k].add(b[k]));
        let points = bad.take(n as int);
        assert forall|i: int| 0 <= i < n implies peval(e, #[trigger] points[i]) == F::zero() by {
            let y = points[i];
            assert(y == bad[i]);
            lemma_horner_peval(y, a);
            lemma_horner_peval(y, b);
            lemma_peval_add(a, b, y);
            F::add_self(peval(a, y));
        }
        assert forall|x: F| #[trigger] peval(e, x) == F::zero() by {
            lemma_many_roots(e, points, x);
        }
        lemma_zero_coeffs(e);
        assert forall|k: int| 0 <= k < n implies a[k] == b[k] by {
            assert(e[k] == F::zero());
            lemma_add_eq_zero(a[k], b[k]);
        }
        assert(a =~= b);
    }
}

/// The combination by powers is the value of a polynomial.
pub proof fn lemma_horner_peval<F: BinaryField>(gamma: F, values: Seq<F>)
    ensures
        horner(gamma, values) == peval(values, gamma),
{
    lemma_peval_sum(values, gamma);
    let left = |k: int| values[k].mul(pow(gamma, k as nat));
    let right = |k: int| pow(gamma, k as nat).mul(values[k]);
    assert forall|k: int| 0 <= k < values.len() implies #[trigger] left(k) == right(k) by {
        F::mul_comm(values[k], pow(gamma, k as nat));
    }
    lemma_sum_ext(values.len(), left, right);
}

/// Whether every value of a table is zero.
pub open spec fn all_zero<F: BinaryField>(t: Seq<F>) -> bool {
    forall|i: int| 0 <= i < t.len() ==> #[trigger] t[i] == F::zero()
}

/// The table whose variables from `k` on are set to the coordinates of a point.
pub open spec fn set_from<F: BinaryField>(t: Seq<F>, point: Seq<F>, k: nat) -> Seq<F>
    decreases point.len() - k,
{
    if k >= point.len() {
        t
    } else {
        fold(set_from(t, point, k + 1), point[k as int])
    }
}

/// Whether the coordinate `k` of a point turns a table that is not zero into
/// zero.
pub open spec fn hides<F: BinaryField>(t: Seq<F>, point: Seq<F>, k: nat) -> bool {
    &&& k < point.len()
    &&& !all_zero(set_from(t, point, k + 1))
    &&& all_zero(fold(set_from(t, point, k + 1), point[k as int]))
}

/// A table that is not zero evaluates to zero only where a coordinate of the
/// point hides it.
pub proof fn lemma_zero_hidden<F: BinaryField>(t: Seq<F>, point: Seq<F>)
    requires
        t.len() == pow2(point.len()),
        !all_zero(t),
        mle(t, point) == F::zero(),
    ensures
        exists|k: nat| #[trigger] hides(t, point, k),
{
    let n = point.len();
    lemma_set_from(t, point, 0);
    let last = set_from(t, point, 0);
    vstd::arithmetic::power2::lemma2_to64();
    assert(point.take(0) =~= Seq::empty());
    assert(all_zero(last));
    lemma_hidden_below(t, point, 0);
}

proof fn lemma_set_from<F: BinaryField>(t: Seq<F>, point: Seq<F>, k: nat)
    requires
        t.len() == pow2(point.len()),
        k <= point.len(),
    ensures
        set_from(t, point, k).len() == pow2(k),
        mle(set_from(t, point, k), point.take(k as int)) == mle(t, point),
    decreases point.len() - k,
{
    if k == point.len() {
        assert(point.take(k as int) =~= point);
    } else {
        lemma_set_from(t, point, k + 1);
        lemma_half_pow2(k + 1);
        let p = point.take(k as int + 1);
        assert(p.drop_last() =~= point.take(k as int));
        assert(p.last() == point[k as int]);
    }
}

proof fn lemma_hidden_below<F: BinaryField>(t: Seq<F>, point: Seq<F>, k: nat)
    requires
        k <= point.len(),
        !all_zero(t),
        all_zero(set_from(t, point, k)),
    ensures
        exists|j: nat| #[trigger] hides(t, point, j),
    decreases point.len() - k,
{
    if k < point.len() {
        if all_zero(set_from(t, point, k + 1)) {
            lemma_hidden_below(t, point, k + 1);
        } else {
            assert(hides(t, point, k));
        }
    }
}

/// At most one value of the highest variable hides a table that is not zero.
pub proof fn lemma_one_hides<F: BinaryField>(t: Seq<F>, n: nat, r: F, s: F)
    requires
        n > 0,
        t.len() == pow2(n),
        !all_zero(t),
        all_zero(fold(t, r)),
        all_zero(fold(t, s)),
    ensures
        r == s,
{
    lemma_half_pow2(n);
    let h = pow2((n - 1) as nat);
    let i = choose|i: int| 0 <= i < t.len() && #[trigger] t[i] != F::zero();
    let j = if i < h {
        i
    } else {
        i - h
    };
    let (a, b) = (t[j], t[j + h]);
    assert(fold(t, r)[j] == line(a, b, r));
    assert(fold(t, s)[j] == line(a, b, s));
    assert(line(a, b, r) == F::zero() && line(a, b, s) == F::zero());
    // Both r (a + b) and s (a + b) are a.
    let d = a.add(b);
    lemma_add_eq_zero(a, r.mul(d));
    lemma_add_eq_zero(a, s.mul(d));
    lemma_add_mul(r, s, d);
    F::add_self(a);
    lemma_mul_eq_zero(r.add(s), d);
    lemma_add_eq_zero(r, s);
    if d == F::zero() {
        lemma_units(r);
        lemma_add_eq_zero(a, b);
    }
}

} // verus!
