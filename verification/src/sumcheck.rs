//! The sumcheck protocol over folded tables, apart from what a round sends.
//!
//! A sumcheck proves a claim about `sum_i f(t_0[i], .., t_k[i])`. In each round
//! the prover sends a message about the polynomial that the sum becomes when
//! the highest variable is left free, draws a challenge, and sets that
//! variable to it. What the message is, what is checked of it and how it is
//! evaluated differ from protocol to protocol; the rest is here.
use vstd::prelude::*;
use vstd::arithmetic::power2::pow2;
use crate::field::{BinaryField, TowerField};
use crate::interpolate::{interpolate, lemma_interpolate, lemma_small_points, small_points};
use crate::mle::{fold, lemma_half_pow2, lemma_line_ends, mle};
use crate::poly::{is_poly, lemma_poly_line, lemma_poly_sum, slice_of};
use crate::sum::{lemma_sum_ext, lemma_sum_split, sum};
use crate::transcript::{FiatShamir, absorb_all};

verus! {

/// The values of all the tables at one index.
pub open spec fn values_at<F>(tables: Seq<Seq<F>>, i: int) -> Seq<F> {
    Seq::new(tables.len(), |c: int| tables[c][i])
}

/// All the tables have `2^n` values.
pub open spec fn tables_wf<F>(tables: Seq<Seq<F>>, n: nat) -> bool {
    forall|c: int| 0 <= c < tables.len() ==> #[trigger] tables[c].len() == pow2(n)
}

/// `sum_i f(t_0[i], .., t_k[i])` over the `2^n` indices.
pub open spec fn total<F: BinaryField>(
    tables: Seq<Seq<F>>,
    f: spec_fn(Seq<F>) -> F,
    n: nat,
) -> F {
    sum(pow2(n), |i: int| f(values_at(tables, i)))
}

/// All the tables with their highest variable set to `r`.
pub open spec fn fold_tables<F: BinaryField>(tables: Seq<Seq<F>>, r: F) -> Seq<Seq<F>> {
    Seq::new(tables.len(), |c: int| fold(tables[c], r))
}

/// The round polynomial: the sum as a function of the highest variable.
pub open spec fn round_value<F: BinaryField>(
    tables: Seq<Seq<F>>,
    f: spec_fn(Seq<F>) -> F,
    n: nat,
    x: F,
) -> F {
    total(fold_tables(tables, x), f, (n - 1) as nat)
}

/// The prover after some rounds.
pub struct ProverRun<F, T> {
    pub tables: Seq<Seq<F>>,
    pub channel: T,
    pub messages: Seq<Seq<F>>,
    pub challenges: Seq<F>,
}

/// The prover after `k` rounds, where `message` gives what a round sends.
pub open spec fn prover_run<F: BinaryField, T: FiatShamir<F>>(
    tables: Seq<Seq<F>>,
    channel: T,
    message: spec_fn(Seq<Seq<F>>) -> Seq<F>,
    k: nat,
) -> ProverRun<F, T>
    decreases k,
{
    if k == 0 {
        ProverRun { tables, channel, messages: Seq::empty(), challenges: Seq::empty() }
    } else {
        prover_step(prover_run(tables, channel, message, (k - 1) as nat), message)
    }
}

/// One round of the prover.
pub open spec fn prover_step<F: BinaryField, T: FiatShamir<F>>(
    s: ProverRun<F, T>,
    message: spec_fn(Seq<Seq<F>>) -> Seq<F>,
) -> ProverRun<F, T> {
    let m = message(s.tables);
    let sent = absorb_all(s.channel, m);
    let r = sent.challenge();
    ProverRun {
        tables: fold_tables(s.tables, r),
        channel: sent.squeezed(),
        messages: s.messages.push(m),
        challenges: s.challenges.push(r),
    }
}

/// The verifier after some rounds; `ok` is false once a round was refused.
pub struct VerifierRun<F, T> {
    pub ok: bool,
    pub claim: F,
    pub channel: T,
    pub challenges: Seq<F>,
}

/// The verifier after the first `k` of the given messages.
pub open spec fn verifier_run<F: BinaryField, T: FiatShamir<F>>(
    claim: F,
    channel: T,
    messages: Seq<Seq<F>>,
    check: spec_fn(Seq<F>, F) -> bool,
    eval: spec_fn(Seq<F>, F, F) -> F,
    k: nat,
) -> VerifierRun<F, T>
    decreases k,
{
    if k == 0 {
        VerifierRun { ok: true, claim, channel, challenges: Seq::empty() }
    } else {
        verifier_step(
            verifier_run(claim, channel, messages, check, eval, (k - 1) as nat),
            messages[k - 1],
            check,
            eval,
        )
    }
}

/// One round of the verifier.
pub open spec fn verifier_step<F: BinaryField, T: FiatShamir<F>>(
    s: VerifierRun<F, T>,
    m: Seq<F>,
    check: spec_fn(Seq<F>, F) -> bool,
    eval: spec_fn(Seq<F>, F, F) -> F,
) -> VerifierRun<F, T> {
    if !s.ok {
        s
    } else if !check(m, s.claim) {
        VerifierRun { ok: false, claim: s.claim, channel: s.channel, challenges: s.challenges }
    } else {
        let sent = absorb_all(s.channel, m);
        let r = sent.challenge();
        VerifierRun {
            ok: true,
            claim: eval(m, s.claim, r),
            channel: sent.squeezed(),
            challenges: s.challenges.push(r),
        }
    }
}

/// Folding keeps tables in shape.
pub proof fn lemma_fold_tables_wf<F: BinaryField>(tables: Seq<Seq<F>>, n: nat, r: F)
    requires
        n > 0,
        tables_wf(tables, n),
    ensures
        tables_wf(fold_tables(tables, r), (n - 1) as nat),
        fold_tables(tables, r).len() == tables.len(),
{
    lemma_half_pow2(n);
    assert forall|c: int| 0 <= c < tables.len() implies #[trigger] fold_tables(tables, r)[c].len()
        == pow2((n - 1) as nat) by {
        assert(tables[c].len() == pow2(n));
    }
}

/// The round polynomial at zero plus at one is the sum before the round.
pub proof fn lemma_round_sums<F: BinaryField>(
    tables: Seq<Seq<F>>,
    f: spec_fn(Seq<F>) -> F,
    n: nat,
)
    requires
        n > 0,
        tables_wf(tables, n),
    ensures
        round_value(tables, f, n, F::zero()).add(round_value(tables, f, n, F::one())) == total(
            tables,
            f,
            n,
        ),
{
    let h = pow2((n - 1) as nat);
    lemma_half_pow2(n);
    let g = |i: int| f(values_at(tables, i));
    lemma_sum_split(h, h, g);
    let lo = |i: int| f(values_at(fold_tables(tables, F::zero()), i));
    let hi = |i: int| f(values_at(fold_tables(tables, F::one()), i));
    assert forall|i: int| 0 <= i < h implies #[trigger] lo(i) == g(i) by {
        assert forall|c: int| 0 <= c < tables.len() implies fold(tables[c], F::zero())[i]
            == tables[c][i] by {
            assert(tables[c].len() == pow2(n));
            lemma_line_ends(tables[c][i], tables[c][i + h]);
        }
        assert(values_at(fold_tables(tables, F::zero()), i) =~= values_at(tables, i));
    }
    let upper = |i: int| g(h + i);
    assert forall|i: int| 0 <= i < h implies #[trigger] hi(i) == upper(i) by {
        assert forall|c: int| 0 <= c < tables.len() implies fold(tables[c], F::one())[i]
            == tables[c][h + i] by {
            assert(tables[c].len() == pow2(n));
            lemma_line_ends(tables[c][i], tables[c][i + h]);
        }
        assert(values_at(fold_tables(tables, F::one()), i) =~= values_at(tables, h + i));
    }
    lemma_sum_ext(h, lo, g);
    lemma_sum_ext(h, hi, upper);
}

/// The shape of a prover run.
pub proof fn lemma_prover_run_shape<F: BinaryField, T: FiatShamir<F>>(
    tables: Seq<Seq<F>>,
    channel: T,
    message: spec_fn(Seq<Seq<F>>) -> Seq<F>,
    n: nat,
    k: nat,
)
    requires
        k <= n,
        tables_wf(tables, n),
    ensures
        ({
            let s = prover_run(tables, channel, message, k);
            &&& s.messages.len() == k
            &&& s.challenges.len() == k
            &&& s.tables.len() == tables.len()
            &&& tables_wf(s.tables, (n - k) as nat)
        }),
    decreases k,
{
    if k > 0 {
        lemma_prover_run_shape(tables, channel, message, n, (k - 1) as nat);
        let s = prover_run(tables, channel, message, (k - 1) as nat);
        let r = absorb_all(s.channel, message(s.tables)).challenge();
        lemma_fold_tables_wf(s.tables, (n - k + 1) as nat, r);
    }
}

/// A run draws a challenge a round.
pub proof fn lemma_run_challenges<F: BinaryField, T: FiatShamir<F>>(
    tables: Seq<Seq<F>>,
    channel: T,
    message: spec_fn(Seq<Seq<F>>) -> Seq<F>,
    k: nat,
)
    ensures
        prover_run(tables, channel, message, k).challenges.len() == k,
    decreases k,
{
    if k > 0 {
        lemma_run_challenges(tables, channel, message, (k - 1) as nat);
    }
}

/// Earlier messages stay as they were sent.
pub proof fn lemma_prover_run_prefix<F: BinaryField, T: FiatShamir<F>>(
    tables: Seq<Seq<F>>,
    channel: T,
    message: spec_fn(Seq<Seq<F>>) -> Seq<F>,
    n: nat,
    j: nat,
    k: nat,
)
    requires
        j < k <= n,
        tables_wf(tables, n),
    ensures
        prover_run(tables, channel, message, k).messages[j as int] == message(
            prover_run(tables, channel, message, j).tables,
        ),
        prover_run(tables, channel, message, k).messages.len() == k,
    decreases k,
{
    lemma_prover_run_shape(tables, channel, message, n, k);
    lemma_prover_run_shape(tables, channel, message, n, (k - 1) as nat);
    if j < k - 1 {
        lemma_prover_run_prefix(tables, channel, message, n, j, (k - 1) as nat);
    }
}

/// The folded tables evaluate as the unfolded ones at the challenges, the
/// first challenge being the value of the highest variable.
pub proof fn lemma_run_tables<F: BinaryField, T: FiatShamir<F>>(
    tables: Seq<Seq<F>>,
    channel: T,
    message: spec_fn(Seq<Seq<F>>) -> Seq<F>,
    n: nat,
    k: nat,
    c: int,
    p: Seq<F>,
)
    requires
        k <= n,
        tables_wf(tables, n),
        0 <= c < tables.len(),
        p.len() == n - k,
    ensures
        ({
            let s = prover_run(tables, channel, message, k);
            mle(s.tables[c], p) == mle(tables[c], p + s.challenges.reverse())
        }),
    decreases k,
{
    let s = prover_run(tables, channel, message, k);
    lemma_prover_run_shape(tables, channel, message, n, k);
    if k == 0 {
        assert(p + s.challenges.reverse() =~= p);
    } else {
        let t = prover_run(tables, channel, message, (k - 1) as nat);
        lemma_prover_run_shape(tables, channel, message, n, (k - 1) as nat);
        let r = absorb_all(t.channel, message(t.tables)).challenge();
        let q = p.push(r);
        lemma_run_tables(tables, channel, message, n, (k - 1) as nat, c, q);
        assert(q.drop_last() =~= p);
        assert(q + t.challenges.reverse() =~= p + s.challenges.reverse());
    }
}

/// The final value of each table is its extension at the challenges.
pub proof fn lemma_final_values<F: BinaryField, T: FiatShamir<F>>(
    tables: Seq<Seq<F>>,
    channel: T,
    message: spec_fn(Seq<Seq<F>>) -> Seq<F>,
    n: nat,
)
    requires
        tables_wf(tables, n),
    ensures
        ({
            let s = prover_run(tables, channel, message, n);
            &&& s.tables.len() == tables.len()
            &&& tables_wf(s.tables, 0)
            &&& forall|c: int|
                0 <= c < tables.len() ==> #[trigger] s.tables[c][0] == mle(
                    tables[c],
                    s.challenges.reverse(),
                )
        }),
{
    let s = prover_run(tables, channel, message, n);
    lemma_prover_run_shape(tables, channel, message, n, n);
    assert forall|c: int| 0 <= c < tables.len() implies #[trigger] s.tables[c][0] == mle(
        tables[c],
        s.challenges.reverse(),
    ) by {
        lemma_run_tables(tables, channel, message, n, n, c, Seq::empty());
        assert(Seq::<F>::empty() + s.challenges.reverse() =~= s.challenges.reverse());
    }
}

/// What makes the messages of a protocol honest: each passes the check against
/// the sum that it is about, and evaluates to the sum that the next round is
/// about.
pub open spec fn honest<F: BinaryField>(
    f: spec_fn(Seq<F>) -> F,
    columns: nat,
    message: spec_fn(Seq<Seq<F>>) -> Seq<F>,
    check: spec_fn(Seq<F>, F) -> bool,
    eval: spec_fn(Seq<F>, F, F) -> F,
) -> bool {
    forall|tables: Seq<Seq<F>>, n: nat|
        #![trigger tables_wf(tables, n), message(tables)]
        n > 0 && tables.len() == columns && tables_wf(tables, n) ==> {
            &&& check(message(tables), total(tables, f, n))
            &&& forall|r: F|
                #[trigger] eval(message(tables), total(tables, f, n), r) == round_value(
                    tables,
                    f,
                    n,
                    r,
                )
        }
}

/// Completeness: a verifier that follows an honest prover accepts every round,
/// draws the same challenges, and ends with the value of the summand at the
/// final values of the tables.
pub proof fn lemma_complete<F: BinaryField, T: FiatShamir<F>>(
    tables: Seq<Seq<F>>,
    channel: T,
    f: spec_fn(Seq<F>) -> F,
    message: spec_fn(Seq<Seq<F>>) -> Seq<F>,
    check: spec_fn(Seq<F>, F) -> bool,
    eval: spec_fn(Seq<F>, F, F) -> F,
    n: nat,
    k: nat,
)
    requires
        k <= n,
        tables_wf(tables, n),
        honest(f, tables.len(), message, check, eval),
    ensures
        ({
            let p = prover_run(tables, channel, message, n);
            let s = prover_run(tables, channel, message, k);
            let v = verifier_run(total(tables, f, n), channel, p.messages, check, eval, k);
            &&& v.ok
            &&& v.channel == s.channel
            &&& v.challenges == s.challenges
            &&& v.claim == total(s.tables, f, (n - k) as nat)
        }),
    decreases k,
{
    if k > 0 {
        let j = (k - 1) as nat;
        lemma_complete(tables, channel, f, message, check, eval, n, j);
        lemma_prover_run_shape(tables, channel, message, n, j);
        lemma_prover_run_prefix(tables, channel, message, n, j, n);
        let s = prover_run(tables, channel, message, j);
        let m = message(s.tables);
        let r = absorb_all(s.channel, m).challenge();
        assert(tables_wf(s.tables, (n - j) as nat));
        assert(eval(m, total(s.tables, f, (n - j) as nat), r) == round_value(
            s.tables,
            f,
            (n - j) as nat,
            r,
        ));
    }
}

/// The sum over a single index.
pub proof fn lemma_total_one<F: BinaryField>(tables: Seq<Seq<F>>, f: spec_fn(Seq<F>) -> F)
    ensures
        total(tables, f, 0) == f(values_at(tables, 0)),
{
    vstd::arithmetic::power2::lemma2_to64();
    let g = |i: int| f(values_at(tables, i));
    assert(sum(1, g) == sum(0, g).add(g(0)));
    crate::field::lemma_units(g(0));
}

/// The sum, with the highest variable set to `x`, over half the indices.
pub open spec fn half_sum<F: BinaryField>(
    tables: Seq<Seq<F>>,
    f: spec_fn(Seq<F>) -> F,
    x: F,
) -> F {
    sum((tables[0].len() / 2) as nat, |i: int| f(values_at(fold_tables(tables, x), i)))
}

/// The message that gives a round polynomial by its values at 0, 1, .., n - 1.
pub open spec fn value_message<F: TowerField>(
    tables: Seq<Seq<F>>,
    f: spec_fn(Seq<F>) -> F,
    n: nat,
) -> Seq<F> {
    Seq::new(n, |k: int| half_sum(tables, f, F::of_u128(k as u128)))
}

/// The check that a message of values is about the claimed sum.
pub open spec fn value_check<F: BinaryField>() -> spec_fn(Seq<F>, F) -> bool {
    |m: Seq<F>, claim: F| m[0].add(m[1]) == claim
}

/// The evaluation of a message of values at a challenge.
pub open spec fn value_eval<F: TowerField>() -> spec_fn(Seq<F>, F, F) -> F {
    |m: Seq<F>, claim: F, r: F| interpolate(small_points::<F>(m.len()), m, r)
}

/// Messages of `width` values are honest when the summand has fewer than
/// `width` degrees in the folded variable.
pub proof fn lemma_values_honest<F: TowerField>(
    f: spec_fn(Seq<F>) -> F,
    columns: nat,
    width: nat,
    message: spec_fn(Seq<Seq<F>>) -> Seq<F>,
)
    requires
        columns > 0,
        2 <= width <= u128::MAX,
        forall|t: Seq<Seq<F>>| #[trigger] message(t) == value_message(t, f, width),
        forall|t: Seq<Seq<F>>, n: nat, i: int|
            #![trigger tables_wf(t, n), slice_of(entry_of(t, f), i)]
            n > 0 && t.len() == columns && tables_wf(t, n) && 0 <= i < pow2((n - 1) as nat)
                ==> is_poly(slice_of(entry_of(t, f), i), width),
    ensures
        honest(f, columns, message, value_check(), value_eval()),
{
    let check = value_check::<F>();
    let eval = value_eval::<F>();
    assert forall|tables: Seq<Seq<F>>, n: nat|
        #![trigger tables_wf(tables, n), message(tables)]
        n > 0 && tables.len() == columns && tables_wf(tables, n) implies {
        &&& check(message(tables), total(tables, f, n))
        &&& forall|r: F|
            #[trigger] eval(message(tables), total(tables, f, n), r) == round_value(
                tables,
                f,
                n,
                r,
            )
    } by {
        let m = message(tables);
        lemma_half_pow2(n);
        assert(tables[0].len() == pow2(n));
        F::of_u128_units();
        lemma_round_sums(tables, f, n);
        assert(m[0] == round_value(tables, f, n, F::zero()));
        assert(m[1] == round_value(tables, f, n, F::one()));
        let g = |x: F| round_value(tables, f, n, x);
        let e = entry_of(tables, f);
        let h = pow2((n - 1) as nat);
        assert forall|i: int| 0 <= i < h implies is_poly(#[trigger] slice_of(e, i), width) by {
            assert(tables_wf(tables, n));
        }
        assert forall|x: F| #[trigger] g(x) == sum(h, |i: int| e(i, x)) by {
            lemma_sum_ext(
                h,
                |i: int| f(values_at(fold_tables(tables, x), i)),
                |i: int| e(i, x),
            );
        }
        lemma_poly_sum(h, e, g, width);
        lemma_small_points::<F>(width);
        let points = small_points::<F>(width);
        assert forall|k: int| 0 <= k < points.len() implies #[trigger] m[k] == g(points[k]) by {}
        assert forall|r: F|
            #[trigger] eval(m, total(tables, f, n), r) == round_value(tables, f, n, r) by {
            lemma_interpolate(g, points, m, r);
        }
    }
}

/// The summand at an index, as a function of the highest variable.
pub open spec fn entry_of<F: BinaryField>(
    tables: Seq<Seq<F>>,
    f: spec_fn(Seq<F>) -> F,
) -> spec_fn(int, F) -> F {
    |i: int, x: F| f(values_at(fold_tables(tables, x), i))
}

/// Each folded table is a line in the folded variable.
pub proof fn lemma_column_poly<F: BinaryField>(
    tables: Seq<Seq<F>>,
    n: nat,
    c: int,
    i: int,
    g: spec_fn(F) -> F,
)
    requires
        n > 0,
        tables_wf(tables, n),
        0 <= c < tables.len(),
        0 <= i < pow2((n - 1) as nat),
        forall|x: F| #[trigger] g(x) == values_at(fold_tables(tables, x), i)[c],
    ensures
        is_poly(g, 2),
{
    lemma_half_pow2(n);
    let t = tables[c];
    assert(t.len() == pow2(n));
    let h = pow2((n - 1) as nat);
    assert forall|x: F| #[trigger] g(x) == crate::mle::line(t[i], t[i + h], x) by {}
    lemma_poly_line(t[i], t[i + h], g);
}

/// A refused round ends the verifier's run.
pub proof fn lemma_refused<F: BinaryField, T: FiatShamir<F>>(
    claim: F,
    channel: T,
    messages: Seq<Seq<F>>,
    check: spec_fn(Seq<F>, F) -> bool,
    eval: spec_fn(Seq<F>, F, F) -> F,
    k: nat,
    n: nat,
)
    requires
        k <= n,
        !verifier_run(claim, channel, messages, check, eval, k).ok,
    ensures
        verifier_run(claim, channel, messages, check, eval, n) == verifier_run(
            claim,
            channel,
            messages,
            check,
            eval,
            k,
        ),
    decreases n,
{
    if k < n {
        lemma_refused(claim, channel, messages, check, eval, k, (n - 1) as nat);
    }
}

} // verus!
