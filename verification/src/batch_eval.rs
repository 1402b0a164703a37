//! Batch-evaluation sumcheck.
//!
//! Reduces claims `(r_i, v_i)` on the values of one multilinear polynomial `B`
//! to a single claim: with challenges `a_i` and `W(x) = sum_i a_i eq(r_i, x)`,
//! a sumcheck of degree two proves `sum_i a_i v_i = sum_x W(x) B(x)` and ends
//! in a claim on `B` at the point of its challenges.
use vstd::prelude::*;
use vstd::arithmetic::power2::pow2;
use crate::field::{BinaryField, TowerField, lemma_add_eq_zero, lemma_add_mul, lemma_mul_eq_zero};
use crate::interpolate::{interpolate, lagrange_at_small_points, small_points};
use crate::mle::{eq_at, eq_ind, eq_poly, eq_table, fold_highest_var, lemma_line_ends, lemma_mle_eq_table, lemma_mle_sum, mle, pow2_usize, scaled_eq_table};
use crate::poly::{is_poly, lemma_poly_mul, slice_of};
use crate::soundness::{fold_run, lemma_accepted_challenges, lemma_few_misleading_values, lemma_fold_run_end, lemma_fold_run_wf, lemma_sound, misled};
use crate::sum::{lemma_sum_add, lemma_sum_ext, lemma_sum_scale, lemma_sum_single, lemma_sum_swap, sum};
use crate::sumcheck::{ProverRun, VerifierRun, entry_of, fold_tables, honest, lemma_column_poly, lemma_complete, lemma_final_values, lemma_prover_run_shape, lemma_refused, lemma_total_one, lemma_values_honest, prover_run, round_value, tables_wf, total, value_check, value_eval, value_message, values_at, verifier_run};
use crate::table::{copied, reversed};
use crate::transcript::{FiatShamir, absorb_all, absorb_slice, challenges, lemma_absorb_all_add, lemma_challenges_len, squeeze_many, squeezed_by};

verus! {

/// One round, as the values of its polynomial at 0, 1 and 2.
#[derive(Clone, Copy, Debug, PartialEq, Eq, Structural)]
pub struct BatchEvalRound<F> {
    pub evals: [F; 3],
}

impl<F: TowerField> BatchEvalRound<F> {
    /// The value at zero plus the value at one.
    pub fn sum_at_0_plus_1(&self) -> (r: F)
        ensures
            r == self.evals[0].add(self.evals[1]),
    {
        self.evals[0].plus(self.evals[1])
    }

    /// The value at `r`.
    pub fn evaluate(&self, r: F) -> (v: F)
        ensures
            v == interpolate(small_points::<F>(3), self.evals@, r),
    {
        lagrange_at_0_1_2(&self.evals, r)
    }
}

/// The value at `r` of the quadratic through the given values at 0, 1 and 2.
pub fn lagrange_at_0_1_2<F: TowerField>(evals: &[F; 3], r: F) -> (v: F)
    ensures
        v == interpolate(small_points::<F>(3), evals@, r),
{
    lagrange_at_small_points(evals.as_slice(), r)
}

/// The claim that a multilinear polynomial has a value at a point.
#[derive(Clone, Debug, PartialEq, Eq)]
pub struct EvalClaim<F> {
    pub point: Vec<F>,
    pub value: F,
}

/// The rounds of the sumcheck and the reduced value.
#[derive(Clone, Debug, PartialEq, Eq)]
pub struct BatchEvalProof<F> {
    pub rounds: Vec<BatchEvalRound<F>>,
    pub b_final: F,
}

impl<F: TowerField> BatchEvalProof<F> {
    /// The size of the proof at 16 bytes a field element.
    pub fn byte_len(&self) -> (r: usize)
        requires
            self.rounds.len() * 48 + 16 <= usize::MAX,
        ensures
            r == self.rounds.len() * 48 + 16,
    {
        self.rounds.len() * 3 * 16 + 16
    }
}

/// The single claim that a batch reduces to.
#[derive(Clone, Debug, PartialEq, Eq)]
pub struct BatchEvalReduction<F> {
    pub point: Vec<F>,
    pub value: F,
}

/// The contents of an [`EvalClaim`].
pub struct ClaimView<F> {
    pub point: Seq<F>,
    pub value: F,
}

/// The contents of claims.
pub open spec fn claims_view<F>(claims: Seq<EvalClaim<F>>) -> Seq<ClaimView<F>> {
    Seq::new(claims.len(), |i: int| ClaimView { point: claims[i].point@, value: claims[i].value })
}

/// Every point of the claims has `n` coordinates.
pub open spec fn claims_wf<F>(claims: Seq<ClaimView<F>>, n: nat) -> bool {
    forall|i: int| 0 <= i < claims.len() ==> #[trigger] claims[i].point.len() == n
}

/// Every claim is true of the table.
pub open spec fn claims_hold<F: BinaryField>(claims: Seq<ClaimView<F>>, b: Seq<F>) -> bool {
    forall|i: int|
        0 <= i < claims.len() ==> #[trigger] claims[i].value == mle(b, claims[i].point)
}

/// What the transcript absorbs of the claims: each point, then its value.
pub open spec fn claim_elems<F>(claims: Seq<ClaimView<F>>) -> Seq<F>
    decreases claims.len(),
{
    if claims.len() == 0 {
        Seq::empty()
    } else {
        claim_elems(claims.drop_last()) + claims.last().point.push(claims.last().value)
    }
}

/// `sum_i a_i v_i`.
pub open spec fn combined_claim<F: BinaryField>(claims: Seq<ClaimView<F>>, alphas: Seq<F>) -> F {
    sum(claims.len(), |i: int| alphas[i].mul(claims[i].value))
}

/// The table of `W(x) = sum_i a_i eq(r_i, x)`.
pub open spec fn weight_table<F: BinaryField>(
    claims: Seq<ClaimView<F>>,
    alphas: Seq<F>,
    n: nat,
) -> Seq<F> {
    Seq::new(
        pow2(n),
        |x: int| sum(claims.len(), |i: int| alphas[i].mul(eq_at(claims[i].point, x))),
    )
}

/// `W` at a point.
pub open spec fn weight_at<F: BinaryField>(
    claims: Seq<ClaimView<F>>,
    alphas: Seq<F>,
    r: Seq<F>,
) -> F {
    sum(claims.len(), |i: int| alphas[i].mul(eq_poly(claims[i].point, r)))
}

/// The summand `W * B`.
pub open spec fn batch_term<F: BinaryField>() -> spec_fn(Seq<F>) -> F {
    |v: Seq<F>| v[0].mul(v[1])
}

/// What a round sends.
pub open spec fn batch_message<F: TowerField>() -> spec_fn(Seq<Seq<F>>) -> Seq<F> {
    |t: Seq<Seq<F>>| value_message(t, batch_term(), 3)
}

/// The challenges that combine the claims.
pub open spec fn batch_alphas<F: TowerField, T: FiatShamir<F>>(
    claims: Seq<ClaimView<F>>,
    channel: T,
) -> Seq<F> {
    challenges(absorb_all(channel, claim_elems(claims)), claims.len())
}

/// The transcript before the first round.
pub open spec fn batch_channel<F: TowerField, T: FiatShamir<F>>(
    claims: Seq<ClaimView<F>>,
    channel: T,
) -> T {
    squeezed_by(absorb_all(channel, claim_elems(claims)), claims.len())
}

/// The prover's run on a table `b` of `2^n` values.
pub open spec fn batch_run<F: TowerField, T: FiatShamir<F>>(
    b: Seq<F>,
    claims: Seq<ClaimView<F>>,
    n: nat,
    channel: T,
) -> ProverRun<F, T> {
    let w = weight_table(claims, batch_alphas(claims, channel), n);
    prover_run(seq![w, b], batch_channel(claims, channel), batch_message(), n)
}

/// The messages that the rounds of a proof carry.
pub open spec fn batch_messages<F>(rounds: Seq<BatchEvalRound<F>>) -> Seq<Seq<F>> {
    Seq::new(rounds.len(), |i: int| rounds[i].evals@)
}

/// The verifier's run over the rounds of a proof.
pub open spec fn batch_check_run<F: TowerField, T: FiatShamir<F>>(
    rounds: Seq<BatchEvalRound<F>>,
    claims: Seq<ClaimView<F>>,
    channel: T,
) -> VerifierRun<F, T> {
    verifier_run(
        combined_claim(claims, batch_alphas(claims, channel)),
        batch_channel(claims, channel),
        batch_messages(rounds),
        value_check(),
        value_eval(),
        rounds.len(),
    )
}

/// Whether the claims and the number of rounds fit `n` variables.
pub open spec fn batch_shape<F>(
    rounds: Seq<BatchEvalRound<F>>,
    claims: Seq<ClaimView<F>>,
    n: nat,
) -> bool {
    claims.len() > 0 && claims_wf(claims, n) && rounds.len() == n
}

/// Whether the verifier accepts.
pub open spec fn batch_accepts<F: TowerField, T: FiatShamir<F>>(
    rounds: Seq<BatchEvalRound<F>>,
    b_final: F,
    claims: Seq<ClaimView<F>>,
    n: nat,
    channel: T,
) -> bool {
    let run = batch_check_run(rounds, claims, channel);
    let alphas = batch_alphas(claims, channel);
    &&& batch_shape(rounds, claims, n)
    &&& run.ok
    &&& run.claim == weight_at(claims, alphas, run.challenges.reverse()).mul(b_final)
}

/// Absorbs every claim, point first.
pub(crate) fn absorb_claims<F: TowerField, T: FiatShamir<F>>(
    channel: &mut T,
    claims: &[EvalClaim<F>],
)
    ensures
        *final(channel) == absorb_all(*old(channel), claim_elems(claims_view(claims@))),
{
    let mut i: usize = 0;
    while i < claims.len()
        invariant
            i <= claims.len(),
            *channel == absorb_all(*old(channel), claim_elems(claims_view(claims@).take(i as int))),
        decreases claims.len() - i,
    {
        proof {
            let part = claims_view(claims@).take(i + 1);
            let point = claims@[i as int].point@;
            let value = claims@[i as int].value;
            assert(part.drop_last() =~= claims_view(claims@).take(i as int));
            assert(point.push(value).drop_last() =~= point);
            lemma_absorb_all_add(
                *old(channel),
                claim_elems(part.drop_last()),
                point.push(value),
            );
        }
        absorb_slice(channel, claims[i].point.as_slice());
        channel.absorb(claims[i].value);
        i += 1;
    }
    proof {
        assert(claims_view(claims@).take(claims@.len() as int) =~= claims_view(claims@));
    }
}

/// Draws one challenge for each of `m` claims.
pub(crate) fn squeeze_alphas<F: TowerField, T: FiatShamir<F>>(channel: &mut T, m: usize) -> (r: Vec<
    F,
>)
    ensures
        r@ == challenges(*old(channel), m as nat),
        r.len() == m,
        *final(channel) == squeezed_by(*old(channel), m as nat),
{
    proof {
        lemma_challenges_len(*channel, m as nat);
    }
    squeeze_many(channel, m)
}

/// Builds the table of `W`.
pub(crate) fn build_w_table<F: TowerField>(claims: &[EvalClaim<F>], alphas: &[F], n: usize) -> (w: Vec<F>)
    requires
        alphas.len() == claims.len(),
        claims_wf(claims_view(claims@), n as nat),
        pow2(n as nat) <= usize::MAX,
    ensures
        w@ == weight_table(claims_view(claims@), alphas@, n as nat),
{
    let len: usize = pow2_usize(n);
    let mut w: Vec<F> = Vec::new();
    let mut k: usize = 0;
    while k < len
        invariant
            k <= len,
            w.len() == k,
            forall|x: int| 0 <= x < k ==> #[trigger] w[x] == F::zero(),
        decreases len - k,
    {
        w.push(F::zero_value());
        k += 1;
    }
    let mut i: usize = 0;
    while i < claims.len()
        invariant
            i <= claims.len(),
            alphas.len() == claims.len(),
            claims_wf(claims_view(claims@), n as nat),
            pow2(n as nat) <= usize::MAX,
            len == pow2(n as nat),
            w.len() == len,
            forall|x: int|
                0 <= x < len ==> #[trigger] w[x] == sum(
                    i as nat,
                    |i: int| alphas@[i].mul(eq_at(claims_view(claims@)[i].point, x)),
                ),
        decreases claims.len() - i,
    {
        proof {
            assert(claims_view(claims@)[i as int].point.len() == n);
        }
        let t = scaled_eq_table(alphas[i], claims[i].point.as_slice());
        let ghost before = w@;
        let mut x: usize = 0;
        while x < len
            invariant
                x <= len,
                i < claims.len(),
                w.len() == len,
                t.len() == len,
                before.len() == len,
                forall|y: int| 0 <= y < x ==> #[trigger] w[y] == before[y].add(t[y]),
                forall|y: int| x <= y < len ==> #[trigger] w[y] == before[y],
            decreases len - x,
        {
            let e = w[x].plus(t[x]);
            w.set(x, e);
            x += 1;
        }
        proof {
            assert forall|x: int| 0 <= x < len implies #[trigger] w[x] == sum(
                (i + 1) as nat,
                |i: int| alphas@[i].mul(eq_at(claims_view(claims@)[i].point, x)),
            ) by {
                assert(w[x] == before[x].add(t[x]));
                assert(t[x] == alphas@[i as int].mul(eq_at(claims@[i as int].point@, x)));
            }
        }
        i += 1;
    }
    proof {
        assert(w@ =~= weight_table(claims_view(claims@), alphas@, n as nat));
    }
    w
}

/// Computes `sum_i a_i v_i`.
pub(crate) fn combine_values<F: TowerField>(claims: &[EvalClaim<F>], alphas: &[F]) -> (v: F)
    requires
        alphas.len() == claims.len(),
    ensures
        v == combined_claim(claims_view(claims@), alphas@),
{
    let ghost f = |i: int| alphas@[i].mul(claims_view(claims@)[i].value);
    let mut acc = F::zero_value();
    let mut i: usize = 0;
    while i < claims.len()
        invariant
            i <= claims.len(),
            alphas.len() == claims.len(),
            f == (|i: int| alphas@[i].mul(claims_view(claims@)[i].value)),
            acc == sum(i as nat, f),
        decreases claims.len() - i,
    {
        acc = acc.plus(alphas[i].times(claims[i].value));
        i += 1;
    }
    acc
}

/// Evaluates `W` at a point without its table.
pub(crate) fn evaluate_w_at<F: TowerField>(claims: &[EvalClaim<F>], alphas: &[F], r: &[F]) -> (v: F)
    requires
        alphas.len() == claims.len(),
        claims_wf(claims_view(claims@), r.len() as nat),
    ensures
        v == weight_at(claims_view(claims@), alphas@, r@),
{
    let ghost f = |i: int| alphas@[i].mul(eq_poly(claims_view(claims@)[i].point, r@));
    let mut acc = F::zero_value();
    let mut i: usize = 0;
    while i < claims.len()
        invariant
            i <= claims.len(),
            alphas.len() == claims.len(),
            claims_wf(claims_view(claims@), r.len() as nat),
            f == (|i: int| alphas@[i].mul(eq_poly(claims_view(claims@)[i].point, r@))),
            acc == sum(i as nat, f),
        decreases claims.len() - i,
    {
        proof {
            assert(claims_view(claims@)[i as int].point.len() == r.len());
        }
        acc = acc.plus(alphas[i].times(eq_ind(claims[i].point.as_slice(), r)));
        i += 1;
    }
    acc
}

/// The values at 0, 1 and 2 of the round polynomial.
pub(crate) fn eval_round_at_0_1_2<F: TowerField>(w: &[F], b: &[F], half: usize) -> (e: [F; 3])
    requires
        half == w.len() / 2,
        w.len() == b.len(),
    ensures
        e@ == batch_message::<F>()(seq![w@, b@]),
{
    let ghost tables = seq![w@, b@];
    let ghost f = batch_term::<F>();
    let ghost g0 = |i: int| f(values_at(fold_tables(tables, F::of_u128(0)), i));
    let ghost g1 = |i: int| f(values_at(fold_tables(tables, F::of_u128(1)), i));
    let ghost g2 = |i: int| f(values_at(fold_tables(tables, F::of_u128(2)), i));
    let f2 = F::from_u128(2);
    let mut e0 = F::zero_value();
    let mut e1 = F::zero_value();
    let mut e2 = F::zero_value();
    let mut j: usize = 0;
    while j < half
        invariant
            j <= half,
            half == w.len() / 2,
            w.len() == b.len(),
            tables == seq![w@, b@],
            f == batch_term::<F>(),
            f2 == F::of_u128(2),
            g0 == (|i: int| f(values_at(fold_tables(tables, F::of_u128(0)), i))),
            g1 == (|i: int| f(values_at(fold_tables(tables, F::of_u128(1)), i))),
            g2 == (|i: int| f(values_at(fold_tables(tables, F::of_u128(2)), i))),
            e0 == sum(j as nat, g0),
            e1 == sum(j as nat, g1),
            e2 == sum(j as nat, g2),
        decreases half - j,
    {
        let (w_lo, w_hi) = (w[j], w[j + half]);
        let (b_lo, b_hi) = (b[j], b[j + half]);
        let w2 = w_lo.plus(f2.times(w_lo.plus(w_hi)));
        let b2 = b_lo.plus(f2.times(b_lo.plus(b_hi)));
        proof {
            F::of_u128_units();
            lemma_line_ends(w_lo, w_hi);
            lemma_line_ends(b_lo, b_hi);
        }
        e0 = e0.plus(w_lo.times(b_lo));
        e1 = e1.plus(w_hi.times(b_hi));
        e2 = e2.plus(w2.times(b2));
        j += 1;
    }
    let e = [e0, e1, e2];
    proof {
        assert(e@ =~= batch_message::<F>()(tables));
    }
    e
}

/// Reduces the claims on the table `b` to one; returns the proof and the
/// reduced claim.
pub fn prove_batch_eval<F: TowerField, T: FiatShamir<F>>(
    b: &[F],
    claims: &[EvalClaim<F>],
    channel: &mut T,
) -> (out: (BatchEvalProof<F>, BatchEvalReduction<F>))
    requires
        claims.len() > 0,
        claims_wf(claims_view(claims@), claims[0].point.len() as nat),
        b.len() == pow2(claims[0].point.len() as nat),
    ensures
        ({
            let run = batch_run(b@, claims_view(claims@), claims[0].point.len() as nat, *old(channel));
            &&& batch_messages(out.0.rounds@) == run.messages
            &&& out.1.point@ == run.challenges.reverse()
            &&& out.1.value == mle(b@, out.1.point@)
            &&& out.0.b_final == out.1.value
            &&& *final(channel) == run.channel
        }),
{
    let n: usize = claims[0].point.len();
    absorb_claims(channel, claims);
    let alphas = squeeze_alphas(channel, claims.len());
    let mut w = build_w_table(claims, alphas.as_slice(), n);
    let mut b_tbl = copied(b);
    let mut rounds: Vec<BatchEvalRound<F>> = Vec::new();
    let mut drawn: Vec<F> = Vec::new();
    let ghost tables = seq![w@, b@];
    let ghost start = *channel;
    let ghost msg = batch_message::<F>();
    proof {
        assert(batch_messages(rounds@) =~= Seq::empty());
    }
    let mut round: usize = 0;
    while round < n
        invariant
            round <= n,
            tables_wf(tables, n as nat),
            tables.len() == 2,
            msg == batch_message::<F>(),
            ({
                let run = prover_run(tables, start, msg, round as nat);
                &&& run.tables == seq![w@, b_tbl@]
                &&& run.channel == *channel
                &&& run.messages == batch_messages(rounds@)
                &&& run.challenges == drawn@
            }),
        decreases n - round,
    {
        proof {
            lemma_prover_run_shape(tables, start, msg, n as nat, round as nat);
            let t = seq![w@, b_tbl@];
            assert(t[0].len() == t[1].len());
        }
        let half: usize = w.len() / 2;
        let evals = eval_round_at_0_1_2(w.as_slice(), b_tbl.as_slice(), half);
        let re = BatchEvalRound { evals };
        absorb_slice(channel, re.evals.as_slice());
        let r_i = channel.squeeze();
        let ghost before = seq![w@, b_tbl@];
        fold_highest_var(&mut w, r_i);
        fold_highest_var(&mut b_tbl, r_i);
        let ghost old_rounds = rounds@;
        rounds.push(re);
        drawn.push(r_i);
        proof {
            assert(seq![w@, b_tbl@] =~= fold_tables(before, r_i));
            assert(batch_messages(rounds@) =~= batch_messages(old_rounds).push(evals@));
        }
        round += 1;
    }
    proof {
        lemma_final_values(tables, start, msg, n as nat);
        let last = prover_run(tables, start, msg, n as nat).tables;
        assert(last[1][0] == mle(tables[1], drawn@.reverse()));
        vstd::arithmetic::power2::lemma2_to64();
        assert(last[1].len() == 1);
    }
    let point = reversed(drawn.as_slice());
    let value = b_tbl[0];
    (BatchEvalProof { rounds, b_final: value }, BatchEvalReduction { point, value })
}

/// Verifies a proof; on success returns the reduced claim, which the caller
/// still has to hold against the table.
pub fn verify_batch_eval<F: TowerField, T: FiatShamir<F>>(
    proof: &BatchEvalProof<F>,
    claims: &[EvalClaim<F>],
    n: usize,
    channel: &mut T,
) -> (out: Option<BatchEvalReduction<F>>)
    ensures
        out is Some <==> batch_accepts(
            proof.rounds@,
            proof.b_final,
            claims_view(claims@),
            n as nat,
            *old(channel),
        ),
        out matches Some(red) ==> {
            &&& red.point@ == batch_check_run(
                proof.rounds@,
                claims_view(claims@),
                *old(channel),
            ).challenges.reverse()
            &&& red.value == proof.b_final
        },
        *final(channel) == if batch_shape(proof.rounds@, claims_view(claims@), n as nat) {
            batch_check_run(proof.rounds@, claims_view(claims@), *old(channel)).channel
        } else {
            *old(channel)
        },
{
    if claims.len() == 0 {
        return None;
    }
    let mut c: usize = 0;
    while c < claims.len()
        invariant
            c <= claims.len(),
            *channel == *old(channel),
            forall|i: int|
                0 <= i < c ==> #[trigger] claims_view(claims@)[i].point.len() == n,
        decreases claims.len() - c,
    {
        if claims[c].point.len() != n {
            proof {
                assert(claims_view(claims@)[c as int].point.len() != n);
            }
            return None;
        }
        c += 1;
    }
    if proof.rounds.len() != n {
        return None;
    }
    absorb_claims(channel, claims);
    let alphas = squeeze_alphas(channel, claims.len());
    let ghost v = combined_claim(claims_view(claims@), alphas@);
    let mut claim = combine_values(claims, alphas.as_slice());
    let ghost start = *channel;
    let ghost msgs = batch_messages(proof.rounds@);
    let ghost check = value_check::<F>();
    let ghost eval = value_eval::<F>();
    let mut drawn: Vec<F> = Vec::new();
    let mut i: usize = 0;
    while i < n
        invariant
            i <= n,
            n == proof.rounds.len(),
            batch_shape(proof.rounds@, claims_view(claims@), n as nat),
            alphas@ == batch_alphas(claims_view(claims@), *old(channel)),
            alphas.len() == claims.len(),
            start == batch_channel(claims_view(claims@), *old(channel)),
            v == combined_claim(claims_view(claims@), alphas@),
            msgs == batch_messages(proof.rounds@),
            check == value_check::<F>(),
            eval == value_eval::<F>(),
            ({
                let run = verifier_run(v, start, msgs, check, eval, i as nat);
                &&& run.ok
                &&& run.claim == claim
                &&& run.channel == *channel
                &&& run.challenges == drawn@
                &&& drawn.len() == i
            }),
        decreases n - i,
    {
        let re = &proof.rounds[i];
        if !re.sum_at_0_plus_1().equals(claim) {
            proof {
                lemma_refused(v, start, msgs, check, eval, (i + 1) as nat, n as nat);
            }
            return None;
        }
        absorb_slice(channel, re.evals.as_slice());
        let r_i = channel.squeeze();
        claim = re.evaluate(r_i);
        drawn.push(r_i);
        i += 1;
    }
    let point = reversed(drawn.as_slice());
    let w_at = evaluate_w_at(claims, alphas.as_slice(), point.as_slice());
    if !claim.equals(w_at.times(proof.b_final)) {
        return None;
    }
    Some(BatchEvalReduction { point, value: proof.b_final })
}

/// Batch messages are honest.
pub proof fn lemma_batch_honest<F: TowerField>()
    ensures
        honest(batch_term::<F>(), 2, batch_message::<F>(), value_check(), value_eval()),
{
    let f = batch_term::<F>();
    assert forall|t: Seq<Seq<F>>, n: nat, i: int|
        #![trigger tables_wf(t, n), slice_of(entry_of(t, f), i)]
        n > 0 && t.len() == 2 && tables_wf(t, n) && 0 <= i < pow2((n - 1) as nat) implies is_poly(
        slice_of(entry_of(t, f), i),
        3,
    ) by {
        lemma_batch_entries(t, n, i);
    }
    lemma_values_honest(f, 2, 3, batch_message::<F>());
}

/// For true claims, `sum_i a_i v_i` is `sum_x W(x) B(x)`.
pub proof fn lemma_combined_claim<F: TowerField>(
    b: Seq<F>,
    claims: Seq<ClaimView<F>>,
    alphas: Seq<F>,
    n: nat,
)
    requires
        claims_wf(claims, n),
        claims_hold(claims, b),
        b.len() == pow2(n),
    ensures
        combined_claim(claims, alphas) == total(
            seq![weight_table(claims, alphas, n), b],
            batch_term(),
            n,
        ),
{
    let m = claims.len();
    let len = pow2(n);
    let w = weight_table(claims, alphas, n);
    let cell = |i: int, x: int| alphas[i].mul(eq_at(claims[i].point, x)).mul(b[x]);
    let by_claim = |i: int| sum(len, |x: int| cell(i, x));
    let left = |i: int| alphas[i].mul(claims[i].value);
    assert forall|i: int| 0 <= i < m implies #[trigger] left(i) == by_claim(i) by {
        let p = claims[i].point;
        assert(claims[i].point.len() == n);
        assert(claims[i].value == mle(b, p));
        lemma_mle_sum(b, p);
        let g = |x: int| eq_at(p, x).mul(b[x]);
        lemma_sum_scale(len, alphas[i], g);
        let h = |x: int| alphas[i].mul(g(x));
        let k = |x: int| cell(i, x);
        assert forall|x: int| 0 <= x < len implies #[trigger] h(x) == k(x) by {
            F::mul_assoc(alphas[i], eq_at(p, x), b[x]);
        }
        lemma_sum_ext(len, h, k);
    }
    lemma_sum_ext(m, left, by_claim);
    lemma_sum_swap(m, len, cell);
    let by_point = |x: int| sum(m, |i: int| cell(i, x));
    let f = batch_term::<F>();
    let tables = seq![w, b];
    let right = |x: int| f(values_at(tables, x));
    assert forall|x: int| 0 <= x < len implies #[trigger] by_point(x) == right(x) by {
        let e = |i: int| alphas[i].mul(eq_at(claims[i].point, x));
        lemma_sum_scale(m, b[x], e);
        F::mul_comm(b[x], sum(m, e));
        let scaled = |i: int| b[x].mul(e(i));
        let col = |i: int| cell(i, x);
        assert forall|i: int| 0 <= i < m implies #[trigger] scaled(i) == col(i) by {
            F::mul_comm(b[x], e(i));
        }
        lemma_sum_ext(m, scaled, col);
    }
    lemma_sum_ext(len, by_point, right);
}

/// The extension of the table of `W` is `W`.
pub proof fn lemma_weight_table<F: TowerField>(
    claims: Seq<ClaimView<F>>,
    alphas: Seq<F>,
    n: nat,
    r: Seq<F>,
)
    requires
        claims_wf(claims, n),
        r.len() == n,
    ensures
        mle(weight_table(claims, alphas, n), r) == weight_at(claims, alphas, r),
{
    let m = claims.len();
    let len = pow2(n);
    let w = weight_table(claims, alphas, n);
    lemma_mle_sum(w, r);
    let cell = |x: int, i: int| eq_at(r, x).mul(alphas[i].mul(eq_at(claims[i].point, x)));
    let by_point = |x: int| sum(m, |i: int| cell(x, i));
    let left = |x: int| eq_at(r, x).mul(w[x]);
    assert forall|x: int| 0 <= x < len implies #[trigger] left(x) == by_point(x) by {
        lemma_sum_scale(m, eq_at(r, x), |i: int| alphas[i].mul(eq_at(claims[i].point, x)));
        lemma_sum_ext(
            m,
            |i: int|
                eq_at(r, x).mul((|i: int| alphas[i].mul(eq_at(claims[i].point, x)))(i)),
            |i: int| cell(x, i),
        );
    }
    lemma_sum_ext(len, left, by_point);
    lemma_sum_swap(len, m, cell);
    let by_claim = |i: int| sum(len, |x: int| cell(x, i));
    let right = |i: int| alphas[i].mul(eq_poly(claims[i].point, r));
    assert forall|i: int| 0 <= i < m implies #[trigger] by_claim(i) == right(i) by {
        let p = claims[i].point;
        assert(claims[i].point.len() == n);
        let t = eq_table(p);
        lemma_mle_eq_table(p, r);
        lemma_mle_sum(t, r);
        let g = |x: int| eq_at(r, x).mul(t[x]);
        lemma_sum_scale(len, alphas[i], g);
        let h = |x: int| alphas[i].mul(g(x));
        let k = |x: int| cell(x, i);
        assert forall|x: int| 0 <= x < len implies #[trigger] h(x) == k(x) by {
            F::mul_assoc(alphas[i], eq_at(r, x), t[x]);
            F::mul_comm(alphas[i], eq_at(r, x));
            F::mul_assoc(eq_at(r, x), alphas[i], t[x]);
        }
        lemma_sum_ext(len, h, k);
    }
    lemma_sum_ext(m, by_claim, right);
}

/// Completeness: a verifier on the same transcript accepts what an honest
/// prover sends for true claims, and arrives at the prover's point and
/// transcript.
pub proof fn lemma_batch_complete<F: TowerField, T: FiatShamir<F>>(
    b: Seq<F>,
    claims: Seq<ClaimView<F>>,
    n: nat,
    rounds: Seq<BatchEvalRound<F>>,
    channel: T,
)
    requires
        claims.len() > 0,
        claims_wf(claims, n),
        claims_hold(claims, b),
        b.len() == pow2(n),
        batch_messages(rounds) == batch_run(b, claims, n, channel).messages,
    ensures
        ({
            let run = batch_run(b, claims, n, channel);
            let point = run.challenges.reverse();
            &&& batch_accepts(rounds, mle(b, point), claims, n, channel)
            &&& batch_check_run(rounds, claims, channel).challenges == run.challenges
            &&& batch_check_run(rounds, claims, channel).channel == run.channel
        }),
{
    let alphas = batch_alphas(claims, channel);
    let start = batch_channel(claims, channel);
    let w = weight_table(claims, alphas, n);
    let tables = seq![w, b];
    let f = batch_term::<F>();
    let msg = batch_message::<F>();
    let run = batch_run(b, claims, n, channel);
    let point = run.challenges.reverse();
    assert(tables_wf(tables, n));
    lemma_prover_run_shape(tables, start, msg, n, n);
    assert(batch_messages(rounds).len() == rounds.len());
    lemma_combined_claim(b, claims, alphas, n);
    lemma_batch_honest::<F>();
    lemma_complete(tables, start, f, msg, value_check(), value_eval(), n, n);
    lemma_final_values(tables, start, msg, n);
    lemma_total_one(run.tables, f);
    assert(run.tables[0][0] == mle(tables[0], point));
    assert(run.tables[1][0] == mle(tables[1], point));
    lemma_weight_table(claims, alphas, n, point);
}

/// The claims with the values that are true of the table.
pub open spec fn true_claims<F: BinaryField>(claims: Seq<ClaimView<F>>, b: Seq<F>) -> Seq<
    ClaimView<F>,
> {
    Seq::new(
        claims.len(),
        |i: int| ClaimView { point: claims[i].point, value: mle(b, claims[i].point) },
    )
}

/// The entries of the summand are polynomials of three coefficients.
proof fn lemma_batch_entries<F: TowerField>(t: Seq<Seq<F>>, n: nat, i: int)
    requires
        n > 0,
        t.len() == 2,
        tables_wf(t, n),
        0 <= i < pow2((n - 1) as nat),
    ensures
        is_poly(slice_of(entry_of(t, batch_term::<F>()), i), 3),
{
    let f = batch_term::<F>();
    let c0 = |x: F| values_at(fold_tables(t, x), i)[0];
    let c1 = |x: F| values_at(fold_tables(t, x), i)[1];
    lemma_column_poly(t, n, 0, i, c0);
    lemma_column_poly(t, n, 1, i, c1);
    lemma_poly_mul(c0, 2, c1, 2, slice_of(entry_of(t, f), i));
}

/// Whether the challenge of round `j` turned a false claim into a true one.
pub open spec fn batch_misled<F: TowerField, T: FiatShamir<F>>(
    b: Seq<F>,
    claims: Seq<ClaimView<F>>,
    n: nat,
    rounds: Seq<BatchEvalRound<F>>,
    channel: T,
    j: nat,
) -> bool {
    let alphas = batch_alphas(claims, channel);
    misled(
        seq![weight_table(claims, alphas, n), b],
        batch_term(),
        n,
        combined_claim(claims, alphas),
        batch_channel(claims, channel),
        batch_messages(rounds),
        value_check(),
        value_eval(),
        j,
    )
}

/// The weights do not depend on the values.
pub proof fn lemma_true_weights<F: TowerField>(
    b: Seq<F>,
    claims: Seq<ClaimView<F>>,
    alphas: Seq<F>,
    n: nat,
)
    ensures
        weight_table(true_claims(claims, b), alphas, n) == weight_table(claims, alphas, n),
{
    let truth = true_claims(claims, b);
    let (v, w) = (weight_table(truth, alphas, n), weight_table(claims, alphas, n));
    assert forall|x: int| 0 <= x < pow2(n) implies v[x] == w[x] by {
        lemma_sum_ext(
            claims.len(),
            |i: int| alphas[i].mul(eq_at(truth[i].point, x)),
            |i: int| alphas[i].mul(eq_at(claims[i].point, x)),
        );
    }
    assert(v =~= w);
}

/// Soundness: if a proof is accepted whose last value is true, then the
/// combination of the claims is that of the true values, or a challenge misled
/// the verifier in some round.
pub proof fn lemma_batch_sound<F: TowerField, T: FiatShamir<F>>(
    b: Seq<F>,
    claims: Seq<ClaimView<F>>,
    n: nat,
    rounds: Seq<BatchEvalRound<F>>,
    b_final: F,
    channel: T,
)
    requires
        b.len() == pow2(n),
        batch_accepts(rounds, b_final, claims, n, channel),
        b_final == mle(b, batch_check_run(rounds, claims, channel).challenges.reverse()),
    ensures
        ({
            let alphas = batch_alphas(claims, channel);
            let v = combined_claim(claims, alphas);
            ||| v == combined_claim(true_claims(claims, b), alphas)
            ||| exists|j: nat| j < n && #[trigger] batch_misled(b, claims, n, rounds, channel, j)
        }),
{
    let alphas = batch_alphas(claims, channel);
    let start = batch_channel(claims, channel);
    let v = combined_claim(claims, alphas);
    let w = weight_table(claims, alphas, n);
    let tables = seq![w, b];
    let f = batch_term::<F>();
    let msgs = batch_messages(rounds);
    let run = batch_check_run(rounds, claims, channel);
    let point = run.challenges.reverse();
    assert(tables_wf(tables, n));
    lemma_accepted_challenges(v, start, msgs, value_check(), value_eval(), n);
    let last = fold_run(tables, run.challenges);
    lemma_fold_run_wf(tables, n, run.challenges);
    lemma_fold_run_end(tables, run.challenges, 0);
    lemma_fold_run_end(tables, run.challenges, 1);
    lemma_total_one(last, f);
    lemma_weight_table(claims, alphas, n, point);
    lemma_sound(tables, f, n, v, start, msgs, value_check(), value_eval(), n);
    if v != total(tables, f, n) {
        let j = choose|j: nat|
            j < n && #[trigger] misled(
                tables,
                f,
                n,
                v,
                start,
                msgs,
                value_check(),
                value_eval(),
                j,
            );
        assert(batch_misled(b, claims, n, rounds, channel, j));
    }
    let truth = true_claims(claims, b);
    assert(claims_wf(truth, n)) by {
        assert forall|i: int| 0 <= i < truth.len() implies #[trigger] truth[i].point.len() == n by {
            assert(claims[i].point.len() == n);
        }
    }
    lemma_combined_claim(b, truth, alphas, n);
    lemma_true_weights(b, claims, alphas, n);
}

/// In a round of three values at most two challenges mislead.
pub proof fn lemma_batch_few_misleading<F: TowerField>(
    tables: Seq<Seq<F>>,
    n: nat,
    claim: F,
    message: Seq<F>,
    bad: Seq<F>,
)
    requires
        n > 0,
        tables.len() == 2,
        tables_wf(tables, n),
        message.len() == 3,
        value_check()(message, claim),
        claim != total(tables, batch_term(), n),
        bad.no_duplicates(),
        forall|k: int|
            0 <= k < bad.len() ==> value_eval()(message, claim, #[trigger] bad[k]) == round_value(
                tables,
                batch_term(),
                n,
                bad[k],
            ),
    ensures
        bad.len() <= 2,
{
    let f = batch_term::<F>();
    assert forall|i: int| 0 <= i < pow2((n - 1) as nat) implies is_poly(
        #[trigger] slice_of(entry_of(tables, f), i),
        3,
    ) by {
        lemma_batch_entries(tables, n, i);
    }
    lemma_few_misleading_values(tables, f, n, claim, message, bad);
}

/// A false claim shows in the combination: whatever the other challenges are,
/// at most one value of its own challenge hides it.
pub proof fn lemma_alpha_separates<F: TowerField>(
    b: Seq<F>,
    claims: Seq<ClaimView<F>>,
    alphas: Seq<F>,
    k: int,
    other: F,
)
    requires
        0 <= k < claims.len(),
        alphas.len() == claims.len(),
        claims[k].value != mle(b, claims[k].point),
        combined_claim(claims, alphas) == combined_claim(true_claims(claims, b), alphas),
        combined_claim(claims, alphas.update(k, other)) == combined_claim(
            true_claims(claims, b),
            alphas.update(k, other),
        ),
    ensures
        other == alphas[k],
{
    let m = claims.len();
    let truth = true_claims(claims, b);
    let betas = alphas.update(k, other);
    // The combination of the errors is zero for both.
    let err = |i: int| claims[i].value.add(truth[i].value);
    let ea = |i: int| alphas[i].mul(err(i));
    let eb = |i: int| betas[i].mul(err(i));
    lemma_error_sum(claims, truth, alphas, ea);
    lemma_error_sum(claims, truth, betas, eb);
    F::add_self(combined_claim(claims, alphas));
    F::add_self(combined_claim(claims, betas));
    let both = |i: int| ea(i).add(eb(i));
    lemma_sum_add(m, ea, eb);
    lemma_sum_ext(m, |i: int| ea(i).add(eb(i)), both);
    F::add_zero(F::zero());
    assert forall|i: int| 0 <= i < m && i != k implies #[trigger] both(i) == F::zero() by {
        F::add_self(ea(i));
    }
    lemma_sum_single(m, k, both);
    lemma_add_mul(alphas[k], other, err(k));
    lemma_mul_eq_zero(alphas[k].add(other), err(k));
    lemma_add_eq_zero(claims[k].value, truth[k].value);
    lemma_add_eq_zero(alphas[k], other);
}

/// The combination of the differences is the difference of the combinations.
proof fn lemma_error_sum<F: TowerField>(
    a: Seq<ClaimView<F>>,
    c: Seq<ClaimView<F>>,
    alphas: Seq<F>,
    e: spec_fn(int) -> F,
)
    requires
        a.len() == c.len(),
        forall|i: int|
            0 <= i < a.len() ==> #[trigger] e(i) == alphas[i].mul(a[i].value.add(c[i].value)),
    ensures
        sum(a.len(), e) == combined_claim(a, alphas).add(combined_claim(c, alphas)),
{
    let m = a.len();
    let f = |i: int| alphas[i].mul(a[i].value);
    let g = |i: int| alphas[i].mul(c[i].value);
    lemma_sum_add(m, f, g);
    let both = |i: int| f(i).add(g(i));
    assert forall|i: int| 0 <= i < m implies #[trigger] e(i) == both(i) by {
        F::mul_add(alphas[i], a[i].value, c[i].value);
    }
    lemma_sum_ext(m, e, both);
    lemma_sum_ext(m, f, |i: int| alphas[i].mul(a[i].value));
    lemma_sum_ext(m, g, |i: int| alphas[i].mul(c[i].value));
}

} // verus!
