//! The reduction of linear claims on one column to one claim.
//!
//! A linear claim says that a combination of values of the column, at several
//! points, is a given value. The claims themselves are bound to the transcript
//! by the caller; here only a tag is absorbed.
use vstd::prelude::*;
use vstd::arithmetic::power2::pow2;
use crate::batch_eval::{BatchEvalReduction, BatchEvalRound, ClaimView, EvalClaim, batch_message, batch_messages, batch_term, build_w_table, claims_view, claims_wf, eval_round_at_0_1_2, evaluate_w_at, lemma_batch_honest, lemma_combined_claim, lemma_weight_table, squeeze_alphas, weight_at, weight_table};
use crate::field::{BinaryField, TowerField};
use crate::mle::{fold_highest_var, mle};
use crate::sum::{lemma_sum_ext, lemma_sum_scale, lemma_sum_split, sum};
use crate::soundness::{lemma_accepted_challenges, lemma_sound_at_point, misled};
use crate::sumcheck::{ProverRun, VerifierRun, fold_tables, lemma_complete, lemma_final_values, lemma_prover_run_shape, lemma_refused, lemma_total_one, prover_run, tables_wf, total, value_check, value_eval, verifier_run};
use crate::table::{copied, reversed};
use crate::transcript::{FiatShamir, absorb_slice, challenges, squeezed_by};

verus! {

/// A value of the column and its coefficient.
#[derive(Clone, Debug, PartialEq, Eq)]
pub struct LinearEvalTerm<F> {
    pub point: Vec<F>,
    pub coeff: F,
}

/// The claim that a combination of values of the column is a value.
#[derive(Clone, Debug, PartialEq, Eq)]
pub struct LinearEvalClaim<F> {
    pub terms: Vec<LinearEvalTerm<F>>,
    pub value: F,
}

/// The rounds of the sumcheck, and the reduced value.
#[derive(Clone, Debug, PartialEq, Eq)]
pub struct LinearEvalProof<F> {
    pub rounds: Vec<BatchEvalRound<F>>,
    pub b_final: F,
}

impl<F: TowerField> LinearEvalProof<F> {
    /// The size in bytes: 16 a field element.
    pub fn byte_len(&self) -> (r: usize)
        requires
            self.rounds.len() * 48 + 16 <= usize::MAX,
        ensures
            r == self.rounds.len() * 48 + 16,
    {
        self.rounds.len() * 3 * 16 + 16
    }
}

/// The contents of a term.
pub struct TermView<F> {
    pub point: Seq<F>,
    pub coeff: F,
}

/// The contents of a claim.
pub struct LinearView<F> {
    pub terms: Seq<TermView<F>>,
    pub value: F,
}

/// The contents of terms.
pub open spec fn terms_view<F>(terms: Seq<LinearEvalTerm<F>>) -> Seq<TermView<F>> {
    Seq::new(terms.len(), |t: int| TermView { point: terms[t].point@, coeff: terms[t].coeff })
}

/// The contents of claims.
pub open spec fn linear_view<F>(claims: Seq<LinearEvalClaim<F>>) -> Seq<LinearView<F>> {
    Seq::new(
        claims.len(),
        |i: int| LinearView { terms: terms_view(claims[i].terms@), value: claims[i].value },
    )
}

/// Every point has `n` coordinates.
pub open spec fn linear_wf<F>(claims: Seq<LinearView<F>>, n: nat) -> bool {
    forall|i: int, t: int|
        0 <= i < claims.len() && 0 <= t < claims[i].terms.len()
            ==> #[trigger] claims[i].terms[t].point.len() == n
}

/// The combination of the values of a table that a claim is about.
pub open spec fn linear_value<F: BinaryField>(terms: Seq<TermView<F>>, b: Seq<F>) -> F {
    sum(terms.len(), |t: int| terms[t].coeff.mul(mle(b, terms[t].point)))
}

/// Every claim is true of the table.
pub open spec fn linear_hold<F: BinaryField>(claims: Seq<LinearView<F>>, b: Seq<F>) -> bool {
    forall|i: int|
        0 <= i < claims.len() ==> (#[trigger] claims[i]).value == linear_value(claims[i].terms, b)
}

/// All the terms of the first `k` claims, with the coefficient of a term times
/// the challenge of its claim.
pub open spec fn flat_terms<F: BinaryField>(
    claims: Seq<LinearView<F>>,
    alphas: Seq<F>,
    k: nat,
) -> Seq<TermView<F>>
    decreases k,
{
    if k == 0 {
        Seq::empty()
    } else {
        let terms = claims[k - 1].terms;
        flat_terms(claims, alphas, (k - 1) as nat) + Seq::new(
            terms.len(),
            |t: int|
                TermView {
                    point: terms[t].point,
                    coeff: alphas[k - 1].mul(terms[t].coeff),
                },
        )
    }
}

/// The points of terms, as claims of the value zero.
pub open spec fn term_points<F: BinaryField>(terms: Seq<TermView<F>>) -> Seq<ClaimView<F>> {
    Seq::new(terms.len(), |t: int| ClaimView { point: terms[t].point, value: F::zero() })
}

/// The coefficients of terms.
pub open spec fn term_coeffs<F>(terms: Seq<TermView<F>>) -> Seq<F> {
    Seq::new(terms.len(), |t: int| terms[t].coeff)
}

/// The weights that all the terms give the cells.
pub open spec fn linear_weights<F: BinaryField>(
    claims: Seq<LinearView<F>>,
    alphas: Seq<F>,
    n: nat,
) -> Seq<F> {
    let flat = flat_terms(claims, alphas, claims.len());
    weight_table(term_points(flat), term_coeffs(flat), n)
}

/// The weight at a point.
pub open spec fn linear_weight_at<F: BinaryField>(
    claims: Seq<LinearView<F>>,
    alphas: Seq<F>,
    r: Seq<F>,
) -> F {
    let flat = flat_terms(claims, alphas, claims.len());
    weight_at(term_points(flat), term_coeffs(flat), r)
}

/// The combination of the claimed values.
pub open spec fn linear_target<F: BinaryField>(claims: Seq<LinearView<F>>, alphas: Seq<F>) -> F {
    sum(claims.len(), |i: int| alphas[i].mul(claims[i].value))
}

/// The transcript after the tag.
pub open spec fn linear_bound<F: TowerField, T: FiatShamir<F>>(tag: u128, channel: T) -> T {
    channel.absorbed(F::of_u128(tag))
}

/// The challenges that combine the claims.
pub open spec fn linear_alphas<F: TowerField, T: FiatShamir<F>>(
    m: nat,
    tag: u128,
    channel: T,
) -> Seq<F> {
    challenges(linear_bound(tag, channel), m)
}

/// The prover's run.
pub open spec fn linear_run<F: TowerField, T: FiatShamir<F>>(
    b: Seq<F>,
    claims: Seq<LinearView<F>>,
    n: nat,
    tag: u128,
    channel: T,
) -> ProverRun<F, T> {
    let w = linear_weights(claims, linear_alphas(claims.len(), tag, channel), n);
    prover_run(
        seq![w, b],
        squeezed_by(linear_bound(tag, channel), claims.len()),
        batch_message(),
        n,
    )
}

/// The verifier's run.
pub open spec fn linear_check_run<F: TowerField, T: FiatShamir<F>>(
    rounds: Seq<BatchEvalRound<F>>,
    claims: Seq<LinearView<F>>,
    tag: u128,
    channel: T,
) -> VerifierRun<F, T> {
    verifier_run(
        linear_target(claims, linear_alphas(claims.len(), tag, channel)),
        squeezed_by(linear_bound(tag, channel), claims.len()),
        batch_messages(rounds),
        value_check(),
        value_eval(),
        rounds.len(),
    )
}

/// Whether the verifier accepts.
pub open spec fn linear_accepts<F: TowerField, T: FiatShamir<F>>(
    rounds: Seq<BatchEvalRound<F>>,
    b_final: F,
    claims: Seq<LinearView<F>>,
    n: nat,
    tag: u128,
    channel: T,
) -> bool {
    let run = linear_check_run(rounds, claims, tag, channel);
    let alphas = linear_alphas(claims.len(), tag, channel);
    &&& linear_wf(claims, n)
    &&& rounds.len() == n
    &&& run.ok
    &&& run.claim == linear_weight_at(claims, alphas, run.challenges.reverse()).mul(b_final)
}

/// The transcript after verification.
pub open spec fn linear_after<F: TowerField, T: FiatShamir<F>>(
    rounds: Seq<BatchEvalRound<F>>,
    claims: Seq<LinearView<F>>,
    n: nat,
    tag: u128,
    channel: T,
) -> T {
    if linear_wf(claims, n) && rounds.len() == n {
        linear_check_run(rounds, claims, tag, channel).channel
    } else {
        channel
    }
}

/// All the terms as claims, and their coefficients.
fn flatten<F: TowerField>(claims: &[LinearEvalClaim<F>], alphas: &[F]) -> (r: (
    Vec<EvalClaim<F>>,
    Vec<F>,
))
    requires
        alphas.len() == claims.len(),
    ensures
        ({
            let flat = flat_terms(linear_view(claims@), alphas@, claims.len() as nat);
            &&& claims_view(r.0@) == term_points(flat)
            &&& r.1@ == term_coeffs(flat)
        }),
        r.0.len() == r.1.len(),
{
    let mut points: Vec<EvalClaim<F>> = Vec::new();
    let mut coeffs: Vec<F> = Vec::new();
    let ghost views = linear_view(claims@);
    let mut i: usize = 0;
    proof {
        assert(claims_view(points@) =~= term_points(flat_terms(views, alphas@, 0)));
        assert(coeffs@ =~= term_coeffs(flat_terms(views, alphas@, 0)));
    }
    while i < claims.len()
        invariant
            i <= claims.len(),
            alphas.len() == claims.len(),
            views == linear_view(claims@),
            claims_view(points@) == term_points(flat_terms(views, alphas@, i as nat)),
            coeffs@ == term_coeffs(flat_terms(views, alphas@, i as nat)),
            points.len() == coeffs.len(),
        decreases claims.len() - i,
    {
        let ghost before = flat_terms(views, alphas@, i as nat);
        let ghost terms = views[i as int].terms;
        let ghost part = Seq::new(
            terms.len(),
            |t: int|
                TermView {
                    point: terms[t].point,
                    coeff: alphas@[i as int].mul(terms[t].coeff),
                },
        );
        let mut t: usize = 0;
        proof {
            assert(before + part.take(0) =~= before);
        }
        while t < claims[i].terms.len()
            invariant
                t <= claims[i as int].terms.len(),
                i < claims.len(),
                alphas.len() == claims.len(),
                terms == terms_view(claims@[i as int].terms@),
                part == Seq::new(
                    terms.len(),
                    |t: int|
                        TermView {
                            point: terms[t].point,
                            coeff: alphas@[i as int].mul(terms[t].coeff),
                        },
                ),
                claims_view(points@) == term_points(before + part.take(t as int)),
                coeffs@ == term_coeffs(before + part.take(t as int)),
                points.len() == coeffs.len(),
            decreases claims[i as int].terms.len() - t,
        {
            let term = &claims[i].terms[t];
            let ghost old_points = points@;
            points.push(
                EvalClaim { point: copied(term.point.as_slice()), value: F::zero_value() },
            );
            coeffs.push(alphas[i].times(term.coeff));
            proof {
                let next = before + part.take(t + 1);
                assert(next =~= (before + part.take(t as int)).push(part[t as int]));
                assert(claims_view(points@) =~= claims_view(old_points).push(
                    ClaimView { point: part[t as int].point, value: F::zero() },
                ));
                assert(claims_view(points@) =~= term_points(next));
                assert(coeffs@ =~= term_coeffs(next));
            }
            t += 1;
        }
        proof {
            assert(part.take(part.len() as int) =~= part);
            assert(before + part =~= flat_terms(views, alphas@, (i + 1) as nat));
        }
        i += 1;
    }
    (points, coeffs)
}

/// All the points of the terms of well-formed claims have `n` coordinates.
proof fn lemma_flat_wf<F: BinaryField>(
    claims: Seq<LinearView<F>>,
    alphas: Seq<F>,
    n: nat,
    k: nat,
)
    requires
        linear_wf(claims, n),
        k <= claims.len(),
    ensures
        claims_wf(term_points(flat_terms(claims, alphas, k)), n),
    decreases k,
{
    if k > 0 {
        lemma_flat_wf(claims, alphas, n, (k - 1) as nat);
        let front = flat_terms(claims, alphas, (k - 1) as nat);
        let flat = flat_terms(claims, alphas, k);
        let points = term_points(flat);
        assert forall|j: int| 0 <= j < points.len() implies (#[trigger] points[j]).point.len()
            == n by {
            if j < front.len() {
                assert(term_points(front)[j].point.len() == n);
            } else {
                assert(claims[k - 1].terms[j - front.len()].point.len() == n);
            }
        }
    }
}

/// Whether all the points have `n` coordinates.
fn check_linear_wf<F: TowerField>(claims: &[LinearEvalClaim<F>], n: usize) -> (r: bool)
    ensures
        r == linear_wf(linear_view(claims@), n as nat),
{
    let ghost views = linear_view(claims@);
    let mut i: usize = 0;
    while i < claims.len()
        invariant
            i <= claims.len(),
            views == linear_view(claims@),
            forall|j: int, t: int|
                0 <= j < i && 0 <= t < views[j].terms.len()
                    ==> #[trigger] views[j].terms[t].point.len() == n,
        decreases claims.len() - i,
    {
        let mut t: usize = 0;
        while t < claims[i].terms.len()
            invariant
                i < claims.len(),
                t <= claims[i as int].terms.len(),
                views == linear_view(claims@),
                forall|u: int|
                    0 <= u < t ==> #[trigger] views[i as int].terms[u].point.len() == n,
            decreases claims[i as int].terms.len() - t,
        {
            proof {
                assert(views[i as int].terms[t as int].point
                    == claims@[i as int].terms@[t as int].point@);
            }
            if claims[i].terms[t].point.len() != n {
                proof {
                    assert(views[i as int].terms[t as int].point.len() != n);
                }
                return false;
            }
            t += 1;
        }
        i += 1;
    }
    true
}

/// The combination of the claimed values.
fn combine_targets<F: TowerField>(claims: &[LinearEvalClaim<F>], alphas: &[F]) -> (v: F)
    requires
        alphas.len() == claims.len(),
    ensures
        v == linear_target(linear_view(claims@), alphas@),
{
    let ghost f = |i: int| alphas@[i].mul(linear_view(claims@)[i].value);
    let mut acc = F::zero_value();
    let mut i: usize = 0;
    while i < claims.len()
        invariant
            i <= claims.len(),
            alphas.len() == claims.len(),
            f == (|i: int| alphas@[i].mul(linear_view(claims@)[i].value)),
            acc == sum(i as nat, f),
        decreases claims.len() - i,
    {
        acc = acc.plus(alphas[i].times(claims[i].value));
        i += 1;
    }
    acc
}

/// Reduces linear claims on a column to one; returns the proof and the reduced
/// claim.
pub fn prove_linear_eval_prebound<F: TowerField, T: FiatShamir<F>>(
    b: &[F],
    claims: &[LinearEvalClaim<F>],
    relation_tag: u128,
    n: usize,
    channel: &mut T,
) -> (out: (LinearEvalProof<F>, BatchEvalReduction<F>))
    requires
        b.len() == pow2(n as nat),
        linear_wf(linear_view(claims@), n as nat),
    ensures
        ({
            let run = linear_run(
                b@,
                linear_view(claims@),
                n as nat,
                relation_tag,
                *old(channel),
            );
            &&& batch_messages(out.0.rounds@) == run.messages
            &&& out.1.point@ == run.challenges.reverse()
            &&& out.1.value == mle(b@, out.1.point@)
            &&& out.0.b_final == out.1.value
            &&& *final(channel) == run.channel
        }),
        out.1.point.len() == n,
{
    channel.absorb(F::from_u128(relation_tag));
    let alphas = squeeze_alphas(channel, claims.len());
    let (points, coeffs) = flatten(claims, alphas.as_slice());
    proof {
        lemma_flat_wf(linear_view(claims@), alphas@, n as nat, claims@.len());
    }
    let mut w = build_w_table(points.as_slice(), coeffs.as_slice(), n);
    let mut b_tbl = copied(b);
    let mut rounds: Vec<BatchEvalRound<F>> = Vec::new();
    let mut drawn: Vec<F> = Vec::new();
    let ghost tables = seq![w@, b@];
    let ghost start = *channel;
    let ghost msg = batch_message::<F>();
    proof {
        assert(batch_messages(rounds@) =~= Seq::empty());
    }
    let mut round: usize = 0;
    while round < n
        invariant
            round <= n,
            tables_wf(tables, n as nat),
            tables.len() == 2,
            msg == batch_message::<F>(),
            ({
                let run = prover_run(tables, start, msg, round as nat);
                &&& run.tables == seq![w@, b_tbl@]
                &&& run.channel == *channel
                &&& run.messages == batch_messages(rounds@)
                &&& run.challenges == drawn@
            }),
        decreases n - round,
    {
        proof {
            lemma_prover_run_shape(tables, start, msg, n as nat, round as nat);
            let t = seq![w@, b_tbl@];
            assert(t[0].len() == t[1].len());
        }
        let half: usize = w.len() / 2;
        let evals = eval_round_at_0_1_2(w.as_slice(), b_tbl.as_slice(), half);
        let re = BatchEvalRound { evals };
        absorb_slice(channel, re.evals.as_slice());
        let r_i = channel.squeeze();
        let ghost before = seq![w@, b_tbl@];
        fold_highest_var(&mut w, r_i);
        fold_highest_var(&mut b_tbl, r_i);
        let ghost old_rounds = rounds@;
        rounds.push(re);
        drawn.push(r_i);
        proof {
            assert(seq![w@, b_tbl@] =~= fold_tables(before, r_i));
            assert(batch_messages(rounds@) =~= batch_messages(old_rounds).push(evals@));
        }
        round += 1;
    }
    proof {
        lemma_final_values(tables, start, msg, n as nat);
        lemma_prover_run_shape(tables, start, msg, n as nat, n as nat);
        let last = prover_run(tables, start, msg, n as nat).tables;
        assert(last[1][0] == mle(tables[1], drawn@.reverse()));
        vstd::arithmetic::power2::lemma2_to64();
        assert(last[1].len() == 1);
    }
    let point = reversed(drawn.as_slice());
    let value = b_tbl[0];
    (LinearEvalProof { rounds, b_final: value }, BatchEvalReduction { point, value })
}

/// Verifies the reduction of linear claims; on success returns the reduced
/// claim.
pub fn verify_linear_eval_prebound<F: TowerField, T: FiatShamir<F>>(
    proof: &LinearEvalProof<F>,
    claims: &[LinearEvalClaim<F>],
    n: usize,
    relation_tag: u128,
    channel: &mut T,
) -> (out: Option<BatchEvalReduction<F>>)
    ensures
        out is Some <==> linear_accepts(
            proof.rounds@,
            proof.b_final,
            linear_view(claims@),
            n as nat,
            relation_tag,
            *old(channel),
        ),
        out matches Some(red) ==> {
            &&& red.point@ == linear_check_run(
                proof.rounds@,
                linear_view(claims@),
                relation_tag,
                *old(channel),
            ).challenges.reverse()
            &&& red.point.len() == n
            &&& red.value == proof.b_final
        },
        *final(channel) == linear_after(
            proof.rounds@,
            linear_view(claims@),
            n as nat,
            relation_tag,
            *old(channel),
        ),
{
    if !check_linear_wf(claims, n) || proof.rounds.len() != n {
        return None;
    }
    channel.absorb(F::from_u128(relation_tag));
    let alphas = squeeze_alphas(channel, claims.len());
    let ghost views = linear_view(claims@);
    let ghost v = linear_target(views, alphas@);
    let mut claim = combine_targets(claims, alphas.as_slice());
    let ghost start = *channel;
    let ghost msgs = batch_messages(proof.rounds@);
    let ghost check = value_check::<F>();
    let ghost eval = value_eval::<F>();
    let mut drawn: Vec<F> = Vec::new();
    let mut i: usize = 0;
    while i < n
        invariant
            i <= n,
            n == proof.rounds.len(),
            views == linear_view(claims@),
            linear_wf(views, n as nat),
            alphas@ == linear_alphas(claims@.len(), relation_tag, *old(channel)),
            alphas.len() == claims.len(),
            start == squeezed_by(linear_bound(relation_tag, *old(channel)), claims@.len()),
            v == linear_target(views, alphas@),
            msgs == batch_messages(proof.rounds@),
            check == value_check::<F>(),
            eval == value_eval::<F>(),
            ({
                let run = verifier_run(v, start, msgs, check, eval, i as nat);
                &&& run.ok
                &&& run.claim == claim
                &&& run.channel == *channel
                &&& run.challenges == drawn@
                &&& drawn.len() == i
            }),
        decreases n - i,
    {
        let re = &proof.rounds[i];
        if !re.sum_at_0_plus_1().equals(claim) {
            proof {
                lemma_refused(v, start, msgs, check, eval, (i + 1) as nat, n as nat);
            }
            return None;
        }
        absorb_slice(channel, re.evals.as_slice());
        let r_i = channel.squeeze();
        claim = re.evaluate(r_i);
        drawn.push(r_i);
        i += 1;
    }
    let point = reversed(drawn.as_slice());
    let (points, coeffs) = flatten(claims, alphas.as_slice());
    proof {
        lemma_flat_wf(views, alphas@, n as nat, claims@.len());
    }
    let w_at = evaluate_w_at(points.as_slice(), coeffs.as_slice(), point.as_slice());
    if !claim.equals(w_at.times(proof.b_final)) {
        return None;
    }
    Some(BatchEvalReduction { point, value: proof.b_final })
}

/// The combination of the values that the flat terms are about.
proof fn lemma_flat_sum<F: TowerField>(
    claims: Seq<LinearView<F>>,
    alphas: Seq<F>,
    b: Seq<F>,
    k: nat,
)
    requires
        k <= claims.len(),
        linear_hold(claims, b),
    ensures
        ({
            let flat = flat_terms(claims, alphas, k);
            sum(flat.len(), |j: int| flat[j].coeff.mul(mle(b, flat[j].point))) == sum(
                k,
                |i: int| alphas[i].mul(claims[i].value),
            )
        }),
    decreases k,
{
    let flat = flat_terms(claims, alphas, k);
    let f = |j: int| flat[j].coeff.mul(mle(b, flat[j].point));
    if k > 0 {
        let i = k - 1;
        lemma_flat_sum(claims, alphas, b, i as nat);
        let front = flat_terms(claims, alphas, i as nat);
        let g = |j: int| front[j].coeff.mul(mle(b, front[j].point));
        let terms = claims[i].terms;
        let m = front.len();
        lemma_sum_split(m, terms.len(), f);
        assert forall|j: int| 0 <= j < m implies #[trigger] f(j) == g(j) by {
            assert(flat[j] == front[j]);
        }
        lemma_sum_ext(m, f, g);
        let h = |t: int| terms[t].coeff.mul(mle(b, terms[t].point));
        lemma_sum_scale(terms.len(), alphas[i], h);
        let left = |t: int| f(m + t);
        let right = |t: int| alphas[i].mul(h(t));
        assert forall|t: int| 0 <= t < terms.len() implies #[trigger] left(t) == right(t) by {
            F::mul_assoc(alphas[i], terms[t].coeff, mle(b, terms[t].point));
        }
        lemma_sum_ext(terms.len(), left, right);
        assert(claims[i].value == linear_value(terms, b));
        lemma_sum_ext(terms.len(), h, |t: int| terms[t].coeff.mul(mle(b, terms[t].point)));
    }
}

/// For true claims the target is the weighted sum over the cells.
proof fn lemma_linear_total<F: TowerField>(
    b: Seq<F>,
    claims: Seq<LinearView<F>>,
    alphas: Seq<F>,
    n: nat,
)
    requires
        b.len() == pow2(n),
        linear_wf(claims, n),
        linear_hold(claims, b),
    ensures
        linear_target(claims, alphas) == total(
            seq![linear_weights(claims, alphas, n), b],
            batch_term(),
            n,
        ),
{
    let flat = flat_terms(claims, alphas, claims.len());
    let coeffs = term_coeffs(flat);
    let w = linear_weights(claims, alphas, n);
    lemma_flat_wf(claims, alphas, n, claims.len());
    // The flat terms with their true values.
    let truth = Seq::new(
        flat.len(),
        |t: int| ClaimView { point: flat[t].point, value: mle(b, flat[t].point) },
    );
    assert forall|t: int| 0 <= t < truth.len() implies (#[trigger] truth[t]).point.len() == n by {
        assert(term_points(flat)[t].point.len() == n);
    }
    lemma_combined_claim(b, truth, coeffs, n);
    assert(weight_table(truth, coeffs, n) =~= w) by {
        assert forall|x: int| 0 <= x < pow2(n) implies weight_table(truth, coeffs, n)[x]
            == w[x] by {
            lemma_sum_ext(
                flat.len(),
                |i: int| coeffs[i].mul(crate::mle::eq_at(truth[i].point, x)),
                |i: int| coeffs[i].mul(crate::mle::eq_at(term_points(flat)[i].point, x)),
            );
        }
    }
    lemma_flat_sum(claims, alphas, b, claims.len());
    lemma_sum_ext(
        flat.len(),
        |j: int| flat[j].coeff.mul(mle(b, flat[j].point)),
        |j: int| coeffs[j].mul(truth[j].value),
    );
}

/// The claims with the values that are true of the table.
pub open spec fn true_linear<F: BinaryField>(claims: Seq<LinearView<F>>, b: Seq<F>) -> Seq<
    LinearView<F>,
> {
    Seq::new(
        claims.len(),
        |i: int| LinearView { terms: claims[i].terms, value: linear_value(claims[i].terms, b) },
    )
}

/// The terms do not depend on the values.
proof fn lemma_true_terms<F: TowerField>(
    b: Seq<F>,
    claims: Seq<LinearView<F>>,
    alphas: Seq<F>,
    k: nat,
)
    requires
        k <= claims.len(),
    ensures
        flat_terms(true_linear(claims, b), alphas, k) == flat_terms(claims, alphas, k),
    decreases k,
{
    if k > 0 {
        lemma_true_terms(b, claims, alphas, (k - 1) as nat);
        assert(true_linear(claims, b)[k - 1].terms == claims[k - 1].terms);
    }
}

/// Whether the challenge of round `j` turned a false claim into a true one.
pub open spec fn linear_misled<F: TowerField, T: FiatShamir<F>>(
    b: Seq<F>,
    claims: Seq<LinearView<F>>,
    n: nat,
    tag: u128,
    rounds: Seq<BatchEvalRound<F>>,
    channel: T,
    j: nat,
) -> bool {
    let alphas = linear_alphas(claims.len(), tag, channel);
    misled(
        seq![linear_weights(claims, alphas, n), b],
        batch_term(),
        n,
        linear_target(claims, alphas),
        squeezed_by(linear_bound(tag, channel), claims.len()),
        batch_messages(rounds),
        value_check(),
        value_eval(),
        j,
    )
}

/// Soundness: if a proof is accepted whose last value is true, then the
/// combination of the claims is that of the true values, or a challenge misled
/// the verifier in some round.
pub proof fn lemma_linear_sound<F: TowerField, T: FiatShamir<F>>(
    b: Seq<F>,
    claims: Seq<LinearView<F>>,
    n: nat,
    tag: u128,
    rounds: Seq<BatchEvalRound<F>>,
    channel: T,
)
    requires
        b.len() == pow2(n),
        linear_accepts(
            rounds,
            mle(b, linear_check_run(rounds, claims, tag, channel).challenges.reverse()),
            claims,
            n,
            tag,
            channel,
        ),
    ensures
        ({
            let alphas = linear_alphas(claims.len(), tag, channel);
            ||| linear_target(claims, alphas) == linear_target(true_linear(claims, b), alphas)
            ||| exists|j: nat|
                j < n && #[trigger] linear_misled(b, claims, n, tag, rounds, channel, j)
        }),
{
    let alphas = linear_alphas(claims.len(), tag, channel);
    let start = squeezed_by(linear_bound(tag, channel), claims.len());
    let flat = flat_terms(claims, alphas, claims.len());
    let w = linear_weights(claims, alphas, n);
    let tables = seq![w, b];
    let f = batch_term::<F>();
    let v = linear_target(claims, alphas);
    let msgs = batch_messages(rounds);
    let run = linear_check_run(rounds, claims, tag, channel);
    let point = run.challenges.reverse();
    assert(tables_wf(tables, n));
    lemma_accepted_challenges(v, start, msgs, value_check(), value_eval(), n);
    lemma_flat_wf(claims, alphas, n, claims.len());
    lemma_weight_table(term_points(flat), term_coeffs(flat), n, point);
    let truth = true_linear(claims, b);
    assert(linear_wf(truth, n)) by {
        assert forall|i: int, t: int|
            0 <= i < truth.len() && 0 <= t < truth[i].terms.len() implies
            #[trigger] truth[i].terms[t].point.len() == n by {
            assert(claims[i].terms[t].point.len() == n);
        }
    }
    lemma_linear_total(b, truth, alphas, n);
    lemma_true_terms(b, claims, alphas, claims.len());
    let finals = Seq::new(tables.len(), |c: int| mle(tables[c], point));
    assert(finals[0] == mle(w, point) && finals[1] == mle(b, point));
    lemma_sound_at_point(tables, f, n, v, start, msgs, value_check(), value_eval());
    if v != total(tables, f, n) {
        let j = choose|j: nat|
            j < n && #[trigger] misled(
                tables,
                f,
                n,
                v,
                start,
                msgs,
                value_check(),
                value_eval(),
                j,
            );
        assert(linear_misled(b, claims, n, tag, rounds, channel, j));
    }
}

/// Completeness: for true claims the verifier accepts the honest proof, and
/// arrives at the prover's point and transcript.
pub proof fn lemma_linear_complete<F: TowerField, T: FiatShamir<F>>(
    b: Seq<F>,
    claims: Seq<LinearView<F>>,
    n: nat,
    tag: u128,
    rounds: Seq<BatchEvalRound<F>>,
    channel: T,
)
    requires
        b.len() == pow2(n),
        linear_wf(claims, n),
        linear_hold(claims, b),
        batch_messages(rounds) == linear_run(b, claims, n, tag, channel).messages,
    ensures
        ({
            let run = linear_run(b, claims, n, tag, channel);
            let point = run.challenges.reverse();
            let check = linear_check_run(rounds, claims, tag, channel);
            &&& linear_accepts(rounds, mle(b, point), claims, n, tag, channel)
            &&& check.challenges == run.challenges
            &&& check.channel == run.channel
            &&& run.challenges.len() == n
        }),
{
    let alphas = linear_alphas(claims.len(), tag, channel);
    let start = squeezed_by(linear_bound(tag, channel), claims.len());
    let flat = flat_terms(claims, alphas, claims.len());
    let coeffs = term_coeffs(flat);
    let w = linear_weights(claims, alphas, n);
    let tables = seq![w, b];
    let f = batch_term::<F>();
    let msg = batch_message::<F>();
    let run = linear_run(b, claims, n, tag, channel);
    let point = run.challenges.reverse();
    assert(tables_wf(tables, n));
    lemma_prover_run_shape(tables, start, msg, n, n);
    assert(batch_messages(rounds).len() == rounds.len());
    lemma_flat_wf(claims, alphas, n, claims.len());
    lemma_linear_total(b, claims, alphas, n);
    lemma_batch_honest::<F>();
    lemma_complete(tables, start, f, msg, value_check(), value_eval(), n, n);
    lemma_final_values(tables, start, msg, n);
    lemma_total_one(run.tables, f);
    assert(run.tables[0][0] == mle(tables[0], point));
    assert(run.tables[1][0] == mle(tables[1], point));
    lemma_weight_table(term_points(flat), coeffs, n, point);
}

} // verus!
