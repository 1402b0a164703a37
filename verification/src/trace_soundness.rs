//! What an accepted proof says of the columns of a trace.
//!
//! A verifier ends with claims on the columns. Where these are true, the pins and
//! links that the proof started from are true as well and the columns meet the
//! identity of the permutations, unless a challenge fooled the verifier.
use vstd::prelude::*;
use vstd::arithmetic::power2::pow2;
use crate::auth_unified_v2::{AuthKillShotProof, lemma_shift_sound, lemma_unified_sound, shift_claim, shifted_values, true_shifted, unified_beta, unified_check_run, unified_claims, unified_claims_hold, unified_gamma, unified_rho, unified_start};
use crate::batch_eval::{BatchEvalProof, ClaimView, batch_alphas, batch_misled, claims_hold, combined_claim, lemma_batch_sound, true_claims};
use crate::field::TowerField;
use crate::killshot::{TraceProofKillShot, batch_after, kill_verdict, pair_verdict, sin_claims, sout_claims, state_claims};
use crate::layers::PermParams;
use crate::linear_eval::{LinearEvalProof, LinearView, lemma_linear_sound, linear_after, linear_alphas, linear_check_run, linear_hold, linear_misled, linear_target, true_linear};
use crate::linked_killshot::{linked_groups, linked_verdict};
use crate::mle::mle;
use crate::multi_batch::{MultiBatchEvalProof, groups_hold, lemma_multi_sound, multi_check_run, multi_misled, multi_target, multi_truth};
use crate::rounds::rounds_misled;
use crate::shift::{shift_tables, shift_term};
use crate::sumcheck::total;
use crate::transcript::{FiatShamir, absorb_all};
use crate::unified::{unified_tables, unified_term};

verus! {

/// Whether the challenges of a reduction of claims fooled its verifier: they
/// combine claims of which one is false as the true values, or one of a round
/// misled.
pub open spec fn batch_fooled<F: TowerField, T: FiatShamir<F>>(
    b: Seq<F>,
    claims: Seq<ClaimView<F>>,
    n: nat,
    proof: BatchEvalProof<F>,
    channel: T,
) -> bool {
    let alphas = batch_alphas(claims, channel);
    ||| !claims_hold(claims, b) && combined_claim(claims, alphas) == combined_claim(
        true_claims(claims, b),
        alphas,
    )
    ||| exists|j: nat| j < n && #[trigger] batch_misled(b, claims, n, proof.rounds@, channel, j)
}

/// The sum of the identity of the permutations over the cells of columns, with
/// the challenges of a transcript.
pub open spec fn identity_sum<F: TowerField, T: FiatShamir<F>>(
    params: PermParams<F>,
    live: nat,
    n: nat,
    s_in: Seq<F>,
    s_out: Seq<F>,
    state: Seq<F>,
    channel: T,
) -> F {
    total(
        unified_tables(params, live as int, unified_rho(n, channel), s_in, s_out, state),
        unified_term(unified_beta(n, channel), unified_gamma(n, channel)),
        n,
    )
}

/// Whether the challenges of the two sumchecks of a trace fooled their verifier.
pub open spec fn pair_fooled<F: TowerField, T: FiatShamir<F>>(
    params: PermParams<F>,
    live: nat,
    n: nat,
    s_in: Seq<F>,
    s_out: Seq<F>,
    state: Seq<F>,
    proof: AuthKillShotProof<F>,
    channel: T,
) -> bool {
    let run = unified_check_run(proof.main.round_polys@, n, channel);
    let r = run.challenges.reverse();
    let mid = absorb_all(run.channel, unified_claims(proof.main));
    let red = proof.main.shifted(r);
    let truth = true_shifted(s_in, s_out, state, r);
    ||| exists|j: nat|
        j < n && #[trigger] rounds_misled(
            unified_tables(params, live as int, unified_rho(n, channel), s_in, s_out, state),
            unified_term(unified_beta(n, channel), unified_gamma(n, channel)),
            proof.main.round_polys@,
            F::zero(),
            unified_start(n, channel),
            j,
        )
    ||| shifted_values(red) != shifted_values(truth) && shift_claim(red, mid) == shift_claim(
        truth,
        mid,
    )
    ||| exists|j: nat|
        j < n && #[trigger] rounds_misled(
            shift_tables(s_in, s_out, state, r, mid.challenge()),
            shift_term(),
            proof.shift.round_polys@,
            shift_claim(red, mid),
            mid.squeezed(),
            j,
        )
}

/// Soundness of the two sumchecks of a trace: where they are accepted with last
/// values that are true of columns, the identity of the permutations sums to zero
/// over the columns, or a challenge fooled the verifier.
pub proof fn lemma_pair_sound<F: TowerField, T: FiatShamir<F>>(
    params: PermParams<F>,
    live: nat,
    n: nat,
    s_in: Seq<F>,
    s_out: Seq<F>,
    state: Seq<F>,
    proof: AuthKillShotProof<F>,
    channel: T,
)
    requires
        n >= 9,
        s_in.len() == pow2(n),
        s_out.len() == pow2(n),
        state.len() == pow2(n),
        pair_verdict(params, live, n, proof, channel).points is Some,
        ({
            let (r1, r2) = pair_verdict(params, live, n, proof, channel).points->0;
            &&& proof.main.state_at_r == mle(state, r1)
            &&& proof.shift.s_in_at_r2 == mle(s_in, r2)
            &&& proof.shift.s_out_at_r2 == mle(s_out, r2)
            &&& proof.shift.state_at_r2 == mle(state, r2)
        }),
    ensures
        identity_sum(params, live, n, s_in, s_out, state, channel) == F::zero() || pair_fooled(
            params,
            live,
            n,
            s_in,
            s_out,
            state,
            proof,
            channel,
        ),
{
    let run = unified_check_run(proof.main.round_polys@, n, channel);
    let r = run.challenges.reverse();
    let mid = absorb_all(run.channel, unified_claims(proof.main));
    let red = proof.main.shifted(r);
    let truth = true_shifted(s_in, s_out, state, r);
    crate::soundness::lemma_accepted_challenges(
        F::zero(),
        unified_start(n, channel),
        crate::rounds::poly_messages(proof.main.round_polys@),
        crate::rounds::coeff_check(),
        crate::rounds::coeff_eval(),
        n,
    );
    lemma_shift_sound(s_in, s_out, state, red, proof.shift, mid);
    let (x, y) = (shifted_values(red), shifted_values(truth));
    if x == y {
        assert(x[0] == y[0] && x[1] == y[1] && x[2] == y[2]);
        assert forall|j: int| 0 <= j < 4 implies #[trigger] proof.main.s_out_lane_dec_at_r[j]
            == truth.s_out_lanes[j] by {
            assert(x[3 + j] == y[3 + j]);
        }
        assert forall|j: int| 0 <= j < 4 implies #[trigger] proof.main.state_lane_dec_at_r[j]
            == truth.state_lanes[j] by {
            assert(x[7 + j] == y[7 + j]);
        }
        assert(unified_claims_hold(proof.main, s_in, s_out, state, r));
        lemma_unified_sound(params, live, n, s_in, s_out, state, proof.main, channel);
    }
}

/// Whether the challenges of a proof of a trace with pins fooled its verifier.
pub open spec fn kill_fooled<F: TowerField, T: FiatShamir<F>>(
    params: PermParams<F>,
    live: nat,
    n: nat,
    s_in: Seq<F>,
    s_out: Seq<F>,
    state: Seq<F>,
    pins: Seq<ClaimView<F>>,
    proof: TraceProofKillShot<F>,
    channel: T,
) -> bool {
    let ks = proof.kill_shot;
    let pair = pair_verdict(params, live, n, ks, channel);
    let (r1, r2) = pair.points->0;
    let c1 = state_claims(ks, r1, r2, pins);
    let ch1 = batch_after(proof.state_batch, c1, n, pair.channel);
    let ch2 = batch_after(proof.sin_batch, sin_claims(ks, r2), n, ch1);
    ||| pair_fooled(params, live, n, s_in, s_out, state, ks, channel)
    ||| batch_fooled(state, c1, n, proof.state_batch, pair.channel)
    ||| batch_fooled(s_in, sin_claims(ks, r2), n, proof.sin_batch, ch1)
    ||| batch_fooled(s_out, sout_claims(ks, r2), n, proof.sout_batch, ch2)
}

/// Soundness of the proof of a trace with pins: where it is accepted and leaves
/// claims that are true of columns, every pin is true of the state column and the
/// identity of the permutations sums to zero over the columns, or a challenge
/// fooled the verifier.
pub proof fn lemma_kill_sound<F: TowerField, T: FiatShamir<F>>(
    params: PermParams<F>,
    live: nat,
    n: nat,
    s_in: Seq<F>,
    s_out: Seq<F>,
    state: Seq<F>,
    pins: Seq<ClaimView<F>>,
    proof: TraceProofKillShot<F>,
    channel: T,
)
    requires
        n >= 9,
        s_in.len() == pow2(n),
        s_out.len() == pow2(n),
        state.len() == pow2(n),
        kill_verdict(params, live, n, pins, proof, channel).run is Some,
        ({
            let run = kill_verdict(params, live, n, pins, proof, channel).run->0;
            &&& proof.state_batch.b_final == mle(state, run.state)
            &&& proof.sin_batch.b_final == mle(s_in, run.sin)
            &&& proof.sout_batch.b_final == mle(s_out, run.sout)
        }),
    ensures
        ({
            ||| kill_fooled(params, live, n, s_in, s_out, state, pins, proof, channel)
            ||| claims_hold(pins, state) && identity_sum(
                params,
                live,
                n,
                s_in,
                s_out,
                state,
                channel,
            ) == F::zero()
        }),
{
    let ks = proof.kill_shot;
    let pair = pair_verdict(params, live, n, ks, channel);
    let (r1, r2) = pair.points->0;
    let c1 = state_claims(ks, r1, r2, pins);
    let c2 = sin_claims(ks, r2);
    let c3 = sout_claims(ks, r2);
    let ch1 = batch_after(proof.state_batch, c1, n, pair.channel);
    let ch2 = batch_after(proof.sin_batch, c2, n, ch1);
    lemma_batch_sound(
        state,
        c1,
        n,
        proof.state_batch.rounds@,
        proof.state_batch.b_final,
        pair.channel,
    );
    lemma_batch_sound(s_in, c2, n, proof.sin_batch.rounds@, proof.sin_batch.b_final, ch1);
    lemma_batch_sound(s_out, c3, n, proof.sout_batch.rounds@, proof.sout_batch.b_final, ch2);
    if claims_hold(c1, state) && claims_hold(c2, s_in) && claims_hold(c3, s_out) {
        assert(c1[0].value == mle(state, c1[0].point));
        assert(c1[1].value == mle(state, c1[1].point));
        assert(c2[0].value == mle(s_in, c2[0].point));
        assert(c3[0].value == mle(s_out, c3[0].point));
        assert forall|i: int| 0 <= i < pins.len() implies #[trigger] pins[i].value == mle(
            state,
            pins[i].point,
        ) by {
            assert(c1[i + 2] == pins[i]);
        }
        lemma_pair_sound(params, live, n, s_in, s_out, state, ks, channel);
    }
}

/// Whether the challenges of a proof of a linked trace fooled its verifier.
pub open spec fn linked_fooled<F: TowerField, T: FiatShamir<F>>(
    params: PermParams<F>,
    live: nat,
    n: nat,
    s_in: Seq<F>,
    s_out: Seq<F>,
    state: Seq<F>,
    links: Seq<LinearView<F>>,
    tag: u128,
    channel: T,
    ks: AuthKillShotProof<F>,
    chain: LinearEvalProof<F>,
    batch: MultiBatchEvalProof<F>,
) -> bool {
    let pair = pair_verdict(params, live, n, ks, channel);
    let (r1, r2) = pair.points->0;
    let mid = linear_after(chain.rounds@, links, n, tag, pair.channel);
    let alphas = linear_alphas(links.len(), tag, pair.channel);
    let at = linear_check_run(chain.rounds@, links, tag, pair.channel).challenges.reverse();
    let groups = linked_groups(ks, r1, r2, ClaimView { point: at, value: chain.b_final });
    let columns = seq![state, s_in, s_out];
    ||| pair_fooled(params, live, n, s_in, s_out, state, ks, channel)
    ||| !linear_hold(links, state) && linear_target(links, alphas) == linear_target(
        true_linear(links, state),
        alphas,
    )
    ||| exists|j: nat|
        j < n && #[trigger] linear_misled(state, links, n, tag, chain.rounds@, pair.channel, j)
    ||| !groups_hold(groups, columns) && multi_target(groups, mid) == multi_truth(
        columns,
        groups,
        mid,
    )
    ||| exists|j: nat| j < n && #[trigger] multi_misled(columns, groups, n, batch.rounds@, mid, j)
}

/// Soundness of the proof of a linked trace: where it is accepted and leaves
/// claims that are true of columns, every link is true of the state column and
/// the identity of the permutations sums to zero over the columns, or a challenge
/// fooled the verifier.
pub proof fn lemma_linked_sound<F: TowerField, T: FiatShamir<F>>(
    params: PermParams<F>,
    live: nat,
    n: nat,
    s_in: Seq<F>,
    s_out: Seq<F>,
    state: Seq<F>,
    links: Seq<LinearView<F>>,
    tag: u128,
    channel: T,
    ks: AuthKillShotProof<F>,
    chain: LinearEvalProof<F>,
    batch: MultiBatchEvalProof<F>,
)
    requires
        n >= 9,
        s_in.len() == pow2(n),
        s_out.len() == pow2(n),
        state.len() == pow2(n),
        linked_verdict(params, live, n, links, tag, channel, ks, chain, batch).point is Some,
        ({
            let point = linked_verdict(
                params,
                live,
                n,
                links,
                tag,
                channel,
                ks,
                chain,
                batch,
            ).point->0;
            &&& batch.b_finals@[0] == mle(state, point)
            &&& batch.b_finals@[1] == mle(s_in, point)
            &&& batch.b_finals@[2] == mle(s_out, point)
        }),
    ensures
        ({
            ||| linked_fooled(
                params,
                live,
                n,
                s_in,
                s_out,
                state,
                links,
                tag,
                channel,
                ks,
                chain,
                batch,
            )
            ||| linear_hold(links, state) && identity_sum(
                params,
                live,
                n,
                s_in,
                s_out,
                state,
                channel,
            ) == F::zero()
        }),
{
    let pair = pair_verdict(params, live, n, ks, channel);
    let (r1, r2) = pair.points->0;
    let mid = linear_after(chain.rounds@, links, n, tag, pair.channel);
    let at = linear_check_run(chain.rounds@, links, tag, pair.channel).challenges.reverse();
    let link = ClaimView { point: at, value: chain.b_final };
    let groups = linked_groups(ks, r1, r2, link);
    let columns = seq![state, s_in, s_out];
    let point = multi_check_run(batch.rounds@, groups, mid).challenges.reverse();
    assert forall|c: int| 0 <= c < columns.len() implies (#[trigger] columns[c]).len() == pow2(
        n,
    ) by {}
    assert forall|c: int| 0 <= c < groups.len() implies #[trigger] batch.b_finals@[c] == mle(
        columns[c],
        point,
    ) by {}
    lemma_multi_sound(columns, groups, n, batch.rounds@, batch.b_finals@, mid);
    if groups_hold(groups, columns) {
        assert(claims_hold(groups[0], columns[0]));
        assert(claims_hold(groups[1], columns[1]));
        assert(claims_hold(groups[2], columns[2]));
        assert(groups[0][0].value == mle(state, groups[0][0].point));
        assert(groups[0][1].value == mle(state, groups[0][1].point));
        assert(groups[0][2] == link);
        assert(groups[0][2].value == mle(state, groups[0][2].point));
        assert(groups[1][0].value == mle(s_in, groups[1][0].point));
        assert(groups[2][0].value == mle(s_out, groups[2][0].point));
        lemma_linear_sound(state, links, n, tag, chain.rounds@, pair.channel);
        lemma_pair_sound(params, live, n, s_in, s_out, state, ks, channel);
    }
}

} // verus!
