//! The proof of one permutation, down to claims on its states and on the outputs
//! of its power layers.
//!
//! The two sumchecks of a trace of one slot leave a claim on the inputs of the
//! power layers. An input is the state plus a constant, so one more sumcheck
//! turns that claim into one on the state.
use vstd::prelude::*;
use crate::auth_unified_v2::AuthKillShotProof;
use crate::batch_eval::ClaimView;
use crate::field::{TowerField, lemma_add_cancel, lemma_units};
use crate::killshot::{is_pair_proof, kill_shot_byte_len, kill_shot_size, lemma_pair_complete, pair_run, pair_verdict, prove_trace_pair, verify_trace_pair};
use crate::layers::{N_ROUNDS, PermParams, is_active};
use crate::mle::{eq_at, eq_ind_partial_eval, eq_table, evaluate_slice, lemma_mle_sum, mle};
use crate::sum::{lemma_sum_add, lemma_sum_ext};
use crate::trace::{lemma_cell_of_parts, mu_cell, mu_table, rc_cell, rc_table, round_of, slot_of};
use crate::trace_mle::{TraceColumns, sin_cell, sin_column, sout_column, state_cell, state_column};
use crate::transcript::FiatShamir;
use crate::weighted_state::{WeightedRound, lemma_weighted_complete, prove_weighted_state_sumcheck, verify_weighted_state_sumcheck, weighted_accepts, weighted_after, weighted_check_run, weighted_messages, weighted_run, weighted_total};

verus! {

/// The variables of a permutation.
pub const N_PERM_VARS: usize = 9;

/// The cells of a permutation.
pub const N_PERM_CELLS: usize = 512;

/// The proof of a permutation.
#[derive(Clone, Debug, PartialEq, Eq)]
pub struct PermProof<F> {
    pub pair: AuthKillShotProof<F>,
    pub expand: Vec<WeightedRound<F>>,
    pub state_at_r3: F,
}

impl<F: TowerField> PermProof<F> {
    /// The size in bytes: 16 a field element.
    pub open spec fn size(&self) -> nat {
        kill_shot_size(self.pair) + self.expand.len() as nat * 32 + 16
    }

    /// Computes [`PermProof::size`].
    pub fn byte_len(&self) -> (r: usize)
        requires
            self.size() <= usize::MAX,
        ensures
            r == self.size(),
    {
        kill_shot_byte_len(&self.pair) + self.expand.len() * 32 + 16
    }
}

/// A claim on the states of a permutation.
pub struct PermStateClaim<F> {
    pub point: Vec<F>,
    pub value: F,
}

/// The columns of a permutation.
pub open spec fn perm_state<F: TowerField>(params: PermParams<F>, input: Seq<F>) -> Seq<F> {
    state_column(params, seq![input], 512)
}

/// The outputs of the power layers of a permutation.
pub open spec fn perm_sout<F: TowerField>(params: PermParams<F>, input: Seq<F>) -> Seq<F> {
    sout_column(params, seq![input], 512)
}

/// The inputs of the power layers of a permutation.
pub open spec fn perm_sin<F: TowerField>(params: PermParams<F>, input: Seq<F>) -> Seq<F> {
    sin_column(params, seq![input], 512)
}

/// The weights that turn the states into the inputs of the power layers.
pub open spec fn expand_weights<F: TowerField>(r: Seq<F>) -> Seq<F> {
    Seq::new(512, |y: int| eq_at(r, y).mul(mu_cell::<F>(1, y)))
}

/// The constants of the rounds.
pub open spec fn perm_constants<F: TowerField>(params: PermParams<F>) -> Seq<F> {
    Seq::new(512, |y: int| rc_cell(params, 1, y))
}

/// The sum that the last sumcheck is about.
pub open spec fn expand_target<F: TowerField>(
    params: PermParams<F>,
    r: Seq<F>,
    sin_at: F,
) -> F {
    sin_at.add(mle(perm_constants(params), r))
}

/// The point of the claim on the outputs, the claims on the states, and the
/// transcript that is left.
pub struct PermRun<F, T> {
    pub r0: Seq<F>,
    pub claims: Seq<ClaimView<F>>,
    pub channel: T,
}

/// The three claims on the states.
pub open spec fn perm_claims<F>(proof: PermProof<F>, r1: Seq<F>, r2: Seq<F>, r3: Seq<F>) -> Seq<
    ClaimView<F>,
> {
    seq![
        ClaimView { point: r1, value: proof.pair.main.state_at_r },
        ClaimView { point: r2, value: proof.pair.shift.state_at_r2 },
        ClaimView { point: r3, value: proof.state_at_r3 },
    ]
}

/// The prover's run.
#[verifier::opaque]
pub open spec fn perm_run<F: TowerField, T: FiatShamir<F>>(
    params: PermParams<F>,
    input: Seq<F>,
    channel: T,
    proof: PermProof<F>,
) -> PermRun<F, T> {
    let state = perm_state(params, input);
    let pair = pair_run(
        params,
        1,
        9,
        perm_sin(params, input),
        perm_sout(params, input),
        state,
        channel,
        proof.pair,
    );
    let last = weighted_run(expand_weights(pair.r2), state, 9, pair.channel);
    PermRun {
        r0: pair.r2,
        claims: perm_claims(proof, pair.r1, pair.r2, last.challenges.reverse()),
        channel: last.channel.absorbed(proof.state_at_r3),
    }
}

/// The proof of the permutation of an input.
#[verifier::opaque]
pub open spec fn is_perm_proof<F: TowerField, T: FiatShamir<F>>(
    params: PermParams<F>,
    input: Seq<F>,
    channel: T,
    proof: PermProof<F>,
) -> bool {
    let state = perm_state(params, input);
    let (s_in, s_out) = (perm_sin(params, input), perm_sout(params, input));
    let pair = pair_run(params, 1, 9, s_in, s_out, state, channel, proof.pair);
    let last = weighted_run(expand_weights(pair.r2), state, 9, pair.channel);
    &&& is_pair_proof(params, 1, 9, s_in, s_out, state, channel, proof.pair)
    &&& weighted_messages(proof.expand@) == last.messages
    &&& proof.state_at_r3 == mle(state, last.challenges.reverse())
}

/// Builds the weights of the last sumcheck.
fn build_expand_weights<F: TowerField>(r: &[F]) -> (w: Vec<F>)
    requires
        r.len() == 9,
    ensures
        w@ == expand_weights(r@),
{
    proof {
        vstd::arithmetic::power2::lemma2_to64();
    }
    let eq = eq_ind_partial_eval(r);
    let mu = mu_table::<F>(N_PERM_CELLS, 1);
    let mut w: Vec<F> = Vec::new();
    let mut y: usize = 0;
    while y < N_PERM_CELLS
        invariant
            y <= N_PERM_CELLS,
            eq.len() == 512,
            eq@ == eq_table(r@),
            mu@ == Seq::new(512, |y: int| mu_cell::<F>(1, y)),
            w.len() == y,
            forall|k: int| 0 <= k < y ==> #[trigger] w[k] == expand_weights(r@)[k],
        decreases N_PERM_CELLS - y,
    {
        w.push(eq[y].times(mu[y]));
        y += 1;
    }
    proof {
        assert(w@ =~= expand_weights(r@));
    }
    w
}

/// Proves a permutation from its columns; returns the proof, the point and the
/// value of the claim on the outputs, and the claims on the states.
pub(crate) fn prove_perm_with_mle<F: TowerField, T: FiatShamir<F>>(
    params: &PermParams<F>,
    mle: &TraceColumns<F>,
    channel: &mut T,
    Ghost(input): Ghost<Seq<F>>,
) -> (out: (PermProof<F>, Vec<F>, F, Vec<PermStateClaim<F>>))
    requires
        mle.wf(512),
        mle.of(*params, seq![input], 512),
    ensures
        is_perm_proof(*params, input, *old(channel), out.0),
        ({
            let run = perm_run(*params, input, *old(channel), out.0);
            &&& out.1@ == run.r0
            &&& out.1.len() == 9
            &&& out.2 == out.0.pair.shift.s_out_at_r2
            &&& state_claims_view(out.3@) == run.claims
            &&& *final(channel) == run.channel
        }),
        forall|c: int| 0 <= c < out.3.len() ==> (#[trigger] out.3[c]).point.len() == 9,
{
    proof {
        vstd::arithmetic::power2::lemma2_to64();
        reveal(perm_run);
        reveal(is_perm_proof);
    }
    let state = mle.state.as_slice();
    let (pair, r1, r2) = prove_trace_pair(
        params,
        mle.s_in.as_slice(),
        mle.s_out.as_slice(),
        state,
        N_PERM_VARS,
        1,
        channel,
    );
    let weights = build_expand_weights(r2.as_slice());
    let (expand, r3, state_at_r3) = prove_weighted_state_sumcheck(
        state,
        weights,
        N_PERM_VARS,
        channel,
    );
    channel.absorb(state_at_r3);
    let v0 = pair.shift.s_out_at_r2;
    let claims = build_claims(
        &r1,
        pair.main.state_at_r,
        &r2,
        pair.shift.state_at_r2,
        r3,
        state_at_r3,
    );
    (PermProof { pair, expand, state_at_r3 }, r2, v0, claims)
}

/// The contents of claims.
pub open spec fn state_claims_view<F>(claims: Seq<PermStateClaim<F>>) -> Seq<ClaimView<F>> {
    Seq::new(claims.len(), |c: int| ClaimView { point: claims[c].point@, value: claims[c].value })
}

/// The three claims.
fn build_claims<F: TowerField>(
    r1: &Vec<F>,
    v1: F,
    r2: &Vec<F>,
    v2: F,
    r3: Vec<F>,
    v3: F,
) -> (r: Vec<PermStateClaim<F>>)
    ensures
        r.len() == 3,
        state_claims_view(r@) == seq![
            ClaimView { point: r1@, value: v1 },
            ClaimView { point: r2@, value: v2 },
            ClaimView { point: r3@, value: v3 },
        ],
        r[0].point@ == r1@,
        r[1].point@ == r2@,
        r[2].point@ == r3@,
{
    let mut r: Vec<PermStateClaim<F>> = Vec::new();
    r.push(PermStateClaim { point: crate::table::copied(r1.as_slice()), value: v1 });
    r.push(PermStateClaim { point: crate::table::copied(r2.as_slice()), value: v2 });
    r.push(PermStateClaim { point: r3, value: v3 });
    proof {
        assert(state_claims_view(r@) =~= seq![
            ClaimView { point: r1@, value: v1 },
            ClaimView { point: r2@, value: v2 },
            ClaimView { point: r3@, value: v3 },
        ]);
    }
    r
}

/// What the verifier decides: what the prover's run gave on success, and the transcript that is
/// left.
pub struct PermVerdict<F, T> {
    pub points: Option<(Seq<F>, Seq<ClaimView<F>>)>,
    pub channel: T,
}

/// The verdict on a proof with a claimed output value.
#[verifier::opaque]
pub open spec fn perm_verdict<F: TowerField, T: FiatShamir<F>>(
    params: PermParams<F>,
    v0: F,
    channel: T,
    proof: PermProof<F>,
) -> PermVerdict<F, T> {
    let pair = pair_verdict(params, 1, 9, proof.pair, channel);
    if pair.points is None {
        PermVerdict { points: None, channel: pair.channel }
    } else {
        let (r1, r2) = pair.points->0;
        let weights = expand_weights(r2);
        let target = expand_target(params, r2, proof.pair.shift.s_in_at_r2);
        let run = weighted_check_run(proof.expand@, target, pair.channel);
        let end = weighted_after(proof.expand@, 9, weights, target, pair.channel);
        if proof.pair.shift.s_out_at_r2 != v0 {
            PermVerdict { points: None, channel: pair.channel }
        } else if !weighted_accepts(
            proof.expand@,
            proof.state_at_r3,
            9,
            weights,
            target,
            pair.channel,
        ) {
            PermVerdict { points: None, channel: end }
        } else {
            PermVerdict {
                points: Some((r2, perm_claims(proof, r1, r2, run.challenges.reverse()))),
                channel: end.absorbed(proof.state_at_r3),
            }
        }
    }
}

/// Verifies a proof with a claimed output value; on success returns the point of
/// that value and the claims on the states.
pub fn verify_perm<F: TowerField, T: FiatShamir<F>>(
    params: &PermParams<F>,
    proof: &PermProof<F>,
    v0: F,
    channel: &mut T,
) -> (out: Option<(Vec<F>, Vec<PermStateClaim<F>>)>)
    ensures
        ({
            let want = perm_verdict(*params, v0, *old(channel), *proof);
            &&& *final(channel) == want.channel
            &&& match out {
                Some((r0, claims)) => {
                    &&& want.points == Some((r0@, state_claims_view(claims@)))
                    &&& r0.len() == 9
                    &&& claims.len() == 3
                    &&& forall|c: int| 0 <= c < 3 ==> (#[trigger] claims[c]).point.len() == 9
                },
                None => want.points is None,
            }
        }),
{
    proof {
        vstd::arithmetic::power2::lemma2_to64();
        reveal(perm_verdict);
    }
    let (r1, r2) = match verify_trace_pair(params, &proof.pair, N_PERM_VARS, 1, channel) {
        Some(points) => points,
        None => {
            return None;
        },
    };
    if !proof.pair.shift.s_out_at_r2.equals(v0) {
        return None;
    }
    let weights = build_expand_weights(r2.as_slice());
    let constants = rc_table(params, N_PERM_CELLS, 1);
    proof {
        assert(constants@ =~= perm_constants(*params));
    }
    let target = proof.pair.shift.s_in_at_r2.plus(
        evaluate_slice(constants.as_slice(), r2.as_slice()),
    );
    let r3 = match verify_weighted_state_sumcheck(
        &proof.expand,
        proof.state_at_r3,
        N_PERM_VARS,
        weights.as_slice(),
        target,
        channel,
    ) {
        Some(point) => point,
        None => {
            return None;
        },
    };
    channel.absorb(proof.state_at_r3);
    let claims = build_claims(
        &r1,
        proof.pair.main.state_at_r,
        &r2,
        proof.pair.shift.state_at_r2,
        r3,
        proof.state_at_r3,
    );
    Some((r2, claims))
}

/// The inputs of the power layers are the states plus the constants.
proof fn lemma_expand<F: TowerField>(params: PermParams<F>, input: Seq<F>, r: Seq<F>)
    requires
        r.len() == 9,
    ensures
        expand_target(params, r, mle(perm_sin(params, input), r)) == weighted_total(
            expand_weights(r),
            perm_state(params, input),
        ),
{
    vstd::arithmetic::power2::lemma2_to64();
    let s_in = perm_sin(params, input);
    let state = perm_state(params, input);
    let rc = perm_constants(params);
    let w = expand_weights(r);
    lemma_mle_sum(s_in, r);
    lemma_mle_sum(rc, r);
    let f = |y: int| eq_at(r, y).mul(s_in[y]);
    let g = |y: int| eq_at(r, y).mul(rc[y]);
    lemma_sum_add(512, f, g);
    let both = |y: int| f(y).add(g(y));
    let want = |y: int| w[y].mul(state[y]);
    assert forall|y: int| 0 <= y < 512 implies #[trigger] both(y) == want(y) by {
        let e = eq_at(r, y);
        lemma_cell_of_parts(y);
        assert(slot_of(y) == 0);
        assert(s_in[y] == sin_cell(params, seq![input], y));
        assert(state[y] == state_cell(params, seq![input], y));
        F::mul_add(e, s_in[y], rc[y]);
        F::mul_assoc(e, mu_cell::<F>(1, y), state[y]);
        lemma_units(state[y]);
        lemma_units(F::zero());
        if round_of(y) < N_ROUNDS {
            if is_active(round_of(y), crate::trace::lane_of(y)) {
                lemma_add_cancel(state[y], rc[y]);
            }
            assert(s_in[y].add(rc[y]) == state[y]);
        }
    }
    lemma_sum_ext(512, both, want);
}

/// Completeness: the proof of a permutation is accepted with the value of the
/// outputs, and the verifier arrives at the prover's points and transcript; the
/// claims are true.
pub proof fn lemma_perm_complete<F: TowerField, T: FiatShamir<F>>(
    params: PermParams<F>,
    input: Seq<F>,
    channel: T,
    proof: PermProof<F>,
)
    requires
        is_perm_proof(params, input, channel, proof),
    ensures
        ({
            let run = perm_run(params, input, channel, proof);
            let v0 = proof.pair.shift.s_out_at_r2;
            let v = perm_verdict(params, v0, channel, proof);
            &&& v.points == Some((run.r0, run.claims))
            &&& v.channel == run.channel
            &&& run.r0.len() == 9
            &&& v0 == mle(perm_sout(params, input), run.r0)
            &&& run.claims.len() == 3
            &&& forall|c: int|
                0 <= c < 3 ==> (#[trigger] run.claims[c]).point.len() == 9 && run.claims[c].value
                    == mle(perm_state(params, input), run.claims[c].point)
        }),
{
    vstd::arithmetic::power2::lemma2_to64();
    reveal(perm_run);
    reveal(is_perm_proof);
    reveal(perm_verdict);
    let ins = seq![input];
    lemma_pair_complete(params, ins, 9, proof.pair, channel);
    let state = perm_state(params, input);
    let pair = pair_run(
        params,
        1,
        9,
        perm_sin(params, input),
        perm_sout(params, input),
        state,
        channel,
        proof.pair,
    );
    lemma_expand(params, input, pair.r2);
    lemma_weighted_complete(
        expand_weights(pair.r2),
        state,
        9,
        proof.expand@,
        expand_target(params, pair.r2, proof.pair.shift.s_in_at_r2),
        pair.channel,
    );
}

} // verus!
