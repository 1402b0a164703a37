//! The proof of a whole trace of permutations.
//!
//! The unified sumcheck and the shift gadget leave claims on the three witness
//! columns. Together with pins (claims that the caller adds on the state
//! column) they are reduced to one claim on each column.
use vstd::prelude::*;
use vstd::arithmetic::power2::pow2;
use crate::auth_unified_v2::{AUTH_SHIFT_ROUND_DEGREE, AUTH_UNIFIED_ROUND_DEGREE, AuthKillShotProof, lemma_shift_complete, lemma_unified_complete, prove_trace_shift, prove_trace_unified, rounds_shape, shift_accepts, shift_check_run, shift_claims, shift_run, unified_accepts, unified_check_run, unified_claims, unified_claims_hold, unified_run, verify_trace_shift, verify_trace_unified};
use crate::batch_eval::{BatchEvalProof, BatchEvalReduction, ClaimView, EvalClaim, batch_accepts, batch_check_run, batch_messages, batch_run, batch_shape, claims_hold, claims_view, claims_wf, lemma_batch_complete, prove_batch_eval, verify_batch_eval};
use crate::field::{BinaryField, TowerField};
use crate::layers::{N_ROUNDS, PermParams, permuted};
use crate::mle::{boolean_point, cube_point, evaluate_slice, lemma_mle_on_cube, mle};
use crate::rounds::poly_messages;
use crate::table::copied;
use crate::trace::{cell, lemma_parts_of_cell, pack_index};
use crate::trace_mle::{sin_column, sout_column, state_cell, state_column};
use crate::transcript::{FiatShamir, absorb_all};

verus! {

/// The two sumchecks of a trace, and the reductions of the three columns.
#[derive(Clone, Debug, PartialEq, Eq)]
pub struct TraceProofKillShot<F> {
    pub kill_shot: AuthKillShotProof<F>,
    pub state_batch: BatchEvalProof<F>,
    pub sin_batch: BatchEvalProof<F>,
    pub sout_batch: BatchEvalProof<F>,
}

/// The claims on the three columns that are left.
#[derive(Clone, Debug, PartialEq, Eq)]
pub struct TraceReductions<F> {
    pub state: BatchEvalReduction<F>,
    pub sin: BatchEvalReduction<F>,
    pub sout: BatchEvalReduction<F>,
}

/// The size in bytes of the two sumchecks of a trace.
pub open spec fn kill_shot_size<F>(proof: AuthKillShotProof<F>) -> nat {
    proof.main.round_polys.len() as nat * 160 + proof.shift.round_polys.len() as nat * 48 + 240
}

/// Computes [`kill_shot_size`].
pub fn kill_shot_byte_len<F>(proof: &AuthKillShotProof<F>) -> (r: usize)
    requires
        kill_shot_size(*proof) <= usize::MAX,
    ensures
        r == kill_shot_size(*proof),
{
    proof.main.round_polys.len() * 10 * 16 + proof.shift.round_polys.len() * 3 * 16 + 12 * 16 + 3
        * 16
}

impl<F: TowerField> TraceProofKillShot<F> {
    /// The size in bytes: 16 a field element.
    pub open spec fn size(&self) -> nat {
        kill_shot_size(self.kill_shot) + self.state_batch.rounds.len() as nat * 48 + 16
            + self.sin_batch.rounds.len() as nat * 48 + 16 + self.sout_batch.rounds.len() as nat
            * 48 + 16
    }

    /// Computes [`TraceProofKillShot::size`].
    pub fn byte_len(&self) -> (r: usize)
        requires
            self.size() <= usize::MAX,
        ensures
            r == self.size(),
    {
        kill_shot_byte_len(&self.kill_shot) + self.state_batch.byte_len()
            + self.sin_batch.byte_len() + self.sout_batch.byte_len()
    }
}

/// The end of a run of the two sumchecks: their final points, and the
/// transcript.
pub struct PairRun<F, T> {
    pub r1: Seq<F>,
    pub r2: Seq<F>,
    pub channel: T,
}

/// The proof of the two sumchecks of columns over `n` variables and `live`
/// slots.
pub open spec fn is_pair_proof<F: TowerField, T: FiatShamir<F>>(
    params: PermParams<F>,
    live: nat,
    n: nat,
    s_in: Seq<F>,
    s_out: Seq<F>,
    state: Seq<F>,
    channel: T,
    proof: AuthKillShotProof<F>,
) -> bool {
    let run1 = unified_run(params, live, n, s_in, s_out, state, channel);
    let r1 = run1.challenges.reverse();
    let mid = absorb_all(run1.channel, unified_claims(proof.main));
    let run2 = shift_run(s_in, s_out, state, r1, mid);
    let r2 = run2.challenges.reverse();
    &&& poly_messages(proof.main.round_polys@) == run1.messages
    &&& rounds_shape(proof.main.round_polys@, n, AUTH_UNIFIED_ROUND_DEGREE as nat)
    &&& unified_claims_hold(proof.main, s_in, s_out, state, r1)
    &&& poly_messages(proof.shift.round_polys@) == run2.messages
    &&& rounds_shape(proof.shift.round_polys@, n, AUTH_SHIFT_ROUND_DEGREE as nat)
    &&& proof.shift.s_in_at_r2 == mle(s_in, r2)
    &&& proof.shift.s_out_at_r2 == mle(s_out, r2)
    &&& proof.shift.state_at_r2 == mle(state, r2)
}

/// The prover's run of the two sumchecks.
pub open spec fn pair_run<F: TowerField, T: FiatShamir<F>>(
    params: PermParams<F>,
    live: nat,
    n: nat,
    s_in: Seq<F>,
    s_out: Seq<F>,
    state: Seq<F>,
    channel: T,
    proof: AuthKillShotProof<F>,
) -> PairRun<F, T> {
    let run1 = unified_run(params, live, n, s_in, s_out, state, channel);
    let r1 = run1.challenges.reverse();
    let mid = absorb_all(run1.channel, unified_claims(proof.main));
    let run2 = shift_run(s_in, s_out, state, r1, mid);
    PairRun {
        r1,
        r2: run2.challenges.reverse(),
        channel: absorb_all(run2.channel, shift_claims(proof.shift)),
    }
}

/// Proves the two sumchecks; returns the final points too.
pub fn prove_trace_pair<F: TowerField, T: FiatShamir<F>>(
    params: &PermParams<F>,
    s_in: &[F],
    s_out: &[F],
    state: &[F],
    n: usize,
    live: usize,
    channel: &mut T,
) -> (out: (AuthKillShotProof<F>, Vec<F>, Vec<F>))
    requires
        n >= 9,
        s_in.len() == pow2(n as nat),
        s_out.len() == pow2(n as nat),
        state.len() == pow2(n as nat),
    ensures
        is_pair_proof(
            *params,
            live as nat,
            n as nat,
            s_in@,
            s_out@,
            state@,
            *old(channel),
            out.0,
        ),
        ({
            let run = pair_run(
                *params,
                live as nat,
                n as nat,
                s_in@,
                s_out@,
                state@,
                *old(channel),
                out.0,
            );
            &&& out.1@ == run.r1
            &&& out.2@ == run.r2
            &&& *final(channel) == run.channel
        }),
        out.1.len() == n,
        out.2.len() == n,
{
    let (main, r1) = prove_trace_unified(params, s_in, s_out, state, n, live, channel);
    let (shift, r2) = prove_trace_shift(s_in, s_out, state, r1.as_slice(), channel);
    (AuthKillShotProof { main, shift }, r1, r2)
}

/// The verdict on the two sumchecks: the final points on success, and the
/// transcript that is left.
pub struct PairVerdict<F, T> {
    pub points: Option<(Seq<F>, Seq<F>)>,
    pub channel: T,
}

/// The verdict on the two sumchecks.
pub open spec fn pair_verdict<F: TowerField, T: FiatShamir<F>>(
    params: PermParams<F>,
    live: nat,
    n: nat,
    proof: AuthKillShotProof<F>,
    channel: T,
) -> PairVerdict<F, T> {
    let run1 = unified_check_run(proof.main.round_polys@, n, channel);
    let r1 = run1.challenges.reverse();
    let red = proof.main.shifted(r1);
    if !rounds_shape(proof.main.round_polys@, n, AUTH_UNIFIED_ROUND_DEGREE as nat) {
        PairVerdict { points: None, channel }
    } else if !unified_accepts(params, live, n, proof.main, channel) {
        PairVerdict { points: None, channel: run1.channel }
    } else {
        let mid = absorb_all(run1.channel, unified_claims(proof.main));
        let run2 = shift_check_run(proof.shift.round_polys@, red, mid);
        if !rounds_shape(proof.shift.round_polys@, n, AUTH_SHIFT_ROUND_DEGREE as nat) {
            PairVerdict { points: None, channel: mid }
        } else if !shift_accepts(proof.shift, red, mid) {
            PairVerdict { points: None, channel: run2.channel }
        } else {
            PairVerdict {
                points: Some((r1, run2.challenges.reverse())),
                channel: absorb_all(run2.channel, shift_claims(proof.shift)),
            }
        }
    }
}

/// Verifies the two sumchecks; on success returns the final points.
pub fn verify_trace_pair<F: TowerField, T: FiatShamir<F>>(
    params: &PermParams<F>,
    proof: &AuthKillShotProof<F>,
    n: usize,
    live: usize,
    channel: &mut T,
) -> (out: Option<(Vec<F>, Vec<F>)>)
    requires
        n >= 9,
        pow2(n as nat) <= usize::MAX,
    ensures
        ({
            let want = pair_verdict(*params, live as nat, n as nat, *proof, *old(channel));
            &&& *final(channel) == want.channel
            &&& match out {
                Some((r1, r2)) => want.points == Some((r1@, r2@)) && r1.len() == n && r2.len()
                    == n,
                None => want.points is None,
            }
        }),
{
    match verify_trace_unified(params, &proof.main, n, live, channel) {
        None => None,
        Some(main_red) => match verify_trace_shift(&proof.shift, &main_red, channel) {
            None => {
                proof {
                    assert(main_red.shifted() == proof.main.shifted(main_red.r_prime@));
                }
                None
            },
            Some(shift_red) => {
                proof {
                    assert(main_red.shifted() == proof.main.shifted(main_red.r_prime@));
                }
                Some((main_red.r_prime, shift_red.r_double_prime))
            },
        },
    }
}

/// Completeness of the two sumchecks on the columns of permutations.
pub proof fn lemma_pair_complete<F: TowerField, T: FiatShamir<F>>(
    params: PermParams<F>,
    inputs: Seq<Seq<F>>,
    n: nat,
    proof: AuthKillShotProof<F>,
    channel: T,
)
    requires
        n >= 9,
        is_pair_proof(
            params,
            inputs.len(),
            n,
            sin_column(params, inputs, pow2(n)),
            sout_column(params, inputs, pow2(n)),
            state_column(params, inputs, pow2(n)),
            channel,
            proof,
        ),
    ensures
        ({
            let run = pair_run(
                params,
                inputs.len(),
                n,
                sin_column(params, inputs, pow2(n)),
                sout_column(params, inputs, pow2(n)),
                state_column(params, inputs, pow2(n)),
                channel,
                proof,
            );
            let v = pair_verdict(params, inputs.len(), n, proof, channel);
            &&& v.points == Some((run.r1, run.r2))
            &&& v.channel == run.channel
            &&& run.r1.len() == n
            &&& run.r2.len() == n
        }),
{
    let s_in = sin_column(params, inputs, pow2(n));
    let s_out = sout_column(params, inputs, pow2(n));
    let state = state_column(params, inputs, pow2(n));
    lemma_unified_complete(params, inputs, n, proof.main, channel);
    let run1 = unified_run(params, inputs.len(), n, s_in, s_out, state, channel);
    let r1 = run1.challenges.reverse();
    let mid = absorb_all(run1.channel, unified_claims(proof.main));
    let red = proof.main.shifted(r1);
    assert(crate::auth_unified_v2::reduction_holds(red, s_in, s_out, state)) by {
        assert forall|j: int| 0 <= j < 4 implies #[trigger] red.s_out_lanes[j] == mle(
            crate::trace::lane_table(crate::trace::dec_table(s_out), j),
            r1,
        ) by {
            assert(proof.main.s_out_lane_dec_at_r[j] == red.s_out_lanes[j]);
        }
        assert forall|j: int| 0 <= j < 4 implies #[trigger] red.state_lanes[j] == mle(
            crate::trace::lane_table(crate::trace::dec_table(state), j),
            r1,
        ) by {
            assert(proof.main.state_lane_dec_at_r[j] == red.state_lanes[j]);
        }
    }
    lemma_shift_complete(s_in, s_out, state, red, proof.shift, mid);
}

/// The claims on the state column: at both final points, then the pins.
pub open spec fn state_claims<F>(
    proof: AuthKillShotProof<F>,
    r1: Seq<F>,
    r2: Seq<F>,
    pins: Seq<ClaimView<F>>,
) -> Seq<ClaimView<F>> {
    seq![
        ClaimView { point: r1, value: proof.main.state_at_r },
        ClaimView { point: r2, value: proof.shift.state_at_r2 },
    ] + pins
}

/// The claim on the column of the power inputs.
pub open spec fn sin_claims<F>(proof: AuthKillShotProof<F>, r2: Seq<F>) -> Seq<ClaimView<F>> {
    seq![ClaimView { point: r2, value: proof.shift.s_in_at_r2 }]
}

/// The claim on the column of the power outputs.
pub open spec fn sout_claims<F>(proof: AuthKillShotProof<F>, r2: Seq<F>) -> Seq<ClaimView<F>> {
    seq![ClaimView { point: r2, value: proof.shift.s_out_at_r2 }]
}

/// Builds [`state_claims`].
pub fn build_state_claims<F: TowerField>(
    proof: &AuthKillShotProof<F>,
    r1: &Vec<F>,
    r2: &Vec<F>,
    pins: &Vec<EvalClaim<F>>,
) -> (claims: Vec<EvalClaim<F>>)
    ensures
        claims_view(claims@) == state_claims(*proof, r1@, r2@, claims_view(pins@)),
        claims.len() == pins.len() + 2,
        claims[0].point@ == r1@,
{
    let mut claims: Vec<EvalClaim<F>> = Vec::new();
    claims.push(EvalClaim { point: copied(r1.as_slice()), value: proof.main.state_at_r });
    claims.push(EvalClaim { point: copied(r2.as_slice()), value: proof.shift.state_at_r2 });
    let ghost want = state_claims(*proof, r1@, r2@, claims_view(pins@));
    let mut i: usize = 0;
    while i < pins.len()
        invariant
            i <= pins.len(),
            want == state_claims(*proof, r1@, r2@, claims_view(pins@)),
            claims.len() == i + 2,
            claims[0].point@ == r1@,
            forall|k: int| 0 <= k < i + 2 ==> #[trigger] claims_view(claims@)[k] == want[k],
        decreases pins.len() - i,
    {
        let ghost before = claims@;
        claims.push(EvalClaim { point: copied(pins[i].point.as_slice()), value: pins[i].value });
        proof {
            assert forall|k: int| 0 <= k < i + 3 implies #[trigger] claims_view(claims@)[k]
                == want[k] by {
                if k < i + 2 {
                    assert(claims_view(before)[k] == want[k]);
                } else {
                    assert(want[k] == claims_view(pins@)[i as int]);
                }
            }
        }
        i += 1;
    }
    proof {
        assert(claims_view(claims@) =~= want);
    }
    claims
}

/// One claim, as a list.
pub fn single_claim<F: TowerField>(r: &Vec<F>, value: F) -> (claims: Vec<EvalClaim<F>>)
    ensures
        claims_view(claims@) == seq![ClaimView { point: r@, value }],
        claims.len() == 1,
        claims[0].point@ == r@,
{
    let mut claims: Vec<EvalClaim<F>> = Vec::new();
    claims.push(EvalClaim { point: copied(r.as_slice()), value });
    proof {
        assert(claims_view(claims@) =~= seq![ClaimView { point: r@, value }]);
    }
    claims
}

/// The proof of a trace with pins.
pub open spec fn is_kill_proof<F: TowerField, T: FiatShamir<F>>(
    params: PermParams<F>,
    live: nat,
    n: nat,
    s_in: Seq<F>,
    s_out: Seq<F>,
    state: Seq<F>,
    pins: Seq<ClaimView<F>>,
    channel: T,
    proof: TraceProofKillShot<F>,
) -> bool {
    let ks = proof.kill_shot;
    let run = pair_run(params, live, n, s_in, s_out, state, channel, ks);
    let b1 = batch_run(state, state_claims(ks, run.r1, run.r2, pins), n, run.channel);
    let b2 = batch_run(s_in, sin_claims(ks, run.r2), n, b1.channel);
    let b3 = batch_run(s_out, sout_claims(ks, run.r2), n, b2.channel);
    &&& is_pair_proof(params, live, n, s_in, s_out, state, channel, ks)
    &&& batch_messages(proof.state_batch.rounds@) == b1.messages
    &&& proof.state_batch.b_final == mle(state, b1.challenges.reverse())
    &&& batch_messages(proof.sin_batch.rounds@) == b2.messages
    &&& proof.sin_batch.b_final == mle(s_in, b2.challenges.reverse())
    &&& batch_messages(proof.sout_batch.rounds@) == b3.messages
    &&& proof.sout_batch.b_final == mle(s_out, b3.challenges.reverse())
}

/// The three final points, and the transcript that is left.
pub struct KillRun<F, T> {
    pub state: Seq<F>,
    pub sin: Seq<F>,
    pub sout: Seq<F>,
    pub channel: T,
}

/// The prover's run.
pub open spec fn kill_run<F: TowerField, T: FiatShamir<F>>(
    params: PermParams<F>,
    live: nat,
    n: nat,
    s_in: Seq<F>,
    s_out: Seq<F>,
    state: Seq<F>,
    pins: Seq<ClaimView<F>>,
    channel: T,
    proof: TraceProofKillShot<F>,
) -> KillRun<F, T> {
    let ks = proof.kill_shot;
    let run = pair_run(params, live, n, s_in, s_out, state, channel, ks);
    let b1 = batch_run(state, state_claims(ks, run.r1, run.r2, pins), n, run.channel);
    let b2 = batch_run(s_in, sin_claims(ks, run.r2), n, b1.channel);
    let b3 = batch_run(s_out, sout_claims(ks, run.r2), n, b2.channel);
    KillRun {
        state: b1.challenges.reverse(),
        sin: b2.challenges.reverse(),
        sout: b3.challenges.reverse(),
        channel: b3.channel,
    }
}

impl<F: TowerField> TraceReductions<F> {
    /// The claims at the given points, with the values of a proof.
    pub open spec fn of<T>(&self, run: KillRun<F, T>, proof: TraceProofKillShot<F>) -> bool {
        &&& self.state.point@ == run.state
        &&& self.state.value == proof.state_batch.b_final
        &&& self.sin.point@ == run.sin
        &&& self.sin.value == proof.sin_batch.b_final
        &&& self.sout.point@ == run.sout
        &&& self.sout.value == proof.sout_batch.b_final
    }

    /// Whether the claims are true of columns over `n` variables.
    pub open spec fn hold(&self, s_in: Seq<F>, s_out: Seq<F>, state: Seq<F>) -> bool {
        &&& mle(state, self.state.point@) == self.state.value
        &&& mle(s_in, self.sin.point@) == self.sin.value
        &&& mle(s_out, self.sout.point@) == self.sout.value
    }

    /// Computes [`TraceReductions::hold`].
    pub fn discharge(&self, s_in: &[F], s_out: &[F], state: &[F]) -> (r: bool)
        requires
            s_in.len() == pow2(self.sin.point.len() as nat),
            s_out.len() == pow2(self.sout.point.len() as nat),
            state.len() == pow2(self.state.point.len() as nat),
        ensures
            r == self.hold(s_in@, s_out@, state@),
    {
        evaluate_slice(state, self.state.point.as_slice()).equals(self.state.value)
            && evaluate_slice(s_in, self.sin.point.as_slice()).equals(self.sin.value)
            && evaluate_slice(s_out, self.sout.point.as_slice()).equals(self.sout.value)
    }
}

/// Proves a trace with pins.
pub fn prove_trace_killshot<F: TowerField, T: FiatShamir<F>>(
    params: &PermParams<F>,
    s_in: &[F],
    s_out: &[F],
    state: &[F],
    n: usize,
    live: usize,
    pins: &Vec<EvalClaim<F>>,
    channel: &mut T,
) -> (out: (TraceProofKillShot<F>, TraceReductions<F>))
    requires
        n >= 9,
        s_in.len() == pow2(n as nat),
        s_out.len() == pow2(n as nat),
        state.len() == pow2(n as nat),
        claims_wf(claims_view(pins@), n as nat),
    ensures
        is_kill_proof(
            *params,
            live as nat,
            n as nat,
            s_in@,
            s_out@,
            state@,
            claims_view(pins@),
            *old(channel),
            out.0,
        ),
        ({
            let run = kill_run(
                *params,
                live as nat,
                n as nat,
                s_in@,
                s_out@,
                state@,
                claims_view(pins@),
                *old(channel),
                out.0,
            );
            out.1.of(run, out.0) && *final(channel) == run.channel
        }),
        out.1.hold(s_in@, s_out@, state@),
{
    let (kill_shot, r1, r2) = prove_trace_pair(params, s_in, s_out, state, n, live, channel);
    let claims = build_state_claims(&kill_shot, &r1, &r2, pins);
    proof {
        let want = state_claims(kill_shot, r1@, r2@, claims_view(pins@));
        assert forall|i: int| 0 <= i < want.len() implies (#[trigger] want[i]).point.len() == n by {
            if i >= 2 {
                assert(claims_view(pins@)[i - 2].point.len() == n);
            }
        }
    }
    let (state_batch, state_red) = prove_batch_eval(state, claims.as_slice(), channel);
    let claims = single_claim(&r2, kill_shot.shift.s_in_at_r2);
    let (sin_batch, sin_red) = prove_batch_eval(s_in, claims.as_slice(), channel);
    let claims = single_claim(&r2, kill_shot.shift.s_out_at_r2);
    let (sout_batch, sout_red) = prove_batch_eval(s_out, claims.as_slice(), channel);
    (
        TraceProofKillShot { kill_shot, state_batch, sin_batch, sout_batch },
        TraceReductions { state: state_red, sin: sin_red, sout: sout_red },
    )
}

/// What the verifier decides: the three final points on success, and the transcript that is
/// left.
pub struct KillVerdict<F, T> {
    pub run: Option<KillRun<F, T>>,
    pub channel: T,
}

/// The transcript after the verification of a batch.
pub open spec fn batch_after<F: TowerField, T: FiatShamir<F>>(
    proof: BatchEvalProof<F>,
    claims: Seq<ClaimView<F>>,
    n: nat,
    channel: T,
) -> T {
    if batch_shape(proof.rounds@, claims, n) {
        batch_check_run(proof.rounds@, claims, channel).channel
    } else {
        channel
    }
}

/// The verdict on a proof of a trace with pins.
pub open spec fn kill_verdict<F: TowerField, T: FiatShamir<F>>(
    params: PermParams<F>,
    live: nat,
    n: nat,
    pins: Seq<ClaimView<F>>,
    proof: TraceProofKillShot<F>,
    channel: T,
) -> KillVerdict<F, T> {
    let ks = proof.kill_shot;
    let pair = pair_verdict(params, live, n, ks, channel);
    if pair.points is None {
        KillVerdict { run: None, channel: pair.channel }
    } else {
        let (r1, r2) = pair.points->0;
        let c1 = state_claims(ks, r1, r2, pins);
        let c2 = sin_claims(ks, r2);
        let c3 = sout_claims(ks, r2);
        let ch1 = batch_after(proof.state_batch, c1, n, pair.channel);
        let ch2 = batch_after(proof.sin_batch, c2, n, ch1);
        let ch3 = batch_after(proof.sout_batch, c3, n, ch2);
        if !batch_accepts(
            proof.state_batch.rounds@,
            proof.state_batch.b_final,
            c1,
            n,
            pair.channel,
        ) {
            KillVerdict { run: None, channel: ch1 }
        } else if !batch_accepts(proof.sin_batch.rounds@, proof.sin_batch.b_final, c2, n, ch1) {
            KillVerdict { run: None, channel: ch2 }
        } else if !batch_accepts(proof.sout_batch.rounds@, proof.sout_batch.b_final, c3, n, ch2) {
            KillVerdict { run: None, channel: ch3 }
        } else {
            KillVerdict {
                run: Some(
                    KillRun {
                        state: batch_check_run(
                            proof.state_batch.rounds@,
                            c1,
                            pair.channel,
                        ).challenges.reverse(),
                        sin: batch_check_run(proof.sin_batch.rounds@, c2, ch1).challenges.reverse(),
                        sout: batch_check_run(
                            proof.sout_batch.rounds@,
                            c3,
                            ch2,
                        ).challenges.reverse(),
                        channel: ch3,
                    },
                ),
                channel: ch3,
            }
        }
    }
}

/// Verifies the parts of a proof of a trace with pins; on success returns the
/// claims that are left.
pub fn verify_trace_parts<F: TowerField, T: FiatShamir<F>>(
    params: &PermParams<F>,
    kill_shot: &AuthKillShotProof<F>,
    state_batch: &BatchEvalProof<F>,
    sin_batch: &BatchEvalProof<F>,
    sout_batch: &BatchEvalProof<F>,
    n: usize,
    live: usize,
    pins: &Vec<EvalClaim<F>>,
    channel: &mut T,
) -> (out: Option<TraceReductions<F>>)
    requires
        n >= 9,
        pow2(n as nat) <= usize::MAX,
    ensures
        ({
            let proof = TraceProofKillShot {
                kill_shot: *kill_shot,
                state_batch: *state_batch,
                sin_batch: *sin_batch,
                sout_batch: *sout_batch,
            };
            let want = kill_verdict(
                *params,
                live as nat,
                n as nat,
                claims_view(pins@),
                proof,
                *old(channel),
            );
            &&& *final(channel) == want.channel
            &&& match out {
                Some(red) => want.run is Some && red.of(want.run->0, proof),
                None => want.run is None,
            }
        }),
{
    let (r1, r2) = match verify_trace_pair(params, kill_shot, n, live, channel) {
        Some(points) => points,
        None => {
            return None;
        },
    };
    let claims = build_state_claims(kill_shot, &r1, &r2, pins);
    let state = match verify_batch_eval(state_batch, claims.as_slice(), n, channel) {
        Some(red) => red,
        None => {
            return None;
        },
    };
    let claims = single_claim(&r2, kill_shot.shift.s_in_at_r2);
    let sin = match verify_batch_eval(sin_batch, claims.as_slice(), n, channel) {
        Some(red) => red,
        None => {
            return None;
        },
    };
    let claims = single_claim(&r2, kill_shot.shift.s_out_at_r2);
    let sout = match verify_batch_eval(sout_batch, claims.as_slice(), n, channel) {
        Some(red) => red,
        None => {
            return None;
        },
    };
    Some(TraceReductions { state, sin, sout })
}

/// Verifies a proof of a trace with pins; on success returns the claims that are
/// left.
pub fn verify_trace_killshot<F: TowerField, T: FiatShamir<F>>(
    params: &PermParams<F>,
    proof: &TraceProofKillShot<F>,
    n: usize,
    live: usize,
    pins: &Vec<EvalClaim<F>>,
    channel: &mut T,
) -> (out: Option<TraceReductions<F>>)
    requires
        n >= 9,
        pow2(n as nat) <= usize::MAX,
    ensures
        ({
            let want = kill_verdict(
                *params,
                live as nat,
                n as nat,
                claims_view(pins@),
                *proof,
                *old(channel),
            );
            &&& *final(channel) == want.channel
            &&& match out {
                Some(red) => want.run is Some && red.of(want.run->0, *proof),
                None => want.run is None,
            }
        }),
{
    verify_trace_parts(
        params,
        &proof.kill_shot,
        &proof.state_batch,
        &proof.sin_batch,
        &proof.sout_batch,
        n,
        live,
        pins,
        channel,
    )
}

/// Completeness: the proof of the trace of permutations with true pins is
/// accepted, and the verifier arrives at the prover's points and transcript.
pub proof fn lemma_kill_complete<F: TowerField, T: FiatShamir<F>>(
    params: PermParams<F>,
    inputs: Seq<Seq<F>>,
    n: nat,
    pins: Seq<ClaimView<F>>,
    proof: TraceProofKillShot<F>,
    channel: T,
)
    requires
        n >= 9,
        claims_wf(pins, n),
        claims_hold(pins, state_column(params, inputs, pow2(n))),
        is_kill_proof(
            params,
            inputs.len(),
            n,
            sin_column(params, inputs, pow2(n)),
            sout_column(params, inputs, pow2(n)),
            state_column(params, inputs, pow2(n)),
            pins,
            channel,
            proof,
        ),
    ensures
        ({
            let run = kill_run(
                params,
                inputs.len(),
                n,
                sin_column(params, inputs, pow2(n)),
                sout_column(params, inputs, pow2(n)),
                state_column(params, inputs, pow2(n)),
                pins,
                channel,
                proof,
            );
            let v = kill_verdict(params, inputs.len(), n, pins, proof, channel);
            v.run == Some(run) && v.channel == run.channel
        }),
{
    let s_in = sin_column(params, inputs, pow2(n));
    let s_out = sout_column(params, inputs, pow2(n));
    let state = state_column(params, inputs, pow2(n));
    let ks = proof.kill_shot;
    lemma_pair_complete(params, inputs, n, ks, channel);
    let run = pair_run(params, inputs.len(), n, s_in, s_out, state, channel, ks);
    let c1 = state_claims(ks, run.r1, run.r2, pins);
    let c2 = sin_claims(ks, run.r2);
    let c3 = sout_claims(ks, run.r2);
    assert forall|i: int| 0 <= i < c1.len() implies (#[trigger] c1[i]).point.len() == n
        && c1[i].value == mle(state, c1[i].point) by {
        if i >= 2 {
            assert(c1[i] == pins[i - 2]);
            assert(pins[i - 2].point.len() == n);
            assert(pins[i - 2].value == mle(state, pins[i - 2].point));
        }
    }
    let b1 = batch_run(state, c1, n, run.channel);
    lemma_batch_complete(state, c1, n, proof.state_batch.rounds@, run.channel);
    let b2 = batch_run(s_in, c2, n, b1.channel);
    lemma_batch_complete(s_in, c2, n, proof.sin_batch.rounds@, b1.channel);
    lemma_batch_complete(s_out, c3, n, proof.sout_batch.rounds@, b2.channel);
}

/// The claim that a lane of the output of a slot has a value.
pub open spec fn output_claim<F: BinaryField>(n: nat, slot: int, lane: int, value: F) -> ClaimView<
    F,
> {
    ClaimView { point: cube_point(n, cell(slot, N_ROUNDS as int, lane)), value }
}

/// Builds [`output_claim`].
pub fn build_output_claim<F: TowerField>(n: usize, slot: usize, lane: usize, value: F) -> (c:
    EvalClaim<F>)
    requires
        9 <= n,
        pow2(n as nat) <= usize::MAX,
        (slot + 1) * 512 <= pow2(n as nat),
        lane < 4,
    ensures
        c.point@ == output_claim(n as nat, slot as int, lane as int, value).point,
        c.point.len() == n,
        c.value == value,
{
    let at: usize = pack_index(slot, N_ROUNDS, lane);
    EvalClaim { point: boolean_point(n, at), value }
}

/// A claim on the output of a permutation is true of the state column exactly
/// when it names the value of that output.
pub proof fn lemma_output_claim<F: TowerField>(
    params: PermParams<F>,
    inputs: Seq<Seq<F>>,
    n: nat,
    slot: int,
    lane: int,
    value: F,
)
    requires
        n >= 9,
        0 <= slot < inputs.len(),
        inputs.len() * 512 <= pow2(n),
        0 <= lane < 4,
    ensures
        output_claim(n, slot, lane, value).point.len() == n,
        mle(
            state_column(params, inputs, pow2(n)),
            output_claim(n, slot, lane, value).point,
        ) == permuted(params, inputs[slot])[lane],
{
    let y = cell(slot, N_ROUNDS as int, lane);
    lemma_parts_of_cell(slot, N_ROUNDS as int, lane);
    assert((slot + 1) * 512 <= inputs.len() * 512);
    let column = state_column(params, inputs, pow2(n));
    lemma_mle_on_cube(column, n, y);
    crate::mle::lemma_cube_point_len::<F>(n, y);
    assert(column[y] == state_cell(params, inputs, y));
}

} // verus!
