//! The proof of a trace with pinned cells, its three columns reduced together.
//!
//! The pins are claims on the state column. They join the claims that the proof
//! of the trace leaves, and one reduction brings the claims on all the columns
//! to one point.
use vstd::prelude::*;
use vstd::arithmetic::power2::pow2;
use crate::auth_unified_v2::AuthKillShotProof;
use crate::batch_eval::{ClaimView, EvalClaim, batch_messages, claims_hold, claims_view, claims_wf};
use crate::field::TowerField;
use crate::interleaved_commit::slice_views;
use crate::killshot::{TraceReductions, build_state_claims, is_pair_proof, lemma_pair_complete, pair_run, pair_verdict, prove_trace_pair, sin_claims, single_claim, sout_claims, state_claims, verify_trace_pair};
use crate::layers::PermParams;
use crate::linked_killshot::{LinkedRun, LinkedVerdict, copy_reduction};
use crate::mle::mle;
use crate::multi_batch::{MultiBatchEvalProof, groups_squeezed, groups_view, groups_wf, lemma_multi_complete, multi_accepts, multi_after, multi_check_run, multi_message, multi_run, multi_tables, prove_multi_batch_eval, verify_multi_batch_eval};
use crate::trace_mle::{sin_column, sout_column, state_column};
use crate::sumcheck::lemma_run_challenges;
use crate::transcript::FiatShamir;

verus! {

/// The claims on the three columns: both final points and the pins on the
/// state, the second final point on the others.
pub open spec fn pinned_groups<F>(
    ks: AuthKillShotProof<F>,
    r1: Seq<F>,
    r2: Seq<F>,
    pins: Seq<ClaimView<F>>,
) -> Seq<Seq<ClaimView<F>>> {
    seq![state_claims(ks, r1, r2, pins), sin_claims(ks, r2), sout_claims(ks, r2)]
}

/// The prover's run.
pub open spec fn pinned_run<F: TowerField, T: FiatShamir<F>>(
    params: PermParams<F>,
    live: nat,
    n: nat,
    s_in: Seq<F>,
    s_out: Seq<F>,
    state: Seq<F>,
    pins: Seq<ClaimView<F>>,
    channel: T,
    ks: AuthKillShotProof<F>,
) -> LinkedRun<F, T> {
    let pair = pair_run(params, live, n, s_in, s_out, state, channel, ks);
    let multi = multi_run(
        seq![state, s_in, s_out],
        pinned_groups(ks, pair.r1, pair.r2, pins),
        n,
        pair.channel,
    );
    LinkedRun { point: multi.challenges.reverse(), channel: multi.channel }
}

/// The proof of a trace with pins.
pub open spec fn is_pinned_proof<F: TowerField, T: FiatShamir<F>>(
    params: PermParams<F>,
    live: nat,
    n: nat,
    s_in: Seq<F>,
    s_out: Seq<F>,
    state: Seq<F>,
    pins: Seq<ClaimView<F>>,
    channel: T,
    ks: AuthKillShotProof<F>,
    batch: MultiBatchEvalProof<F>,
) -> bool {
    let pair = pair_run(params, live, n, s_in, s_out, state, channel, ks);
    let multi = multi_run(
        seq![state, s_in, s_out],
        pinned_groups(ks, pair.r1, pair.r2, pins),
        n,
        pair.channel,
    );
    let point = multi.challenges.reverse();
    &&& is_pair_proof(params, live, n, s_in, s_out, state, channel, ks)
    &&& batch_messages(batch.rounds@) == multi.messages
    &&& batch.b_finals@ == seq![mle(state, point), mle(s_in, point), mle(s_out, point)]
}

/// The three groups of claims.
fn build_groups<F: TowerField>(
    ks: &AuthKillShotProof<F>,
    r1: &Vec<F>,
    r2: &Vec<F>,
    pins: &Vec<EvalClaim<F>>,
) -> (groups: Vec<Vec<EvalClaim<F>>>)
    ensures
        groups_view(groups@) == pinned_groups(*ks, r1@, r2@, claims_view(pins@)),
        groups.len() == 3,
{
    let mut groups: Vec<Vec<EvalClaim<F>>> = Vec::new();
    groups.push(build_state_claims(ks, r1, r2, pins));
    groups.push(single_claim(r2, ks.shift.s_in_at_r2));
    groups.push(single_claim(r2, ks.shift.s_out_at_r2));
    proof {
        assert(groups_view(groups@) =~= pinned_groups(*ks, r1@, r2@, claims_view(pins@)));
    }
    groups
}

proof fn lemma_groups_wf<F: TowerField>(
    ks: AuthKillShotProof<F>,
    r1: Seq<F>,
    r2: Seq<F>,
    pins: Seq<ClaimView<F>>,
    n: nat,
)
    requires
        r1.len() == n,
        r2.len() == n,
        claims_wf(pins, n),
    ensures
        groups_wf(pinned_groups(ks, r1, r2, pins), n),
{
    let groups = pinned_groups(ks, r1, r2, pins);
    assert forall|c: int| 0 <= c < groups.len() implies claims_wf(#[trigger] groups[c], n) by {
        assert forall|i: int| 0 <= i < groups[c].len() implies (#[trigger] groups[c][i]).point.len()
            == n by {
            if c == 0 && i >= 2 {
                assert(groups[0][i] == pins[i - 2]);
            }
        }
    }
}

/// The reduction draws a challenge a variable.
proof fn lemma_run_len<F: TowerField, T: FiatShamir<F>>(
    columns: Seq<Seq<F>>,
    groups: Seq<Seq<ClaimView<F>>>,
    n: nat,
    channel: T,
)
    ensures
        multi_run(columns, groups, n, channel).challenges.len() == n,
{
    lemma_run_challenges(
        multi_tables(columns, groups, n, channel),
        groups_squeezed(groups, channel, groups.len()),
        multi_message(groups.len()),
        n,
    );
}

/// Proves a trace with pins.
pub fn prove_pinned<F: TowerField, T: FiatShamir<F>>(
    params: &PermParams<F>,
    s_in: &[F],
    s_out: &[F],
    state: &[F],
    n: usize,
    live: usize,
    pins: &Vec<EvalClaim<F>>,
    channel: &mut T,
) -> (out: (AuthKillShotProof<F>, MultiBatchEvalProof<F>, TraceReductions<F>))
    requires
        n >= 9,
        s_in.len() == pow2(n as nat),
        s_out.len() == pow2(n as nat),
        state.len() == pow2(n as nat),
        claims_wf(claims_view(pins@), n as nat),
    ensures
        is_pinned_proof(
            *params,
            live as nat,
            n as nat,
            s_in@,
            s_out@,
            state@,
            claims_view(pins@),
            *old(channel),
            out.0,
            out.1,
        ),
        ({
            let run = pinned_run(
                *params,
                live as nat,
                n as nat,
                s_in@,
                s_out@,
                state@,
                claims_view(pins@),
                *old(channel),
                out.0,
            );
            out.2.at_point(run.point, out.1) && *final(channel) == run.channel && run.point.len()
                == n
        }),
        out.2.hold(s_in@, s_out@, state@),
{
    let (ks, r1, r2) = prove_trace_pair(params, s_in, s_out, state, n, live, channel);
    let groups = build_groups(&ks, &r1, &r2, pins);
    proof {
        lemma_groups_wf(ks, r1@, r2@, claims_view(pins@), n as nat);
    }
    let columns: [&[F]; 3] = [state, s_in, s_out];
    proof {
        assert(slice_views(columns@) =~= seq![state@, s_in@, s_out@]);
        assert forall|c: int| 0 <= c < columns.len() implies (#[trigger] columns[c]).len() == pow2(
            n as nat,
        ) by {}
    }
    let ghost mid = *channel;
    let (batch, reds) = prove_multi_batch_eval(columns.as_slice(), &groups, n, channel);
    proof {
        lemma_run_len(
            seq![state@, s_in@, s_out@],
            pinned_groups(ks, r1@, r2@, claims_view(pins@)),
            n as nat,
            mid,
        );
        let cols = seq![state@, s_in@, s_out@];
        assert(reds[0].value == mle(cols[0], reds[0].point@));
        assert(reds[1].value == mle(cols[1], reds[1].point@));
        assert(reds[2].value == mle(cols[2], reds[2].point@));
        assert(batch.b_finals@ =~= seq![
            mle(state@, reds[0].point@),
            mle(s_in@, reds[0].point@),
            mle(s_out@, reds[0].point@),
        ]);
    }
    let reductions = TraceReductions {
        state: copy_reduction(&reds[0]),
        sin: copy_reduction(&reds[1]),
        sout: copy_reduction(&reds[2]),
    };
    (ks, batch, reductions)
}

/// The verdict on a proof of a trace with pins.
pub open spec fn pinned_verdict<F: TowerField, T: FiatShamir<F>>(
    params: PermParams<F>,
    live: nat,
    n: nat,
    pins: Seq<ClaimView<F>>,
    channel: T,
    ks: AuthKillShotProof<F>,
    batch: MultiBatchEvalProof<F>,
) -> LinkedVerdict<F, T> {
    let pair = pair_verdict(params, live, n, ks, channel);
    if pair.points is None {
        LinkedVerdict { point: None, channel: pair.channel }
    } else {
        let (r1, r2) = pair.points->0;
        let groups = pinned_groups(ks, r1, r2, pins);
        let end = multi_after(batch.rounds@, batch.b_finals@, groups, n, pair.channel);
        if !multi_accepts(batch.rounds@, batch.b_finals@, groups, n, pair.channel) {
            LinkedVerdict { point: None, channel: end }
        } else {
            LinkedVerdict {
                point: Some(
                    multi_check_run(batch.rounds@, groups, pair.channel).challenges.reverse(),
                ),
                channel: end,
            }
        }
    }
}

/// Verifies a proof of a trace with pins; on success returns the claims that are
/// left.
pub fn verify_pinned<F: TowerField, T: FiatShamir<F>>(
    params: &PermParams<F>,
    ks: &AuthKillShotProof<F>,
    batch: &MultiBatchEvalProof<F>,
    n: usize,
    live: usize,
    pins: &Vec<EvalClaim<F>>,
    channel: &mut T,
) -> (out: Option<TraceReductions<F>>)
    requires
        n >= 9,
        pow2(n as nat) <= usize::MAX,
    ensures
        ({
            let want = pinned_verdict(
                *params,
                live as nat,
                n as nat,
                claims_view(pins@),
                *old(channel),
                *ks,
                *batch,
            );
            &&& *final(channel) == want.channel
            &&& match out {
                Some(red) => want.point is Some && red.at_point(want.point->0, *batch)
                    && batch.b_finals.len() == 3 && want.point->0.len() == n,
                None => want.point is None,
            }
        }),
{
    let (r1, r2) = match verify_trace_pair(params, ks, n, live, channel) {
        Some(points) => points,
        None => {
            return None;
        },
    };
    let groups = build_groups(ks, &r1, &r2, pins);
    match verify_multi_batch_eval(batch, &groups, n, channel) {
        None => None,
        Some(reds) => {
            proof {
                assert(reds[0].value == batch.b_finals[0]);
                assert(reds[1].value == batch.b_finals[1]);
                assert(reds[2].value == batch.b_finals[2]);
            }
            Some(
                TraceReductions {
                    state: copy_reduction(&reds[0]),
                    sin: copy_reduction(&reds[1]),
                    sout: copy_reduction(&reds[2]),
                },
            )
        },
    }
}

/// Completeness: the proof of the trace of permutations with true pins is
/// accepted, and the verifier arrives at the prover's point and transcript.
pub proof fn lemma_pinned_complete<F: TowerField, T: FiatShamir<F>>(
    params: PermParams<F>,
    inputs: Seq<Seq<F>>,
    n: nat,
    pins: Seq<ClaimView<F>>,
    channel: T,
    ks: AuthKillShotProof<F>,
    batch: MultiBatchEvalProof<F>,
)
    requires
        n >= 9,
        claims_wf(pins, n),
        claims_hold(pins, state_column(params, inputs, pow2(n))),
        is_pinned_proof(
            params,
            inputs.len(),
            n,
            sin_column(params, inputs, pow2(n)),
            sout_column(params, inputs, pow2(n)),
            state_column(params, inputs, pow2(n)),
            pins,
            channel,
            ks,
            batch,
        ),
    ensures
        ({
            let run = pinned_run(
                params,
                inputs.len(),
                n,
                sin_column(params, inputs, pow2(n)),
                sout_column(params, inputs, pow2(n)),
                state_column(params, inputs, pow2(n)),
                pins,
                channel,
                ks,
            );
            let v = pinned_verdict(params, inputs.len(), n, pins, channel, ks, batch);
            v.point == Some(run.point) && v.channel == run.channel && run.point.len() == n
        }),
{
    let s_in = sin_column(params, inputs, pow2(n));
    let s_out = sout_column(params, inputs, pow2(n));
    let state = state_column(params, inputs, pow2(n));
    lemma_pair_complete(params, inputs, n, ks, channel);
    let pair = pair_run(params, inputs.len(), n, s_in, s_out, state, channel, ks);
    let groups = pinned_groups(ks, pair.r1, pair.r2, pins);
    let columns = seq![state, s_in, s_out];
    lemma_groups_wf(ks, pair.r1, pair.r2, pins, n);
    assert forall|c: int| 0 <= c < groups.len() implies claims_hold(
        #[trigger] groups[c],
        columns[c],
    ) by {
        assert forall|i: int| 0 <= i < groups[c].len() implies (#[trigger] groups[c][i]).value
            == mle(columns[c], groups[c][i].point) by {
            if c == 0 && i >= 2 {
                assert(groups[0][i] == pins[i - 2]);
                assert(pins[i - 2].value == mle(state, pins[i - 2].point));
            }
        }
    }
    assert forall|c: int| 0 <= c < columns.len() implies (#[trigger] columns[c]).len() == pow2(
        n,
    ) by {}
    let multi = multi_run(columns, groups, n, pair.channel);
    let point = multi.challenges.reverse();
    assert forall|c: int| 0 <= c < groups.len() implies #[trigger] batch.b_finals@[c] == mle(
        columns[c],
        point,
    ) by {}
    lemma_run_len(columns, groups, n, pair.channel);
    lemma_multi_complete(columns, groups, n, batch.rounds@, batch.b_finals@, pair.channel);
}

} // verus!
