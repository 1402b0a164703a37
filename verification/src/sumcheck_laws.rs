//! Laws of the sumchecks: what their transcripts keep, and what their verifiers
//! say of the columns.
use vstd::prelude::*;
use vstd::arithmetic::power2::pow2;
use crate::auth_circuit::{AuthInputs, AuthIvs, N_AUTH_INPUTS};
use crate::auth_killshot::{auth_state_ins, lemma_auth_pins};
use crate::auth_oracle::{derived_address, derived_auth_tag};
use crate::auth_sumcheck::{AuthProof, N_AUTH_BOUNDARY_VARS, auth_start, auth_sumcheck_verdict, boundary_column, input_pins, slot_claims, slots_verdict};
use crate::auth_unified_v2::{AuthKillShotProof, shift_check_run, shift_claim, shift_claims, unified_beta, unified_check_run, unified_claims, unified_gamma, unified_rho, unified_start};
use crate::batch_eval::{BatchEvalProof, ClaimView, batch_accepts, batch_alphas, batch_channel, batch_check_run, batch_messages, claim_elems, claims_hold, claims_wf, combined_claim, lemma_batch_sound};
use crate::bound_statements::{lemma_claim_elems, lemma_claims_bound};
use crate::compact_fri::{fri_check_run, round_depth};
use crate::compressed_rounds::{lemma_never_refused, no_check, restored_eval, wire_messages};
use crate::field::{BinaryField, TowerField, lemma_add_cancel};
use crate::fri::FriChannel;
use crate::hashing::HashOutput;
use crate::killshot::{KillRun, TraceProofKillShot, TraceReductions, batch_after, kill_verdict, pair_verdict, sin_claims, sout_claims, state_claims};
use crate::layers::{N_ROUNDS, PermParams};
use crate::linear_eval::{LinearEvalProof, LinearView, linear_alphas, linear_bound, linear_check_run, linear_target};
use crate::linked_killshot::{linked_groups, linked_verdict};
use crate::mle::{cube_point, eq_at, lemma_mle_eq_table, lemma_mle_on_cube, lemma_mle_sum, mle};
use crate::multi_batch::{MultiBatchEvalProof, group_alphas, groups_absorbed, groups_squeezed, multi_accepts, multi_check_run, multi_target};
use crate::owner_auth::OWNER_AUTH_NUM_VARS;
use crate::owner_boundary::{ConstraintView, OwnerAuthBoundaryProof, boundary_accepts, boundary_after, boundary_alphas, boundary_bound, boundary_start, boundary_target};
use crate::owner_killshot::{OwnerAuthProofKillShot, owner_claims, owner_core_verdict};
use crate::owner_shift::{OwnerAuthShiftProof, owner_shift_accepts, owner_shift_after, owner_target};
use crate::owner_state::{OwnerAuthUnifiedProof, state_accepts, state_after, state_check_run, state_claims_of};
use crate::perm_sumcheck::{PermProof, expand_target, expand_weights, perm_constants, perm_verdict};
use crate::pinned_killshot::{pinned_groups, pinned_verdict};
use crate::rounds::{coeff_check, coeff_eval, lemma_rounds_sound, poly_messages, rounds_misled};
use crate::short_hash::{ShortHash, lemma_narrow_wide, wide};
use crate::soundness::{all_zero, hides, lemma_accepted_challenges, lemma_zero_hidden};
use crate::source_binding::{binding_observed, roots_committed};
use crate::spine_degree7::{SpineD7Proof, sbox_accepts, sbox_check_run, sbox_identity, sbox_rho, sbox_tables, sbox_term};
use crate::spine_mle::{N_SPINE_UNIFIED_VARS, SpineUnifiedMle};
use crate::sum::{lemma_sum_add, lemma_sum_ext};
use crate::sumcheck::{tables_wf, total, value_check, value_eval, values_at, verifier_run};
use crate::trace::{cell, lemma_parts_of_cell, mu_cell, rc_cell};
use crate::trace_mle::state_column;
use crate::trace_soundness::{batch_fooled, identity_sum, lemma_pair_sound, pair_fooled};
use crate::transcript::{FiatShamir, absorb_all, challenges, keeps_all, lemma_absorb_injective, lemma_challenge_at, lemma_challenges_len, lemma_squeeze_injective, squeezed_by};
use crate::weighted_state::{lemma_weighted_sound, weighted_eval, weighted_messages, weighted_misled, weighted_total};

verus! {

/// Every message of a sumcheck enters the transcript before the challenge of its
/// round.
pub proof fn lemma_messages_bound<F: BinaryField, T: FiatShamir<F>>(
    x: F,
    y: F,
    c: T,
    d: T,
    a: Seq<Seq<F>>,
    b: Seq<Seq<F>>,
    check: spec_fn(Seq<F>, F) -> bool,
    eval: spec_fn(Seq<F>, F, F) -> F,
    k: nat,
)
    requires
        keeps_all::<F, T>(),
        k <= a.len(),
        k <= b.len(),
        forall|i: int| 0 <= i < k ==> (#[trigger] a[i]).len() == b[i].len(),
        verifier_run(x, c, a, check, eval, k).ok,
        verifier_run(y, d, b, check, eval, k).ok,
        verifier_run(x, c, a, check, eval, k).channel == verifier_run(
            y,
            d,
            b,
            check,
            eval,
            k,
        ).channel,
    ensures
        c == d,
        forall|i: int| 0 <= i < k ==> #[trigger] a[i] == b[i],
    decreases k,
{
    if k > 0 {
        let p = verifier_run(x, c, a, check, eval, (k - 1) as nat);
        let q = verifier_run(y, d, b, check, eval, (k - 1) as nat);
        let (m, n) = (a[k - 1], b[k - 1]);
        assert(absorb_all(p.channel, m).squeezed() == absorb_all(q.channel, n).squeezed());
        lemma_absorb_injective(p.channel, q.channel, m, n);
        lemma_messages_bound(x, y, c, d, a, b, check, eval, (k - 1) as nat);
    }
}

/// Whether a kind of transcript keeps the roots that are committed on it.
pub open spec fn keeps_roots<F, T: FriChannel<F>>() -> bool {
    forall|a: T, b: T, x: HashOutput, y: HashOutput, m: nat, n: nat| #[trigger]
        a.committed(x, m) == #[trigger] b.committed(y, n) ==> a == b && x == y && m == n
}

/// Every message and every root of the rounds of an opening enters the transcript
/// before the challenge of its round.
pub proof fn lemma_fri_rounds_bound<F: TowerField, T: FriChannel<F>>(
    a: Seq<Seq<F>>,
    b: Seq<Seq<F>>,
    u: Seq<HashOutput>,
    v: Seq<HashOutput>,
    x: F,
    y: F,
    c: T,
    d: T,
    n_rounds: nat,
    k: nat,
)
    requires
        keeps_all::<F, T>(),
        keeps_roots::<F, T>(),
        fri_check_run(a, u, x, c, n_rounds, k).failed is None,
        fri_check_run(b, v, y, d, n_rounds, k).failed is None,
        fri_check_run(a, u, x, c, n_rounds, k).channel == fri_check_run(
            b,
            v,
            y,
            d,
            n_rounds,
            k,
        ).channel,
    ensures
        c == d,
        forall|i: int|
            0 <= i < k ==> #[trigger] a[i][0] == b[i][0] && a[i][1] == b[i][1] && u[i] == v[i],
    decreases k,
{
    if k > 0 {
        let r = (k - 1) as nat;
        let p = fri_check_run(a, u, x, c, n_rounds, r).channel;
        let q = fri_check_run(b, v, y, d, n_rounds, r).channel;
        let depth = round_depth(n_rounds, r);
        let (p1, q1) = (p.absorbed(a[k - 1][0]), q.absorbed(b[k - 1][0]));
        let (p2, q2) = (p1.absorbed(a[k - 1][1]), q1.absorbed(b[k - 1][1]));
        assert(p2.committed(u[k - 1], depth).squeezed() == q2.committed(
            v[k - 1],
            depth,
        ).squeezed());
        assert(p2.committed(u[k - 1], depth) == q2.committed(v[k - 1], depth));
        assert(p2 == q2);
        assert(p1 == q1);
        assert(p == q);
        lemma_fri_rounds_bound(a, b, u, v, x, y, c, d, n_rounds, r);
    }
}

proof fn lemma_roots_bound<F: TowerField, T: FriChannel<F>>(
    u: Seq<ShortHash>,
    v: Seq<ShortHash>,
    c: T,
    d: T,
    log_n: nat,
    k: nat,
)
    requires
        keeps_roots::<F, T>(),
        roots_committed::<F, T>(c, u, log_n, k) == roots_committed::<F, T>(d, v, log_n, k),
    ensures
        c == d,
        forall|i: int| 0 <= i < k ==> #[trigger] u[i] == v[i],
    decreases k,
{
    if k > 0 {
        let p = roots_committed::<F, T>(c, u, log_n, (k - 1) as nat);
        let q = roots_committed::<F, T>(d, v, log_n, (k - 1) as nat);
        let depth = (log_n - k + 1) as nat;
        assert(p.committed(wide(u[k - 1]), depth) == q.committed(wide(v[k - 1]), depth));
        lemma_narrow_wide(u[k - 1]);
        lemma_narrow_wide(v[k - 1]);
        lemma_roots_bound(u, v, c, d, log_n, (k - 1) as nat);
    }
}

/// The revealed table and all the roots of a binding enter the transcript before
/// its queries are drawn.
pub proof fn lemma_binding_bound<F: TowerField, T: FriChannel<F>>(
    u: Seq<ShortHash>,
    v: Seq<ShortHash>,
    g: Seq<F>,
    h: Seq<F>,
    c: T,
    d: T,
    log_n: nat,
)
    requires
        keeps_all::<F, T>(),
        keeps_roots::<F, T>(),
        u.len() == v.len(),
        g.len() == h.len(),
        binding_observed(c, u, g, log_n) == binding_observed(d, v, h, log_n),
    ensures
        c == d,
        u == v,
        g == h,
{
    let tag = F::of_u128(crate::source_binding::MIXED_SOURCE_BINDING_TAG);
    let (p, q) = (absorb_all(c.absorbed(tag), g), absorb_all(d.absorbed(tag), h));
    lemma_roots_bound(u, v, p, q, log_n, u.len());
    lemma_absorb_injective(c.absorbed(tag), d.absorbed(tag), g, h);
    assert(u =~= v);
}

/// Every claim that the two sumchecks of a trace leave enters the transcript.
pub proof fn lemma_pair_bound<F: TowerField, T: FiatShamir<F>>(
    params: PermParams<F>,
    live: nat,
    n: nat,
    p: AuthKillShotProof<F>,
    q: AuthKillShotProof<F>,
    c: T,
    d: T,
)
    requires
        keeps_all::<F, T>(),
        pair_verdict(params, live, n, p, c).points is Some,
        pair_verdict(params, live, n, q, d).points is Some,
        forall|i: int|
            0 <= i < n ==> (#[trigger] p.main.round_polys[i]).coeffs.len()
                == q.main.round_polys[i].coeffs.len(),
        forall|i: int|
            0 <= i < n ==> (#[trigger] p.shift.round_polys[i]).coeffs.len()
                == q.shift.round_polys[i].coeffs.len(),
        pair_verdict(params, live, n, p, c).channel == pair_verdict(
            params,
            live,
            n,
            q,
            d,
        ).channel,
    ensures
        c == d,
        forall|i: int|
            0 <= i < n ==> (#[trigger] p.main.round_polys[i]).coeffs@
                == q.main.round_polys[i].coeffs@,
        forall|i: int|
            0 <= i < n ==> (#[trigger] p.shift.round_polys[i]).coeffs@
                == q.shift.round_polys[i].coeffs@,
        p.main.state_at_r == q.main.state_at_r,
        p.main.s_in_dec_at_r == q.main.s_in_dec_at_r,
        p.main.s_out_dec_at_r == q.main.s_out_dec_at_r,
        p.main.state_dec_at_r == q.main.state_dec_at_r,
        p.main.s_out_lane_dec_at_r@ == q.main.s_out_lane_dec_at_r@,
        p.main.state_lane_dec_at_r@ == q.main.state_lane_dec_at_r@,
        p.shift.s_in_at_r2 == q.shift.s_in_at_r2,
        p.shift.s_out_at_r2 == q.shift.s_out_at_r2,
        p.shift.state_at_r2 == q.shift.state_at_r2,
{
    let (r1, s1) = (
        unified_check_run(p.main.round_polys@, n, c),
        unified_check_run(q.main.round_polys@, n, d),
    );
    let mp = absorb_all(r1.channel, unified_claims(p.main));
    let mq = absorb_all(s1.channel, unified_claims(q.main));
    let (x, y) = (p.main.shifted(r1.challenges.reverse()), q.main.shifted(s1.challenges.reverse()));
    let r2 = shift_check_run(p.shift.round_polys@, x, mp);
    let s2 = shift_check_run(q.shift.round_polys@, y, mq);
    let (ap, aq) = (poly_messages(p.shift.round_polys@), poly_messages(q.shift.round_polys@));
    let (bp, bq) = (poly_messages(p.main.round_polys@), poly_messages(q.main.round_polys@));
    let (cp, cq) = (shift_claims(p.shift), shift_claims(q.shift));
    lemma_absorb_injective(r2.channel, s2.channel, cp, cq);
    assert(cp[0] == cq[0] && cp[1] == cq[1] && cp[2] == cq[2]);
    assert forall|i: int| 0 <= i < n implies (#[trigger] ap[i]).len() == aq[i].len() by {
        assert(p.shift.round_polys[i].coeffs.len() == q.shift.round_polys[i].coeffs.len());
    }
    lemma_messages_bound(
        shift_claim(x, mp),
        shift_claim(y, mq),
        mp.squeezed(),
        mq.squeezed(),
        ap,
        aq,
        coeff_check(),
        coeff_eval(),
        n,
    );
    let (dp, dq) = (unified_claims(p.main), unified_claims(q.main));
    lemma_absorb_injective(r1.channel, s1.channel, dp, dq);
    assert(dp[0] == dq[0] && dp[1] == dq[1] && dp[2] == dq[2] && dp[3] == dq[3]);
    assert(dp.subrange(4, 8) =~= p.main.s_out_lane_dec_at_r@);
    assert(dq.subrange(4, 8) =~= q.main.s_out_lane_dec_at_r@);
    assert(dp.subrange(8, 12) =~= p.main.state_lane_dec_at_r@);
    assert(dq.subrange(8, 12) =~= q.main.state_lane_dec_at_r@);
    assert forall|i: int| 0 <= i < n implies (#[trigger] bp[i]).len() == bq[i].len() by {
        assert(p.main.round_polys[i].coeffs.len() == q.main.round_polys[i].coeffs.len());
    }
    lemma_messages_bound(
        F::zero(),
        F::zero(),
        unified_start(n, c),
        unified_start(n, d),
        bp,
        bq,
        coeff_check(),
        coeff_eval(),
        n,
    );
    lemma_squeeze_injective(c, d, n);
    assert forall|i: int| 0 <= i < n implies (#[trigger] p.main.round_polys[i]).coeffs@
        == q.main.round_polys[i].coeffs@ by {
        assert(bp[i] == bq[i]);
    }
    assert forall|i: int| 0 <= i < n implies (#[trigger] p.shift.round_polys[i]).coeffs@
        == q.shift.round_polys[i].coeffs@ by {
        assert(ap[i] == aq[i]);
    }
}

/// The challenges that combine claims are drawn after the claims, one a claim.
pub proof fn lemma_alphas_drawn<F: TowerField, T: FiatShamir<F>>(
    claims: Seq<ClaimView<F>>,
    channel: T,
    i: int,
)
    requires
        0 <= i < claims.len(),
    ensures
        batch_alphas(claims, channel).len() == claims.len(),
        batch_alphas(claims, channel)[i] == squeezed_by(
            absorb_all(channel, claim_elems(claims)),
            i as nat,
        ).challenge(),
{
    let after = absorb_all(channel, claim_elems(claims));
    lemma_challenges_len(after, claims.len());
    lemma_challenge_at(after, claims.len(), i);
}

/// The challenges that combine links, and those that combine constraints, are
/// drawn one after the other.
pub proof fn lemma_link_alphas_drawn<F: TowerField, T: FiatShamir<F>>(
    m: nat,
    tag: u128,
    channel: T,
    i: int,
)
    requires
        0 <= i < m,
    ensures
        linear_alphas::<F, T>(m, tag, channel).len() == m,
        linear_alphas::<F, T>(m, tag, channel)[i] == squeezed_by(
            channel.absorbed(F::of_u128(tag)),
            i as nat,
        ).challenge(),
        boundary_alphas::<F, T>(m, channel).len() == m,
        boundary_alphas::<F, T>(m, channel)[i] == squeezed_by(
            boundary_bound::<F, T>(m, channel),
            i as nat,
        ).challenge(),
{
    let a = channel.absorbed(F::of_u128(tag));
    let b = boundary_bound::<F, T>(m, channel);
    lemma_challenges_len(a, m);
    lemma_challenge_at(a, m, i);
    lemma_challenges_len(b, m);
    lemma_challenge_at(b, m, i);
}

/// The point and the two challenges of the unified sumcheck are drawn one after
/// the other.
pub proof fn lemma_unified_drawn<F: TowerField, T: FiatShamir<F>>(n: nat, channel: T, i: int)
    requires
        0 <= i < n,
    ensures
        unified_rho(n, channel).len() == n,
        unified_rho(n, channel)[i] == squeezed_by(channel, i as nat).challenge(),
        unified_beta(n, channel) == squeezed_by(channel, n).challenge(),
        unified_gamma(n, channel) == squeezed_by(channel, n + 1).challenge(),
        unified_start(n, channel) == squeezed_by(channel, n + 2),
{
    lemma_challenges_len(channel, n);
    lemma_challenge_at(channel, n, i);
    reveal_with_fuel(squeezed_by, 3);
}

/// What is left of a proof of a trace are its last values at the final points,
/// and it holds only if all three are true of their columns.
pub proof fn lemma_reductions<F: TowerField, T>(
    red: TraceReductions<F>,
    run: KillRun<F, T>,
    proof: TraceProofKillShot<F>,
    s_in: Seq<F>,
    s_out: Seq<F>,
    state: Seq<F>,
)
    requires
        red.of(run, proof),
    ensures
        red.hold(s_in, s_out, state) <==> {
            &&& proof.state_batch.b_final == mle(state, run.state)
            &&& proof.sin_batch.b_final == mle(s_in, run.sin)
            &&& proof.sout_batch.b_final == mle(s_out, run.sout)
        },
{
}

/// What is left of a proof whose columns are reduced together are its last values
/// at one point, and it holds only if all three are true of their columns.
pub proof fn lemma_reductions_at<F: TowerField>(
    red: TraceReductions<F>,
    point: Seq<F>,
    batch: MultiBatchEvalProof<F>,
    s_in: Seq<F>,
    s_out: Seq<F>,
    state: Seq<F>,
)
    requires
        red.at_point(point, batch),
    ensures
        red.hold(s_in, s_out, state) <==> {
            &&& batch.b_finals[0] == mle(state, point)
            &&& batch.b_finals[1] == mle(s_in, point)
            &&& batch.b_finals[2] == mle(s_out, point)
        },
{
}

/// The inputs of the power layers that belong to a column of states: the states of
/// the rounds, with the constants in the active lanes.
pub open spec fn expanded<F: TowerField>(params: PermParams<F>, state: Seq<F>) -> Seq<F> {
    Seq::new(512, |y: int| mu_cell::<F>(1, y).mul(state[y]).add(rc_cell(params, 1, y)))
}

/// The last sumcheck of a permutation is about the inputs that belong to the
/// states.
proof fn lemma_expanded<F: TowerField>(params: PermParams<F>, state: Seq<F>, r: Seq<F>)
    requires
        r.len() == 9,
        state.len() == 512,
    ensures
        expand_target(params, r, mle(expanded(params, state), r)) == weighted_total(
            expand_weights(r),
            state,
        ),
{
    vstd::arithmetic::power2::lemma2_to64();
    let s_in = expanded(params, state);
    let rc = perm_constants(params);
    let w = expand_weights(r);
    lemma_mle_sum(s_in, r);
    lemma_mle_sum(rc, r);
    let f = |y: int| eq_at(r, y).mul(s_in[y]);
    let g = |y: int| eq_at(r, y).mul(rc[y]);
    lemma_sum_add(512, f, g);
    let both = |y: int| f(y).add(g(y));
    let want = |y: int| w[y].mul(state[y]);
    assert forall|y: int| 0 <= y < 512 implies #[trigger] both(y) == want(y) by {
        let e = eq_at(r, y);
        let m = mu_cell::<F>(1, y).mul(state[y]);
        F::mul_add(e, s_in[y], rc[y]);
        lemma_add_cancel(m, rc[y]);
        F::mul_assoc(e, mu_cell::<F>(1, y), state[y]);
    }
    lemma_sum_ext(512, both, want);
}

/// Soundness of the proof of a permutation: where it is accepted with an output
/// value and leaves claims that are true of columns, the identity of the
/// permutation sums to zero over the columns, with the inputs of the power layers
/// that belong to the states, or a challenge fooled the verifier.
pub proof fn lemma_perm_sound<F: TowerField, T: FiatShamir<F>>(
    params: PermParams<F>,
    v0: F,
    channel: T,
    proof: PermProof<F>,
    state: Seq<F>,
    s_out: Seq<F>,
)
    requires
        state.len() == 512,
        s_out.len() == 512,
        perm_verdict(params, v0, channel, proof).points is Some,
        ({
            let (r0, claims) = perm_verdict(params, v0, channel, proof).points->0;
            v0 == mle(s_out, r0) && claims_hold(claims, state)
        }),
    ensures
        ({
            let s_in = expanded(params, state);
            let pair = pair_verdict(params, 1, 9, proof.pair, channel);
            let (r1, r2) = pair.points->0;
            let target = expand_target(params, r2, proof.pair.shift.s_in_at_r2);
            ||| identity_sum(params, 1, 9, s_in, s_out, state, channel) == F::zero()
            ||| pair_fooled(params, 1, 9, s_in, s_out, state, proof.pair, channel)
            ||| exists|j: nat|
                j < 9 && #[trigger] weighted_misled(
                    expand_weights(r2),
                    state,
                    9,
                    proof.expand@,
                    target,
                    pair.channel,
                    j,
                )
        }),
{
    vstd::arithmetic::power2::lemma2_to64();
    reveal(perm_verdict);
    let s_in = expanded(params, state);
    let pair = pair_verdict(params, 1, 9, proof.pair, channel);
    let (r1, r2) = pair.points->0;
    let (r0, claims) = perm_verdict(params, v0, channel, proof).points->0;
    assert(claims[0].value == mle(state, claims[0].point));
    assert(claims[1].value == mle(state, claims[1].point));
    assert(claims[2].value == mle(state, claims[2].point));
    let target = expand_target(params, r2, proof.pair.shift.s_in_at_r2);
    lemma_weighted_sound(expand_weights(r2), state, 9, proof.expand@, target, pair.channel);
    lemma_pair_points(params, 1, 9, proof.pair, channel);
    if target == weighted_total(expand_weights(r2), state) {
        lemma_expanded(params, state, r2);
        let k = mle(perm_constants(params), r2);
        lemma_add_cancel(proof.pair.shift.s_in_at_r2, k);
        lemma_add_cancel(mle(s_in, r2), k);
        assert(proof.pair.shift.s_in_at_r2 == mle(s_in, r2));
        lemma_pair_sound(params, 1, 9, s_in, s_out, state, proof.pair, channel);
    }
}

/// The final points have a coordinate a variable.
proof fn lemma_pair_points<F: TowerField, T: FiatShamir<F>>(
    params: PermParams<F>,
    live: nat,
    n: nat,
    proof: AuthKillShotProof<F>,
    channel: T,
)
    requires
        pair_verdict(params, live, n, proof, channel).points is Some,
    ensures
        (pair_verdict(params, live, n, proof, channel).points->0).0.len() == n,
        (pair_verdict(params, live, n, proof, channel).points->0).1.len() == n,
{
    let run = unified_check_run(proof.main.round_polys@, n, channel);
    let mid = absorb_all(run.channel, unified_claims(proof.main));
    let red = proof.main.shifted(run.challenges.reverse());
    lemma_accepted_challenges(
        F::zero(),
        unified_start(n, channel),
        poly_messages(proof.main.round_polys@),
        coeff_check(),
        coeff_eval(),
        n,
    );
    lemma_accepted_challenges(
        shift_claim(red, mid),
        mid.squeezed(),
        poly_messages(proof.shift.round_polys@),
        coeff_check(),
        coeff_eval(),
        n,
    );
}

/// In accepted proofs of permutations each one is accepted with its value, and
/// its claims are among the claims that are collected.
pub proof fn lemma_slots_accepted<F: TowerField, T: FiatShamir<F>>(
    params: PermParams<F>,
    slots: Seq<PermProof<F>>,
    values: Seq<F>,
    channel: T,
    k: nat,
    s: int,
    b: Seq<F>,
)
    requires
        0 <= s < k,
        slots_verdict(params, slots, values, channel, k).claims is Some,
        claims_hold(slots_verdict(params, slots, values, channel, k).claims->0, b),
    ensures
        ({
            let before = slots_verdict(params, slots, values, channel, s as nat);
            let v = perm_verdict(params, values[s], before.channel, slots[s]);
            &&& before.claims is Some
            &&& v.points is Some
            &&& claims_hold(slot_claims(s, (v.points->0).0, values[s], (v.points->0).1), b)
        }),
    decreases k,
{
    let prev = slots_verdict(params, slots, values, channel, (k - 1) as nat);
    let v = perm_verdict(params, values[k - 1], prev.channel, slots[k - 1]);
    let own = slot_claims(k - 1, (v.points->0).0, values[k - 1], (v.points->0).1);
    let all = slots_verdict(params, slots, values, channel, k).claims->0;
    let front = prev.claims->0;
    assert(all == front + own);
    if s < k - 1 {
        assert forall|i: int| 0 <= i < front.len() implies #[trigger] front[i].value == mle(
            b,
            front[i].point,
        ) by {
            assert(all[i] == front[i]);
        }
        lemma_slots_accepted(params, slots, values, channel, (k - 1) as nat, s, b);
    } else {
        assert forall|i: int| 0 <= i < own.len() implies #[trigger] own[i].value == mle(
            b,
            own[i].point,
        ) by {
            assert(all[front.len() + i] == own[i]);
        }
    }
}

/// Soundness of the sumchecks of an authorization: where they are accepted and
/// leave a value that is true of a column, the claims of every permutation and
/// every pin are true of the column, or a challenge fooled the verifier.
pub proof fn lemma_auth_column_sound<F: TowerField, T: FiatShamir<F>>(
    params: PermParams<F>,
    circuit_slots: nat,
    inputs: AuthInputs<F>,
    proof: AuthProof<F>,
    channel: T,
    b: Seq<F>,
)
    requires
        b.len() == pow2(N_AUTH_BOUNDARY_VARS as nat),
        auth_sumcheck_verdict(params, circuit_slots, inputs, proof, channel).point is Some,
        proof.boundary.b_final == mle(
            b,
            auth_sumcheck_verdict(params, circuit_slots, inputs, proof, channel).point->0,
        ),
    ensures
        circuit_slots == 20,
        proof.slots.len() == 20,
        proof.slot_v0.len() == 20,
        ({
            let v = slots_verdict(
                params,
                proof.slots@,
                proof.slot_v0@,
                auth_start(inputs, channel),
                20,
            );
            &&& v.claims is Some
            &&& ({
                ||| batch_fooled(
                    b,
                    v.claims->0 + input_pins(inputs),
                    N_AUTH_BOUNDARY_VARS as nat,
                    proof.boundary,
                    v.channel,
                )
                ||| claims_hold(v.claims->0, b) && claims_hold(input_pins(inputs), b)
            })
        }),
{
    let v = slots_verdict(params, proof.slots@, proof.slot_v0@, auth_start(inputs, channel), 20);
    let (front, pins) = (v.claims->0, input_pins(inputs));
    let all = front + pins;
    lemma_batch_sound(
        b,
        all,
        N_AUTH_BOUNDARY_VARS as nat,
        proof.boundary.rounds@,
        proof.boundary.b_final,
        v.channel,
    );
    if claims_hold(all, b) {
        assert forall|i: int| 0 <= i < front.len() implies #[trigger] front[i].value == mle(
            b,
            front[i].point,
        ) by {
            assert(all[i] == front[i]);
        }
        assert forall|i: int| 0 <= i < pins.len() implies #[trigger] pins[i].value == mle(
            b,
            pins[i].point,
        ) by {
            assert(all[front.len() + i] == pins[i]);
        }
    }
}

/// Soundness of the sumchecks of an authorization about secrets: where they are
/// accepted and leave a value that is true of the column of the secrets, every
/// secret derives the address and the tag of its input, or a challenge fooled the
/// verifier.
#[verifier::spinoff_prover]
pub proof fn lemma_auth_sumcheck_sound<F: TowerField, T: FiatShamir<F>>(
    params: PermParams<F>,
    ivs: AuthIvs<F>,
    circuit_slots: nat,
    inputs: AuthInputs<F>,
    proof: AuthProof<F>,
    channel: T,
)
    requires
        inputs.wf(N_AUTH_INPUTS as nat),
        auth_sumcheck_verdict(params, circuit_slots, inputs, proof, channel).point is Some,
        proof.boundary.b_final == mle(
            boundary_column(
                params,
                auth_state_ins(params, ivs, inputs.spend_secret@, inputs.tx_body_hash@),
            ),
            auth_sumcheck_verdict(params, circuit_slots, inputs, proof, channel).point->0,
        ),
    ensures
        ({
            let ins = auth_state_ins(params, ivs, inputs.spend_secret@, inputs.tx_body_hash@);
            let v = slots_verdict(
                params,
                proof.slots@,
                proof.slot_v0@,
                auth_start(inputs, channel),
                20,
            );
            ||| batch_fooled(
                boundary_column(params, ins),
                v.claims->0 + input_pins(inputs),
                N_AUTH_BOUNDARY_VARS as nat,
                proof.boundary,
                v.channel,
            )
            ||| forall|i: int|
                0 <= i < N_AUTH_INPUTS ==> (#[trigger] inputs.expected_address@[i])@
                    == derived_address(params, ivs, inputs.spend_secret@[i]@)
                    && inputs.expected_auth_tag@[i]@ == derived_auth_tag(
                    params,
                    ivs,
                    inputs.spend_secret@[i]@,
                    inputs.tx_body_hash@,
                )
        }),
{
    vstd::arithmetic::power2::lemma2_to64();
    let n = N_AUTH_BOUNDARY_VARS as nat;
    let ins = auth_state_ins(params, ivs, inputs.spend_secret@, inputs.tx_body_hash@);
    let b = boundary_column(params, ins);
    let pins = input_pins(inputs);
    lemma_auth_column_sound(params, circuit_slots, inputs, proof, channel, b);
    if claims_hold(pins, b) {
        lemma_pins_in_front(params, ins, inputs);
        lemma_auth_pins(
            params,
            ivs,
            inputs.spend_secret@,
            inputs.tx_body_hash@,
            inputs.expected_address@,
            inputs.expected_auth_tag@,
            n,
        );
        assert forall|i: int| 0 <= i < N_AUTH_INPUTS implies (
        #[trigger] inputs.expected_address@[i])@ == derived_address(
            params,
            ivs,
            inputs.spend_secret@[i]@,
        ) && inputs.expected_auth_tag@[i]@ == derived_auth_tag(
            params,
            ivs,
            inputs.spend_secret@[i]@,
            inputs.tx_body_hash@,
        ) by {
            assert(0 <= i < inputs.spend_secret@.len());
        }
    }
}

/// The pins are about cells of the front half of the column, which are those of a
/// column of states.
#[verifier::spinoff_prover]
proof fn lemma_pins_in_front<F: TowerField>(
    params: PermParams<F>,
    ins: Seq<Seq<F>>,
    inputs: AuthInputs<F>,
)
    requires
        inputs.wf(N_AUTH_INPUTS as nat),
        claims_hold(input_pins(inputs), boundary_column(params, ins)),
    ensures
        claims_hold(
            input_pins(inputs),
            state_column(params, ins, pow2(N_AUTH_BOUNDARY_VARS as nat)),
        ),
{
    vstd::arithmetic::power2::lemma2_to64();
    let n = N_AUTH_BOUNDARY_VARS as nat;
    let b = boundary_column(params, ins);
    let pins = input_pins(inputs);
    let full = state_column(params, ins, pow2(n));
    assert forall|j: int| 0 <= j < pins.len() implies #[trigger] pins[j].value == mle(
        full,
        pins[j].point,
    ) by {
        let (slot, lane) = if j < 8 {
            (5 * (j / 2) + 1, j % 2)
        } else {
            (5 * ((j - 8) / 2) + 4, (j - 8) % 2)
        };
        let y = cell(slot, N_ROUNDS as int, lane);
        lemma_parts_of_cell(slot, N_ROUNDS as int, lane);
        assert(pins[j].point == cube_point::<F>(n, y));
        assert(pins[j].value == mle(b, pins[j].point));
        lemma_mle_on_cube(full, n, y);
        lemma_mle_on_cube(b, n, y);
        assert(full[y] == b[y]);
    }
}

/// The identity of the power layers, cell by cell.
pub open spec fn sbox_table<F: BinaryField>(mle: SpineUnifiedMle<F>) -> Seq<F> {
    Seq::new(
        mle.sigma.len() as nat,
        |i: int| sbox_identity(mle.sigma[i], mle.s_in[i], mle.s_out[i]),
    )
}

/// Soundness of the sumcheck of the power layers: where it is accepted and leaves
/// values that are true of columns, the identity holds in every cell of them, or a
/// coordinate of the drawn point hides that it does not, or a challenge of a round
/// misled the verifier.
pub proof fn lemma_spine_degree7_sound<F: TowerField, T: FiatShamir<F>>(
    columns: SpineUnifiedMle<F>,
    proof: SpineD7Proof<F>,
    channel: T,
)
    requires
        columns.wf(),
        sbox_accepts(proof, channel),
        ({
            let point = sbox_check_run(proof.round_polys@, channel).challenges.reverse();
            &&& proof.sigma_at_r == mle(columns.sigma@, point)
            &&& proof.sin_at_r == mle(columns.s_in@, point)
            &&& proof.sout_at_r == mle(columns.s_out@, point)
        }),
    ensures
        ({
            let rho = sbox_rho(channel);
            ||| forall|i: int|
                0 <= i < columns.sigma.len() ==> #[trigger] sbox_identity(
                    columns.sigma[i],
                    columns.s_in[i],
                    columns.s_out[i],
                ) == F::zero()
            ||| exists|k: nat| #[trigger] hides(sbox_table(columns), rho, k)
            ||| exists|j: nat|
                j < N_SPINE_UNIFIED_VARS && #[trigger] rounds_misled(
                    sbox_tables(columns, rho),
                    sbox_term(),
                    proof.round_polys@,
                    F::zero(),
                    squeezed_by(channel, N_SPINE_UNIFIED_VARS as nat),
                    j,
                )
        }),
{
    vstd::arithmetic::power2::lemma2_to64();
    let n = N_SPINE_UNIFIED_VARS as nat;
    let rho = sbox_rho::<F, T>(channel);
    lemma_challenges_len::<F, T>(channel, n);
    let tables = sbox_tables(columns, rho);
    let start = squeezed_by(channel, n);
    assert(tables_wf(tables, n));
    lemma_accepted_challenges(
        F::zero(),
        start,
        poly_messages(proof.round_polys@),
        coeff_check(),
        coeff_eval(),
        n,
    );
    let point = sbox_check_run(proof.round_polys@, channel).challenges.reverse();
    lemma_mle_eq_table(rho, point);
    let finals = Seq::new(tables.len(), |c: int| mle(tables[c], point));
    assert(finals[0] == mle(tables[0], point) && finals[1] == mle(tables[1], point));
    assert(finals[2] == mle(tables[2], point) && finals[3] == mle(tables[3], point));
    lemma_rounds_sound(tables, sbox_term(), proof.round_polys@, F::zero(), start);
    let t = sbox_table(columns);
    if total(tables, sbox_term(), n) == F::zero() {
        lemma_mle_sum(t, rho);
        let f = sbox_term::<F>();
        lemma_sum_ext(
            pow2(n),
            |i: int| f(values_at(tables, i)),
            |i: int| eq_at(rho, i).mul(t[i]),
        );
        assert(mle(t, rho) == F::zero());
        if all_zero(t) {
            assert forall|i: int| 0 <= i < columns.sigma.len() implies #[trigger] sbox_identity(
                columns.sigma[i],
                columns.s_in[i],
                columns.s_out[i],
            ) == F::zero() by {
                assert(t[i] == F::zero());
            }
        } else {
            lemma_zero_hidden(t, rho);
        }
    }
}

/// All the claims on all the columns enter the transcript before any challenge
/// that combines them.
pub proof fn lemma_groups_bound<F: TowerField, T: FiatShamir<F>>(
    a: Seq<Seq<ClaimView<F>>>,
    b: Seq<Seq<ClaimView<F>>>,
    n: nat,
    c: T,
    d: T,
    k: nat,
)
    requires
        keeps_all::<F, T>(),
        a.len() == b.len(),
        k <= a.len(),
        forall|i: int|
            0 <= i < a.len() ==> (#[trigger] a[i]).len() == b[i].len() && claims_wf(a[i], n)
                && claims_wf(b[i], n),
        groups_squeezed(a, c, k) == groups_squeezed(b, d, k),
    ensures
        c == d,
        a == b,
    decreases k,
{
    if k > 0 {
        let i = (k - 1) as nat;
        assert(a[i as int].len() == b[i as int].len());
        lemma_squeeze_injective(groups_squeezed(a, c, i), groups_squeezed(b, d, i), a[i as int].len());
        lemma_groups_bound(a, b, n, c, d, i);
    } else {
        lemma_groups_absorbed(a, b, n, c, d, a.len());
        assert(a =~= b);
    }
}

proof fn lemma_groups_absorbed<F: TowerField, T: FiatShamir<F>>(
    a: Seq<Seq<ClaimView<F>>>,
    b: Seq<Seq<ClaimView<F>>>,
    n: nat,
    c: T,
    d: T,
    k: nat,
)
    requires
        keeps_all::<F, T>(),
        a.len() == b.len(),
        k <= a.len(),
        forall|i: int|
            0 <= i < a.len() ==> (#[trigger] a[i]).len() == b[i].len() && claims_wf(a[i], n)
                && claims_wf(b[i], n),
        groups_absorbed(a, c, k) == groups_absorbed(b, d, k),
    ensures
        c == d,
        forall|i: int| 0 <= i < k ==> #[trigger] a[i] == b[i],
    decreases k,
{
    if k > 0 {
        let i = (k - 1) as nat;
        let (p, q) = (a[i as int], b[i as int]);
        lemma_claim_elems(p, q, n);
        lemma_absorb_injective(
            groups_absorbed(a, c, i),
            groups_absorbed(b, d, i),
            claim_elems(p),
            claim_elems(q),
        );
        lemma_groups_absorbed(a, b, n, c, d, i);
    }
}

/// The number of challenges that the first `k` columns take: one a claim.
pub open spec fn claims_before<F>(groups: Seq<Seq<ClaimView<F>>>, k: nat) -> nat
    decreases k,
{
    if k == 0 {
        0
    } else {
        claims_before(groups, (k - 1) as nat) + groups[k - 1].len()
    }
}

/// The challenges that combine the claims on several columns are drawn after all
/// the claims, one a claim, none of them twice.
pub proof fn lemma_group_alphas_drawn<F: TowerField, T: FiatShamir<F>>(
    groups: Seq<Seq<ClaimView<F>>>,
    channel: T,
    c: int,
    i: int,
)
    requires
        0 <= c < groups.len(),
        0 <= i < groups[c].len(),
    ensures
        group_alphas(groups, channel, c).len() == groups[c].len(),
        group_alphas(groups, channel, c)[i] == squeezed_by(
            groups_absorbed(groups, channel, groups.len()),
            (claims_before(groups, c as nat) + i) as nat,
        ).challenge(),
{
    let start = groups_absorbed(groups, channel, groups.len());
    let own = groups_squeezed(groups, channel, c as nat);
    lemma_challenges_len(own, groups[c].len());
    lemma_challenge_at(own, groups[c].len(), i);
    lemma_groups_squeezed(groups, channel, c as nat);
    lemma_squeezed_twice(start, claims_before(groups, c as nat), i as nat);
}

proof fn lemma_groups_squeezed<F: TowerField, T: FiatShamir<F>>(
    groups: Seq<Seq<ClaimView<F>>>,
    channel: T,
    k: nat,
)
    requires
        k <= groups.len(),
    ensures
        groups_squeezed(groups, channel, k) == squeezed_by(
            groups_absorbed(groups, channel, groups.len()),
            claims_before(groups, k),
        ),
    decreases k,
{
    if k > 0 {
        lemma_groups_squeezed(groups, channel, (k - 1) as nat);
        lemma_squeezed_twice(
            groups_absorbed(groups, channel, groups.len()),
            claims_before(groups, (k - 1) as nat),
            groups[k - 1].len(),
        );
    }
}

proof fn lemma_squeezed_twice<F: TowerField, T: FiatShamir<F>>(c: T, m: nat, n: nat)
    ensures
        squeezed_by(squeezed_by(c, m), n) == squeezed_by(c, m + n),
    decreases n,
{
    if n > 0 {
        lemma_squeezed_twice(c, m, (n - 1) as nat);
    }
}

/// The rounds of a sumcheck that refuses nothing enter its transcript.
pub proof fn lemma_unchecked_bound<F: TowerField, T: FiatShamir<F>>(
    x: F,
    y: F,
    c: T,
    d: T,
    a: Seq<Seq<F>>,
    b: Seq<Seq<F>>,
    eval: spec_fn(Seq<F>, F, F) -> F,
)
    requires
        keeps_all::<F, T>(),
        a.len() == b.len(),
        forall|i: int| 0 <= i < a.len() ==> (#[trigger] a[i]).len() == b[i].len(),
        verifier_run(x, c, a, no_check(), eval, a.len()).channel == verifier_run(
            y,
            d,
            b,
            no_check(),
            eval,
            b.len(),
        ).channel,
    ensures
        c == d,
        a == b,
{
    lemma_never_refused(x, c, a, eval, a.len());
    lemma_never_refused(y, d, b, eval, b.len());
    lemma_messages_bound(x, y, c, d, a, b, no_check(), eval, a.len());
    assert(a =~= b);
}

/// The claims and the rounds of a reduction enter its transcript.
pub proof fn lemma_batch_bound<F: TowerField, T: FiatShamir<F>>(
    p: BatchEvalProof<F>,
    q: BatchEvalProof<F>,
    a: Seq<ClaimView<F>>,
    b: Seq<ClaimView<F>>,
    n: nat,
    c: T,
    d: T,
)
    requires
        keeps_all::<F, T>(),
        a.len() == b.len(),
        batch_accepts(p.rounds@, p.b_final, a, n, c),
        batch_accepts(q.rounds@, q.b_final, b, n, d),
        batch_check_run(p.rounds@, a, c).channel == batch_check_run(q.rounds@, b, d).channel,
    ensures
        c == d,
        a == b,
        batch_messages(p.rounds@) == batch_messages(q.rounds@),
{
    let (u, v) = (batch_messages(p.rounds@), batch_messages(q.rounds@));
    lemma_messages_bound(
        combined_claim(a, batch_alphas(a, c)),
        combined_claim(b, batch_alphas(b, d)),
        batch_channel(a, c),
        batch_channel(b, d),
        u,
        v,
        value_check(),
        value_eval(),
        n,
    );
    assert(u =~= v);
    lemma_claims_bound(a, b, n, c, d);
}

/// The claims and the rounds of a reduction of several columns enter its
/// transcript.
pub proof fn lemma_multi_bound<F: TowerField, T: FiatShamir<F>>(
    p: MultiBatchEvalProof<F>,
    q: MultiBatchEvalProof<F>,
    a: Seq<Seq<ClaimView<F>>>,
    b: Seq<Seq<ClaimView<F>>>,
    n: nat,
    c: T,
    d: T,
)
    requires
        keeps_all::<F, T>(),
        a.len() == b.len(),
        forall|i: int| 0 <= i < a.len() ==> (#[trigger] a[i]).len() == b[i].len(),
        multi_accepts(p.rounds@, p.b_finals@, a, n, c),
        multi_accepts(q.rounds@, q.b_finals@, b, n, d),
        multi_check_run(p.rounds@, a, c).channel == multi_check_run(q.rounds@, b, d).channel,
    ensures
        c == d,
        a == b,
        batch_messages(p.rounds@) == batch_messages(q.rounds@),
{
    let (u, v) = (batch_messages(p.rounds@), batch_messages(q.rounds@));
    lemma_messages_bound(
        multi_target(a, c),
        multi_target(b, d),
        groups_squeezed(a, c, a.len()),
        groups_squeezed(b, d, b.len()),
        u,
        v,
        value_check(),
        value_eval(),
        n,
    );
    assert(u =~= v);
    lemma_groups_bound(a, b, n, c, d, a.len());
}

/// Everything that a proof of a permutation holds enters the transcript.
pub proof fn lemma_perm_bound<F: TowerField, T: FiatShamir<F>>(
    params: PermParams<F>,
    u: F,
    v: F,
    p: PermProof<F>,
    q: PermProof<F>,
    c: T,
    d: T,
)
    requires
        keeps_all::<F, T>(),
        perm_verdict(params, u, c, p).points is Some,
        perm_verdict(params, v, d, q).points is Some,
        forall|i: int|
            0 <= i < 9 ==> (#[trigger] p.pair.main.round_polys[i]).coeffs.len()
                == q.pair.main.round_polys[i].coeffs.len(),
        forall|i: int|
            0 <= i < 9 ==> (#[trigger] p.pair.shift.round_polys[i]).coeffs.len()
                == q.pair.shift.round_polys[i].coeffs.len(),
        perm_verdict(params, u, c, p).channel == perm_verdict(params, v, d, q).channel,
    ensures
        c == d,
        u == v,
        p.state_at_r3 == q.state_at_r3,
        weighted_messages(p.expand@) == weighted_messages(q.expand@),
        unified_claims(p.pair.main) == unified_claims(q.pair.main),
        shift_claims(p.pair.shift) == shift_claims(q.pair.shift),
{
    reveal(perm_verdict);
    let (x, y) = (
        pair_verdict(params, 1, 9, p.pair, c),
        pair_verdict(params, 1, 9, q.pair, d),
    );
    let (r, s) = ((x.points->0).1, (y.points->0).1);
    let (a, b) = (weighted_messages(p.expand@), weighted_messages(q.expand@));
    lemma_unchecked_bound(
        expand_target(params, r, p.pair.shift.s_in_at_r2),
        expand_target(params, s, q.pair.shift.s_in_at_r2),
        x.channel,
        y.channel,
        a,
        b,
        weighted_eval(),
    );
    lemma_pair_bound(params, 1, 9, p.pair, q.pair, c, d);
    assert(unified_claims(p.pair.main) =~= unified_claims(q.pair.main));
    assert(shift_claims(p.pair.shift) =~= shift_claims(q.pair.shift));
}

/// Everything that a proof of a trace holds, but for its last values, enters the
/// transcript.
pub proof fn lemma_kill_bound<F: TowerField, T: FiatShamir<F>>(
    params: PermParams<F>,
    live: nat,
    n: nat,
    a: Seq<ClaimView<F>>,
    b: Seq<ClaimView<F>>,
    p: TraceProofKillShot<F>,
    q: TraceProofKillShot<F>,
    c: T,
    d: T,
)
    requires
        keeps_all::<F, T>(),
        a.len() == b.len(),
        kill_verdict(params, live, n, a, p, c).run is Some,
        kill_verdict(params, live, n, b, q, d).run is Some,
        forall|i: int|
            0 <= i < n ==> (#[trigger] p.kill_shot.main.round_polys[i]).coeffs.len()
                == q.kill_shot.main.round_polys[i].coeffs.len(),
        forall|i: int|
            0 <= i < n ==> (#[trigger] p.kill_shot.shift.round_polys[i]).coeffs.len()
                == q.kill_shot.shift.round_polys[i].coeffs.len(),
        kill_verdict(params, live, n, a, p, c).channel == kill_verdict(
            params,
            live,
            n,
            b,
            q,
            d,
        ).channel,
    ensures
        c == d,
        a == b,
        unified_claims(p.kill_shot.main) == unified_claims(q.kill_shot.main),
        shift_claims(p.kill_shot.shift) == shift_claims(q.kill_shot.shift),
        batch_messages(p.state_batch.rounds@) == batch_messages(q.state_batch.rounds@),
        batch_messages(p.sin_batch.rounds@) == batch_messages(q.sin_batch.rounds@),
        batch_messages(p.sout_batch.rounds@) == batch_messages(q.sout_batch.rounds@),
{
    let (x, y) = (
        pair_verdict(params, live, n, p.kill_shot, c),
        pair_verdict(params, live, n, q.kill_shot, d),
    );
    let (r1, r2) = x.points->0;
    let (s1, s2) = y.points->0;
    let (c1, d1) = (state_claims(p.kill_shot, r1, r2, a), state_claims(q.kill_shot, s1, s2, b));
    let (c2, d2) = (sin_claims(p.kill_shot, r2), sin_claims(q.kill_shot, s2));
    let (c3, d3) = (sout_claims(p.kill_shot, r2), sout_claims(q.kill_shot, s2));
    let (x1, y1) = (
        batch_after(p.state_batch, c1, n, x.channel),
        batch_after(q.state_batch, d1, n, y.channel),
    );
    let (x2, y2) = (
        batch_after(p.sin_batch, c2, n, x1),
        batch_after(q.sin_batch, d2, n, y1),
    );
    lemma_batch_bound(p.sout_batch, q.sout_batch, c3, d3, n, x2, y2);
    lemma_batch_bound(p.sin_batch, q.sin_batch, c2, d2, n, x1, y1);
    lemma_batch_bound(p.state_batch, q.state_batch, c1, d1, n, x.channel, y.channel);
    lemma_pair_bound(params, live, n, p.kill_shot, q.kill_shot, c, d);
    assert(unified_claims(p.kill_shot.main) =~= unified_claims(q.kill_shot.main));
    assert(shift_claims(p.kill_shot.shift) =~= shift_claims(q.kill_shot.shift));
    let m = c1.len() - a.len();
    assert(c1.skip(m) =~= a && d1.skip(m) =~= b);
}

/// The same of a proof of an authorization over its states alone.
pub proof fn lemma_owner_core_bound<F: TowerField, T: FiatShamir<F>, O>(
    params: PermParams<F>,
    a: Seq<ConstraintView<F>>,
    b: Seq<ConstraintView<F>>,
    p: OwnerAuthProofKillShot<F, O>,
    q: OwnerAuthProofKillShot<F, O>,
    c: T,
    d: T,
)
    requires
        keeps_all::<F, T>(),
        a.len() == b.len(),
        owner_core_verdict(params, a, c, p).points is Some,
        owner_core_verdict(params, b, d, q).points is Some,
        owner_core_verdict(params, a, c, p).channel == owner_core_verdict(
            params,
            b,
            d,
            q,
        ).channel,
    ensures
        c == d,
        wire_messages(p.kill_shot.main.round_polys@) == wire_messages(
            q.kill_shot.main.round_polys@,
        ),
        p.kill_shot.main.state_at_r == q.kill_shot.main.state_at_r,
        p.kill_shot.main.state_lane_dec_at_r@ == q.kill_shot.main.state_lane_dec_at_r@,
        weighted_messages(p.kill_shot.shift.round_polys@) == weighted_messages(
            q.kill_shot.shift.round_polys@,
        ),
        p.kill_shot.shift.state_at_r2 == q.kill_shot.shift.state_at_r2,
        weighted_messages(p.boundary.round_polys@) == weighted_messages(q.boundary.round_polys@),
        p.boundary.state_at_r == q.boundary.state_at_r,
        batch_messages(p.batch.rounds@) == batch_messages(q.batch.rounds@),
{
    let n = OWNER_AUTH_NUM_VARS as nat;
    let k = a.len();
    let (r1, r2, r3, _r4) = owner_core_verdict(params, a, c, p).points->0;
    let (s1, s2, s3, _s4) = owner_core_verdict(params, b, d, q).points->0;
    let (pm, qm) = (p.kill_shot.main, q.kill_shot.main);
    let (ps, qs) = (p.kill_shot.shift, q.kill_shot.shift);
    let (c1, d1) = (state_after(params, 1, n, pm, c), state_after(params, 1, n, qm, d));
    let (pl, ql) = (pm.state_lane_dec_at_r@, qm.state_lane_dec_at_r@);
    let (c2, d2) = (
        owner_shift_after(ps, r1, pm.state_at_r, pl, c1),
        owner_shift_after(qs, s1, qm.state_at_r, ql, d1),
    );
    let (c3, d3) = (
        boundary_after(p.boundary, a, n, c2),
        boundary_after(q.boundary, b, n, d2),
    );
    lemma_batch_bound(
        p.batch,
        q.batch,
        owner_claims(p, r1, r2, r3),
        owner_claims(q, s1, s2, s3),
        n,
        c3,
        d3,
    );
    lemma_unchecked_bound(
        boundary_target(a, boundary_alphas(k, c2)),
        boundary_target(b, boundary_alphas(k, d2)),
        boundary_start::<F, T>(k, c2),
        boundary_start::<F, T>(k, d2),
        weighted_messages(p.boundary.round_polys@),
        weighted_messages(q.boundary.round_polys@),
        weighted_eval(),
    );
    lemma_squeeze_injective(boundary_bound::<F, T>(k, c2), boundary_bound::<F, T>(k, d2), k);
    lemma_unchecked_bound(
        owner_target(pm.state_at_r, pl, c1.challenge()),
        owner_target(qm.state_at_r, ql, d1.challenge()),
        c1.squeezed(),
        d1.squeezed(),
        weighted_messages(ps.round_polys@),
        weighted_messages(qs.round_polys@),
        weighted_eval(),
    );
    let (e, f) = (
        state_check_run(pm.round_polys@, n, c).channel,
        state_check_run(qm.round_polys@, n, d).channel,
    );
    let (x, y) = (state_claims_of(pm), state_claims_of(qm));
    lemma_absorb_injective(e, f, x, y);
    assert(x[0] == y[0]);
    assert(x.skip(1) =~= pl && y.skip(1) =~= ql);
    let (u, v) = (wire_messages(pm.round_polys@), wire_messages(qm.round_polys@));
    assert forall|i: int| 0 <= i < u.len() implies (#[trigger] u[i]).len() == v[i].len() by {
        assert(pm.round_polys@[i].coeffs_no_linear.len()
            == qm.round_polys@[i].coeffs_no_linear.len());
    }
    lemma_unchecked_bound(
        F::zero(),
        F::zero(),
        squeezed_by(c, n),
        squeezed_by(d, n),
        u,
        v,
        restored_eval(),
    );
    lemma_squeeze_injective(c, d, n);
}

/// Everything that a proof with linked permutations holds, but for its last
/// values, enters the transcript.
pub proof fn lemma_linked_bound<F: TowerField, T: FiatShamir<F>>(
    params: PermParams<F>,
    live: nat,
    n: nat,
    links: Seq<LinearView<F>>,
    tag: u128,
    c: T,
    d: T,
    p: AuthKillShotProof<F>,
    q: AuthKillShotProof<F>,
    u: LinearEvalProof<F>,
    v: LinearEvalProof<F>,
    a: MultiBatchEvalProof<F>,
    b: MultiBatchEvalProof<F>,
)
    requires
        keeps_all::<F, T>(),
        linked_verdict(params, live, n, links, tag, c, p, u, a).point is Some,
        linked_verdict(params, live, n, links, tag, d, q, v, b).point is Some,
        forall|i: int|
            0 <= i < n ==> (#[trigger] p.main.round_polys[i]).coeffs.len()
                == q.main.round_polys[i].coeffs.len(),
        forall|i: int|
            0 <= i < n ==> (#[trigger] p.shift.round_polys[i]).coeffs.len()
                == q.shift.round_polys[i].coeffs.len(),
        linked_verdict(params, live, n, links, tag, c, p, u, a).channel == linked_verdict(
            params,
            live,
            n,
            links,
            tag,
            d,
            q,
            v,
            b,
        ).channel,
    ensures
        c == d,
        unified_claims(p.main) == unified_claims(q.main),
        shift_claims(p.shift) == shift_claims(q.shift),
        batch_messages(u.rounds@) == batch_messages(v.rounds@),
        u.b_final == v.b_final,
        batch_messages(a.rounds@) == batch_messages(b.rounds@),
{
    let (x, y) = (pair_verdict(params, live, n, p, c), pair_verdict(params, live, n, q, d));
    let (r1, r2) = x.points->0;
    let (s1, s2) = y.points->0;
    let (e, f) = (
        linear_check_run(u.rounds@, links, tag, x.channel),
        linear_check_run(v.rounds@, links, tag, y.channel),
    );
    let g = linked_groups(
        p,
        r1,
        r2,
        ClaimView { point: e.challenges.reverse(), value: u.b_final },
    );
    let h = linked_groups(
        q,
        s1,
        s2,
        ClaimView { point: f.challenges.reverse(), value: v.b_final },
    );
    lemma_multi_bound(a, b, g, h, n, e.channel, f.channel);
    assert(g[0].last() == h[0].last());
    let (k, l) = (batch_messages(u.rounds@), batch_messages(v.rounds@));
    let m = links.len();
    lemma_messages_bound(
        linear_target(links, linear_alphas(m, tag, x.channel)),
        linear_target(links, linear_alphas(m, tag, y.channel)),
        squeezed_by(linear_bound::<F, T>(tag, x.channel), m),
        squeezed_by(linear_bound::<F, T>(tag, y.channel), m),
        k,
        l,
        value_check(),
        value_eval(),
        n,
    );
    assert(k =~= l);
    lemma_squeeze_injective(
        linear_bound::<F, T>(tag, x.channel),
        linear_bound::<F, T>(tag, y.channel),
        m,
    );
    lemma_pair_bound(params, live, n, p, q, c, d);
    assert(unified_claims(p.main) =~= unified_claims(q.main));
    assert(shift_claims(p.shift) =~= shift_claims(q.shift));
}

/// The same of a proof whose outputs are pinned.
pub proof fn lemma_pinned_bound<F: TowerField, T: FiatShamir<F>>(
    params: PermParams<F>,
    live: nat,
    n: nat,
    u: Seq<ClaimView<F>>,
    v: Seq<ClaimView<F>>,
    c: T,
    d: T,
    p: AuthKillShotProof<F>,
    q: AuthKillShotProof<F>,
    a: MultiBatchEvalProof<F>,
    b: MultiBatchEvalProof<F>,
)
    requires
        keeps_all::<F, T>(),
        u.len() == v.len(),
        pinned_verdict(params, live, n, u, c, p, a).point is Some,
        pinned_verdict(params, live, n, v, d, q, b).point is Some,
        forall|i: int|
            0 <= i < n ==> (#[trigger] p.main.round_polys[i]).coeffs.len()
                == q.main.round_polys[i].coeffs.len(),
        forall|i: int|
            0 <= i < n ==> (#[trigger] p.shift.round_polys[i]).coeffs.len()
                == q.shift.round_polys[i].coeffs.len(),
        pinned_verdict(params, live, n, u, c, p, a).channel == pinned_verdict(
            params,
            live,
            n,
            v,
            d,
            q,
            b,
        ).channel,
    ensures
        c == d,
        u == v,
        unified_claims(p.main) == unified_claims(q.main),
        shift_claims(p.shift) == shift_claims(q.shift),
        batch_messages(a.rounds@) == batch_messages(b.rounds@),
{
    let (x, y) = (pair_verdict(params, live, n, p, c), pair_verdict(params, live, n, q, d));
    let (r1, r2) = x.points->0;
    let (s1, s2) = y.points->0;
    let (g, h) = (pinned_groups(p, r1, r2, u), pinned_groups(q, s1, s2, v));
    lemma_multi_bound(a, b, g, h, n, x.channel, y.channel);
    let m = g[0].len() - u.len();
    assert(g[0].skip(m) =~= u && h[0].skip(m) =~= v);
    lemma_pair_bound(params, live, n, p, q, c, d);
    assert(unified_claims(p.main) =~= unified_claims(q.main));
    assert(shift_claims(p.shift) =~= shift_claims(q.shift));
}

/// Each of the three sumchecks of an authorization over its states leaves its
/// rounds and its claims in the transcript, whatever comes after.
pub proof fn lemma_owner_parts_bound<F: TowerField, T: FiatShamir<F>>(
    params: PermParams<F>,
    n: nat,
    p: OwnerAuthUnifiedProof<F>,
    q: OwnerAuthUnifiedProof<F>,
    u: OwnerAuthShiftProof<F>,
    v: OwnerAuthShiftProof<F>,
    x: OwnerAuthBoundaryProof<F>,
    y: OwnerAuthBoundaryProof<F>,
    a: Seq<ConstraintView<F>>,
    r: Seq<F>,
    s: Seq<F>,
    c: T,
    d: T,
)
    requires
        keeps_all::<F, T>(),
        r.len() == s.len(),
    ensures
        state_accepts(params, 1, n, p, c) && state_accepts(params, 1, n, q, d) && state_after(
            params,
            1,
            n,
            p,
            c,
        ) == state_after(params, 1, n, q, d) ==> c == d && p.state_at_r == q.state_at_r
            && p.state_lane_dec_at_r@ == q.state_lane_dec_at_r@ && wire_messages(p.round_polys@)
            == wire_messages(q.round_polys@),
        owner_shift_accepts(u, r, p.state_at_r, p.state_lane_dec_at_r@, c) && owner_shift_accepts(
            v,
            s,
            q.state_at_r,
            q.state_lane_dec_at_r@,
            d,
        ) && owner_shift_after(u, r, p.state_at_r, p.state_lane_dec_at_r@, c) == owner_shift_after(
            v,
            s,
            q.state_at_r,
            q.state_lane_dec_at_r@,
            d,
        ) ==> c == d && u.state_at_r2 == v.state_at_r2 && weighted_messages(u.round_polys@)
            == weighted_messages(v.round_polys@),
        boundary_accepts(x, a, n, c) && boundary_accepts(y, a, n, d) && boundary_after(x, a, n, c)
            == boundary_after(y, a, n, d) ==> c == d && x.state_at_r == y.state_at_r
            && weighted_messages(x.round_polys@) == weighted_messages(y.round_polys@),
{
    let (pl, ql) = (p.state_lane_dec_at_r@, q.state_lane_dec_at_r@);
    if state_accepts(params, 1, n, p, c) && state_accepts(params, 1, n, q, d) && state_after(
        params,
        1,
        n,
        p,
        c,
    ) == state_after(params, 1, n, q, d) {
        let (e, f) = (
            state_check_run(p.round_polys@, n, c).channel,
            state_check_run(q.round_polys@, n, d).channel,
        );
        let (g, h) = (state_claims_of(p), state_claims_of(q));
        lemma_absorb_injective(e, f, g, h);
        assert(g[0] == h[0]);
        assert(g.skip(1) =~= pl && h.skip(1) =~= ql);
        let (k, l) = (wire_messages(p.round_polys@), wire_messages(q.round_polys@));
        assert forall|i: int| 0 <= i < k.len() implies (#[trigger] k[i]).len() == l[i].len() by {
            assert(p.round_polys@[i].coeffs_no_linear.len()
                == q.round_polys@[i].coeffs_no_linear.len());
        }
        lemma_unchecked_bound(
            F::zero(),
            F::zero(),
            squeezed_by(c, n),
            squeezed_by(d, n),
            k,
            l,
            restored_eval(),
        );
        lemma_squeeze_injective(c, d, n);
    }
    if owner_shift_accepts(u, r, p.state_at_r, pl, c) && owner_shift_accepts(
        v,
        s,
        q.state_at_r,
        ql,
        d,
    ) && owner_shift_after(u, r, p.state_at_r, pl, c) == owner_shift_after(
        v,
        s,
        q.state_at_r,
        ql,
        d,
    ) {
        lemma_unchecked_bound(
            owner_target(p.state_at_r, pl, c.challenge()),
            owner_target(q.state_at_r, ql, d.challenge()),
            c.squeezed(),
            d.squeezed(),
            weighted_messages(u.round_polys@),
            weighted_messages(v.round_polys@),
            weighted_eval(),
        );
    }
    if boundary_accepts(x, a, n, c) && boundary_accepts(y, a, n, d) && boundary_after(x, a, n, c)
        == boundary_after(y, a, n, d) {
        let k = a.len();
        lemma_unchecked_bound(
            boundary_target(a, boundary_alphas(k, c)),
            boundary_target(a, boundary_alphas(k, d)),
            boundary_start::<F, T>(k, c),
            boundary_start::<F, T>(k, d),
            weighted_messages(x.round_polys@),
            weighted_messages(y.round_polys@),
            weighted_eval(),
        );
        lemma_squeeze_injective(boundary_bound::<F, T>(k, c), boundary_bound::<F, T>(k, d), k);
    }
}

} // verus!
