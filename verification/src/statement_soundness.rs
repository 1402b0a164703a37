//! What an accepted proof says of its statement.
//!
//! The claims that a proof leaves are opened or checked elsewhere. Where they are
//! true of the trace that the statement is about, the statement is true, or a
//! challenge fooled the verifier.
use vstd::prelude::*;
use vstd::arithmetic::power2::pow2;
use crate::auth_circuit::{AuthIvs, AuthPublicInputs, N_AUTH_INPUTS, N_SWEEP_AUTH_INPUTS, SweepAuthPublicInputs};
use crate::auth_killshot::{AuthProofKillShot, auth_pins, auth_state_ins, auth_verdict, boundary_elems, lemma_auth_pins};
use crate::auth_killshot_sweep::{SweepAuthProofKillShot, sweep_columns, sweep_opened, sweep_pins, sweep_start, sweep_verdict};
use crate::auth_mle_v2::{N_AUTH_LIVE_SLOTS, N_AUTH_UNIFIED_CELLS, N_AUTH_UNIFIED_VARS};
use crate::auth_oracle::{derived_address, derived_auth_tag};
use crate::auth_shift_sweep::{N_SWEEP_AUTH_LIVE_SLOTS, N_SWEEP_AUTH_UNIFIED_VARS};
use crate::auth_unified_v2::AuthKillShotProof;
use crate::batch_eval::{ClaimView, claims_hold, lemma_batch_sound};
use crate::block_spine_sweep::{SweepBlockSpineProof, block_verdict, hash_elems};
use crate::circuit::SpineInputs;
use crate::circuit_sweep::SweepSlotDescriptor;
use crate::column_scheme::ColumnScheme;
use crate::compressed_rounds::compressed_misled;
use crate::field::{TowerField, lemma_units};
use crate::killshot::pair_verdict;
use crate::layers::{N_ROUNDS, PermParams, permuted};
use crate::merkle_circuit::{MAX_MERKLE_DEPTH, MerklePathInputs};
use crate::merkle_killshot::{MerkleProofKillShot, lemma_root_pins, path_elems, path_state_ins, path_verdict, root_pins};
use crate::merkle_oracle::{lemma_path_prefix, path_node, path_root};
use crate::merkle_shift::{N_MERKLE_UNIFIED_CELLS, N_MERKLE_UNIFIED_VARS};
use crate::mle::mle;
use crate::multi_batch::{MultiBatchEvalProof, groups_hold, lemma_multi_sound, multi_check_run, multi_misled, multi_target, multi_truth};
use crate::owner_auth::{OWNER_AUTH_NUM_VARS, OwnerAuthParams, OwnerAuthPublicInputs, lemma_first_state, output_constraint, owner_address, owner_constraints, pre_constraint};
use crate::owner_boundary::{ConstraintView, boundary_alphas, boundary_check_run, boundary_start, boundary_target, boundary_weights, constraint_value, constraints_hold};
use crate::owner_killshot::{OwnerAuthProofKillShot, owner_claims, owner_core_verdict, owner_opened, owner_start, owner_verdict, statement_constraints};
use crate::owner_shift::{lemma_owner_target, owner_shift_after, owner_shift_check_run, owner_target, owner_weights};
use crate::owner_state::{lemma_state_sound, state_after, state_check_run, state_rho, state_tables, state_term};
use crate::pinned_killshot::{pinned_groups, pinned_verdict};
use crate::spine_killshot::{SpineProofKillShot, body_hash, body_start, body_verdict};
use crate::spine_mle::N_SPINE_UNIFIED_VARS;
use crate::sponge::{digest, hash2, padding};
use crate::sponge_chain::{chain_digest, chain_state};
use crate::sum::{lemma_sum_ext, sum};
use crate::sumcheck::total;
use crate::trace::{cell, dec_table, lane_table, lemma_parts_of_cell};
use crate::trace_mle::{sin_column, sout_column, state_cell, state_column};
use crate::trace_soundness::{batch_fooled, identity_sum, kill_fooled, lemma_kill_sound, lemma_pair_sound, pair_fooled};
use crate::transcript::{FiatShamir, absorb_all, squeezed_by};
use crate::weighted_state::{lemma_weighted_sound, weighted_misled, weighted_total};

verus! {

/// Soundness of a path: where its proof is accepted and leaves claims that are
/// true of the columns of the path, the path leads to the expected root, or a
/// challenge fooled the verifier.
pub proof fn lemma_path_sound<F: TowerField, T: FiatShamir<F>>(
    params: PermParams<F>,
    iv: Seq<F>,
    inputs: MerklePathInputs<F>,
    proof: MerkleProofKillShot<F>,
    channel: T,
)
    requires
        path_verdict(params, inputs, proof, channel).run is Some,
        ({
            let ins = path_state_ins(params, iv, inputs);
            let cells = N_MERKLE_UNIFIED_CELLS as nat;
            let run = path_verdict(params, inputs, proof, channel).run->0;
            &&& proof.state_batch.b_final == mle(state_column(params, ins, cells), run.state)
            &&& proof.sin_batch.b_final == mle(sin_column(params, ins, cells), run.sin)
            &&& proof.sout_batch.b_final == mle(sout_column(params, ins, cells), run.sout)
        }),
    ensures
        0 < inputs.active_depth <= 16,
        ({
            let ins = path_state_ins(params, iv, inputs);
            let cells = N_MERKLE_UNIFIED_CELLS as nat;
            ||| inputs.expected_root@ == path_root(params, iv, inputs)
            ||| kill_fooled(
                params,
                2 * inputs.active_depth as nat,
                N_MERKLE_UNIFIED_VARS as nat,
                sin_column(params, ins, cells),
                sout_column(params, ins, cells),
                state_column(params, ins, cells),
                root_pins(inputs),
                proof,
                absorb_all(channel, path_elems(inputs)),
            )
        }),
{
    vstd::arithmetic::power2::lemma2_to64();
    let ins = path_state_ins(params, iv, inputs);
    let cells = N_MERKLE_UNIFIED_CELLS as nat;
    lemma_root_pins(params, iv, inputs);
    lemma_kill_sound(
        params,
        2 * inputs.active_depth as nat,
        N_MERKLE_UNIFIED_VARS as nat,
        sin_column(params, ins, cells),
        sout_column(params, ins, cells),
        state_column(params, ins, cells),
        root_pins(inputs),
        proof,
        absorb_all(channel, path_elems(inputs)),
    );
}

/// Soundness of an authorization: where its proof is accepted and leaves claims
/// that are true of the columns of secrets, every secret derives the address and
/// the tag of its input, or a challenge fooled the verifier.
pub proof fn lemma_auth_sound<F: TowerField, T: FiatShamir<F>>(
    params: PermParams<F>,
    ivs: AuthIvs<F>,
    slots: nat,
    secrets: Seq<[F; 2]>,
    public: AuthPublicInputs<F>,
    proof: AuthProofKillShot<F>,
    channel: T,
)
    requires
        public.wf(N_AUTH_INPUTS as nat),
        secrets.len() == N_AUTH_INPUTS,
        auth_verdict(params, slots, public, proof, channel).run is Some,
        ({
            let ins = auth_state_ins(params, ivs, secrets, public.tx_body_hash@);
            let cells = N_AUTH_UNIFIED_CELLS as nat;
            let run = auth_verdict(params, slots, public, proof, channel).run->0;
            &&& proof.state_batch.b_final == mle(state_column(params, ins, cells), run.state)
            &&& proof.sin_batch.b_final == mle(sin_column(params, ins, cells), run.sin)
            &&& proof.sout_batch.b_final == mle(sout_column(params, ins, cells), run.sout)
        }),
    ensures
        slots == N_AUTH_LIVE_SLOTS,
        ({
            let ins = auth_state_ins(params, ivs, secrets, public.tx_body_hash@);
            let cells = N_AUTH_UNIFIED_CELLS as nat;
            ||| forall|i: int|
                0 <= i < N_AUTH_INPUTS ==> (#[trigger] public.expected_address@[i])@
                    == derived_address(params, ivs, secrets[i]@) && public.expected_auth_tag@[i]@
                    == derived_auth_tag(params, ivs, secrets[i]@, public.tx_body_hash@)
            ||| kill_fooled(
                params,
                N_AUTH_LIVE_SLOTS as nat,
                N_AUTH_UNIFIED_VARS as nat,
                sin_column(params, ins, cells),
                sout_column(params, ins, cells),
                state_column(params, ins, cells),
                auth_pins(
                    N_AUTH_UNIFIED_VARS as nat,
                    public.expected_address@,
                    public.expected_auth_tag@,
                ),
                proof,
                absorb_all(channel, boundary_elems(public)),
            )
        }),
{
    vstd::arithmetic::power2::lemma2_to64();
    let ins = auth_state_ins(params, ivs, secrets, public.tx_body_hash@);
    let cells = N_AUTH_UNIFIED_CELLS as nat;
    let n = N_AUTH_UNIFIED_VARS as nat;
    lemma_auth_pins(
        params,
        ivs,
        secrets,
        public.tx_body_hash@,
        public.expected_address@,
        public.expected_auth_tag@,
        n,
    );
    lemma_kill_sound(
        params,
        N_AUTH_LIVE_SLOTS as nat,
        n,
        sin_column(params, ins, cells),
        sout_column(params, ins, cells),
        state_column(params, ins, cells),
        auth_pins(n, public.expected_address@, public.expected_auth_tag@),
        proof,
        absorb_all(channel, boundary_elems(public)),
    );
}

/// Whether the challenges of a proof of a trace with pins, its columns reduced
/// together, fooled its verifier.
pub open spec fn pinned_fooled<F: TowerField, T: FiatShamir<F>>(
    params: PermParams<F>,
    live: nat,
    n: nat,
    s_in: Seq<F>,
    s_out: Seq<F>,
    state: Seq<F>,
    pins: Seq<ClaimView<F>>,
    channel: T,
    ks: AuthKillShotProof<F>,
    batch: MultiBatchEvalProof<F>,
) -> bool {
    let pair = pair_verdict(params, live, n, ks, channel);
    let (r1, r2) = pair.points->0;
    let groups = pinned_groups(ks, r1, r2, pins);
    let columns = seq![state, s_in, s_out];
    ||| pair_fooled(params, live, n, s_in, s_out, state, ks, channel)
    ||| !groups_hold(groups, columns) && multi_target(groups, pair.channel) == multi_truth(
        columns,
        groups,
        pair.channel,
    )
    ||| exists|j: nat|
        j < n && #[trigger] multi_misled(columns, groups, n, batch.rounds@, pair.channel, j)
}

/// Soundness of the proof of a trace with pins, its columns reduced together:
/// where it is accepted and leaves claims that are true of columns, every pin is
/// true of the state column and the identity of the permutations sums to zero
/// over the columns, or a challenge fooled the verifier.
pub proof fn lemma_pinned_sound<F: TowerField, T: FiatShamir<F>>(
    params: PermParams<F>,
    live: nat,
    n: nat,
    s_in: Seq<F>,
    s_out: Seq<F>,
    state: Seq<F>,
    pins: Seq<ClaimView<F>>,
    channel: T,
    ks: AuthKillShotProof<F>,
    batch: MultiBatchEvalProof<F>,
)
    requires
        n >= 9,
        s_in.len() == pow2(n),
        s_out.len() == pow2(n),
        state.len() == pow2(n),
        pinned_verdict(params, live, n, pins, channel, ks, batch).point is Some,
        ({
            let point = pinned_verdict(params, live, n, pins, channel, ks, batch).point->0;
            &&& batch.b_finals@[0] == mle(state, point)
            &&& batch.b_finals@[1] == mle(s_in, point)
            &&& batch.b_finals@[2] == mle(s_out, point)
        }),
    ensures
        ({
            ||| pinned_fooled(params, live, n, s_in, s_out, state, pins, channel, ks, batch)
            ||| claims_hold(pins, state) && identity_sum(
                params,
                live,
                n,
                s_in,
                s_out,
                state,
                channel,
            ) == F::zero()
        }),
{
    let pair = pair_verdict(params, live, n, ks, channel);
    let (r1, r2) = pair.points->0;
    let groups = pinned_groups(ks, r1, r2, pins);
    let columns = seq![state, s_in, s_out];
    let point = multi_check_run(batch.rounds@, groups, pair.channel).challenges.reverse();
    assert forall|c: int| 0 <= c < columns.len() implies (#[trigger] columns[c]).len() == pow2(
        n,
    ) by {}
    assert forall|c: int| 0 <= c < groups.len() implies #[trigger] batch.b_finals@[c] == mle(
        columns[c],
        point,
    ) by {}
    lemma_multi_sound(columns, groups, n, batch.rounds@, batch.b_finals@, pair.channel);
    if groups_hold(groups, columns) {
        assert(claims_hold(groups[0], columns[0]));
        assert(claims_hold(groups[1], columns[1]));
        assert(claims_hold(groups[2], columns[2]));
        assert(groups[0][0].value == mle(state, groups[0][0].point));
        assert(groups[0][1].value == mle(state, groups[0][1].point));
        assert(groups[1][0].value == mle(s_in, groups[1][0].point));
        assert(groups[2][0].value == mle(s_out, groups[2][0].point));
        assert forall|i: int| 0 <= i < pins.len() implies #[trigger] pins[i].value == mle(
            state,
            pins[i].point,
        ) by {
            assert(groups[0][i + 2] == pins[i]);
        }
        lemma_pair_sound(params, live, n, s_in, s_out, state, ks, channel);
    }
}

/// Soundness of the authorization of a sweep transaction: where its proof is
/// accepted, the commitment opens to the values that it leaves; where these are
/// those of the columns of secrets, every secret derives the address and the tag
/// of its input, or a challenge fooled the verifier.
pub proof fn lemma_sweep_sound<
    'b,
    F: TowerField,
    T: FiatShamir<F>,
    S: ColumnScheme<F>,
>(
    params: PermParams<F>,
    ivs: AuthIvs<F>,
    slots: nat,
    secrets: Seq<[F; 2]>,
    public: SweepAuthPublicInputs<F>,
    scheme: &'b S,
    proof: &'b SweepAuthProofKillShot<F, S::Opening>,
    channel: T,
)
    requires
        public.wf(N_SWEEP_AUTH_INPUTS as nat),
        secrets.len() == N_SWEEP_AUTH_INPUTS,
        sweep_verdict(params, slots, public, scheme, proof, channel).point is Some,
        ({
            let cols = sweep_columns(
                params,
                auth_state_ins(params, ivs, secrets, public.tx_body_hash@),
            );
            let point = sweep_verdict(params, slots, public, scheme, proof, channel).point->0;
            forall|c: int|
                0 <= c < 3 ==> #[trigger] proof.batch.b_finals@[c] == mle(cols[c], point)
        }),
    ensures
        slots == N_SWEEP_AUTH_LIVE_SLOTS,
        sweep_opened(
            scheme,
            proof,
            sweep_verdict(params, slots, public, scheme, proof, channel).point->0,
        ),
        ({
            let cols = sweep_columns(
                params,
                auth_state_ins(params, ivs, secrets, public.tx_body_hash@),
            );
            ||| forall|i: int|
                0 <= i < N_SWEEP_AUTH_INPUTS ==> (#[trigger] public.expected_address@[i])@
                    == derived_address(params, ivs, secrets[i]@) && public.expected_auth_tag@[i]@
                    == derived_auth_tag(params, ivs, secrets[i]@, public.tx_body_hash@)
            ||| pinned_fooled(
                params,
                N_SWEEP_AUTH_LIVE_SLOTS as nat,
                N_SWEEP_AUTH_UNIFIED_VARS as nat,
                cols[1],
                cols[2],
                cols[0],
                sweep_pins(public),
                sweep_start::<F, T, S>(public, proof.pcs.commitment, channel),
                proof.kill_shot,
                proof.batch,
            )
        }),
{
    vstd::arithmetic::power2::lemma2_to64();
    let n = N_SWEEP_AUTH_UNIFIED_VARS as nat;
    let cols = sweep_columns(params, auth_state_ins(params, ivs, secrets, public.tx_body_hash@));
    lemma_auth_pins(
        params,
        ivs,
        secrets,
        public.tx_body_hash@,
        public.expected_address@,
        public.expected_auth_tag@,
        n,
    );
    assert(proof.batch.b_finals@[0] == mle(
        cols[0],
        sweep_verdict(params, slots, public, scheme, proof, channel).point->0,
    ));
    lemma_pinned_sound(
        params,
        N_SWEEP_AUTH_LIVE_SLOTS as nat,
        n,
        cols[1],
        cols[2],
        cols[0],
        sweep_pins(public),
        sweep_start::<F, T, S>(public, proof.pcs.commitment, channel),
        proof.kill_shot,
        proof.batch,
    );
}

/// The constraints of an authorization hold of the trace of a permutation exactly
/// where its input ends in the initial capacity and its output is the address.
pub proof fn lemma_owner_constraints_sound<F: TowerField>(
    p: OwnerAuthParams<F>,
    input: Seq<F>,
    address: [F; 2],
)
    requires
        p.wf(),
        input.len() == 4,
    ensures
        constraints_hold(
            owner_constraints(p.mds_inverse, p.address_iv, address),
            state_column(p.params, seq![input], 512),
        ) <==> input[2] == p.address_iv[0] && input[3] == p.address_iv[1] && address@ == digest(
            permuted(p.params, input),
        ),
{
    let ins = seq![input];
    let state = state_column(p.params, ins, 512);
    let want = owner_constraints(p.mds_inverse, p.address_iv, address);
    let out = permuted(p.params, input);
    assert forall|c: int| 0 <= c < 2 implies constraint_value((#[trigger] want[c]).terms, state)
        == input[c + 2] && want[c].constant == p.address_iv[c] by {
        let pre = c + 2;
        let terms = want[c].terms;
        assert(want[c] == pre_constraint(p.mds_inverse, pre, p.address_iv[c]));
        lemma_first_state(p, input, pre);
        let f = |t: int| terms[t].coeff.mul(state[terms[t].cell as int]);
        let g = |post: int| p.mds_inverse[pre][post].mul(state[cell(0, 0, post)]);
        assert forall|t: int| 0 <= t < 4 implies #[trigger] f(t) == g(t) by {
            lemma_units(p.mds_inverse[pre][t]);
        }
        lemma_sum_ext(4, f, g);
    }
    assert forall|lane: int| 0 <= lane < 2 implies #[trigger] constraint_value(
        output_constraint::<F>(lane, address[lane]).terms,
        state,
    ) == out[lane] by {
        let terms = output_constraint::<F>(lane, address[lane]).terms;
        let y = cell(0, N_ROUNDS as int, lane);
        lemma_parts_of_cell(0, N_ROUNDS as int, lane);
        assert(state[y] == state_cell(p.params, ins, y));
        let f = |t: int| terms[t].coeff.mul(state[terms[t].cell as int]);
        assert(sum(1, f) == sum(0, f).add(f(0))) by {
            reveal_with_fuel(sum, 2);
        }
        lemma_units(out[lane]);
    }
    assert(want[2] == output_constraint::<F>(0, address[0]));
    assert(want[3] == output_constraint::<F>(1, address[1]));
    if constraints_hold(want, state) {
        assert(want[0].constant == constraint_value(want[0].terms, state));
        assert(want[1].constant == constraint_value(want[1].terms, state));
        assert(want[2].constant == constraint_value(want[2].terms, state));
        assert(want[3].constant == constraint_value(want[3].terms, state));
        assert(address@ =~= digest(out));
    }
    if input[2] == p.address_iv[0] && input[3] == p.address_iv[1] && address@ == digest(out) {
        assert(address[0] == address@[0] && address[1] == address@[1]);
        assert forall|c: int| 0 <= c < want.len() implies (#[trigger] want[c]).constant
            == constraint_value(want[c].terms, state) by {
            if c >= 2 {
                assert(want[c] == output_constraint::<F>(c - 2, address[c - 2]));
            }
        }
    }
}

/// The lanes of a column one round earlier, at a point.
pub open spec fn true_lanes<F: TowerField>(state: Seq<F>, r: Seq<F>) -> Seq<F> {
    Seq::new(4, |j: int| mle(lane_table(dec_table(state), j), r))
}

/// Whether the challenges of an owner's proof fooled its verifier.
pub open spec fn owner_fooled<F: TowerField, T: FiatShamir<F>, O>(
    params: PermParams<F>,
    constraints: Seq<ConstraintView<F>>,
    state: Seq<F>,
    start: T,
    proof: OwnerAuthProofKillShot<F, O>,
) -> bool {
    let n = OWNER_AUTH_NUM_VARS as nat;
    let main = proof.kill_shot.main;
    let shift = proof.kill_shot.shift;
    let lanes = main.state_lane_dec_at_r@;
    let c1 = state_after(params, 1, n, main, start);
    let r1 = state_check_run(main.round_polys@, n, start).challenges.reverse();
    let c2 = owner_shift_after(shift, r1, main.state_at_r, lanes, c1);
    let r2 = owner_shift_check_run(
        shift.round_polys@,
        main.state_at_r,
        lanes,
        c1,
    ).challenges.reverse();
    let c3 = crate::owner_boundary::boundary_after(proof.boundary, constraints, n, c2);
    let r3 = boundary_check_run(
        proof.boundary.round_polys@,
        constraints,
        c2,
    ).challenges.reverse();
    let alphas = boundary_alphas(constraints.len(), c2);
    let weights = boundary_weights(constraints, alphas, pow2(n));
    let target = boundary_target(constraints, alphas);
    let delta = c1.challenge();
    let moved = owner_target(main.state_at_r, lanes, delta);
    ||| batch_fooled(state, owner_claims(proof, r1, r2, r3), n, proof.batch, c3)
    ||| exists|j: nat|
        j < n && #[trigger] compressed_misled(
            state_tables(params, 1, state_rho(n, start), state),
            state_term(),
            main.round_polys@,
            F::zero(),
            squeezed_by(start, n),
            j,
        )
    ||| lanes != true_lanes(state, r1) && moved == owner_target(
        mle(state, r1),
        true_lanes(state, r1),
        delta,
    )
    ||| exists|j: nat|
        j < n && #[trigger] weighted_misled(
            owner_weights(r1, delta),
            state,
            n,
            shift.round_polys@,
            moved,
            c1.squeezed(),
            j,
        )
    ||| !constraints_hold(constraints, state) && target == weighted_total(weights, state)
    ||| exists|j: nat|
        j < n && #[trigger] weighted_misled(
            weights,
            state,
            n,
            proof.boundary.round_polys@,
            target,
            boundary_start(constraints.len(), c2),
            j,
        )
}

/// Soundness of the three sumchecks of an owner's proof: where they are accepted
/// and leave a value that is true of a column, the constraints hold of the column
/// and the identity of the permutation sums to zero over it, or a challenge
/// fooled the verifier.
pub proof fn lemma_owner_core_sound<F: TowerField, T: FiatShamir<F>, O>(
    params: PermParams<F>,
    constraints: Seq<ConstraintView<F>>,
    state: Seq<F>,
    start: T,
    proof: OwnerAuthProofKillShot<F, O>,
)
    requires
        state.len() == 512,
        owner_core_verdict(params, constraints, start, proof).points is Some,
        proof.batch.b_final == mle(
            state,
            (owner_core_verdict(params, constraints, start, proof).points->0).3,
        ),
    ensures
        ({
            let n = OWNER_AUTH_NUM_VARS as nat;
            ||| owner_fooled(params, constraints, state, start, proof)
            ||| constraints_hold(constraints, state) && total(
                state_tables(params, 1, state_rho(n, start), state),
                state_term(),
                n,
            ) == F::zero()
        }),
{
    vstd::arithmetic::power2::lemma2_to64();
    let n = OWNER_AUTH_NUM_VARS as nat;
    let main = proof.kill_shot.main;
    let shift = proof.kill_shot.shift;
    let lanes = main.state_lane_dec_at_r@;
    let c1 = state_after(params, 1, n, main, start);
    let r1 = state_check_run(main.round_polys@, n, start).challenges.reverse();
    let c2 = owner_shift_after(shift, r1, main.state_at_r, lanes, c1);
    let r2 = owner_shift_check_run(
        shift.round_polys@,
        main.state_at_r,
        lanes,
        c1,
    ).challenges.reverse();
    let c3 = crate::owner_boundary::boundary_after(proof.boundary, constraints, n, c2);
    let r3 = boundary_check_run(
        proof.boundary.round_polys@,
        constraints,
        c2,
    ).challenges.reverse();
    let claims = owner_claims(proof, r1, r2, r3);
    lemma_batch_sound(state, claims, n, proof.batch.rounds@, proof.batch.b_final, c3);
    assert(claims[0].point.len() == n);
    if claims_hold(claims, state) {
        assert(claims[0].value == mle(state, claims[0].point));
        assert(claims[1].value == mle(state, claims[1].point));
        assert(claims[2].value == mle(state, claims[2].point));
        let alphas = boundary_alphas(constraints.len(), c2);
        lemma_weighted_sound(
            boundary_weights(constraints, alphas, pow2(n)),
            state,
            n,
            proof.boundary.round_polys@,
            boundary_target(constraints, alphas),
            boundary_start(constraints.len(), c2),
        );
        let delta = c1.challenge();
        let truth = true_lanes(state, r1);
        lemma_weighted_sound(
            owner_weights(r1, delta),
            state,
            n,
            shift.round_polys@,
            owner_target(main.state_at_r, lanes, delta),
            c1.squeezed(),
        );
        lemma_owner_target(state, truth, r1, delta);
        if lanes == truth {
            assert forall|j: int| 0 <= j < 4 implies #[trigger] main.state_lane_dec_at_r[j] == mle(
                lane_table(dec_table(state), j),
                r1,
            ) by {
                assert(lanes[j] == truth[j]);
            }
            lemma_state_sound(params, 1, n, state, main, start);
        }
    }
}

/// Soundness of an owner's authorization: where its proof is accepted, the
/// commitment opens to the value that it leaves; where this is that of the trace
/// of a permutation, the input of the permutation is a secret followed by the
/// initial capacity and its output is the address of the statement, or a
/// challenge fooled the verifier.
pub proof fn lemma_owner_sound<
    'b,
    F: TowerField,
    T: FiatShamir<F>,
    S: ColumnScheme<F>,
>(
    p: OwnerAuthParams<F>,
    input: Seq<F>,
    public: OwnerAuthPublicInputs<F>,
    scheme: &'b S,
    proof: &'b OwnerAuthProofKillShot<F, S::Opening>,
    channel: T,
)
    requires
        p.wf(),
        input.len() == 4,
        owner_verdict(p, public, scheme, proof, channel).points is Some,
        proof.batch.b_final == mle(
            state_column(p.params, seq![input], 512),
            (owner_verdict(p, public, scheme, proof, channel).points->0).3,
        ),
    ensures
        owner_opened(
            scheme,
            proof,
            (owner_verdict(p, public, scheme, proof, channel).points->0).3,
        ),
        ({
            ||| input[2] == p.address_iv[0] && input[3] == p.address_iv[1]
                && public.expected_address@ == digest(permuted(p.params, input))
            ||| owner_fooled(
                p.params,
                statement_constraints(p, public),
                state_column(p.params, seq![input], 512),
                owner_start::<F, T, S>(public, proof.pcs.commitment, channel),
                *proof,
            )
        }),
{
    lemma_owner_core_sound(
        p.params,
        statement_constraints(p, public),
        state_column(p.params, seq![input], 512),
        owner_start::<F, T, S>(public, proof.pcs.commitment, channel),
        *proof,
    );
    lemma_owner_constraints_sound(p, input, public.expected_address);
}

/// Soundness of an owner's authorization against any column: where its proof is
/// accepted and leaves a value that is true of a column, the identity of the
/// permutation sums to zero over it, or a challenge fooled the verifier.
pub proof fn lemma_owner_trace_sound<
    'b,
    F: TowerField,
    T: FiatShamir<F>,
    S: ColumnScheme<F>,
>(
    p: OwnerAuthParams<F>,
    state: Seq<F>,
    public: OwnerAuthPublicInputs<F>,
    scheme: &'b S,
    proof: &'b OwnerAuthProofKillShot<F, S::Opening>,
    channel: T,
)
    requires
        state.len() == 512,
        owner_verdict(p, public, scheme, proof, channel).points is Some,
        proof.batch.b_final == mle(
            state,
            (owner_verdict(p, public, scheme, proof, channel).points->0).3,
        ),
    ensures
        ({
            let n = OWNER_AUTH_NUM_VARS as nat;
            let start = owner_start::<F, T, S>(public, proof.pcs.commitment, channel);
            let constraints = statement_constraints(p, public);
            ||| owner_fooled(p.params, constraints, state, start, *proof)
            ||| constraints_hold(constraints, state) && total(
                state_tables(p.params, 1, state_rho(n, start), state),
                state_term(),
                n,
            ) == F::zero()
        }),
{
    lemma_owner_core_sound(
        p.params,
        statement_constraints(p, public),
        state,
        owner_start::<F, T, S>(public, proof.pcs.commitment, channel),
        *proof,
    );
}

/// Soundness of a body hash: a proof is accepted only for the hash of the body;
/// where it leaves claims that are true of columns, the identity of the
/// permutations sums to zero over them, or a challenge fooled the verifier.
pub proof fn lemma_body_trace_sound<F: TowerField, T: FiatShamir<F>>(
    params: PermParams<F>,
    slots: Seq<SweepSlotDescriptor<F>>,
    inputs: SpineInputs<F>,
    claimed: Seq<F>,
    s_in: Seq<F>,
    s_out: Seq<F>,
    state: Seq<F>,
    proof: SpineProofKillShot<F>,
    channel: T,
)
    requires
        s_in.len() == pow2(N_SPINE_UNIFIED_VARS as nat),
        s_out.len() == pow2(N_SPINE_UNIFIED_VARS as nat),
        state.len() == pow2(N_SPINE_UNIFIED_VARS as nat),
        body_verdict(params, slots, inputs, claimed, proof, channel).run is Some,
        ({
            let run = body_verdict(params, slots, inputs, claimed, proof, channel).run->0;
            &&& proof.state_batch.b_final == mle(state, run.state)
            &&& proof.sin_batch.b_final == mle(s_in, run.sin)
            &&& proof.sout_batch.b_final == mle(s_out, run.sout)
        }),
    ensures
        claimed == body_hash(params, slots, inputs),
        ({
            let n = N_SPINE_UNIFIED_VARS as nat;
            let start = body_start(claimed, inputs, channel);
            ||| identity_sum(params, 59, n, s_in, s_out, state, start) == F::zero()
            ||| kill_fooled(
                params,
                59,
                n,
                s_in,
                s_out,
                state,
                Seq::empty(),
                proof.trace(),
                start,
            )
        }),
{
    lemma_kill_sound(
        params,
        59,
        N_SPINE_UNIFIED_VARS as nat,
        s_in,
        s_out,
        state,
        Seq::empty(),
        proof.trace(),
        body_start(claimed, inputs, channel),
    );
}

/// Soundness of the proof for a block: it is accepted only with a hash and 142
/// permutations for every transaction, and with as many variables as these need;
/// where it leaves claims that are true of columns, the identity of the
/// permutations sums to zero over them, or a challenge fooled the verifier.
pub proof fn lemma_block_sound<F: TowerField, T: FiatShamir<F>>(
    params: PermParams<F>,
    n_instances: nat,
    hashes: Seq<[F; 2]>,
    s_in: Seq<F>,
    s_out: Seq<F>,
    state: Seq<F>,
    proof: SweepBlockSpineProof<F>,
    channel: T,
)
    requires
        s_in.len() == pow2(proof.num_vars as nat),
        s_out.len() == pow2(proof.num_vars as nat),
        state.len() == pow2(proof.num_vars as nat),
        block_verdict(params, n_instances, hashes, proof, channel).run is Some,
        ({
            let run = block_verdict(params, n_instances, hashes, proof, channel).run->0;
            &&& proof.state_batch.b_final == mle(state, run.state)
            &&& proof.sin_batch.b_final == mle(s_in, run.sin)
            &&& proof.sout_batch.b_final == mle(s_out, run.sout)
        }),
    ensures
        hashes.len() == n_instances,
        proof.live_slots == 142 * n_instances,
        proof.num_vars >= 10,
        142 * n_instances <= pow2((proof.num_vars - 9) as nat),
        proof.num_vars > 10 ==> pow2((proof.num_vars - 10) as nat) < 142 * n_instances,
        ({
            let n = proof.num_vars as nat;
            let start = absorb_all(channel, hash_elems(hashes, hashes.len()));
            ||| identity_sum(params, 142 * n_instances, n, s_in, s_out, state, start) == F::zero()
            ||| kill_fooled(
                params,
                142 * n_instances,
                n,
                s_in,
                s_out,
                state,
                Seq::empty(),
                proof.trace(),
                start,
            )
        }),
{
    assert(n_instances * 142 == 142 * n_instances);
    lemma_kill_sound(
        params,
        142 * n_instances,
        proof.num_vars as nat,
        s_in,
        s_out,
        state,
        Seq::empty(),
        proof.trace(),
        absorb_all(channel, hash_elems(hashes, hashes.len())),
    );
}

/// A path goes on: over some levels and then others it derives what the others
/// derive from the node over the first; over none it derives the leaf; and over one
/// the digest of the leaf and the sibling, in this order.
pub proof fn lemma_path_goes_on<F: TowerField>(
    params: PermParams<F>,
    iv: Seq<F>,
    leaf: Seq<F>,
    a: Seq<[F; 2]>,
    b: Seq<[F; 2]>,
    sibling: [F; 2],
    k: nat,
)
    requires
        k <= b.len(),
    ensures
        path_node(params, iv, leaf, a + b, a.len() + k) == path_node(
            params,
            iv,
            path_node(params, iv, leaf, a, a.len()),
            b,
            k,
        ),
        path_node(params, iv, leaf, Seq::empty(), 0) == leaf,
        path_node(params, iv, leaf, seq![sibling], 1) == hash2(params, iv, leaf, sibling@),
    decreases k,
{
    reveal_with_fuel(path_node, 2);
    if k > 0 {
        lemma_path_goes_on(params, iv, leaf, a, b, sibling, (k - 1) as nat);
        assert((a + b)[a.len() + k - 1] == b[k - 1]);
    } else {
        lemma_path_prefix(params, iv, leaf, a + b, a, a.len());
    }
}

/// The root of a path is that over its active levels: siblings above them do not
/// count, and with a level more it is the digest of the root before and the next
/// sibling.
pub proof fn lemma_root_levels<F: TowerField>(
    params: PermParams<F>,
    iv: Seq<F>,
    a: MerklePathInputs<F>,
    b: MerklePathInputs<F>,
)
    requires
        a.leaf == b.leaf,
        a.active_depth <= MAX_MERKLE_DEPTH,
        forall|i: int| 0 <= i < a.active_depth ==> #[trigger] a.siblings[i] == b.siblings[i],
    ensures
        b.active_depth == a.active_depth ==> path_root(params, iv, a) == path_root(params, iv, b),
        a.active_depth == 0 ==> path_root(params, iv, a) == a.leaf@,
        b.active_depth == a.active_depth + 1 ==> path_root(params, iv, b) == hash2(
            params,
            iv,
            path_root(params, iv, a),
            b.siblings[a.active_depth as int]@,
        ),
{
    assert forall|i: int| 0 <= i < a.active_depth implies #[trigger] a.siblings@[i]@
        == b.siblings@[i]@ by {
        assert(a.siblings[i] == b.siblings[i]);
    }
    lemma_path_prefix(params, iv, a.leaf@, a.siblings@, b.siblings@, a.active_depth as nat);
}

/// What secrets derive, spelled out: an address is the digest of the secret and the
/// padding; a tag is the digest of the secret, the hash of the body and the
/// padding, with a capacity of its own; the address of an owner is the digest of
/// the secret alone.
pub proof fn lemma_secrets_derive<F: TowerField>(
    params: PermParams<F>,
    ivs: AuthIvs<F>,
    iv: Seq<F>,
    secret: Seq<F>,
    tx_body_hash: Seq<F>,
)
    ensures
        derived_address(params, ivs, secret) == chain_digest(
            params,
            ivs.address@,
            seq![secret, padding()],
            2,
        ),
        derived_auth_tag(params, ivs, secret, tx_body_hash) == chain_digest(
            params,
            ivs.auth_tag@,
            seq![secret, tx_body_hash, padding()],
            3,
        ),
        owner_address(params, iv, secret) == chain_digest(params, iv, seq![secret], 1),
{
    reveal_with_fuel(chain_state, 4);
}

} // verus!
