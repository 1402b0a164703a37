//! The proof that every input of a sweep transaction is authorized.
//!
//! The prover commits to the three columns of the trace before any challenge is
//! drawn. The transcript absorbs what is public and the commitment, never the
//! spend secrets. The addresses and tags are pinned to the outputs of their
//! permutations, all claims are reduced to one point, and the commitment is
//! opened there.
use vstd::prelude::*;
use crate::auth_circuit::{AuthIvs, N_SWEEP_AUTH_INPUTS, SweepAuthCircuit, SweepAuthInputs, SweepAuthPublicInputs};
use crate::auth_killshot::{absorb_public_boundary, auth_pins, auth_state_ins, boundary_elems, is_public_part, lemma_auth_pins, public_pin_claims, slot_inputs};
use crate::auth_oracle::{auth_input, derived_address, derived_auth_tag, evaluate_sweep_auth};
use crate::auth_pcs::{AuthMleMultiOpeningProof, absorb_auth_mle_commitment, commit_auth_mle_columns, commitment_absorbed, is_opening, lemma_opening_complete, lemma_same_slice, open_auth_mle_columns_committed, opening_accepted, verify_auth_mle_multi_opening};
use crate::auth_shift_sweep::{N_SWEEP_AUTH_LIVE_SLOTS, N_SWEEP_AUTH_UNIFIED_CELLS, N_SWEEP_AUTH_UNIFIED_VARS};
use crate::auth_unified_v2::AuthKillShotProof;
use crate::column_scheme::ColumnScheme;
use crate::field::TowerField;
use crate::interleaved_commit::{InterleavedCommitment, slice_views};
use crate::killshot::{TraceReductions, kill_shot_byte_len, kill_shot_size};
use crate::layers::PermParams;
use crate::linked_killshot::{LinkedRun, LinkedVerdict};
use crate::mixed_open::column_values;
use crate::multi_batch::MultiBatchEvalProof;
use crate::pinned_killshot::{is_pinned_proof, lemma_pinned_complete, pinned_run, pinned_verdict, prove_pinned, verify_pinned};
use crate::trace_mle::{TraceColumns, build_columns, input_views, sin_column, sout_column, state_column};
use crate::transcript::{FiatShamir, absorb_all};
use crate::wiping::wipe_states;

verus! {

/// The lanes of an address or a tag.
pub const SWEEP_AUTH_PIN_LANES: usize = 2;

/// The first element that a sweep authorization transcript absorbs.
pub const SWEEP_AUTH_GKR_DOMAIN_TAG: u128 = 0xA07D_6B12_2500_0000;

/// The two messages of the proof of the trace.
pub type SweepAuthKillShotProof<F> = AuthKillShotProof<F>;

/// The columns of the trace.
pub type SweepAuthUnifiedMle<F> = TraceColumns<F>;

/// The claims that an authorization leaves.
pub type SweepAuthKillShotReductions<F> = TraceReductions<F>;

/// The proof of an authorization.
#[derive(Clone, Debug, PartialEq, Eq)]
pub struct SweepAuthProofKillShot<F, O> {
    pub kill_shot: SweepAuthKillShotProof<F>,
    pub batch: MultiBatchEvalProof<F>,
    pub pcs: AuthMleMultiOpeningProof<O>,
}

impl<F: TowerField, O> SweepAuthProofKillShot<F, O> {
    /// The size in bytes: 16 a field element, and the opening.
    pub open spec fn size<S: ColumnScheme<F, Opening = O>>(&self) -> nat {
        kill_shot_size(self.kill_shot) + self.batch.rounds.len() as nat * 48
            + self.batch.b_finals.len() as nat * 16 + self.pcs.size::<F, S>()
    }

    /// Computes [`SweepAuthProofKillShot::size`].
    pub fn byte_len<S: ColumnScheme<F, Opening = O>>(&self) -> (r: usize)
        requires
            self.size::<S>() <= usize::MAX,
        ensures
            r == self.size::<S>(),
    {
        kill_shot_byte_len(&self.kill_shot) + self.batch.byte_len() + self.pcs.byte_len::<F, S>()
    }
}

/// Starts a sweep authorization transcript.
pub fn sweep_auth_gkr_channel<F: TowerField, T: FiatShamir<F>>(channel: &mut T)
    ensures
        *final(channel) == old(channel).absorbed(F::of_u128(SWEEP_AUTH_GKR_DOMAIN_TAG)),
{
    channel.absorb(F::from_u128(SWEEP_AUTH_GKR_DOMAIN_TAG));
}

/// The columns of an authorization.
pub fn build_sweep_auth_unified_from_inputs<F: TowerField>(
    params: &PermParams<F>,
    ivs: &AuthIvs<F>,
    circuit: &SweepAuthCircuit<F>,
    inputs: &SweepAuthInputs<F>,
) -> (mle: SweepAuthUnifiedMle<F>)
    requires
        circuit.of(*ivs, N_SWEEP_AUTH_INPUTS as nat),
        inputs.wf(N_SWEEP_AUTH_INPUTS as nat),
    ensures
        mle.wf(N_SWEEP_AUTH_UNIFIED_CELLS as nat),
        mle.of(
            *params,
            auth_state_ins(*params, *ivs, inputs.spend_secret@, inputs.tx_body_hash@),
            N_SWEEP_AUTH_UNIFIED_CELLS as nat,
        ),
{
    let w = evaluate_sweep_auth(params, ivs, circuit, inputs);
    let mut state_ins = slot_inputs(&w.slots);
    proof {
        let want = auth_state_ins(*params, *ivs, inputs.spend_secret@, inputs.tx_body_hash@);
        assert(input_views(state_ins@) =~= want) by {
            assert forall|k: int| 0 <= k < want.len() implies input_views(state_ins@)[k]
                == want[k] by {
                assert(w.slots[k].of(
                    *params,
                    auth_input(*params, *ivs, inputs.spend_secret@, inputs.tx_body_hash@, k),
                ));
                assert(state_ins[k] == w.slots[k].state_in);
            }
        }
    }
    let (mle, _witnesses) = build_columns(params, state_ins.as_slice(), N_SWEEP_AUTH_UNIFIED_CELLS);
    wipe_states(&mut state_ins);
    mle
}

/// The committed columns: the state, the power inputs and the power outputs.
pub open spec fn sweep_columns<F: TowerField>(params: PermParams<F>, ins: Seq<Seq<F>>) -> Seq<
    Seq<F>,
> {
    let cells = N_SWEEP_AUTH_UNIFIED_CELLS as nat;
    seq![
        state_column(params, ins, cells),
        sin_column(params, ins, cells),
        sout_column(params, ins, cells),
    ]
}

/// The transcript after the public part and the commitment.
pub open spec fn sweep_start<F: TowerField, T: FiatShamir<F>, S: ColumnScheme<F>>(
    public: SweepAuthPublicInputs<F>,
    commitment: InterleavedCommitment,
    channel: T,
) -> T {
    commitment_absorbed::<F, T, S>(absorb_all(channel, boundary_elems(public)), commitment)
}

/// The pins of an authorization.
pub open spec fn sweep_pins<F: TowerField>(public: SweepAuthPublicInputs<F>) -> Seq<
    crate::batch_eval::ClaimView<F>,
> {
    auth_pins(
        N_SWEEP_AUTH_UNIFIED_VARS as nat,
        public.expected_address@,
        public.expected_auth_tag@,
    )
}

/// The prover's run.
pub open spec fn sweep_run<F: TowerField, T: FiatShamir<F>, S: ColumnScheme<F>>(
    params: PermParams<F>,
    ins: Seq<Seq<F>>,
    public: SweepAuthPublicInputs<F>,
    channel: T,
    proof: SweepAuthProofKillShot<F, S::Opening>,
) -> LinkedRun<F, T> {
    let cols = sweep_columns(params, ins);
    pinned_run(
        params,
        N_SWEEP_AUTH_LIVE_SLOTS as nat,
        N_SWEEP_AUTH_UNIFIED_VARS as nat,
        cols[1],
        cols[2],
        cols[0],
        sweep_pins(public),
        sweep_start::<F, T, S>(public, proof.pcs.commitment, channel),
        proof.kill_shot,
    )
}

/// The proof of an authorization.
pub open spec fn is_sweep_proof<
    'b,
    F: TowerField,
    T: FiatShamir<F>,
    S: ColumnScheme<F>,
>(
    params: PermParams<F>,
    ins: Seq<Seq<F>>,
    public: SweepAuthPublicInputs<F>,
    scheme: &'b S,
    channel: T,
    proof: SweepAuthProofKillShot<F, S::Opening>,
) -> bool {
    let cols = sweep_columns(params, ins);
    &&& is_pinned_proof(
        params,
        N_SWEEP_AUTH_LIVE_SLOTS as nat,
        N_SWEEP_AUTH_UNIFIED_VARS as nat,
        cols[1],
        cols[2],
        cols[0],
        sweep_pins(public),
        sweep_start::<F, T, S>(public, proof.pcs.commitment, channel),
        proof.kill_shot,
        proof.batch,
    )
    &&& is_opening(
        *scheme,
        cols,
        sweep_run::<F, T, S>(params, ins, public, channel, proof).point,
        proof.pcs,
    )
}

/// Proves an authorization from its columns.
fn prove_sweep_auth_killshot_from_mle<
    'b,
    F: TowerField,
    T: FiatShamir<F>,
    S: ColumnScheme<F>,
>(
    params: &PermParams<F>,
    public: &SweepAuthPublicInputs<F>,
    mle: &SweepAuthUnifiedMle<F>,
    scheme: &'b S,
    channel: &mut T,
    Ghost(ins): Ghost<Seq<Seq<F>>>,
) -> (out: (SweepAuthProofKillShot<F, S::Opening>, SweepAuthKillShotReductions<F>))
    requires
        scheme.fits(N_SWEEP_AUTH_UNIFIED_VARS as nat, 3),
        public.wf(N_SWEEP_AUTH_INPUTS as nat),
        mle.wf(N_SWEEP_AUTH_UNIFIED_CELLS as nat),
        mle.of(*params, ins, N_SWEEP_AUTH_UNIFIED_CELLS as nat),
    ensures
        is_sweep_proof(*params, ins, *public, scheme, *old(channel), out.0),
        ({
            let run = sweep_run::<F, T, S>(*params, ins, *public, *old(channel), out.0);
            out.1.at_point(run.point, out.0.batch) && *final(channel) == run.channel
        }),
        ({
            let cols = sweep_columns(*params, ins);
            out.1.hold(cols[1], cols[2], cols[0])
        }),
{
    proof {
        vstd::arithmetic::power2::lemma2_to64();
    }
    let state = mle.state.as_slice();
    let s_in = mle.s_in.as_slice();
    let s_out = mle.s_out.as_slice();
    let columns: [&[F]; 3] = [state, s_in, s_out];
    let ghost cols = sweep_columns(*params, ins);
    proof {
        assert(slice_views(columns@) =~= cols);
    }
    let mut committed = commit_auth_mle_columns(
        columns.as_slice(),
        N_SWEEP_AUTH_UNIFIED_VARS,
        scheme,
    );
    absorb_public_boundary(channel, public);
    absorb_auth_mle_commitment::<F, T, S>(channel, &committed.commitment);
    let pins = public_pin_claims(public, N_SWEEP_AUTH_UNIFIED_VARS);
    let (kill_shot, batch, reductions) = prove_pinned(
        params,
        s_in,
        s_out,
        state,
        N_SWEEP_AUTH_UNIFIED_VARS,
        N_SWEEP_AUTH_LIVE_SLOTS,
        &pins,
        channel,
    );
    let opening = open_auth_mle_columns_committed(
        &mut committed,
        N_SWEEP_AUTH_UNIFIED_VARS,
        reductions.state.point.as_slice(),
        scheme,
    );
    (SweepAuthProofKillShot { kill_shot, batch, pcs: opening }, reductions)
}

/// Proves an authorization.
pub fn prove_sweep_auth_killshot<
    'b,
    F: TowerField,
    T: FiatShamir<F>,
    S: ColumnScheme<F>,
>(
    params: &PermParams<F>,
    ivs: &AuthIvs<F>,
    circuit: &SweepAuthCircuit<F>,
    inputs: &SweepAuthInputs<F>,
    scheme: &'b S,
    channel: &mut T,
) -> (out: (SweepAuthProofKillShot<F, S::Opening>, SweepAuthKillShotReductions<F>))
    requires
        scheme.fits(N_SWEEP_AUTH_UNIFIED_VARS as nat, 3),
        circuit.of(*ivs, N_SWEEP_AUTH_INPUTS as nat),
        inputs.wf(N_SWEEP_AUTH_INPUTS as nat),
    ensures
        ({
            let ins = auth_state_ins(*params, *ivs, inputs.spend_secret@, inputs.tx_body_hash@);
            let cols = sweep_columns(*params, ins);
            &&& out.1.hold(cols[1], cols[2], cols[0])
            &&& forall|public: SweepAuthPublicInputs<F>| #[trigger]
                is_public_part(public, *inputs) ==> {
                    let run = sweep_run::<F, T, S>(*params, ins, public, *old(channel), out.0);
                    &&& is_sweep_proof(
                        *params,
                        ins,
                        public,
                        scheme,
                        *old(channel),
                        out.0,
                    )
                    &&& out.1.at_point(run.point, out.0.batch)
                    &&& *final(channel) == run.channel
                }
        }),
{
    let mle = build_sweep_auth_unified_from_inputs(params, ivs, circuit, inputs);
    prove_sweep_auth_killshot_with_mle(
        params,
        ivs,
        circuit,
        inputs,
        &mle,
        scheme,
        channel,
    )
}

/// Proves an authorization whose columns are built already.
pub fn prove_sweep_auth_killshot_with_mle<
    'b,
    F: TowerField,
    T: FiatShamir<F>,
    S: ColumnScheme<F>,
>(
    params: &PermParams<F>,
    ivs: &AuthIvs<F>,
    circuit: &SweepAuthCircuit<F>,
    inputs: &SweepAuthInputs<F>,
    mle: &SweepAuthUnifiedMle<F>,
    scheme: &'b S,
    channel: &mut T,
) -> (out: (SweepAuthProofKillShot<F, S::Opening>, SweepAuthKillShotReductions<F>))
    requires
        scheme.fits(N_SWEEP_AUTH_UNIFIED_VARS as nat, 3),
        circuit.of(*ivs, N_SWEEP_AUTH_INPUTS as nat),
        inputs.wf(N_SWEEP_AUTH_INPUTS as nat),
        mle.wf(N_SWEEP_AUTH_UNIFIED_CELLS as nat),
        mle.of(
            *params,
            auth_state_ins(*params, *ivs, inputs.spend_secret@, inputs.tx_body_hash@),
            N_SWEEP_AUTH_UNIFIED_CELLS as nat,
        ),
    ensures
        ({
            let ins = auth_state_ins(*params, *ivs, inputs.spend_secret@, inputs.tx_body_hash@);
            let cols = sweep_columns(*params, ins);
            &&& out.1.hold(cols[1], cols[2], cols[0])
            &&& forall|public: SweepAuthPublicInputs<F>| #[trigger]
                is_public_part(public, *inputs) ==> {
                    let run = sweep_run::<F, T, S>(*params, ins, public, *old(channel), out.0);
                    &&& is_sweep_proof(
                        *params,
                        ins,
                        public,
                        scheme,
                        *old(channel),
                        out.0,
                    )
                    &&& out.1.at_point(run.point, out.0.batch)
                    &&& *final(channel) == run.channel
                }
        }),
{
    let public = inputs.to_public();
    proof {
        assert forall|other: SweepAuthPublicInputs<F>| #[trigger]
            is_public_part(other, *inputs) implies boundary_elems(other) == boundary_elems(public)
            && sweep_pins(other) == sweep_pins(public) by {}
    }
    prove_sweep_auth_killshot_from_mle(
        params,
        &public,
        mle,
        scheme,
        channel,
        Ghost(auth_state_ins(*params, *ivs, inputs.spend_secret@, inputs.tx_body_hash@)),
    )
}

/// Whether the commitment opens to the values of the proof at a point.
pub open spec fn sweep_opened<'b, F: TowerField, S: ColumnScheme<F>>(
    scheme: &'b S,
    proof: &'b SweepAuthProofKillShot<F, S::Opening>,
    point: Seq<F>,
) -> bool {
    forall|p: &'b [F]|
        p@ == point ==> #[trigger] opening_accepted(
            scheme,
            &proof.pcs,
            N_SWEEP_AUTH_UNIFIED_VARS as nat,
            p,
            proof.batch.b_finals@,
        )
}

/// The verdict on the proof of an authorization.
pub open spec fn sweep_verdict<
    'b,
    F: TowerField,
    T: FiatShamir<F>,
    S: ColumnScheme<F>,
>(
    params: PermParams<F>,
    slots: nat,
    public: SweepAuthPublicInputs<F>,
    scheme: &'b S,
    proof: &'b SweepAuthProofKillShot<F, S::Opening>,
    channel: T,
) -> LinkedVerdict<F, T> {
    if slots != N_SWEEP_AUTH_LIVE_SLOTS {
        LinkedVerdict { point: None, channel }
    } else {
        let v = pinned_verdict(
            params,
            N_SWEEP_AUTH_LIVE_SLOTS as nat,
            N_SWEEP_AUTH_UNIFIED_VARS as nat,
            sweep_pins(public),
            sweep_start::<F, T, S>(public, proof.pcs.commitment, channel),
            proof.kill_shot,
            proof.batch,
        );
        if v.point is Some && !sweep_opened(scheme, proof, v.point->0) {
            LinkedVerdict { point: None, channel: v.channel }
        } else {
            v
        }
    }
}

/// Verifies the proof of an authorization against its public part.
pub fn verify_sweep_auth_killshot<
    'b,
    F: TowerField,
    T: FiatShamir<F>,
    S: ColumnScheme<F>,
>(
    params: &PermParams<F>,
    proof: &'b SweepAuthProofKillShot<F, S::Opening>,
    circuit: &SweepAuthCircuit<F>,
    inputs: &SweepAuthPublicInputs<F>,
    scheme: &'b S,
    channel: &mut T,
) -> (out: Option<SweepAuthKillShotReductions<F>>)
    requires
        inputs.wf(N_SWEEP_AUTH_INPUTS as nat),
        scheme.fits(N_SWEEP_AUTH_UNIFIED_VARS as nat, 3),
    ensures
        ({
            let want = sweep_verdict(
                *params,
                circuit.slots.len() as nat,
                *inputs,
                scheme,
                proof,
                *old(channel),
            );
            &&& *final(channel) == want.channel
            &&& match out {
                Some(red) => want.point is Some && red.at_point(want.point->0, proof.batch),
                None => want.point is None,
            }
        }),
{
    if circuit.slots.len() != N_SWEEP_AUTH_LIVE_SLOTS {
        return None;
    }
    proof {
        vstd::arithmetic::power2::lemma2_to64();
    }
    absorb_public_boundary(channel, inputs);
    absorb_auth_mle_commitment::<F, T, S>(channel, &proof.pcs.commitment);
    let pins = public_pin_claims(inputs, N_SWEEP_AUTH_UNIFIED_VARS);
    let reductions = match verify_pinned(
        params,
        &proof.kill_shot,
        &proof.batch,
        N_SWEEP_AUTH_UNIFIED_VARS,
        N_SWEEP_AUTH_LIVE_SLOTS,
        &pins,
        channel,
    ) {
        Some(reductions) => reductions,
        None => {
            return None;
        },
    };
    let at = reductions.state.point.as_slice();
    let opened = verify_auth_mle_multi_opening(
        &proof.pcs,
        N_SWEEP_AUTH_UNIFIED_VARS,
        at,
        proof.batch.b_finals.as_slice(),
        scheme,
    );
    proof {
        assert forall|p: &[F]| p@ == at@ implies opened == #[trigger] opening_accepted(
            scheme,
            &proof.pcs,
            N_SWEEP_AUTH_UNIFIED_VARS as nat,
            p,
            proof.batch.b_finals@,
        ) by {
            lemma_same_slice(p, at);
        }
    }
    if opened {
        Some(reductions)
    } else {
        None
    }
}

/// Whether the claims that are left are true of the columns of an
/// authorization.
pub fn discharge_sweep_auth_reductions_native<F: TowerField>(
    params: &PermParams<F>,
    ivs: &AuthIvs<F>,
    circuit: &SweepAuthCircuit<F>,
    inputs: &SweepAuthInputs<F>,
    reductions: &SweepAuthKillShotReductions<F>,
) -> (r: bool)
    requires
        circuit.of(*ivs, N_SWEEP_AUTH_INPUTS as nat),
        inputs.wf(N_SWEEP_AUTH_INPUTS as nat),
        reductions.state.point.len() == N_SWEEP_AUTH_UNIFIED_VARS,
        reductions.sin.point.len() == N_SWEEP_AUTH_UNIFIED_VARS,
        reductions.sout.point.len() == N_SWEEP_AUTH_UNIFIED_VARS,
    ensures
        ({
            let ins = auth_state_ins(*params, *ivs, inputs.spend_secret@, inputs.tx_body_hash@);
            let cols = sweep_columns(*params, ins);
            r == reductions.hold(cols[1], cols[2], cols[0])
        }),
{
    let mle = build_sweep_auth_unified_from_inputs(params, ivs, circuit, inputs);
    proof {
        vstd::arithmetic::power2::lemma2_to64();
    }
    reductions.discharge(mle.s_in.as_slice(), mle.s_out.as_slice(), mle.state.as_slice())
}

/// Completeness: when every secret derives its address and its tag, the proof is
/// accepted against the public part, and the verifier arrives at the prover's
/// point and transcript.
pub proof fn lemma_sweep_complete<
    'b,
    F: TowerField,
    T: FiatShamir<F>,
    S: ColumnScheme<F>,
>(
    params: PermParams<F>,
    ivs: AuthIvs<F>,
    inputs: SweepAuthInputs<F>,
    public: SweepAuthPublicInputs<F>,
    scheme: &'b S,
    proof: &'b SweepAuthProofKillShot<F, S::Opening>,
    channel: T,
)
    requires
        inputs.wf(N_SWEEP_AUTH_INPUTS as nat),
        is_public_part(public, inputs),
        scheme.fits(N_SWEEP_AUTH_UNIFIED_VARS as nat, 3),
        is_sweep_proof(
            params,
            auth_state_ins(params, ivs, inputs.spend_secret@, inputs.tx_body_hash@),
            public,
            scheme,
            channel,
            *proof,
        ),
        forall|i: int|
            0 <= i < N_SWEEP_AUTH_INPUTS ==> (#[trigger] inputs.expected_address[i])@
                == derived_address(params, ivs, inputs.spend_secret[i]@)
                && inputs.expected_auth_tag[i]@ == derived_auth_tag(
                params,
                ivs,
                inputs.spend_secret[i]@,
                inputs.tx_body_hash@,
            ),
    ensures
        ({
            let ins = auth_state_ins(params, ivs, inputs.spend_secret@, inputs.tx_body_hash@);
            let run = sweep_run::<F, T, S>(params, ins, public, channel, *proof);
            let v = sweep_verdict(
                params,
                N_SWEEP_AUTH_LIVE_SLOTS as nat,
                public,
                scheme,
                proof,
                channel,
            );
            v.point == Some(run.point) && v.channel == run.channel
        }),
{
    vstd::arithmetic::power2::lemma2_to64();
    let ins = auth_state_ins(params, ivs, inputs.spend_secret@, inputs.tx_body_hash@);
    let cols = sweep_columns(params, ins);
    let n = N_SWEEP_AUTH_UNIFIED_VARS as nat;
    lemma_auth_pins(
        params,
        ivs,
        inputs.spend_secret@,
        inputs.tx_body_hash@,
        public.expected_address@,
        public.expected_auth_tag@,
        n,
    );
    assert forall|i: int| 0 <= i < N_SWEEP_AUTH_INPUTS implies (
    #[trigger] public.expected_address@[i])@ == derived_address(
        params,
        ivs,
        inputs.spend_secret@[i]@,
    ) && public.expected_auth_tag@[i]@ == derived_auth_tag(
        params,
        ivs,
        inputs.spend_secret@[i]@,
        inputs.tx_body_hash@,
    ) by {
        assert(inputs.expected_address[i] == public.expected_address@[i]);
        assert(inputs.expected_auth_tag[i] == public.expected_auth_tag@[i]);
    }
    lemma_pinned_complete(
        params,
        ins,
        n,
        sweep_pins(public),
        sweep_start::<F, T, S>(public, proof.pcs.commitment, channel),
        proof.kill_shot,
        proof.batch,
    );
    let point = sweep_run::<F, T, S>(params, ins, public, channel, *proof).point;
    assert(proof.batch.b_finals@ =~= column_values(cols, point));
    assert forall|p: &'b [F]| p@ == point implies #[trigger] opening_accepted(
            scheme,
            &proof.pcs,
        n,
        p,
        proof.batch.b_finals@,
    ) by {
        lemma_opening_complete(
            scheme,
            cols,
            &proof.pcs,
            n,
            p,
            proof.batch.b_finals@,
        );
    }
}

} // verus!
