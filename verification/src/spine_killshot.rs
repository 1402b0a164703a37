//! The proof of a transaction body hash.
use vstd::prelude::*;
use crate::auth_killshot::absorb_pair;
use crate::auth_unified_v2::AuthKillShotProof;
use crate::batch_eval::{BatchEvalProof, EvalClaim, claims_view};
use crate::circuit::{SpineCircuit, SpineInputs};
use crate::circuit_sweep::SweepSlotDescriptor;
use crate::field::TowerField;
use crate::killshot::{KillRun, KillVerdict, TraceProofKillShot, TraceReductions, is_kill_proof, kill_run, kill_verdict, lemma_kill_complete, prove_trace_killshot, verify_trace_parts};
use crate::layers::{PermParams, permuted};
use crate::oracle::{SpineBoundary, evaluate_spine, slot_input, slot_outputs, slots_fit};
use crate::spine_mle::{N_SPINE_UNIFIED_CELLS, N_SPINE_UNIFIED_VARS, SpineUnifiedMle, build_unified_mle};
use crate::sponge::{digest, same_pair};
use crate::trace_mle::{input_views, sin_column, sout_column, state_column};
use crate::transcript::{FiatShamir, absorb_all, absorb_slice, lemma_absorb_all_add};

verus! {

/// The number of permutations.
pub const N_SPINE_SLOTS: usize = 59;

/// The proof of a body hash.
#[derive(Clone, Debug, PartialEq, Eq)]
pub struct SpineProofKillShot<F> {
    pub kill_shot: AuthKillShotProof<F>,
    pub state_batch: BatchEvalProof<F>,
    pub sin_batch: BatchEvalProof<F>,
    pub sout_batch: BatchEvalProof<F>,
}

impl<F: TowerField> SpineProofKillShot<F> {
    /// The proof of the trace.
    pub open spec fn trace(&self) -> TraceProofKillShot<F> {
        TraceProofKillShot {
            kill_shot: self.kill_shot,
            state_batch: self.state_batch,
            sin_batch: self.sin_batch,
            sout_batch: self.sout_batch,
        }
    }

    /// The size in bytes of every round polynomial and of the three last values
    /// of the reductions: 16 a field element. The values that the two sumchecks
    /// claim are not counted.
    pub open spec fn size(&self) -> nat {
        self.kill_shot.main.round_polys.len() as nat * 160
            + self.kill_shot.shift.round_polys.len() as nat * 48
            + self.state_batch.rounds.len() as nat * 48 + 16
            + self.sin_batch.rounds.len() as nat * 48 + 16
            + self.sout_batch.rounds.len() as nat * 48 + 16
    }

    /// Computes [`SpineProofKillShot::size`].
    pub fn byte_len(&self) -> (r: usize)
        requires
            self.size() <= usize::MAX,
        ensures
            r == self.size(),
    {
        self.kill_shot.main.round_polys.len() * 10 * 16
            + self.kill_shot.shift.round_polys.len() * 3 * 16 + self.state_batch.byte_len()
            + self.sin_batch.byte_len() + self.sout_batch.byte_len()
    }
}

/// What a transcript absorbs of the inputs: every leaf, in the order of the
/// tree.
pub open spec fn inputs_header<F>(inputs: SpineInputs<F>) -> Seq<F> {
    inputs.epoch_anchor@ + inputs.fee_leaf@ + payload_elems(
        inputs.input_leaves@,
        4,
    ) + payload_elems(inputs.output_leaves@, 8) + inputs.is_coinbase_leaf@ + inputs.pad_leaf@
}

/// The elements of the first `k` payloads.
pub open spec fn payload_elems<F>(payloads: Seq<[F; 4]>, k: nat) -> Seq<F>
    decreases k,
{
    if k == 0 {
        Seq::empty()
    } else {
        payload_elems(payloads, (k - 1) as nat) + payloads[k - 1]@
    }
}

/// Payloads can be told from their elements.
proof fn lemma_payload_elems<F>(payloads: Seq<[F; 4]>, k: nat)
    ensures
        payload_elems(payloads, k).len() == 4 * k,
        forall|i: int, j: int|
            0 <= i < k && 0 <= j < 4 ==> payload_elems(payloads, k)[4 * i + j]
                == #[trigger] payloads[i]@[j],
    decreases k,
{
    if k > 0 {
        lemma_payload_elems(payloads, (k - 1) as nat);
        let rest = payload_elems(payloads, (k - 1) as nat);
        assert forall|i: int, j: int| 0 <= i < k && 0 <= j < 4 implies payload_elems(
            payloads,
            k,
        )[4 * i + j] == #[trigger] payloads[i]@[j] by {
            if i < k - 1 {
                assert(rest[4 * i + j] == payloads[i]@[j]);
            }
        }
    }
}

/// Inputs whose headers are equal are equal.
pub proof fn lemma_header_injective<F>(a: SpineInputs<F>, b: SpineInputs<F>)
    requires
        inputs_header(a) == inputs_header(b),
    ensures
        a.epoch_anchor@ == b.epoch_anchor@,
        a.fee_leaf@ == b.fee_leaf@,
        forall|i: int| 0 <= i < 4 ==> (#[trigger] a.input_leaves[i])@ == b.input_leaves[i]@,
        forall|i: int| 0 <= i < 8 ==> (#[trigger] a.output_leaves[i])@ == b.output_leaves[i]@,
        a.is_coinbase_leaf@ == b.is_coinbase_leaf@,
        a.pad_leaf@ == b.pad_leaf@,
{
    let (x, y) = (inputs_header(a), inputs_header(b));
    lemma_payload_elems(a.input_leaves@, 4);
    lemma_payload_elems(b.input_leaves@, 4);
    lemma_payload_elems(a.output_leaves@, 8);
    lemma_payload_elems(b.output_leaves@, 8);
    let (ai, bi) = (payload_elems(a.input_leaves@, 4), payload_elems(b.input_leaves@, 4));
    let (ao, bo) = (payload_elems(a.output_leaves@, 8), payload_elems(b.output_leaves@, 8));
    assert(x.len() == 56 && y.len() == 56);
    assert(x.subrange(0, 2) =~= a.epoch_anchor@ && y.subrange(0, 2) =~= b.epoch_anchor@);
    assert(x.subrange(2, 4) =~= a.fee_leaf@ && y.subrange(2, 4) =~= b.fee_leaf@);
    assert(x.subrange(4, 20) =~= ai && y.subrange(4, 20) =~= bi);
    assert(x.subrange(20, 52) =~= ao && y.subrange(20, 52) =~= bo);
    assert(x.subrange(52, 54) =~= a.is_coinbase_leaf@);
    assert(y.subrange(52, 54) =~= b.is_coinbase_leaf@);
    assert(x.subrange(54, 56) =~= a.pad_leaf@ && y.subrange(54, 56) =~= b.pad_leaf@);
    assert forall|i: int| 0 <= i < 4 implies (#[trigger] a.input_leaves[i])@
        == b.input_leaves[i]@ by {
        assert forall|j: int| 0 <= j < 4 implies a.input_leaves@[i]@[j]
            == b.input_leaves@[i]@[j] by {
            assert(ai[4 * i + j] == bi[4 * i + j]);
        }
        assert(a.input_leaves[i]@ =~= b.input_leaves[i]@);
    }
    assert forall|i: int| 0 <= i < 8 implies (#[trigger] a.output_leaves[i])@
        == b.output_leaves[i]@ by {
        assert forall|j: int| 0 <= j < 4 implies a.output_leaves@[i]@[j]
            == b.output_leaves@[i]@[j] by {
            assert(ao[4 * i + j] == bo[4 * i + j]);
        }
        assert(a.output_leaves[i]@ =~= b.output_leaves[i]@);
    }
}

/// Absorbs payloads.
fn absorb_payloads<F: TowerField, T: FiatShamir<F>>(channel: &mut T, payloads: &[[F; 4]])
    ensures
        *final(channel) == absorb_all(
            *old(channel),
            payload_elems(payloads@, payloads.len() as nat),
        ),
{
    let ghost start = *channel;
    let mut k: usize = 0;
    while k < payloads.len()
        invariant
            k <= payloads.len(),
            *channel == absorb_all(start, payload_elems(payloads@, k as nat)),
        decreases payloads.len() - k,
    {
        absorb_slice(channel, payloads[k].as_slice());
        proof {
            lemma_absorb_all_add(
                start,
                payload_elems(payloads@, k as nat),
                payloads@[k as int]@,
            );
        }
        k += 1;
    }
}

/// The transcript before the first challenge: the claimed hash, then the inputs.
pub open spec fn body_start<F: TowerField, T: FiatShamir<F>>(
    claimed: Seq<F>,
    inputs: SpineInputs<F>,
    channel: T,
) -> T {
    absorb_all(absorb_all(channel, claimed), inputs_header(inputs))
}

/// Absorbs the claimed hash and the inputs.
fn absorb_statement<F: TowerField, T: FiatShamir<F>>(
    channel: &mut T,
    claimed: &[F; 2],
    inputs: &SpineInputs<F>,
)
    ensures
        *final(channel) == body_start(claimed@, *inputs, *old(channel)),
{
    absorb_pair(channel, claimed);
    let ghost hashed = *channel;
    absorb_pair(channel, &inputs.epoch_anchor);
    absorb_pair(channel, &inputs.fee_leaf);
    absorb_payloads(channel, inputs.input_leaves.as_slice());
    absorb_payloads(channel, inputs.output_leaves.as_slice());
    absorb_pair(channel, &inputs.is_coinbase_leaf);
    absorb_pair(channel, &inputs.pad_leaf);
    proof {
        let (a, b) = (inputs.epoch_anchor@, inputs.fee_leaf@);
        let c = payload_elems(inputs.input_leaves@, 4);
        let d = payload_elems(inputs.output_leaves@, 8);
        let (e, f) = (inputs.is_coinbase_leaf@, inputs.pad_leaf@);
        lemma_absorb_all_add(hashed, a, b);
        lemma_absorb_all_add(hashed, a + b, c);
        lemma_absorb_all_add(hashed, a + b + c, d);
        lemma_absorb_all_add(hashed, a + b + c + d, e);
        lemma_absorb_all_add(hashed, a + b + c + d + e, f);
    }
}

/// The claims that a body hash leaves.
pub type SpineKillShotReductions<F> = TraceReductions<F>;

/// The inputs of the permutations of a body hash.
pub open spec fn body_state_ins<F: TowerField, B: SpineBoundary<F>>(
    params: PermParams<F>,
    slots: Seq<SweepSlotDescriptor<F>>,
    inputs: B,
) -> Seq<Seq<F>> {
    Seq::new(
        slots.len(),
        |k: int| slot_input(slots[k], inputs, slot_outputs(params, slots, inputs, k as nat)),
    )
}

/// The states of every permutation, before and after.
pub fn reconstruct_slot_states<F: TowerField>(
    params: &PermParams<F>,
    circuit: &SpineCircuit<F>,
    inputs: &SpineInputs<F>,
) -> (states: Vec<([F; 4], [F; 4])>)
    requires
        circuit.slots.len() > 0,
        slots_fit(circuit.slots@, *inputs),
    ensures
        states.len() == circuit.slots.len(),
        forall|k: int|
            0 <= k < states.len() ==> {
                let want = body_state_ins(*params, circuit.slots@, *inputs)[k];
                (#[trigger] states[k]).0@ == want && states[k].1@ == permuted(*params, want)
            },
{
    let w = evaluate_spine(params, circuit, inputs);
    let mut states: Vec<([F; 4], [F; 4])> = Vec::new();
    let mut k: usize = 0;
    while k < w.slots.len()
        invariant
            k <= w.slots.len(),
            w.of(*params, circuit.slots@, *inputs),
            states.len() == k,
            forall|j: int|
                0 <= j < k ==> {
                    let want = body_state_ins(*params, circuit.slots@, *inputs)[j];
                    (#[trigger] states[j]).0@ == want && states[j].1@ == permuted(*params, want)
                },
        decreases w.slots.len() - k,
    {
        proof {
            assert(w.slots[k as int].of(
                *params,
                slot_input(
                    circuit.slots@[k as int],
                    *inputs,
                    slot_outputs(*params, circuit.slots@, *inputs, k as nat),
                ),
            ));
        }
        states.push((w.slots[k].state_in, w.slots[k].state_out));
        k += 1;
    }
    states
}

/// The body hash of a circuit.
pub open spec fn body_hash<F: TowerField, B: SpineBoundary<F>>(
    params: PermParams<F>,
    slots: Seq<SweepSlotDescriptor<F>>,
    inputs: B,
) -> Seq<F> {
    digest(slot_outputs(params, slots, inputs, slots.len()).last())
}

/// Computes [`body_hash`].
pub fn compute_tx_body_hash<F: TowerField>(
    params: &PermParams<F>,
    circuit: &SpineCircuit<F>,
    inputs: &SpineInputs<F>,
) -> (r: [F; 2])
    requires
        circuit.slots.len() > 0,
        slots_fit(circuit.slots@, *inputs),
    ensures
        r@ == body_hash(*params, circuit.slots@, *inputs),
{
    evaluate_spine(params, circuit, inputs).tx_body_hash
}

/// The inputs among the states.
pub open spec fn first_states<F>(states: Seq<([F; 4], [F; 4])>) -> Seq<Seq<F>> {
    Seq::new(states.len(), |k: int| states[k].0@)
}

/// The columns of states that are there already.
pub fn build_unified_from_states<F: TowerField>(
    params: &PermParams<F>,
    states: &[([F; 4], [F; 4])],
) -> (mle: SpineUnifiedMle<F>)
    requires
        states.len() == N_SPINE_SLOTS,
    ensures
        mle.of(*params, first_states(states@)),
{
    let mut ins: Vec<[F; 4]> = Vec::new();
    let mut k: usize = 0;
    while k < states.len()
        invariant
            k <= states.len(),
            ins.len() == k,
            forall|j: int| 0 <= j < k ==> #[trigger] ins[j] == states@[j].0,
        decreases states.len() - k,
    {
        ins.push(states[k].0);
        k += 1;
    }
    proof {
        assert(input_views(ins@) =~= first_states(states@));
    }
    build_unified_mle(params, ins.as_slice())
}

/// The columns of a body hash.
pub fn build_unified_from_inputs<F: TowerField>(
    params: &PermParams<F>,
    circuit: &SpineCircuit<F>,
    inputs: &SpineInputs<F>,
) -> (mle: SpineUnifiedMle<F>)
    requires
        circuit.slots.len() == N_SPINE_SLOTS,
        slots_fit(circuit.slots@, *inputs),
    ensures
        mle.of(*params, body_state_ins(*params, circuit.slots@, *inputs)),
{
    let states = reconstruct_slot_states(params, circuit, inputs);
    proof {
        assert(first_states(states@) =~= body_state_ins(*params, circuit.slots@, *inputs));
    }
    build_unified_from_states(params, states.as_slice())
}

/// The proof of a body hash with the given inputs of its permutations.
pub open spec fn is_body_proof<F: TowerField, T: FiatShamir<F>>(
    params: PermParams<F>,
    ins: Seq<Seq<F>>,
    claimed: Seq<F>,
    inputs: SpineInputs<F>,
    channel: T,
    proof: SpineProofKillShot<F>,
) -> bool {
    let cells = N_SPINE_UNIFIED_CELLS as nat;
    is_kill_proof(
        params,
        N_SPINE_SLOTS as nat,
        N_SPINE_UNIFIED_VARS as nat,
        sin_column(params, ins, cells),
        sout_column(params, ins, cells),
        state_column(params, ins, cells),
        Seq::empty(),
        body_start(claimed, inputs, channel),
        proof.trace(),
    )
}

/// The prover's run.
pub open spec fn body_run<F: TowerField, T: FiatShamir<F>>(
    params: PermParams<F>,
    ins: Seq<Seq<F>>,
    claimed: Seq<F>,
    inputs: SpineInputs<F>,
    channel: T,
    proof: SpineProofKillShot<F>,
) -> KillRun<F, T> {
    let cells = N_SPINE_UNIFIED_CELLS as nat;
    kill_run(
        params,
        N_SPINE_SLOTS as nat,
        N_SPINE_UNIFIED_VARS as nat,
        sin_column(params, ins, cells),
        sout_column(params, ins, cells),
        state_column(params, ins, cells),
        Seq::empty(),
        body_start(claimed, inputs, channel),
        proof.trace(),
    )
}

/// Proves the body hash of the given inputs from states that are there already.
pub fn prove_spine_killshot_with_states<F: TowerField, T: FiatShamir<F>>(
    params: &PermParams<F>,
    states: &[([F; 4], [F; 4])],
    inputs: &SpineInputs<F>,
    claimed_tx_body_hash: [F; 2],
    channel: &mut T,
) -> (out: (SpineProofKillShot<F>, SpineKillShotReductions<F>))
    requires
        states.len() == N_SPINE_SLOTS,
    ensures
        is_body_proof(
            *params,
            first_states(states@),
            claimed_tx_body_hash@,
            *inputs,
            *old(channel),
            out.0,
        ),
        ({
            let run = body_run(
                *params,
                first_states(states@),
                claimed_tx_body_hash@,
                *inputs,
                *old(channel),
                out.0,
            );
            out.1.of(run, out.0.trace()) && *final(channel) == run.channel
        }),
        ({
            let ins = first_states(states@);
            let cells = N_SPINE_UNIFIED_CELLS as nat;
            out.1.hold(
                sin_column(*params, ins, cells),
                sout_column(*params, ins, cells),
                state_column(*params, ins, cells),
            )
        }),
{
    absorb_statement(channel, &claimed_tx_body_hash, inputs);
    let mle = build_unified_from_states(params, states);
    let pins: Vec<EvalClaim<F>> = Vec::new();
    proof {
        vstd::arithmetic::power2::lemma2_to64();
        assert(claims_view(pins@) =~= Seq::empty());
    }
    let (trace, reductions) = prove_trace_killshot(
        params,
        mle.s_in.as_slice(),
        mle.s_out.as_slice(),
        mle.state.as_slice(),
        N_SPINE_UNIFIED_VARS,
        N_SPINE_SLOTS,
        &pins,
        channel,
    );
    let proof = SpineProofKillShot {
        kill_shot: trace.kill_shot,
        state_batch: trace.state_batch,
        sin_batch: trace.sin_batch,
        sout_batch: trace.sout_batch,
    };
    (proof, reductions)
}

/// Proves a body hash.
pub fn prove_spine_killshot<F: TowerField, T: FiatShamir<F>>(
    params: &PermParams<F>,
    circuit: &SpineCircuit<F>,
    inputs: &SpineInputs<F>,
    claimed_tx_body_hash: [F; 2],
    channel: &mut T,
) -> (out: (SpineProofKillShot<F>, SpineKillShotReductions<F>))
    requires
        circuit.slots.len() == N_SPINE_SLOTS,
        slots_fit(circuit.slots@, *inputs),
    ensures
        ({
            let ins = body_state_ins(*params, circuit.slots@, *inputs);
            let run = body_run(
                *params,
                ins,
                claimed_tx_body_hash@,
                *inputs,
                *old(channel),
                out.0,
            );
            &&& is_body_proof(
                *params,
                ins,
                claimed_tx_body_hash@,
                *inputs,
                *old(channel),
                out.0,
            )
            &&& out.1.of(run, out.0.trace())
            &&& *final(channel) == run.channel
        }),
        ({
            let ins = body_state_ins(*params, circuit.slots@, *inputs);
            let cells = N_SPINE_UNIFIED_CELLS as nat;
            out.1.hold(
                sin_column(*params, ins, cells),
                sout_column(*params, ins, cells),
                state_column(*params, ins, cells),
            )
        }),
{
    let states = reconstruct_slot_states(params, circuit, inputs);
    proof {
        assert(first_states(states@) =~= body_state_ins(*params, circuit.slots@, *inputs));
    }
    prove_spine_killshot_with_states(
        params,
        states.as_slice(),
        inputs,
        claimed_tx_body_hash,
        channel,
    )
}

/// The verdict on the proof of a body hash.
pub open spec fn body_verdict<F: TowerField, T: FiatShamir<F>>(
    params: PermParams<F>,
    slots: Seq<SweepSlotDescriptor<F>>,
    inputs: SpineInputs<F>,
    claimed: Seq<F>,
    proof: SpineProofKillShot<F>,
    channel: T,
) -> KillVerdict<F, T> {
    if slots.len() != N_SPINE_SLOTS || body_hash(params, slots, inputs) != claimed {
        KillVerdict { run: None, channel }
    } else {
        kill_verdict(
            params,
            N_SPINE_SLOTS as nat,
            N_SPINE_UNIFIED_VARS as nat,
            Seq::empty(),
            proof.trace(),
            body_start(claimed, inputs, channel),
        )
    }
}

/// Verifies the proof of a body hash.
pub fn verify_spine_killshot<F: TowerField, T: FiatShamir<F>>(
    params: &PermParams<F>,
    proof: &SpineProofKillShot<F>,
    circuit: &SpineCircuit<F>,
    inputs: &SpineInputs<F>,
    claimed_tx_body_hash: [F; 2],
    channel: &mut T,
) -> (out: Option<SpineKillShotReductions<F>>)
    requires
        circuit.slots.len() == N_SPINE_SLOTS ==> slots_fit(circuit.slots@, *inputs),
    ensures
        ({
            let want = body_verdict(
                *params,
                circuit.slots@,
                *inputs,
                claimed_tx_body_hash@,
                *proof,
                *old(channel),
            );
            &&& *final(channel) == want.channel
            &&& match out {
                Some(red) => want.run is Some && red.of(want.run->0, proof.trace()),
                None => want.run is None,
            }
        }),
{
    if circuit.slots.len() != N_SPINE_SLOTS {
        return None;
    }
    let actual = compute_tx_body_hash(params, circuit, inputs);
    if !same_pair(&actual, &claimed_tx_body_hash) {
        return None;
    }
    absorb_statement(channel, &claimed_tx_body_hash, inputs);
    let pins: Vec<EvalClaim<F>> = Vec::new();
    proof {
        vstd::arithmetic::power2::lemma2_to64();
        assert(claims_view(pins@) =~= Seq::empty());
    }
    verify_trace_parts(
        params,
        &proof.kill_shot,
        &proof.state_batch,
        &proof.sin_batch,
        &proof.sout_batch,
        N_SPINE_UNIFIED_VARS,
        N_SPINE_SLOTS,
        &pins,
        channel,
    )
}

/// Whether the claims that are left are true of the columns of a body hash.
pub fn discharge_reductions_native<F: TowerField>(
    params: &PermParams<F>,
    circuit: &SpineCircuit<F>,
    inputs: &SpineInputs<F>,
    reductions: &SpineKillShotReductions<F>,
) -> (r: bool)
    requires
        circuit.slots.len() == N_SPINE_SLOTS,
        slots_fit(circuit.slots@, *inputs),
        reductions.state.point.len() == N_SPINE_UNIFIED_VARS,
        reductions.sin.point.len() == N_SPINE_UNIFIED_VARS,
        reductions.sout.point.len() == N_SPINE_UNIFIED_VARS,
    ensures
        ({
            let ins = body_state_ins(*params, circuit.slots@, *inputs);
            let cells = N_SPINE_UNIFIED_CELLS as nat;
            r == reductions.hold(
                sin_column(*params, ins, cells),
                sout_column(*params, ins, cells),
                state_column(*params, ins, cells),
            )
        }),
{
    let mle = build_unified_from_inputs(params, circuit, inputs);
    proof {
        vstd::arithmetic::power2::lemma2_to64();
    }
    reductions.discharge(mle.s_in.as_slice(), mle.s_out.as_slice(), mle.state.as_slice())
}

/// Completeness: for the hash that the body has, the proof is accepted, and the
/// verifier arrives at the prover's points and transcript.
pub proof fn lemma_body_complete<F: TowerField, T: FiatShamir<F>>(
    params: PermParams<F>,
    slots: Seq<SweepSlotDescriptor<F>>,
    inputs: SpineInputs<F>,
    claimed: Seq<F>,
    proof: SpineProofKillShot<F>,
    channel: T,
)
    requires
        slots.len() == N_SPINE_SLOTS,
        claimed == body_hash(params, slots, inputs),
        is_body_proof(
            params,
            body_state_ins(params, slots, inputs),
            claimed,
            inputs,
            channel,
            proof,
        ),
    ensures
        ({
            let run = body_run(
                params,
                body_state_ins(params, slots, inputs),
                claimed,
                inputs,
                channel,
                proof,
            );
            let v = body_verdict(params, slots, inputs, claimed, proof, channel);
            v.run == Some(run) && v.channel == run.channel
        }),
{
    vstd::arithmetic::power2::lemma2_to64();
    lemma_kill_complete(
        params,
        body_state_ins(params, slots, inputs),
        N_SPINE_UNIFIED_VARS as nat,
        Seq::empty(),
        proof.trace(),
        body_start(claimed, inputs, channel),
    );
}

/// Soundness of the statement: a proof is accepted only for the hash of the body,
/// in both of its lanes, and only for a circuit of the right size.
pub proof fn lemma_body_sound<F: TowerField, T: FiatShamir<F>>(
    params: PermParams<F>,
    slots: Seq<SweepSlotDescriptor<F>>,
    inputs: SpineInputs<F>,
    claimed: [F; 2],
    proof: SpineProofKillShot<F>,
    channel: T,
)
    requires
        body_verdict(params, slots, inputs, claimed@, proof, channel).run is Some,
    ensures
        slots.len() == 59,
        claimed@ == body_hash(params, slots, inputs),
        claimed[0] == body_hash(params, slots, inputs)[0],
        claimed[1] == body_hash(params, slots, inputs)[1],
{
}

/// A header has 56 elements.
pub proof fn lemma_header_len<F>(inputs: SpineInputs<F>)
    ensures
        inputs_header(inputs).len() == 56,
{
    lemma_payload_elems(inputs.input_leaves@, 4);
    lemma_payload_elems(inputs.output_leaves@, 8);
}

} // verus!
