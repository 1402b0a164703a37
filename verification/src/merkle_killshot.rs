//! The proof that a leaf and its siblings lead to a root.
use vstd::prelude::*;
use crate::auth_killshot::{absorb_pair, slot_inputs};
use crate::batch_eval::{ClaimView, EvalClaim, claims_hold, claims_view, claims_wf};
use crate::field::TowerField;
use crate::killshot::{KillRun, KillVerdict, TraceProofKillShot, TraceReductions, build_output_claim, is_kill_proof, kill_run, kill_verdict, lemma_kill_complete, lemma_output_claim, output_claim, prove_trace_killshot, verify_trace_killshot};
use crate::layers::{PermParams, permuted};
use crate::merkle_circuit::{MAX_MERKLE_DEPTH, MerkleCircuit, MerklePathInputs};
use crate::merkle_mle::{MerkleUnifiedMle, build_merkle_unified_mle};
use crate::merkle_oracle::{evaluate_merkle, path_input, path_root};
use crate::merkle_shift::{N_MERKLE_UNIFIED_CELLS, N_MERKLE_UNIFIED_VARS};
use crate::mle::mle;
use crate::sponge::digest;
use crate::table::subrange;
use crate::trace_mle::{input_views, sin_column, sout_column, state_column};
use crate::transcript::{FiatShamir, absorb_all, lemma_absorb_all_add};

verus! {

/// The lanes of a root.
pub const MERKLE_PIN_LANES: usize = 2;

/// The proof of a path.
pub type MerkleProofKillShot<F> = TraceProofKillShot<F>;

/// The claims that a path leaves.
pub type MerkleKillShotReductions<F> = TraceReductions<F>;

/// The elements of the first `k` siblings.
pub open spec fn sibling_elems<F>(siblings: Seq<[F; 2]>, k: nat) -> Seq<F>
    decreases k,
{
    if k == 0 {
        Seq::empty()
    } else {
        sibling_elems(siblings, (k - 1) as nat) + siblings[k - 1]@
    }
}

/// What the transcript absorbs of a path.
pub open spec fn path_elems<F: TowerField>(inputs: MerklePathInputs<F>) -> Seq<F> {
    (inputs.expected_root@ + inputs.leaf@ + sibling_elems(inputs.siblings@, 16)).push(
        F::of_u128(inputs.active_depth as u128),
    )
}

/// Absorbs a path.
fn absorb_public_boundary<F: TowerField, T: FiatShamir<F>>(
    channel: &mut T,
    inputs: &MerklePathInputs<F>,
)
    ensures
        *final(channel) == absorb_all(*old(channel), path_elems(*inputs)),
{
    let ghost start = *channel;
    let ghost first = inputs.expected_root@ + inputs.leaf@;
    absorb_pair(channel, &inputs.expected_root);
    absorb_pair(channel, &inputs.leaf);
    proof {
        lemma_absorb_all_add(start, inputs.expected_root@, inputs.leaf@);
        assert(first + sibling_elems(inputs.siblings@, 0) =~= first);
    }
    let mut level: usize = 0;
    while level < MAX_MERKLE_DEPTH
        invariant
            level <= 16,
            *channel == absorb_all(start, first + sibling_elems(inputs.siblings@, level as nat)),
        decreases 16 - level,
    {
        let ghost before = first + sibling_elems(inputs.siblings@, level as nat);
        absorb_pair(channel, &inputs.siblings[level]);
        proof {
            lemma_absorb_all_add(start, before, inputs.siblings@[level as int]@);
            assert(before + inputs.siblings@[level as int]@ =~= first + sibling_elems(
                inputs.siblings@,
                (level + 1) as nat,
            ));
        }
        level += 1;
    }
    let depth = F::from_u128(inputs.active_depth as u128);
    channel.absorb(depth);
    proof {
        let all = path_elems(*inputs);
        assert(all.drop_last() =~= first + sibling_elems(inputs.siblings@, 16));
    }
}

/// The pins: both lanes of the root.
pub open spec fn root_pins<F: TowerField>(inputs: MerklePathInputs<F>) -> Seq<ClaimView<F>> {
    if inputs.active_depth == 0 {
        Seq::empty()
    } else {
        Seq::new(
            2,
            |lane: int|
                output_claim(
                    N_MERKLE_UNIFIED_VARS as nat,
                    2 * (inputs.active_depth - 1) + 1,
                    lane,
                    inputs.expected_root[lane],
                ),
        )
    }
}

/// Builds the pins.
fn root_pin_claims<F: TowerField>(inputs: &MerklePathInputs<F>) -> (pins: Vec<EvalClaim<F>>)
    requires
        inputs.active_depth <= MAX_MERKLE_DEPTH,
    ensures
        claims_view(pins@) == root_pins(*inputs),
        claims_wf(claims_view(pins@), N_MERKLE_UNIFIED_VARS as nat),
{
    let mut pins: Vec<EvalClaim<F>> = Vec::new();
    if inputs.active_depth > 0 {
        let slot: usize = MerkleCircuit::<F>::output_slot(inputs.active_depth - 1);
        proof {
            vstd::arithmetic::power2::lemma2_to64();
        }
        pins.push(build_output_claim(N_MERKLE_UNIFIED_VARS, slot, 0, inputs.expected_root[0]));
        pins.push(build_output_claim(N_MERKLE_UNIFIED_VARS, slot, 1, inputs.expected_root[1]));
    }
    proof {
        assert(claims_view(pins@) =~= root_pins(*inputs));
    }
    pins
}

/// The inputs of the permutations of a path.
pub open spec fn path_state_ins<F: TowerField>(
    params: PermParams<F>,
    iv: Seq<F>,
    inputs: MerklePathInputs<F>,
) -> Seq<Seq<F>> {
    Seq::new(2 * inputs.active_depth as nat, |k: int| path_input(params, iv, inputs, k))
}

/// The columns of a path.
pub fn build_merkle_unified_from_inputs<F: TowerField>(
    params: &PermParams<F>,
    iv: [F; 2],
    circuit: &MerkleCircuit<F>,
    inputs: &MerklePathInputs<F>,
) -> (mle: MerkleUnifiedMle<F>)
    requires
        circuit.of(iv),
        inputs.active_depth <= MAX_MERKLE_DEPTH,
    ensures
        mle.wf(),
        mle.of(*params, path_state_ins(*params, iv@, *inputs)),
{
    let live: usize = MerkleCircuit::<F>::live_slots(inputs.active_depth);
    let w = evaluate_merkle(params, iv, circuit, inputs);
    let all = slot_inputs(&w.slots);
    let state_ins = subrange(all.as_slice(), 0, live);
    proof {
        let want = path_state_ins(*params, iv@, *inputs);
        assert(input_views(state_ins@) =~= want) by {
            assert forall|k: int| 0 <= k < want.len() implies input_views(state_ins@)[k]
                == want[k] by {
                assert(w.slots[k].of(*params, path_input(*params, iv@, *inputs, k)));
                assert(all[k] == w.slots[k].state_in);
            }
        }
    }
    let (mle, _witnesses) = build_merkle_unified_mle(params, state_ins.as_slice(), live);
    mle
}

/// The proof of a path.
pub open spec fn is_path_proof<F: TowerField, T: FiatShamir<F>>(
    params: PermParams<F>,
    iv: Seq<F>,
    inputs: MerklePathInputs<F>,
    channel: T,
    proof: MerkleProofKillShot<F>,
) -> bool {
    let ins = path_state_ins(params, iv, inputs);
    let cells = N_MERKLE_UNIFIED_CELLS as nat;
    is_kill_proof(
        params,
        2 * inputs.active_depth as nat,
        N_MERKLE_UNIFIED_VARS as nat,
        sin_column(params, ins, cells),
        sout_column(params, ins, cells),
        state_column(params, ins, cells),
        root_pins(inputs),
        absorb_all(channel, path_elems(inputs)),
        proof,
    )
}

/// The prover's run.
pub open spec fn path_run<F: TowerField, T: FiatShamir<F>>(
    params: PermParams<F>,
    iv: Seq<F>,
    inputs: MerklePathInputs<F>,
    channel: T,
    proof: MerkleProofKillShot<F>,
) -> KillRun<F, T> {
    let ins = path_state_ins(params, iv, inputs);
    let cells = N_MERKLE_UNIFIED_CELLS as nat;
    kill_run(
        params,
        2 * inputs.active_depth as nat,
        N_MERKLE_UNIFIED_VARS as nat,
        sin_column(params, ins, cells),
        sout_column(params, ins, cells),
        state_column(params, ins, cells),
        root_pins(inputs),
        absorb_all(channel, path_elems(inputs)),
        proof,
    )
}

/// Proves a path.
pub fn prove_merkle_killshot<F: TowerField, T: FiatShamir<F>>(
    params: &PermParams<F>,
    iv: [F; 2],
    circuit: &MerkleCircuit<F>,
    inputs: &MerklePathInputs<F>,
    channel: &mut T,
) -> (out: (MerkleProofKillShot<F>, MerkleKillShotReductions<F>))
    requires
        circuit.of(iv),
        0 < inputs.active_depth <= MAX_MERKLE_DEPTH,
    ensures
        is_path_proof(*params, iv@, *inputs, *old(channel), out.0),
        ({
            let run = path_run(*params, iv@, *inputs, *old(channel), out.0);
            out.1.of(run, out.0) && *final(channel) == run.channel
        }),
        ({
            let ins = path_state_ins(*params, iv@, *inputs);
            let cells = N_MERKLE_UNIFIED_CELLS as nat;
            out.1.hold(
                sin_column(*params, ins, cells),
                sout_column(*params, ins, cells),
                state_column(*params, ins, cells),
            )
        }),
{
    let live: usize = MerkleCircuit::<F>::live_slots(inputs.active_depth);
    absorb_public_boundary(channel, inputs);
    let mle = build_merkle_unified_from_inputs(params, iv, circuit, inputs);
    let pins = root_pin_claims(inputs);
    proof {
        vstd::arithmetic::power2::lemma2_to64();
    }
    prove_trace_killshot(
        params,
        mle.s_in.as_slice(),
        mle.s_out.as_slice(),
        mle.state.as_slice(),
        N_MERKLE_UNIFIED_VARS,
        live,
        &pins,
        channel,
    )
}

/// The verdict on the proof of a path.
pub open spec fn path_verdict<F: TowerField, T: FiatShamir<F>>(
    params: PermParams<F>,
    inputs: MerklePathInputs<F>,
    proof: MerkleProofKillShot<F>,
    channel: T,
) -> KillVerdict<F, T> {
    if inputs.active_depth == 0 || inputs.active_depth > MAX_MERKLE_DEPTH {
        KillVerdict { run: None, channel }
    } else {
        kill_verdict(
            params,
            2 * inputs.active_depth as nat,
            N_MERKLE_UNIFIED_VARS as nat,
            root_pins(inputs),
            proof,
            absorb_all(channel, path_elems(inputs)),
        )
    }
}

/// Verifies the proof of a path.
pub fn verify_merkle_killshot<F: TowerField, T: FiatShamir<F>>(
    params: &PermParams<F>,
    proof: &MerkleProofKillShot<F>,
    inputs: &MerklePathInputs<F>,
    channel: &mut T,
) -> (out: Option<MerkleKillShotReductions<F>>)
    ensures
        ({
            let want = path_verdict(*params, *inputs, *proof, *old(channel));
            &&& *final(channel) == want.channel
            &&& match out {
                Some(red) => want.run is Some && red.of(want.run->0, *proof),
                None => want.run is None,
            }
        }),
{
    if inputs.active_depth == 0 || inputs.active_depth > MAX_MERKLE_DEPTH {
        return None;
    }
    let live: usize = MerkleCircuit::<F>::live_slots(inputs.active_depth);
    absorb_public_boundary(channel, inputs);
    let pins = root_pin_claims(inputs);
    proof {
        vstd::arithmetic::power2::lemma2_to64();
    }
    verify_trace_killshot(params, proof, N_MERKLE_UNIFIED_VARS, live, &pins, channel)
}

/// Whether the claims that are left are true of the columns of a path.
pub fn discharge_merkle_reductions_native<F: TowerField>(
    params: &PermParams<F>,
    iv: [F; 2],
    circuit: &MerkleCircuit<F>,
    inputs: &MerklePathInputs<F>,
    reductions: &MerkleKillShotReductions<F>,
) -> (r: bool)
    requires
        circuit.of(iv),
        inputs.active_depth <= MAX_MERKLE_DEPTH,
        reductions.state.point.len() == N_MERKLE_UNIFIED_VARS,
        reductions.sin.point.len() == N_MERKLE_UNIFIED_VARS,
        reductions.sout.point.len() == N_MERKLE_UNIFIED_VARS,
    ensures
        ({
            let ins = path_state_ins(*params, iv@, *inputs);
            let cells = N_MERKLE_UNIFIED_CELLS as nat;
            r == reductions.hold(
                sin_column(*params, ins, cells),
                sout_column(*params, ins, cells),
                state_column(*params, ins, cells),
            )
        }),
{
    let mle = build_merkle_unified_from_inputs(params, iv, circuit, inputs);
    proof {
        vstd::arithmetic::power2::lemma2_to64();
    }
    reductions.discharge(mle.s_in.as_slice(), mle.s_out.as_slice(), mle.state.as_slice())
}

/// Completeness: for the root that the path derives, the proof is accepted, and
/// the verifier arrives at the prover's points and transcript.
pub proof fn lemma_path_complete<F: TowerField, T: FiatShamir<F>>(
    params: PermParams<F>,
    iv: Seq<F>,
    inputs: MerklePathInputs<F>,
    proof: MerkleProofKillShot<F>,
    channel: T,
)
    requires
        0 < inputs.active_depth <= MAX_MERKLE_DEPTH,
        inputs.expected_root@ == path_root(params, iv, inputs),
        is_path_proof(params, iv, inputs, channel, proof),
    ensures
        ({
            let run = path_run(params, iv, inputs, channel, proof);
            let v = path_verdict(params, inputs, proof, channel);
            v.run == Some(run) && v.channel == run.channel
        }),
{
    vstd::arithmetic::power2::lemma2_to64();
    let n = N_MERKLE_UNIFIED_VARS as nat;
    let ins = path_state_ins(params, iv, inputs);
    let pins = root_pins(inputs);
    let column = state_column(params, ins, N_MERKLE_UNIFIED_CELLS as nat);
    let slot = 2 * (inputs.active_depth - 1) + 1;
    assert(slot / 2 == inputs.active_depth - 1 && slot % 2 == 1);
    assert(digest(permuted(params, ins[slot])) == path_root(params, iv, inputs)) by {
        assert(inputs.siblings@[slot / 2] == inputs.siblings[slot / 2]);
    }
    assert forall|i: int| 0 <= i < pins.len() implies (#[trigger] pins[i]).point.len() == n
        && pins[i].value == mle(column, pins[i].point) by {
        lemma_output_claim(params, ins, n, slot, i, pins[i].value);
        assert(inputs.expected_root@[i] == digest(permuted(params, ins[slot]))[i]);
    }
    lemma_kill_complete(
        params,
        ins,
        n,
        pins,
        proof,
        absorb_all(channel, path_elems(inputs)),
    );
}

/// The pins say that the path leads to the root: they hold of the state column of
/// the path's trace exactly where the expected root is the root of the path.
pub proof fn lemma_root_pins<F: TowerField>(
    params: PermParams<F>,
    iv: Seq<F>,
    inputs: MerklePathInputs<F>,
)
    requires
        0 < inputs.active_depth <= MAX_MERKLE_DEPTH,
    ensures
        claims_wf(root_pins(inputs), N_MERKLE_UNIFIED_VARS as nat),
        claims_hold(
            root_pins(inputs),
            state_column(
                params,
                path_state_ins(params, iv, inputs),
                N_MERKLE_UNIFIED_CELLS as nat,
            ),
        ) <==> inputs.expected_root@ == path_root(params, iv, inputs),
{
    vstd::arithmetic::power2::lemma2_to64();
    let n = N_MERKLE_UNIFIED_VARS as nat;
    let ins = path_state_ins(params, iv, inputs);
    let pins = root_pins(inputs);
    let column = state_column(params, ins, N_MERKLE_UNIFIED_CELLS as nat);
    let slot = 2 * (inputs.active_depth - 1) + 1;
    let root = path_root(params, iv, inputs);
    assert(slot / 2 == inputs.active_depth - 1 && slot % 2 == 1);
    assert(digest(permuted(params, ins[slot])) == root) by {
        assert(inputs.siblings@[slot / 2] == inputs.siblings[slot / 2]);
    }
    assert forall|i: int| 0 <= i < 2 implies (#[trigger] pins[i]).point.len() == n && mle(
        column,
        pins[i].point,
    ) == root[i] && pins[i].value == inputs.expected_root@[i] by {
        lemma_output_claim(params, ins, n, slot, i, pins[i].value);
        assert(digest(permuted(params, ins[slot]))[i] == root[i]);
    }
    if claims_hold(pins, column) {
        assert(pins[0].value == mle(column, pins[0].point));
        assert(pins[1].value == mle(column, pins[1].point));
        assert(inputs.expected_root@ =~= root);
    } else {
        let i = choose|i: int|
            0 <= i < pins.len() && (#[trigger] pins[i]).value != mle(column, pins[i].point);
        assert(inputs.expected_root@[i] != root[i]);
    }
}

} // verus!
