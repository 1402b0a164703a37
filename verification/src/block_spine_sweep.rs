//! The proof of the body hashes of all the sweep transactions of a block: one
//! trace with 142 slots for each of them.
use vstd::prelude::*;
use vstd::arithmetic::power2::{lemma_pow2_adds, lemma_pow2_pos, lemma_pow2_strictly_increases, pow2};
use crate::auth_killshot::absorb_pair;
use crate::auth_unified_v2::AuthKillShotProof;
use crate::batch_eval::{BatchEvalProof, EvalClaim, claims_view};
use crate::circuit_sweep::{N_SWEEP_SPINE_SLOTS, SpineIvs, SweepSpineCircuit, SweepSpineInputs, sweep_slot};
use crate::field::TowerField;
use crate::killshot::{KillRun, KillVerdict, TraceProofKillShot, TraceReductions, is_kill_proof, kill_run, kill_shot_byte_len, kill_verdict, lemma_kill_complete, prove_trace_killshot, verify_trace_parts};
use crate::layers::PermParams;
use crate::mle::{lemma_half_pow2, pow2_usize};
use crate::oracle::{slot_input, slot_outputs};
use crate::oracle_sweep::{evaluate_sweep_spine, lemma_sweep_fits};
use crate::trace::{cell, pack_index};
use crate::trace_mle::{build_columns, input_views, sigma_column, sin_column, sout_column, state_column};
use crate::transcript::{FiatShamir, absorb_all, lemma_absorb_all_add};

verus! {

/// The number of slot variables for a number of slots: the fewest that give
/// every slot its index, but at least one.
pub open spec fn is_slot_vars(r: nat, total: nat) -> bool {
    &&& r >= 1
    &&& total <= pow2(r)
    &&& r > 1 ==> pow2((r - 1) as nat) < total
}

/// Computes the number of slot variables.
pub fn slot_vars_for(total_live_slots: usize) -> (r: usize)
    requires
        total_live_slots > 0,
    ensures
        is_slot_vars(r as nat, total_live_slots as nat),
        r <= 64,
{
    let mut rest: usize = total_live_slots - 1;
    let mut r: usize = 0;
    let ghost top = rest as nat;
    proof {
        vstd::arithmetic::power2::lemma2_to64();
    }
    while rest > 0
        invariant
            rest as nat == top / pow2(r as nat),
            r <= 64,
            r > 0 ==> top >= pow2((r - 1) as nat),
            top <= usize::MAX,
        decreases rest,
    {
        proof {
            lemma_half_pow2((r + 1) as nat);
            lemma_pow2_pos(r as nat);
            vstd::arithmetic::div_mod::lemma_div_denominator(
                top as int,
                pow2(r as nat) as int,
                2,
            );
            assert(pow2(r as nat) * 2 == pow2((r + 1) as nat));
            // rest > 0 means that 2^r <= top
            assert(top >= pow2(r as nat)) by {
                if top < pow2(r as nat) {
                    vstd::arithmetic::div_mod::lemma_basic_div(top as int, pow2(r as nat) as int);
                }
            }
            if r == 64 {
                vstd::arithmetic::power2::lemma2_to64();
            }
        }
        rest = rest / 2;
        r += 1;
    }
    proof {
        lemma_pow2_pos(r as nat);
        let p = pow2(r as nat) as int;
        assert(top < p) by {
            vstd::arithmetic::div_mod::lemma_fundamental_div_mod(top as int, p);
            vstd::arithmetic::div_mod::lemma_mod_bound(top as int, p);
            assert(p * (top as int / p) == 0) by (nonlinear_arith)
                requires
                    top as int / p == 0,
            ;
        }
    }
    if r < 1 {
        1
    } else {
        r
    }
}

/// The number of variables for a number of slots.
pub fn num_vars_for(total_live_slots: usize) -> (r: usize)
    requires
        total_live_slots > 0,
    ensures
        r >= 10,
        is_slot_vars((r - 9) as nat, total_live_slots as nat),
        r <= 73,
{
    slot_vars_for(total_live_slots) + 9
}

/// The number of slot variables is determined.
pub proof fn lemma_slot_vars(a: nat, b: nat, total: nat)
    requires
        is_slot_vars(a, total),
        is_slot_vars(b, total),
    ensures
        a == b,
{
    if a < b {
        if a < b - 1 {
            lemma_pow2_strictly_increases(a, (b - 1) as nat);
        }
    } else if b < a {
        if b < a - 1 {
            lemma_pow2_strictly_increases(b, (a - 1) as nat);
        }
    }
}

/// The index of a cell.
pub fn pack_index_dyn(slot: usize, round: usize, elem: usize) -> (r: usize)
    requires
        round < 128,
        elem < 4,
        slot * 512 + 511 <= usize::MAX,
    ensures
        r == cell(slot as int, round as int, elem as int),
{
    pack_index(slot, round, elem)
}

/// The columns of a trace whose number of slots is not fixed.
#[derive(Clone, Debug, PartialEq, Eq)]
pub struct BlockSpineMle<F> {
    pub s_in: Vec<F>,
    pub s_out: Vec<F>,
    pub sigma: Vec<F>,
    pub state: Vec<F>,
    pub num_vars: usize,
    pub live_slots: usize,
}

impl<F: TowerField> BlockSpineMle<F> {
    /// The columns of the permutations of `inputs`.
    pub open spec fn of(&self, params: PermParams<F>, inputs: Seq<Seq<F>>) -> bool {
        let cells = pow2(self.num_vars as nat);
        &&& self.live_slots == inputs.len()
        &&& self.num_vars >= 10
        &&& is_slot_vars((self.num_vars - 9) as nat, inputs.len())
        &&& self.s_in@ == sin_column(params, inputs, cells)
        &&& self.s_out@ == sout_column(params, inputs, cells)
        &&& self.sigma@ == sigma_column::<F>(inputs.len() as int, cells)
        &&& self.state@ == state_column(params, inputs, cells)
    }

    /// Runs the permutations of the slots and lays them out in columns.
    pub fn build_from_slot_state_ins(params: &PermParams<F>, slot_state_ins: &[[F; 4]]) -> (r: Self)
        requires
            slot_state_ins.len() > 0,
            slot_state_ins.len() * 1024 <= usize::MAX,
        ensures
            r.of(*params, input_views(slot_state_ins@)),
    {
        let live: usize = slot_state_ins.len();
        let num_vars: usize = num_vars_for(live);
        proof {
            let r = (num_vars - 9) as nat;
            lemma_pow2_adds(r, 9);
            vstd::arithmetic::power2::lemma2_to64();
            lemma_half_pow2(r);
            if r > 1 {
                assert(pow2(r) * 512 <= live * 1024);
            }
        }
        let cells: usize = pow2_usize(num_vars);
        let (c, _witnesses) = build_columns(params, slot_state_ins, cells);
        BlockSpineMle {
            s_in: c.s_in,
            s_out: c.s_out,
            sigma: c.sigma,
            state: c.state,
            num_vars,
            live_slots: live,
        }
    }
}

/// The columns of the sweep transactions of a block.
#[derive(Clone, Debug, PartialEq, Eq)]
pub struct SweepBlockSpineMle<F> {
    pub inner: BlockSpineMle<F>,
    pub n_instances: usize,
}

/// The inputs of the permutations of the first `k` sweep bodies.
pub open spec fn block_state_ins<F: TowerField>(
    params: PermParams<F>,
    ivs: SpineIvs<F>,
    inputs: Seq<SweepSpineInputs<F>>,
    k: nat,
) -> Seq<Seq<F>>
    decreases k,
{
    if k == 0 {
        Seq::empty()
    } else {
        let slots = Seq::new(142, |j: int| sweep_slot(ivs, j));
        block_state_ins(params, ivs, inputs, (k - 1) as nat) + Seq::new(
            142,
            |j: int|
                slot_input(
                    slots[j],
                    inputs[k - 1],
                    slot_outputs(params, slots, inputs[k - 1], j as nat),
                ),
        )
    }
}

impl<F: TowerField> SweepBlockSpineMle<F> {
    /// Builds the columns from the inputs of all the permutations.
    pub fn build_from_state_ins(
        params: &PermParams<F>,
        n_instances: usize,
        slot_state_ins: &[[F; 4]],
    ) -> (r: Self)
        requires
            n_instances > 0,
            slot_state_ins.len() == n_instances * N_SWEEP_SPINE_SLOTS,
            slot_state_ins.len() * 1024 <= usize::MAX,
        ensures
            r.n_instances == n_instances,
            r.inner.of(*params, input_views(slot_state_ins@)),
    {
        SweepBlockSpineMle {
            inner: BlockSpineMle::build_from_slot_state_ins(params, slot_state_ins),
            n_instances,
        }
    }

    /// Builds the columns of the given bodies.
    pub fn build(params: &PermParams<F>, ivs: &SpineIvs<F>, inputs: &[SweepSpineInputs<F>]) -> (r:
        Self)
        requires
            inputs.len() > 0,
            inputs.len() * 142 * 1024 <= usize::MAX,
        ensures
            r.n_instances == inputs.len(),
            r.inner.of(
                *params,
                block_state_ins(*params, *ivs, inputs@, inputs.len() as nat),
            ),
    {
        let circuit = SweepSpineCircuit::build(ivs);
        let ghost slots = Seq::new(142, |j: int| sweep_slot(*ivs, j));
        proof {
            assert(circuit.slots@ =~= slots);
        }
        let mut ins: Vec<[F; 4]> = Vec::new();
        let mut i: usize = 0;
        proof {
            assert(input_views(ins@) =~= Seq::empty());
        }
        while i < inputs.len()
            invariant
                i <= inputs.len(),
                inputs.len() * 142 * 1024 <= usize::MAX,
                circuit.of(*ivs),
                slots == Seq::new(142, |j: int| sweep_slot(*ivs, j)),
                circuit.slots@ == slots,
                ins.len() == i * 142,
                input_views(ins@) == block_state_ins(*params, *ivs, inputs@, i as nat),
            decreases inputs.len() - i,
        {
            proof {
                lemma_sweep_fits(circuit, *ivs, inputs@[i as int]);
            }
            let w = evaluate_sweep_spine(params, &circuit, &inputs[i]);
            let ghost before = input_views(ins@);
            let ghost part = Seq::new(
                142,
                |j: int|
                    slot_input(
                        slots[j],
                        inputs@[i as int],
                        slot_outputs(*params, slots, inputs@[i as int], j as nat),
                    ),
            );
            let mut k: usize = 0;
            proof {
                assert(before + part.take(0) =~= before);
            }
            while k < w.slots.len()
                invariant
                    k <= w.slots.len(),
                    i < inputs.len(),
                    w.slots.len() == 142,
                    w.of(*params, slots, inputs@[i as int]),
                    part == Seq::new(
                        142,
                        |j: int|
                            slot_input(
                                slots[j],
                                inputs@[i as int],
                                slot_outputs(*params, slots, inputs@[i as int], j as nat),
                            ),
                    ),
                    slots.len() == 142,
                    ins.len() == i * 142 + k,
                    input_views(ins@) == before + part.take(k as int),
                decreases w.slots.len() - k,
            {
                proof {
                    assert(w.slots[k as int].of(
                        *params,
                        slot_input(
                            slots[k as int],
                            inputs@[i as int],
                            slot_outputs(*params, slots, inputs@[i as int], k as nat),
                        ),
                    ));
                }
                let ghost old_ins = ins@;
                ins.push(w.slots[k].state_in);
                proof {
                    assert(input_views(ins@) =~= input_views(old_ins).push(part[k as int]));
                    assert(input_views(ins@) =~= before + part.take(k + 1));
                }
                k += 1;
            }
            proof {
                assert(part.take(142) =~= part);
            }
            i += 1;
        }
        Self::build_from_state_ins(params, inputs.len(), ins.as_slice())
    }
}

/// The proof of the sweep transactions of a block.
#[derive(Clone, Debug, PartialEq, Eq)]
pub struct SweepBlockSpineProof<F> {
    pub kill_shot: AuthKillShotProof<F>,
    pub state_batch: BatchEvalProof<F>,
    pub sin_batch: BatchEvalProof<F>,
    pub sout_batch: BatchEvalProof<F>,
    pub num_vars: usize,
    pub live_slots: usize,
}

impl<F: TowerField> SweepBlockSpineProof<F> {
    /// The proof of the trace.
    pub open spec fn trace(&self) -> TraceProofKillShot<F> {
        TraceProofKillShot {
            kill_shot: self.kill_shot,
            state_batch: self.state_batch,
            sin_batch: self.sin_batch,
            sout_batch: self.sout_batch,
        }
    }

    /// The size in bytes.
    pub fn byte_len(&self) -> (r: usize)
        requires
            self.trace().size() <= usize::MAX,
        ensures
            r == self.trace().size(),
    {
        kill_shot_byte_len(&self.kill_shot) + self.state_batch.byte_len()
            + self.sin_batch.byte_len() + self.sout_batch.byte_len()
    }
}

/// The claims that are left.
pub type SweepBlockSpineReductions<F> = TraceReductions<F>;

/// The elements of the first `k` hashes.
pub open spec fn hash_elems<F>(hashes: Seq<[F; 2]>, k: nat) -> Seq<F>
    decreases k,
{
    if k == 0 {
        Seq::empty()
    } else {
        hash_elems(hashes, (k - 1) as nat) + hashes[k - 1]@
    }
}

/// Absorbs the body hashes.
fn absorb_tx_body_hashes<F: TowerField, T: FiatShamir<F>>(
    tx_body_hashes: &[[F; 2]],
    channel: &mut T,
)
    ensures
        *final(channel) == absorb_all(
            *old(channel),
            hash_elems(tx_body_hashes@, tx_body_hashes.len() as nat),
        ),
{
    let ghost start = *channel;
    let mut k: usize = 0;
    while k < tx_body_hashes.len()
        invariant
            k <= tx_body_hashes.len(),
            *channel == absorb_all(start, hash_elems(tx_body_hashes@, k as nat)),
        decreases tx_body_hashes.len() - k,
    {
        absorb_pair(channel, &tx_body_hashes[k]);
        proof {
            lemma_absorb_all_add(
                start,
                hash_elems(tx_body_hashes@, k as nat),
                tx_body_hashes@[k as int]@,
            );
        }
        k += 1;
    }
}

impl<F: TowerField> BlockSpineMle<F> {
    /// Every column has one value a cell, and the variables suffice for the
    /// slots.
    pub open spec fn wf(&self) -> bool {
        let cells = pow2(self.num_vars as nat);
        &&& self.num_vars >= 10
        &&& is_slot_vars((self.num_vars - 9) as nat, self.live_slots as nat)
        &&& self.s_in.len() == cells
        &&& self.s_out.len() == cells
        &&& self.state.len() == cells
    }
}

/// The proof of the given columns.
pub open spec fn is_block_proof<F: TowerField, T: FiatShamir<F>>(
    params: PermParams<F>,
    mle: BlockSpineMle<F>,
    hashes: Seq<[F; 2]>,
    channel: T,
    proof: SweepBlockSpineProof<F>,
) -> bool {
    &&& proof.live_slots == mle.live_slots
    &&& proof.num_vars == mle.num_vars
    &&& is_kill_proof(
        params,
        mle.live_slots as nat,
        mle.num_vars as nat,
        mle.s_in@,
        mle.s_out@,
        mle.state@,
        Seq::empty(),
        absorb_all(channel, hash_elems(hashes, hashes.len())),
        proof.trace(),
    )
}

/// The prover's run.
pub open spec fn block_run<F: TowerField, T: FiatShamir<F>>(
    params: PermParams<F>,
    mle: BlockSpineMle<F>,
    hashes: Seq<[F; 2]>,
    channel: T,
    proof: SweepBlockSpineProof<F>,
) -> KillRun<F, T> {
    kill_run(
        params,
        mle.live_slots as nat,
        mle.num_vars as nat,
        mle.s_in@,
        mle.s_out@,
        mle.state@,
        Seq::empty(),
        absorb_all(channel, hash_elems(hashes, hashes.len())),
        proof.trace(),
    )
}

/// Proves the body hashes of the sweep transactions of a block.
pub fn prove_sweep_block_spine_killshot<F: TowerField, T: FiatShamir<F>>(
    params: &PermParams<F>,
    n_instances: usize,
    mle: &SweepBlockSpineMle<F>,
    tx_body_hashes: &[[F; 2]],
    channel: &mut T,
) -> (out: (SweepBlockSpineProof<F>, SweepBlockSpineReductions<F>))
    requires
        mle.n_instances == n_instances,
        tx_body_hashes.len() == n_instances,
        mle.inner.live_slots == n_instances * N_SWEEP_SPINE_SLOTS,
        mle.inner.wf(),
    ensures
        is_block_proof(*params, mle.inner, tx_body_hashes@, *old(channel), out.0),
        ({
            let run = block_run(*params, mle.inner, tx_body_hashes@, *old(channel), out.0);
            out.1.of(run, out.0.trace()) && *final(channel) == run.channel
        }),
        out.1.hold(mle.inner.s_in@, mle.inner.s_out@, mle.inner.state@),
{
    let num_vars: usize = mle.inner.num_vars;
    let live_slots: usize = mle.inner.live_slots;
    absorb_tx_body_hashes(tx_body_hashes, channel);
    let pins: Vec<EvalClaim<F>> = Vec::new();
    proof {
        assert(claims_view(pins@) =~= Seq::empty());
    }
    let (trace, reductions) = prove_trace_killshot(
        params,
        mle.inner.s_in.as_slice(),
        mle.inner.s_out.as_slice(),
        mle.inner.state.as_slice(),
        num_vars,
        live_slots,
        &pins,
        channel,
    );
    let proof = SweepBlockSpineProof {
        kill_shot: trace.kill_shot,
        state_batch: trace.state_batch,
        sin_batch: trace.sin_batch,
        sout_batch: trace.sout_batch,
        num_vars,
        live_slots,
    };
    (proof, reductions)
}

/// The verdict on the proof for a block.
pub open spec fn block_verdict<F: TowerField, T: FiatShamir<F>>(
    params: PermParams<F>,
    n_instances: nat,
    hashes: Seq<[F; 2]>,
    proof: SweepBlockSpineProof<F>,
    channel: T,
) -> KillVerdict<F, T> {
    let live = n_instances * N_SWEEP_SPINE_SLOTS as nat;
    let fits = proof.num_vars >= 10 && is_slot_vars((proof.num_vars - 9) as nat, live);
    if proof.live_slots != live || !fits || hashes.len() != n_instances {
        KillVerdict { run: None, channel }
    } else {
        kill_verdict(
            params,
            live,
            proof.num_vars as nat,
            Seq::empty(),
            proof.trace(),
            absorb_all(channel, hash_elems(hashes, hashes.len())),
        )
    }
}

/// Verifies the proof for a block.
pub fn verify_sweep_block_spine_killshot<F: TowerField, T: FiatShamir<F>>(
    params: &PermParams<F>,
    proof: &SweepBlockSpineProof<F>,
    n_instances: usize,
    tx_body_hashes: &[[F; 2]],
    channel: &mut T,
) -> (out: Option<SweepBlockSpineReductions<F>>)
    requires
        n_instances == 0 ==> proof.live_slots != 0,
        n_instances * N_SWEEP_SPINE_SLOTS <= usize::MAX,
        proof.live_slots == n_instances * N_SWEEP_SPINE_SLOTS && tx_body_hashes.len()
            == n_instances ==> n_instances * N_SWEEP_SPINE_SLOTS * 1024 <= usize::MAX,
    ensures
        ({
            let want = block_verdict(
                *params,
                n_instances as nat,
                tx_body_hashes@,
                *proof,
                *old(channel),
            );
            &&& *final(channel) == want.channel
            &&& match out {
                Some(red) => want.run is Some && red.of(want.run->0, proof.trace()),
                None => want.run is None,
            }
        }),
{
    let expected_live: usize = n_instances * N_SWEEP_SPINE_SLOTS;
    if proof.live_slots != expected_live {
        return None;
    }
    let expected_num_vars: usize = num_vars_for(expected_live);
    proof {
        let r = (expected_num_vars - 9) as nat;
        if proof.num_vars >= 10 && is_slot_vars((proof.num_vars - 9) as nat, expected_live as nat) {
            lemma_slot_vars(r, (proof.num_vars - 9) as nat, expected_live as nat);
        }
    }
    if proof.num_vars != expected_num_vars || tx_body_hashes.len() != n_instances {
        return None;
    }
    proof {
        let r = (expected_num_vars - 9) as nat;
        lemma_pow2_adds(r, 9);
        vstd::arithmetic::power2::lemma2_to64();
        lemma_half_pow2(r);
        if r > 1 {
            assert(pow2(r) * 512 <= expected_live * 1024);
        }
    }
    absorb_tx_body_hashes(tx_body_hashes, channel);
    let pins: Vec<EvalClaim<F>> = Vec::new();
    proof {
        assert(claims_view(pins@) =~= Seq::empty());
    }
    verify_trace_parts(
        params,
        &proof.kill_shot,
        &proof.state_batch,
        &proof.sin_batch,
        &proof.sout_batch,
        proof.num_vars,
        proof.live_slots,
        &pins,
        channel,
    )
}

/// Whether the claims that are left are true of the columns of the given bodies.
pub fn discharge_sweep_block_spine_reductions_native<F: TowerField>(
    params: &PermParams<F>,
    ivs: &SpineIvs<F>,
    inputs: &[SweepSpineInputs<F>],
    reductions: &SweepBlockSpineReductions<F>,
) -> (r: bool)
    requires
        inputs.len() > 0,
        inputs.len() * 142 * 1024 <= usize::MAX,
        forall|n: nat| #[trigger]
            is_slot_vars(n, inputs.len() as nat * 142) ==> reductions.state.point.len() == n + 9
                && reductions.sin.point.len() == n + 9 && reductions.sout.point.len() == n + 9,
    ensures
        ({
            let ins = block_state_ins(*params, *ivs, inputs@, inputs.len() as nat);
            let cells = pow2(reductions.state.point.len() as nat);
            r == reductions.hold(
                sin_column(*params, ins, cells),
                sout_column(*params, ins, cells),
                state_column(*params, ins, cells),
            )
        }),
{
    let mle = SweepBlockSpineMle::build(params, ivs, inputs);
    proof {
        lemma_block_len(*params, *ivs, inputs@, inputs@.len());
        let r = (mle.inner.num_vars - 9) as nat;
        assert(is_slot_vars(r, inputs.len() as nat * 142));
    }
    reductions.discharge(
        mle.inner.s_in.as_slice(),
        mle.inner.s_out.as_slice(),
        mle.inner.state.as_slice(),
    )
}

/// Every body has 142 permutations.
pub proof fn lemma_block_len<F: TowerField>(
    params: PermParams<F>,
    ivs: SpineIvs<F>,
    inputs: Seq<SweepSpineInputs<F>>,
    k: nat,
)
    ensures
        block_state_ins(params, ivs, inputs, k).len() == k * 142,
    decreases k,
{
    if k > 0 {
        lemma_block_len(params, ivs, inputs, (k - 1) as nat);
    }
}

/// Completeness: the proof of the columns of permutations is accepted, and the
/// verifier arrives at the prover's points and transcript.
pub proof fn lemma_block_complete<F: TowerField, T: FiatShamir<F>>(
    params: PermParams<F>,
    ins: Seq<Seq<F>>,
    mle: BlockSpineMle<F>,
    n_instances: nat,
    hashes: Seq<[F; 2]>,
    proof: SweepBlockSpineProof<F>,
    channel: T,
)
    requires
        ins.len() == n_instances * N_SWEEP_SPINE_SLOTS,
        mle.of(params, ins),
        hashes.len() == n_instances,
        is_block_proof(params, mle, hashes, channel, proof),
    ensures
        ({
            let run = block_run(params, mle, hashes, channel, proof);
            let v = block_verdict(params, n_instances, hashes, proof, channel);
            v.run == Some(run) && v.channel == run.channel
        }),
{
    lemma_kill_complete(
        params,
        ins,
        mle.num_vars as nat,
        Seq::empty(),
        proof.trace(),
        absorb_all(channel, hash_elems(hashes, hashes.len())),
    );
}

} // verus!
