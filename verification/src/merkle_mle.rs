//! The columns of the trace of a Merkle path, over 14 variables.
use vstd::prelude::*;
use crate::field::TowerField;
use crate::layers::{N_ROUNDS, PermLayerWitness, PermParams, RoundKind};
use crate::merkle_shift::N_MERKLE_UNIFIED_CELLS;
use crate::trace::{cell, lane_of, pack_index, round_of, slot_of};
use crate::trace_mle::{TraceColumns, build_columns, input_views, sigma_column, sin_column, sout_column, state_column, write_rows, write_selectors};

verus! {

/// The most slots that can be live.
pub const N_MERKLE_MAX_LIVE_SLOTS: usize = 32;

/// The four columns.
#[derive(Clone, Debug, PartialEq, Eq)]
pub struct MerkleUnifiedMle<F> {
    pub s_in: Vec<F>,
    pub s_out: Vec<F>,
    pub sigma: Vec<F>,
    pub state: Vec<F>,
}

impl<F: TowerField> MerkleUnifiedMle<F> {
    /// Every column has one value a cell.
    pub open spec fn wf(&self) -> bool {
        &&& self.s_in.len() == N_MERKLE_UNIFIED_CELLS
        &&& self.s_out.len() == N_MERKLE_UNIFIED_CELLS
        &&& self.sigma.len() == N_MERKLE_UNIFIED_CELLS
        &&& self.state.len() == N_MERKLE_UNIFIED_CELLS
    }

    /// The columns of the permutations of `inputs`.
    pub open spec fn of(&self, params: PermParams<F>, inputs: Seq<Seq<F>>) -> bool {
        &&& self.s_in@ == sin_column(params, inputs, N_MERKLE_UNIFIED_CELLS as nat)
        &&& self.s_out@ == sout_column(params, inputs, N_MERKLE_UNIFIED_CELLS as nat)
        &&& self.sigma@ == sigma_column::<F>(inputs.len() as int, N_MERKLE_UNIFIED_CELLS as nat)
        &&& self.state@ == state_column(params, inputs, N_MERKLE_UNIFIED_CELLS as nat)
    }

    /// All the columns zero.
    pub fn zero() -> (r: Self)
        ensures
            r.wf(),
            forall|y: int| 0 <= y < N_MERKLE_UNIFIED_CELLS ==> #[trigger] r.s_in@[y] == F::zero(),
            forall|y: int| 0 <= y < N_MERKLE_UNIFIED_CELLS ==> #[trigger] r.s_out@[y] == F::zero(),
            forall|y: int| 0 <= y < N_MERKLE_UNIFIED_CELLS ==> #[trigger] r.sigma@[y] == F::zero(),
            forall|y: int| 0 <= y < N_MERKLE_UNIFIED_CELLS ==> #[trigger] r.state@[y] == F::zero(),
    {
        let c = TraceColumns::zero(N_MERKLE_UNIFIED_CELLS);
        MerkleUnifiedMle { s_in: c.s_in, s_out: c.s_out, sigma: c.sigma, state: c.state }
    }

    /// The index of a slot, a round and a lane.
    pub fn index(slot: usize, round: usize, elem: usize) -> (r: usize)
        requires
            slot < 32,
            round < 128,
            elem < 4,
        ensures
            r == cell(slot as int, round as int, elem as int),
            r < N_MERKLE_UNIFIED_CELLS,
    {
        pack_index(slot, round, elem)
    }

    /// Fills the cells of a slot from the witness of its permutation.
    pub fn populate_slot(&mut self, slot: usize, witness: &PermLayerWitness<F>)
        requires
            slot < N_MERKLE_MAX_LIVE_SLOTS,
            witness.kind.len() == N_ROUNDS,
            witness.state.len() == N_ROUNDS + 1,
            witness.sin.len() == N_ROUNDS,
            witness.sout.len() == N_ROUNDS,
            old(self).wf(),
        ensures
            final(self).wf(),
            forall|y: int|
                0 <= y < N_MERKLE_UNIFIED_CELLS ==> #[trigger] final(self).state@[y] == if slot_of(
                    y,
                ) == slot && round_of(y) <= N_ROUNDS {
                    witness.state[round_of(y)][lane_of(y)]
                } else {
                    old(self).state@[y]
                },
            forall|y: int|
                0 <= y < N_MERKLE_UNIFIED_CELLS ==> #[trigger] final(self).s_in@[y] == if slot_of(
                    y,
                ) == slot && round_of(y) < N_ROUNDS {
                    witness.sin[round_of(y)][lane_of(y)]
                } else {
                    old(self).s_in@[y]
                },
            forall|y: int|
                0 <= y < N_MERKLE_UNIFIED_CELLS ==> #[trigger] final(self).s_out@[y] == if slot_of(
                    y,
                ) == slot && round_of(y) < N_ROUNDS {
                    witness.sout[round_of(y)][lane_of(y)]
                } else {
                    old(self).s_out@[y]
                },
            forall|y: int|
                0 <= y < N_MERKLE_UNIFIED_CELLS ==> #[trigger] final(self).sigma@[y] == if slot_of(
                    y,
                ) == slot && round_of(y) < N_ROUNDS {
                    if witness.kind[round_of(y)] == RoundKind::Full || lane_of(y) == 0 {
                        F::one()
                    } else {
                        F::zero()
                    }
                } else {
                    old(self).sigma@[y]
                },
    {
        write_rows(&mut self.s_in, slot, &witness.sin, N_ROUNDS);
        write_rows(&mut self.s_out, slot, &witness.sout, N_ROUNDS);
        write_selectors(&mut self.sigma, slot, &witness.kind);
        write_rows(&mut self.state, slot, &witness.state, N_ROUNDS + 1);
    }
}

/// Runs the permutations of the live slots and lays them out in columns.
pub fn build_merkle_unified_mle<F: TowerField>(
    params: &PermParams<F>,
    slot_state_ins: &[[F; 4]],
    live_slots: usize,
) -> (r: (MerkleUnifiedMle<F>, Vec<PermLayerWitness<F>>))
    requires
        live_slots <= N_MERKLE_MAX_LIVE_SLOTS,
        slot_state_ins.len() == live_slots,
    ensures
        r.0.wf(),
        r.0.of(*params, input_views(slot_state_ins@)),
        r.1.len() == live_slots,
        forall|s: int|
            0 <= s < live_slots ==> (#[trigger] r.1[s]).of(*params, slot_state_ins[s]@),
{
    let (c, witnesses) = build_columns(params, slot_state_ins, N_MERKLE_UNIFIED_CELLS);
    (MerkleUnifiedMle { s_in: c.s_in, s_out: c.s_out, sigma: c.sigma, state: c.state }, witnesses)
}

} // verus!
