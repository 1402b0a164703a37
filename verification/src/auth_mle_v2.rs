//! The columns of the authorization trace: 20 permutations (five for each of
//! four inputs) over a hypercube of 14 variables, `elem:2 | round:7 | slot:5`.
use vstd::prelude::*;
use crate::field::TowerField;
use crate::layers::{N_ROUNDS, PermLayerWitness, PermParams, RoundKind};
use crate::trace::{cell, lane_of, pack_index, round_of, sigma_at, sigma_value, slot_of};
use crate::trace_mle::{TraceColumns, build_columns, input_views, sigma_column, sin_column, sout_column, state_column, write_rows, write_selectors};

verus! {

/// The number of live slots: four inputs with five permutations each.
pub const N_AUTH_LIVE_SLOTS: usize = 20;

/// The number of slot variables.
pub const N_AUTH_SLOT_BITS: usize = 5;

/// The number of round variables.
pub const N_AUTH_ROUND_VARS: usize = 7;

/// The number of lane variables.
pub const N_AUTH_ELEM_VARS: usize = 2;

/// The number of variables.
pub const N_AUTH_UNIFIED_VARS: usize = N_AUTH_SLOT_BITS + N_AUTH_ROUND_VARS + N_AUTH_ELEM_VARS;

/// The number of cells.
pub const N_AUTH_UNIFIED_CELLS: usize = 16384;

/// The four columns of the authorization trace.
#[derive(Clone, Debug, PartialEq, Eq)]
pub struct AuthUnifiedMle<F> {
    pub s_in: Vec<F>,
    pub s_out: Vec<F>,
    pub sigma: Vec<F>,
    pub state: Vec<F>,
}

impl<F: TowerField> AuthUnifiedMle<F> {
    /// Every column has one value a cell.
    pub open spec fn wf(&self) -> bool {
        &&& self.s_in.len() == N_AUTH_UNIFIED_CELLS
        &&& self.s_out.len() == N_AUTH_UNIFIED_CELLS
        &&& self.sigma.len() == N_AUTH_UNIFIED_CELLS
        &&& self.state.len() == N_AUTH_UNIFIED_CELLS
    }

    /// The columns of the permutations of `inputs`.
    pub open spec fn of(&self, params: PermParams<F>, inputs: Seq<Seq<F>>) -> bool {
        &&& self.s_in@ == sin_column(params, inputs, N_AUTH_UNIFIED_CELLS as nat)
        &&& self.s_out@ == sout_column(params, inputs, N_AUTH_UNIFIED_CELLS as nat)
        &&& self.sigma@ == sigma_column::<F>(inputs.len() as int, N_AUTH_UNIFIED_CELLS as nat)
        &&& self.state@ == state_column(params, inputs, N_AUTH_UNIFIED_CELLS as nat)
    }

    /// All the columns zero.
    pub fn zero() -> (r: Self)
        ensures
            r.wf(),
            forall|y: int| 0 <= y < N_AUTH_UNIFIED_CELLS ==> #[trigger] r.s_in@[y] == F::zero(),
            forall|y: int| 0 <= y < N_AUTH_UNIFIED_CELLS ==> #[trigger] r.s_out@[y] == F::zero(),
            forall|y: int| 0 <= y < N_AUTH_UNIFIED_CELLS ==> #[trigger] r.sigma@[y] == F::zero(),
            forall|y: int| 0 <= y < N_AUTH_UNIFIED_CELLS ==> #[trigger] r.state@[y] == F::zero(),
    {
        let c = TraceColumns::zero(N_AUTH_UNIFIED_CELLS);
        AuthUnifiedMle { s_in: c.s_in, s_out: c.s_out, sigma: c.sigma, state: c.state }
    }

    /// The index of a slot, a round and a lane.
    pub fn index(slot: usize, round: usize, elem: usize) -> (r: usize)
        requires
            slot < 32,
            round < 128,
            elem < 4,
        ensures
            r == cell(slot as int, round as int, elem as int),
            r < N_AUTH_UNIFIED_CELLS,
    {
        pack_index(slot, round, elem)
    }

    /// Fills the cells of a live slot from the witness of its permutation.
    pub fn populate_slot(&mut self, slot: usize, witness: &PermLayerWitness<F>)
        requires
            slot < N_AUTH_LIVE_SLOTS,
            witness.kind.len() == N_ROUNDS,
            witness.state.len() == N_ROUNDS + 1,
            witness.sin.len() == N_ROUNDS,
            witness.sout.len() == N_ROUNDS,
            old(self).wf(),
        ensures
            final(self).wf(),
            forall|y: int|
                0 <= y < N_AUTH_UNIFIED_CELLS ==> #[trigger] final(self).state@[y] == if slot_of(y)
                    == slot && round_of(y) <= N_ROUNDS {
                    witness.state[round_of(y)][lane_of(y)]
                } else {
                    old(self).state@[y]
                },
            forall|y: int|
                0 <= y < N_AUTH_UNIFIED_CELLS ==> #[trigger] final(self).s_in@[y] == if slot_of(y)
                    == slot && round_of(y) < N_ROUNDS {
                    witness.sin[round_of(y)][lane_of(y)]
                } else {
                    old(self).s_in@[y]
                },
            forall|y: int|
                0 <= y < N_AUTH_UNIFIED_CELLS ==> #[trigger] final(self).s_out@[y] == if slot_of(y)
                    == slot && round_of(y) < N_ROUNDS {
                    witness.sout[round_of(y)][lane_of(y)]
                } else {
                    old(self).s_out@[y]
                },
            forall|y: int|
                0 <= y < N_AUTH_UNIFIED_CELLS ==> #[trigger] final(self).sigma@[y] == if slot_of(y)
                    == slot && round_of(y) < N_ROUNDS {
                    if witness.kind[round_of(y)] == RoundKind::Full || lane_of(y) == 0 {
                        F::one()
                    } else {
                        F::zero()
                    }
                } else {
                    old(self).sigma@[y]
                },
    {
        write_rows(&mut self.s_in, slot, &witness.sin, N_ROUNDS);
        write_rows(&mut self.s_out, slot, &witness.sout, N_ROUNDS);
        write_selectors(&mut self.sigma, slot, &witness.kind);
        write_rows(&mut self.state, slot, &witness.state, N_ROUNDS + 1);
    }
}

/// The selector of the power layer.
pub fn auth_sigma_at<F: TowerField>(round: usize, elem: usize) -> (r: F)
    ensures
        r == sigma_at::<F>(round as int, elem as int),
{
    sigma_value(round, elem)
}

/// Runs the permutations of the live slots and lays them out in columns.
pub fn build_auth_unified_mle_v2<F: TowerField>(
    params: &PermParams<F>,
    slot_state_ins: &[[F; 4]],
) -> (r: (AuthUnifiedMle<F>, Vec<PermLayerWitness<F>>))
    requires
        slot_state_ins.len() == N_AUTH_LIVE_SLOTS,
    ensures
        r.0.wf(),
        r.0.of(*params, input_views(slot_state_ins@)),
        r.1.len() == slot_state_ins.len(),
        forall|s: int|
            0 <= s < slot_state_ins.len() ==> (#[trigger] r.1[s]).of(*params, slot_state_ins[s]@),
{
    let (c, witnesses) = build_columns(params, slot_state_ins, N_AUTH_UNIFIED_CELLS);
    (AuthUnifiedMle { s_in: c.s_in, s_out: c.s_out, sigma: c.sigma, state: c.state }, witnesses)
}

} // verus!
