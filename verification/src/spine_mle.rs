//! The columns of the spine of a transaction body over a hypercube of 15
//! variables: `elem:2 | round:7 | slot:6`, low bits first.
use vstd::prelude::*;
use crate::field::TowerField;
use crate::layers::PermParams;
use crate::trace_mle::{build_columns, input_views, sigma_column, sin_column, sout_column, state_column};

verus! {

/// The number of variables of the spine hypercube.
pub const N_SPINE_UNIFIED_VARS: usize = 15;

/// The number of cells of the spine hypercube.
pub const N_SPINE_UNIFIED_CELLS: usize = 32768;

/// The four columns of the spine.
#[derive(Clone, Debug, PartialEq, Eq)]
pub struct SpineUnifiedMle<F> {
    pub s_in: Vec<F>,
    pub s_out: Vec<F>,
    pub sigma: Vec<F>,
    pub state: Vec<F>,
}

impl<F> SpineUnifiedMle<F> {
    /// Every column has one value a cell.
    pub open spec fn wf(&self) -> bool {
        &&& self.s_in.len() == N_SPINE_UNIFIED_CELLS
        &&& self.s_out.len() == N_SPINE_UNIFIED_CELLS
        &&& self.sigma.len() == N_SPINE_UNIFIED_CELLS
        &&& self.state.len() == N_SPINE_UNIFIED_CELLS
    }
}

impl<F: TowerField> SpineUnifiedMle<F> {
    /// The columns of the permutations of `inputs`.
    pub open spec fn of(&self, params: PermParams<F>, inputs: Seq<Seq<F>>) -> bool {
        &&& self.wf()
        &&& self.s_in@ == sin_column(params, inputs, N_SPINE_UNIFIED_CELLS as nat)
        &&& self.s_out@ == sout_column(params, inputs, N_SPINE_UNIFIED_CELLS as nat)
        &&& self.sigma@ == sigma_column::<F>(inputs.len() as int, N_SPINE_UNIFIED_CELLS as nat)
        &&& self.state@ == state_column(params, inputs, N_SPINE_UNIFIED_CELLS as nat)
    }
}

/// Runs the permutations of the slots and lays them out in columns.
pub fn build_unified_mle<F: TowerField>(params: &PermParams<F>, slot_state_ins: &[[F; 4]]) -> (r:
    SpineUnifiedMle<F>)
    requires
        slot_state_ins.len() <= 64,
    ensures
        r.of(*params, input_views(slot_state_ins@)),
{
    let (c, _witnesses) = build_columns(params, slot_state_ins, N_SPINE_UNIFIED_CELLS);
    SpineUnifiedMle { s_in: c.s_in, s_out: c.s_out, sigma: c.sigma, state: c.state }
}

} // verus!
