//! What a body hash proof hands over: the leaves, and the claimed hash.
use vstd::prelude::*;
use crate::circuit::{SpineCircuit, SpineInputs};
use crate::field::TowerField;
use crate::layers::PermParams;
use crate::oracle::{SpineWitness, evaluate_spine, slots_fit};

verus! {

/// The cell that holds the hash.
#[derive(Clone, Copy, Debug, PartialEq, Eq)]
pub struct TxBodyHashCell<F> {
    pub lanes: [F; 2],
}

/// The leaves, and the claimed hash.
#[derive(Clone, Debug, PartialEq, Eq)]
pub struct BindingCut<F> {
    pub boundary_inputs: SpineInputs<F>,
    pub claimed_output: TxBodyHashCell<F>,
}

impl<F: TowerField> BindingCut<F> {
    /// The cut of an honest prover, and its witness.
    pub fn honest(params: &PermParams<F>, circuit: &SpineCircuit<F>, inputs: SpineInputs<F>) -> (r: (
        Self,
        SpineWitness<F>,
    ))
        requires
            circuit.slots.len() > 0,
            slots_fit(circuit.slots@, inputs),
        ensures
            r.1.of(*params, circuit.slots@, inputs),
            r.0.boundary_inputs == inputs,
            r.0.claimed_output.lanes == r.1.tx_body_hash,
    {
        let witness = evaluate_spine(params, circuit, &inputs);
        let claimed_output = TxBodyHashCell { lanes: witness.tx_body_hash };
        (BindingCut { boundary_inputs: inputs, claimed_output }, witness)
    }

    /// The claimed hash.
    pub fn output_lanes(&self) -> (r: [F; 2])
        ensures
            r == self.claimed_output.lanes,
    {
        self.claimed_output.lanes
    }
}

} // verus!
