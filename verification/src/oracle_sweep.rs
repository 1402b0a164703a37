//! The execution of the sweep body hash, and the tree that it computes.
use vstd::prelude::*;
use crate::circuit_sweep::{SpineIvs, SweepSpineCircuit, SweepSpineInputs, level_base, level_of, level_width, node_slot, sweep_slot};
use crate::field::TowerField;
use crate::layers::PermParams;
use crate::oracle::{SpineBoundary, SpineWitness, evaluate_body, first_pair, lemma_outputs_agree, lemma_slot_outputs, second_pair, slot_fits, slot_input, slot_outputs, slots_fit};
use crate::sponge::{SlotState, digest, hash1, hash2, hash3, padding};

verus! {

/// The states of one permutation.
pub type SweepSpineSlotState<F> = SlotState<F>;

/// The states of the sweep body hash, and the hash.
pub type SweepSpineWitness<F> = SpineWitness<F>;

impl<F: TowerField> SpineBoundary<F> for SweepSpineInputs<F> {
    open spec fn input_payloads(&self) -> Seq<Seq<F>> {
        Seq::new(25, |i: int| self.input_leaves[i]@)
    }

    open spec fn output_payloads(&self) -> Seq<Seq<F>> {
        Seq::new(2, |i: int| self.output_leaves[i]@)
    }

    open spec fn outside(&self, pos: int, left: bool) -> Option<Seq<F>> {
        if pos == 0 && left {
            Some(self.epoch_anchor@)
        } else if pos == 0 {
            Some(self.fee_leaf@)
        } else if pos == 1 && left {
            Some(self.shape_leaf@)
        } else if pos == 15 && left {
            Some(self.is_coinbase_leaf@)
        } else if pos == 15 {
            Some(self.pad_leaf@)
        } else {
            None
        }
    }

    fn input_leaf(&self, i: usize) -> (r: [F; 4]) {
        self.input_leaves[i]
    }

    fn output_leaf(&self, i: usize) -> (r: [F; 4]) {
        self.output_leaves[i]
    }

    fn outside_child(&self, pos: u8, left: bool) -> (r: [F; 2]) {
        if pos == 0 && left {
            self.epoch_anchor
        } else if pos == 0 {
            self.fee_leaf
        } else if pos == 1 {
            self.shape_leaf
        } else if left {
            self.is_coinbase_leaf
        } else {
            self.pad_leaf
        }
    }
}

/// The sweep circuit can be run on every sweep body.
pub proof fn lemma_sweep_fits<F: TowerField>(
    circuit: SweepSpineCircuit<F>,
    ivs: SpineIvs<F>,
    inputs: SweepSpineInputs<F>,
)
    requires
        circuit.of(ivs),
    ensures
        slots_fit(circuit.slots@, inputs),
{
    assert forall|k: int| 0 <= k < circuit.slots.len() implies slot_fits(
        #[trigger] circuit.slots@[k],
        inputs,
        k,
    ) by {
        assert(circuit.slots[k] == sweep_slot(ivs, k));
        if 79 <= k < 141 {
            let level = level_of(k);
            let pos = (k - level_base(level)) / 2;
            assert(0 <= pos < level_width(level));
        }
    }
}

/// Runs the permutations of the sweep body hash.
pub fn evaluate_sweep_spine<F: TowerField>(
    params: &PermParams<F>,
    circuit: &SweepSpineCircuit<F>,
    inputs: &SweepSpineInputs<F>,
) -> (w: SweepSpineWitness<F>)
    requires
        circuit.slots.len() > 0,
        slots_fit(circuit.slots@, *inputs),
    ensures
        w.of(*params, circuit.slots@, *inputs),
{
    evaluate_body(params, &circuit.slots, inputs)
}

/// The digest of a leaf of the tree.
pub open spec fn sweep_leaf<F: TowerField>(
    params: PermParams<F>,
    ivs: SpineIvs<F>,
    inputs: SweepSpineInputs<F>,
    t: int,
) -> Seq<F> {
    if t == 0 {
        inputs.epoch_anchor@
    } else if t == 1 {
        inputs.fee_leaf@
    } else if t == 2 {
        inputs.shape_leaf@
    } else if t < 28 {
        let payload = inputs.input_leaves[t - 3]@;
        hash3(params, ivs.leaf@, first_pair(payload), second_pair(payload), padding())
    } else if t < 30 {
        let payload = inputs.output_leaves[t - 28]@;
        hash2(params, ivs.outleaf@, first_pair(payload), second_pair(payload))
    } else if t == 30 {
        inputs.is_coinbase_leaf@
    } else {
        inputs.pad_leaf@
    }
}

/// The digest of a node of the tree.
pub open spec fn sweep_node<F: TowerField>(
    params: PermParams<F>,
    ivs: SpineIvs<F>,
    inputs: SweepSpineInputs<F>,
    level: nat,
    pos: int,
) -> Seq<F>
    decreases level,
{
    if level == 0 {
        sweep_leaf(params, ivs, inputs, pos)
    } else {
        hash2(
            params,
            ivs.compress@,
            sweep_node(params, ivs, inputs, (level - 1) as nat, 2 * pos),
            sweep_node(params, ivs, inputs, (level - 1) as nat, 2 * pos + 1),
        )
    }
}

/// The hash of a sweep body: the wrapped root of the tree over its leaves.
pub open spec fn sweep_body_hash<F: TowerField>(
    params: PermParams<F>,
    ivs: SpineIvs<F>,
    inputs: SweepSpineInputs<F>,
) -> Seq<F> {
    hash1(params, ivs.txbody@, sweep_node(params, ivs, inputs, 5, 0))
}

#[verifier::rlimit(60)]
#[verifier::spinoff_prover]
proof fn lemma_node_digest<F: TowerField>(
    params: PermParams<F>,
    ivs: SpineIvs<F>,
    inputs: SweepSpineInputs<F>,
    circuit: SweepSpineCircuit<F>,
    level: nat,
    pos: int,
)
    requires
        circuit.of(ivs),
        level <= 5,
        0 <= pos < level_width(level as int),
        node_slot(level as int, pos) is Some,
    ensures
        ({
            let outs = slot_outputs(params, circuit.slots@, inputs, 142);
            digest(outs[node_slot(level as int, pos)->0 as int]) == sweep_node(
                params,
                ivs,
                inputs,
                level,
                pos,
            )
        }),
    decreases level,
{
    let slots = circuit.slots@;
    let outs = slot_outputs(params, slots, inputs, 142);
    let k = node_slot(level as int, pos)->0 as nat;
    lemma_slot_outputs(params, slots, inputs, k, 142);
    assert(slots[k as int] == sweep_slot(ivs, k as int));
    assert(slots[k - 1] == sweep_slot(ivs, k - 1));
    lemma_slot_outputs(params, slots, inputs, (k - 1) as nat, 142);
    lemma_slot_outputs(params, slots, inputs, (k - 1) as nat, k);
    if level == 0 {
        if pos < 28 {
            assert(k % 3 == 2 && k / 3 == pos - 3);
            assert((k - 1) % 3 == 1 && (k - 1) / 3 == pos - 3);
            assert((k - 2) % 3 == 0 && (k - 2) / 3 == pos - 3);
            assert(slots[k - 2] == sweep_slot(ivs, k - 2));
            lemma_slot_outputs(params, slots, inputs, (k - 2) as nat, (k - 1) as nat);
            let payload = inputs.input_leaves[pos - 3]@;
            assert(inputs.input_payloads()[pos - 3] == payload);
            assert(digest(outs[k as int]) == hash3(
                params,
                ivs.leaf@,
                first_pair(payload),
                second_pair(payload),
                padding(),
            ));
        } else {
            assert(k % 2 == 0 && (k - 75) / 2 == pos - 28 && (k - 1 - 75) / 2 == pos - 28);
            let payload = inputs.output_leaves[pos - 28]@;
            assert(inputs.output_payloads()[pos - 28] == payload);
            assert(digest(outs[k as int]) == hash2(
                params,
                ivs.outleaf@,
                first_pair(payload),
                second_pair(payload),
            ));
        }
    } else {
        let below = (level - 1) as nat;
        let lv = level as int;
        assert(level_of(k as int) == lv && level_of(k - 1) == lv);
        assert((k - level_base(lv)) / 2 == pos && (k - 1 - level_base(lv)) / 2 == pos);
        assert(2 * pos + 1 < level_width(lv - 1));
        let left = node_slot(lv - 1, 2 * pos);
        let right = node_slot(lv - 1, 2 * pos + 1);
        if left is Some {
            lemma_node_digest(params, ivs, inputs, circuit, below, 2 * pos);
            lemma_outputs_agree(params, slots, inputs, left->0 as nat, (k - 1) as nat, 142);
        }
        if right is Some {
            lemma_node_digest(params, ivs, inputs, circuit, below, 2 * pos + 1);
            lemma_outputs_agree(params, slots, inputs, right->0 as nat, k, 142);
        }
        let l = sweep_node(params, ivs, inputs, below, 2 * pos);
        let r = sweep_node(params, ivs, inputs, below, 2 * pos + 1);
        assert(slot_input(slots[k - 1], inputs, slot_outputs(params, slots, inputs, (k - 1) as nat))
            == crate::sponge::head(l, ivs.compress@));
        assert(digest(outs[k as int]) == hash2(params, ivs.compress@, l, r));
    }
}

/// The circuit computes the hash of the body: the wrapped root of the tree over
/// its leaves.
pub proof fn lemma_sweep_hash<F: TowerField>(
    params: PermParams<F>,
    ivs: SpineIvs<F>,
    inputs: SweepSpineInputs<F>,
    circuit: SweepSpineCircuit<F>,
    witness: SweepSpineWitness<F>,
)
    requires
        circuit.of(ivs),
        witness.of(params, circuit.slots@, inputs),
    ensures
        witness.tx_body_hash@ == sweep_body_hash(params, ivs, inputs),
{
    let slots = circuit.slots@;
    lemma_node_digest(params, ivs, inputs, circuit, 5, 0);
    lemma_slot_outputs(params, slots, inputs, 141, 142);
    assert(slots[141] == sweep_slot(ivs, 141));
    lemma_outputs_agree(params, slots, inputs, 140, 141, 142);
}

} // verus!
