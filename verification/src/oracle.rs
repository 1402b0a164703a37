//! The execution of a body hash, permutation by permutation.
use vstd::prelude::*;
use crate::circuit::{SpineCircuit, SpineInputs};
use crate::circuit_sweep::{SweepSlotDescriptor, SweepSpineSlotRole};
use crate::field::TowerField;
use crate::layers::{PermParams, permuted};
use crate::sponge::{SlotState, chained, chained_state, digest, fields_to_digest, head, head_state, lane_bytes, padding, padding_absorb_block};

verus! {

/// The leaves of a transaction body.
pub trait SpineBoundary<F: TowerField> {
    /// The payloads of the inputs.
    spec fn input_payloads(&self) -> Seq<Seq<F>>;

    /// The payloads of the outputs.
    spec fn output_payloads(&self) -> Seq<Seq<F>>;

    /// The leaf that is given as a digest, below a node of the first level.
    spec fn outside(&self, pos: int, left: bool) -> Option<Seq<F>>;

    /// The payload of an input.
    fn input_leaf(&self, i: usize) -> (r: [F; 4])
        requires
            i < self.input_payloads().len(),
        ensures
            r@ == self.input_payloads()[i as int],
    ;

    /// The payload of an output.
    fn output_leaf(&self, i: usize) -> (r: [F; 4])
        requires
            i < self.output_payloads().len(),
        ensures
            r@ == self.output_payloads()[i as int],
    ;

    /// The leaf that is given as a digest.
    fn outside_child(&self, pos: u8, left: bool) -> (r: [F; 2])
        requires
            self.outside(pos as int, left) is Some,
        ensures
            r@ == self.outside(pos as int, left)->0,
    ;
}

/// The first half of a payload.
pub open spec fn first_pair<F>(payload: Seq<F>) -> Seq<F> {
    seq![payload[0], payload[1]]
}

/// The second half of a payload.
pub open spec fn second_pair<F>(payload: Seq<F>) -> Seq<F> {
    seq![payload[2], payload[3]]
}

/// The digest of a child of an inner node.
pub open spec fn child_digest<F: TowerField, B: SpineBoundary<F>>(
    child: Option<usize>,
    inputs: B,
    outs: Seq<Seq<F>>,
    pos: int,
    left: bool,
) -> Seq<F> {
    match child {
        Some(id) => digest(outs[id as int]),
        None => inputs.outside(pos, left)->0,
    }
}

/// The input of a permutation, given the outputs of those before it.
pub open spec fn slot_input<F: TowerField, B: SpineBoundary<F>>(
    slot: SweepSlotDescriptor<F>,
    inputs: B,
    outs: Seq<Seq<F>>,
) -> Seq<F> {
    let iv = slot.capacity_iv@;
    let prev = outs[slot.prev_output_src->0 as int];
    match slot.role {
        SweepSpineSlotRole::InputLeafPermA { leaf_idx } => head(
            first_pair(inputs.input_payloads()[leaf_idx as int]),
            iv,
        ),
        SweepSpineSlotRole::InputLeafPermB { leaf_idx } => chained(
            prev,
            second_pair(inputs.input_payloads()[leaf_idx as int]),
        ),
        SweepSpineSlotRole::InputLeafPermC { .. } => chained(prev, padding()),
        SweepSpineSlotRole::OutputLeafPermA { leaf_idx } => head(
            first_pair(inputs.output_payloads()[leaf_idx as int]),
            iv,
        ),
        SweepSpineSlotRole::OutputLeafPermB { leaf_idx } => chained(
            prev,
            second_pair(inputs.output_payloads()[leaf_idx as int]),
        ),
        SweepSpineSlotRole::CompressPermA { level, pos } => head(
            child_digest(slot.left_child, inputs, outs, pos as int, true),
            iv,
        ),
        SweepSpineSlotRole::CompressPermB { level, pos } => chained(
            prev,
            child_digest(slot.right_child, inputs, outs, pos as int, false),
        ),
        SweepSpineSlotRole::WrapPerm => head(digest(outs[slot.left_child->0 as int]), iv),
    }
}

/// Whether a child is an earlier permutation or a leaf that is given.
pub open spec fn child_fits<F: TowerField, B: SpineBoundary<F>>(
    child: Option<usize>,
    inputs: B,
    k: int,
    pos: int,
    left: bool,
) -> bool {
    match child {
        Some(id) => id < k,
        None => inputs.outside(pos, left) is Some,
    }
}

/// Whether everything that a permutation reads is there.
pub open spec fn slot_fits<F: TowerField, B: SpineBoundary<F>>(
    slot: SweepSlotDescriptor<F>,
    inputs: B,
    k: int,
) -> bool {
    let chains = slot.prev_output_src is Some && slot.prev_output_src->0 < k;
    match slot.role {
        SweepSpineSlotRole::InputLeafPermA { leaf_idx } => leaf_idx
            < inputs.input_payloads().len(),
        SweepSpineSlotRole::InputLeafPermB { leaf_idx } => leaf_idx
            < inputs.input_payloads().len() && chains,
        SweepSpineSlotRole::InputLeafPermC { .. } => chains,
        SweepSpineSlotRole::OutputLeafPermA { leaf_idx } => leaf_idx
            < inputs.output_payloads().len(),
        SweepSpineSlotRole::OutputLeafPermB { leaf_idx } => leaf_idx
            < inputs.output_payloads().len() && chains,
        SweepSpineSlotRole::CompressPermA { level, pos } => child_fits(
            slot.left_child,
            inputs,
            k,
            pos as int,
            true,
        ),
        SweepSpineSlotRole::CompressPermB { level, pos } => child_fits(
            slot.right_child,
            inputs,
            k,
            pos as int,
            false,
        ) && chains,
        SweepSpineSlotRole::WrapPerm => slot.left_child is Some && slot.left_child->0 < k,
    }
}

/// Whether the permutations can be run in order.
pub open spec fn slots_fit<F: TowerField, B: SpineBoundary<F>>(
    slots: Seq<SweepSlotDescriptor<F>>,
    inputs: B,
) -> bool {
    forall|k: int| 0 <= k < slots.len() ==> slot_fits(#[trigger] slots[k], inputs, k)
}

/// The outputs of the first `k` permutations.
pub open spec fn slot_outputs<F: TowerField, B: SpineBoundary<F>>(
    params: PermParams<F>,
    slots: Seq<SweepSlotDescriptor<F>>,
    inputs: B,
    k: nat,
) -> Seq<Seq<F>>
    decreases k,
{
    if k == 0 {
        Seq::empty()
    } else {
        let outs = slot_outputs(params, slots, inputs, (k - 1) as nat);
        outs.push(permuted(params, slot_input(slots[k - 1], inputs, outs)))
    }
}

/// The states of all the permutations.
pub open spec fn is_execution<F: TowerField, B: SpineBoundary<F>>(
    states: Seq<SlotState<F>>,
    params: PermParams<F>,
    slots: Seq<SweepSlotDescriptor<F>>,
    inputs: B,
) -> bool {
    &&& states.len() == slots.len()
    &&& forall|k: int|
        0 <= k < slots.len() ==> (#[trigger] states[k]).of(
            params,
            slot_input(slots[k], inputs, slot_outputs(params, slots, inputs, k as nat)),
        )
}

/// Outputs stay as they are.
pub proof fn lemma_slot_outputs<F: TowerField, B: SpineBoundary<F>>(
    params: PermParams<F>,
    slots: Seq<SweepSlotDescriptor<F>>,
    inputs: B,
    j: nat,
    k: nat,
)
    requires
        j < k,
    ensures
        slot_outputs(params, slots, inputs, k).len() == k,
        slot_outputs(params, slots, inputs, k)[j as int] == permuted(
            params,
            slot_input(slots[j as int], inputs, slot_outputs(params, slots, inputs, j)),
        ),
    decreases k,
{
    if j < k - 1 {
        lemma_slot_outputs(params, slots, inputs, j, (k - 1) as nat);
    } else {
        lemma_outputs_len(params, slots, inputs, (k - 1) as nat);
    }
}

/// There are as many outputs as permutations.
pub proof fn lemma_outputs_len<F: TowerField, B: SpineBoundary<F>>(
    params: PermParams<F>,
    slots: Seq<SweepSlotDescriptor<F>>,
    inputs: B,
    k: nat,
)
    ensures
        slot_outputs(params, slots, inputs, k).len() == k,
    decreases k,
{
    if k > 0 {
        lemma_outputs_len(params, slots, inputs, (k - 1) as nat);
    }
}

/// The earlier outputs are the same whatever the number of later ones.
pub proof fn lemma_outputs_agree<F: TowerField, B: SpineBoundary<F>>(
    params: PermParams<F>,
    slots: Seq<SweepSlotDescriptor<F>>,
    inputs: B,
    i: nat,
    j: nat,
    k: nat,
)
    requires
        i < j <= k,
    ensures
        slot_outputs(params, slots, inputs, j)[i as int] == slot_outputs(
            params,
            slots,
            inputs,
            k,
        )[i as int],
{
    lemma_slot_outputs(params, slots, inputs, i, j);
    lemma_slot_outputs(params, slots, inputs, i, k);
}

/// The digest of a child.
fn resolve_child_digest<F: TowerField, B: SpineBoundary<F>>(
    child: Option<usize>,
    prev: &Vec<SlotState<F>>,
    inputs: &B,
    pos: u8,
    is_left: bool,
    Ghost(outs): Ghost<Seq<Seq<F>>>,
) -> (r: [F; 2])
    requires
        child_fits(child, *inputs, prev.len() as int, pos as int, is_left),
        forall|j: int| 0 <= j < prev.len() ==> (#[trigger] prev[j]).state_out@ == outs[j],
    ensures
        r@ == child_digest(child, *inputs, outs, pos as int, is_left),
{
    match child {
        Some(id) => {
            proof {
                assert(prev[id as int].state_out@ == outs[id as int]);
            }
            prev[id].digest()
        },
        None => inputs.outside_child(pos, is_left),
    }
}

/// The input of a permutation.
fn build_state_in<F: TowerField, B: SpineBoundary<F>>(
    slot: &SweepSlotDescriptor<F>,
    inputs: &B,
    prev: &Vec<SlotState<F>>,
    Ghost(outs): Ghost<Seq<Seq<F>>>,
) -> (r: [F; 4])
    requires
        slot_fits(*slot, *inputs, prev.len() as int),
        forall|j: int| 0 <= j < prev.len() ==> (#[trigger] prev[j]).state_out@ == outs[j],
    ensures
        r@ == slot_input(*slot, *inputs, outs),
{
    let iv = slot.capacity_iv;
    match slot.role {
        SweepSpineSlotRole::InputLeafPermA { leaf_idx } => {
            let p = inputs.input_leaf(leaf_idx as usize);
            let block = [p[0], p[1]];
            proof {
                assert(block@ =~= first_pair(p@));
            }
            head_state(&block, &iv)
        },
        SweepSpineSlotRole::InputLeafPermB { leaf_idx } => {
            let p = inputs.input_leaf(leaf_idx as usize);
            let block = [p[2], p[3]];
            proof {
                assert(block@ =~= second_pair(p@));
            }
            chain_absorb_pair(prev, slot, &block, Ghost(outs))
        },
        SweepSpineSlotRole::InputLeafPermC { .. } => chain_absorb_pair(
            prev,
            slot,
            &padding_absorb_block(),
            Ghost(outs),
        ),
        SweepSpineSlotRole::OutputLeafPermA { leaf_idx } => {
            let p = inputs.output_leaf(leaf_idx as usize);
            let block = [p[0], p[1]];
            proof {
                assert(block@ =~= first_pair(p@));
            }
            head_state(&block, &iv)
        },
        SweepSpineSlotRole::OutputLeafPermB { leaf_idx } => {
            let p = inputs.output_leaf(leaf_idx as usize);
            let block = [p[2], p[3]];
            proof {
                assert(block@ =~= second_pair(p@));
            }
            chain_absorb_pair(prev, slot, &block, Ghost(outs))
        },
        SweepSpineSlotRole::CompressPermA { level, pos } => {
            let left = resolve_child_digest(slot.left_child, prev, inputs, pos, true, Ghost(outs));
            head_state(&left, &iv)
        },
        SweepSpineSlotRole::CompressPermB { level, pos } => {
            let right = resolve_child_digest(
                slot.right_child,
                prev,
                inputs,
                pos,
                false,
                Ghost(outs),
            );
            chain_absorb_pair(prev, slot, &right, Ghost(outs))
        },
        SweepSpineSlotRole::WrapPerm => match slot.left_child {
            Some(root) => {
                proof {
                    assert(prev[root as int].state_out@ == outs[root as int]);
                }
                head_state(&prev[root].digest(), &iv)
            },
            None => head_state(&iv, &iv),
        },
    }
}

/// The state that absorbs a block into the output of the predecessor.
fn chain_absorb_pair<F: TowerField>(
    prev: &Vec<SlotState<F>>,
    slot: &SweepSlotDescriptor<F>,
    absorb: &[F; 2],
    Ghost(outs): Ghost<Seq<Seq<F>>>,
) -> (r: [F; 4])
    requires
        slot.prev_output_src is Some,
        slot.prev_output_src->0 < prev.len(),
        forall|j: int| 0 <= j < prev.len() ==> (#[trigger] prev[j]).state_out@ == outs[j],
    ensures
        r@ == chained(outs[slot.prev_output_src->0 as int], absorb@),
{
    match slot.prev_output_src {
        Some(src) => {
            proof {
                assert(prev[src as int].state_out@ == outs[src as int]);
            }
            chained_state(&prev[src].state_out, absorb)
        },
        None => [absorb[0], absorb[1], absorb[0], absorb[1]],
    }
}

/// Runs the permutations in order.
pub fn evaluate_slots<F: TowerField, B: SpineBoundary<F>>(
    params: &PermParams<F>,
    slots: &Vec<SweepSlotDescriptor<F>>,
    inputs: &B,
) -> (r: Vec<SlotState<F>>)
    requires
        slots_fit(slots@, *inputs),
    ensures
        is_execution(r@, *params, slots@, *inputs),
{
    let mut states: Vec<SlotState<F>> = Vec::new();
    let mut k: usize = 0;
    while k < slots.len()
        invariant
            k <= slots.len(),
            slots_fit(slots@, *inputs),
            states.len() == k,
            forall|j: int|
                0 <= j < k ==> (#[trigger] states[j]).of(
                    *params,
                    slot_input(
                        slots@[j],
                        *inputs,
                        slot_outputs(*params, slots@, *inputs, j as nat),
                    ),
                ),
        decreases slots.len() - k,
    {
        let ghost outs = slot_outputs(*params, slots@, *inputs, k as nat);
        proof {
            assert(slot_fits(slots@[k as int], *inputs, k as int));
            assert forall|j: int| 0 <= j < k implies (#[trigger] states[j]).state_out@
                == outs[j] by {
                lemma_slot_outputs(*params, slots@, *inputs, j as nat, k as nat);
            }
        }
        let state_in = build_state_in(&slots[k], inputs, &states, Ghost(outs));
        states.push(SlotState::run(params, state_in));
        k += 1;
    }
    states
}

/// The states of a body hash, and the hash.
#[derive(Clone, Debug, PartialEq, Eq)]
pub struct SpineWitness<F> {
    pub slots: Vec<SlotState<F>>,
    pub tx_body_hash: [F; 2],
}

impl<F: TowerField> SpineWitness<F> {
    /// The hash as bytes.
    pub fn tx_body_hash_bytes(&self) -> (r: [u8; 32])
        ensures
            r@ == lane_bytes(self.tx_body_hash@),
    {
        fields_to_digest(&self.tx_body_hash)
    }

    /// The witness of a run.
    pub open spec fn of<B: SpineBoundary<F>>(
        &self,
        params: PermParams<F>,
        slots: Seq<SweepSlotDescriptor<F>>,
        inputs: B,
    ) -> bool {
        &&& is_execution(self.slots@, params, slots, inputs)
        &&& self.tx_body_hash@ == digest(
            slot_outputs(params, slots, inputs, slots.len()).last(),
        )
    }
}

/// Runs the permutations of any body hash.
pub fn evaluate_body<F: TowerField, B: SpineBoundary<F>>(
    params: &PermParams<F>,
    slots: &Vec<SweepSlotDescriptor<F>>,
    inputs: &B,
) -> (w: SpineWitness<F>)
    requires
        slots.len() > 0,
        slots_fit(slots@, *inputs),
    ensures
        w.of(*params, slots@, *inputs),
{
    let states = evaluate_slots(params, slots, inputs);
    let last: usize = slots.len() - 1;
    proof {
        lemma_slot_outputs(*params, slots@, *inputs, last as nat, slots@.len());
        assert(states[last as int].state_out@ == slot_outputs(
            *params,
            slots@,
            *inputs,
            slots@.len(),
        ).last());
    }
    let tx_body_hash = states[last].digest();
    SpineWitness { slots: states, tx_body_hash }
}

/// Runs the permutations of a transaction body hash.
pub fn evaluate_spine<F: TowerField>(
    params: &PermParams<F>,
    circuit: &SpineCircuit<F>,
    inputs: &SpineInputs<F>,
) -> (w: SpineWitness<F>)
    requires
        circuit.slots.len() > 0,
        slots_fit(circuit.slots@, *inputs),
    ensures
        w.of(*params, circuit.slots@, *inputs),
{
    evaluate_body(params, &circuit.slots, inputs)
}

impl<F: TowerField> SpineBoundary<F> for SpineInputs<F> {
    open spec fn input_payloads(&self) -> Seq<Seq<F>> {
        Seq::new(4, |i: int| self.input_leaves[i]@)
    }

    open spec fn output_payloads(&self) -> Seq<Seq<F>> {
        Seq::new(8, |i: int| self.output_leaves[i]@)
    }

    open spec fn outside(&self, pos: int, left: bool) -> Option<Seq<F>> {
        if pos == 0 && left {
            Some(self.epoch_anchor@)
        } else if pos == 0 {
            Some(self.fee_leaf@)
        } else if pos == 7 && left {
            Some(self.is_coinbase_leaf@)
        } else if pos == 7 {
            Some(self.pad_leaf@)
        } else {
            None
        }
    }

    fn input_leaf(&self, i: usize) -> (r: [F; 4]) {
        self.input_leaves[i]
    }

    fn output_leaf(&self, i: usize) -> (r: [F; 4]) {
        self.output_leaves[i]
    }

    fn outside_child(&self, pos: u8, left: bool) -> (r: [F; 2]) {
        if pos == 0 && left {
            self.epoch_anchor
        } else if pos == 0 {
            self.fee_leaf
        } else if left {
            self.is_coinbase_leaf
        } else {
            self.pad_leaf
        }
    }
}

} // verus!
