//! The permutations of a transaction body hash, out of a layout.
//!
//! A body has four inputs and eight outputs. The layout says for every
//! permutation what it does, whether it starts a sponge, and of which nodes it
//! is the parent.
use vstd::prelude::*;
use crate::circuit_sweep::{SpineIvs, SweepSlotDescriptor, SweepSpineSlotRole};
use crate::field::TowerField;

verus! {

/// The number of permutations.
pub const N_INSTANCES: usize = 59;

/// The number of inputs.
pub const TXBODY_N_INPUT_LEAVES: usize = 4;

/// The number of outputs.
pub const TXBODY_N_OUTPUT_LEAVES: usize = 8;

/// The leaf of the first input.
pub const TREE_LEAF_INPUT_BASE: usize = 2;

/// The leaf of the first output.
pub const TREE_LEAF_OUTPUT_BASE: usize = 6;

/// What a permutation does.
pub type InstanceRole = SweepSpineSlotRole;

/// One permutation, and where its input comes from.
pub type SlotDescriptor<F> = SweepSlotDescriptor<F>;

/// The place of a permutation in the layout.
#[derive(Clone, Copy, Debug, PartialEq, Eq)]
pub struct InstanceMeta {
    pub role: InstanceRole,
    pub is_head: bool,
    pub children: Option<(Option<usize>, Option<usize>)>,
}

/// The leaves of a transaction body.
#[derive(Clone, Debug, PartialEq, Eq)]
pub struct SpineInputs<F> {
    pub epoch_anchor: [F; 2],
    pub fee_leaf: [F; 2],
    pub input_leaves: [[F; 4]; 4],
    pub output_leaves: [[F; 4]; 8],
    pub is_coinbase_leaf: [F; 2],
    pub pad_leaf: [F; 2],
}

/// The permutations in order, and their layout.
#[derive(Clone, Debug, PartialEq, Eq)]
pub struct SpineCircuit<F> {
    pub slots: Vec<SlotDescriptor<F>>,
    pub layout: Vec<InstanceMeta>,
}

/// The initial capacity of the sponge that a permutation belongs to.
pub open spec fn role_iv<F>(ivs: SpineIvs<F>, role: InstanceRole) -> [F; 2] {
    match role {
        SweepSpineSlotRole::InputLeafPermA { .. } => ivs.leaf,
        SweepSpineSlotRole::InputLeafPermB { .. } => ivs.leaf,
        SweepSpineSlotRole::InputLeafPermC { .. } => ivs.leaf,
        SweepSpineSlotRole::OutputLeafPermA { .. } => ivs.outleaf,
        SweepSpineSlotRole::OutputLeafPermB { .. } => ivs.outleaf,
        SweepSpineSlotRole::CompressPermA { .. } => ivs.compress,
        SweepSpineSlotRole::CompressPermB { .. } => ivs.compress,
        SweepSpineSlotRole::WrapPerm => ivs.txbody,
    }
}

/// The permutation with the given index of a layout.
pub open spec fn layout_slot<F>(ivs: SpineIvs<F>, meta: InstanceMeta, id: int) -> SlotDescriptor<F> {
    SweepSlotDescriptor {
        id: id as usize,
        role: meta.role,
        capacity_iv: role_iv(ivs, meta.role),
        is_head: meta.is_head,
        prev_output_src: if meta.is_head {
            None
        } else {
            Some((id - 1) as usize)
        },
        left_child: match meta.children {
            Some((l, r)) => l,
            None => None,
        },
        right_child: match meta.children {
            Some((l, r)) => r,
            None => None,
        },
    }
}

impl<F: TowerField> SpineCircuit<F> {
    /// The circuit of a layout.
    pub open spec fn of(&self, ivs: SpineIvs<F>, layout: Seq<InstanceMeta>) -> bool {
        &&& self.layout@ == layout
        &&& self.slots.len() == layout.len()
        &&& forall|k: int|
            0 <= k < layout.len() ==> #[trigger] self.slots[k] == layout_slot(ivs, layout[k], k)
    }

    /// Builds the circuit of a layout, whose first permutation starts a sponge.
    pub fn build(ivs: &SpineIvs<F>, layout: Vec<InstanceMeta>) -> (r: Self)
        requires
            layout.len() > 0 ==> layout[0].is_head,
        ensures
            r.of(*ivs, layout@),
    {
        let mut slots: Vec<SlotDescriptor<F>> = Vec::new();
        let mut id: usize = 0;
        while id < layout.len()
            invariant
                id <= layout.len(),
                layout.len() > 0 ==> layout[0].is_head,
                slots.len() == id,
                forall|k: int|
                    0 <= k < id ==> #[trigger] slots[k] == layout_slot(*ivs, layout@[k], k),
            decreases layout.len() - id,
        {
            let meta = layout[id];
            let capacity_iv = match meta.role {
                SweepSpineSlotRole::InputLeafPermA { .. } => ivs.leaf,
                SweepSpineSlotRole::InputLeafPermB { .. } => ivs.leaf,
                SweepSpineSlotRole::InputLeafPermC { .. } => ivs.leaf,
                SweepSpineSlotRole::OutputLeafPermA { .. } => ivs.outleaf,
                SweepSpineSlotRole::OutputLeafPermB { .. } => ivs.outleaf,
                SweepSpineSlotRole::CompressPermA { .. } => ivs.compress,
                SweepSpineSlotRole::CompressPermB { .. } => ivs.compress,
                SweepSpineSlotRole::WrapPerm => ivs.txbody,
            };
            let prev_output_src = if meta.is_head {
                None
            } else {
                Some(id - 1)
            };
            let (left_child, right_child) = match meta.children {
                Some((l, r)) => (l, r),
                None => (None, None),
            };
            slots.push(
                SweepSlotDescriptor {
                    id,
                    role: meta.role,
                    capacity_iv,
                    is_head: meta.is_head,
                    prev_output_src,
                    left_child,
                    right_child,
                },
            );
            id += 1;
        }
        SpineCircuit { slots, layout }
    }

    /// The index of the wrapping permutation.
    pub fn wrap_id(&self) -> (r: usize)
        requires
            self.slots.len() > 0,
        ensures
            r == self.slots.len() - 1,
    {
        self.slots.len() - 1
    }
}

/// The leaf of an input.
pub fn input_tree_leaf(leaf_slot: usize) -> (r: usize)
    requires
        leaf_slot <= usize::MAX - 2,
    ensures
        r == TREE_LEAF_INPUT_BASE + leaf_slot,
{
    TREE_LEAF_INPUT_BASE + leaf_slot
}

/// The leaf of an output.
pub fn output_tree_leaf(leaf_slot: usize) -> (r: usize)
    requires
        leaf_slot <= usize::MAX - 6,
    ensures
        r == TREE_LEAF_OUTPUT_BASE + leaf_slot,
{
    TREE_LEAF_OUTPUT_BASE + leaf_slot
}

/// The four kinds of hashes in a body: of inputs, of outputs, of nodes and of the
/// root.
pub open spec fn hash_kind(role: InstanceRole) -> int {
    if role is InputLeafPermA || role is InputLeafPermB || role is InputLeafPermC {
        0
    } else if role is OutputLeafPermA || role is OutputLeafPermB {
        1
    } else if role is CompressPermA || role is CompressPermB {
        2
    } else {
        3
    }
}

/// In a circuit every permutation stands at its place and does what the layout
/// says. A permutation that does not start a sponge goes on from the one before
/// it. Permutations of one kind of hash start with one capacity, and where the
/// capacities differ those of different kinds do not.
pub proof fn lemma_circuit<F: TowerField>(
    circuit: SpineCircuit<F>,
    ivs: SpineIvs<F>,
    layout: Seq<InstanceMeta>,
    j: int,
    k: int,
)
    requires
        circuit.of(ivs, layout),
        0 <= j < layout.len(),
        0 <= k < layout.len() <= usize::MAX,
        layout[0].is_head,
        ivs.leaf != ivs.outleaf,
        ivs.leaf != ivs.compress,
        ivs.leaf != ivs.txbody,
        ivs.outleaf != ivs.compress,
        ivs.outleaf != ivs.txbody,
        ivs.compress != ivs.txbody,
    ensures
        circuit.slots.len() == layout.len(),
        circuit.slots[k].id == k,
        circuit.slots[k].role == layout[k].role,
        circuit.slots[k].is_head == layout[k].is_head,
        layout[k].is_head <==> circuit.slots[k].prev_output_src is None,
        !layout[k].is_head ==> circuit.slots[k].prev_output_src->0 + 1 == k,
        layout[k].children matches Some((l, r)) ==> circuit.slots[k].left_child == l
            && circuit.slots[k].right_child == r,
        layout[k].children is None ==> circuit.slots[k].left_child is None
            && circuit.slots[k].right_child is None,
        circuit.slots[j].capacity_iv == circuit.slots[k].capacity_iv <==> hash_kind(layout[j].role)
            == hash_kind(layout[k].role),
        layout[k].role is WrapPerm ==> circuit.slots[k].capacity_iv == ivs.txbody,
        layout[k].role is InputLeafPermA ==> circuit.slots[k].capacity_iv == ivs.leaf,
        layout[k].role is OutputLeafPermA ==> circuit.slots[k].capacity_iv == ivs.outleaf,
{
    assert(circuit.slots[j] == layout_slot(ivs, layout[j], j));
    assert(circuit.slots[k] == layout_slot(ivs, layout[k], k));
}

} // verus!
