//! The 142 permutations of the sweep transaction body hash.
//!
//! The body is the root of a tree of 32 leaves: the epoch anchor, the fee, the
//! shape, 25 inputs, two outputs, the coinbase flag and padding. An input leaf
//! takes three permutations, an output leaf two, an inner node two, and the
//! root is wrapped by one more.
use vstd::prelude::*;
use crate::field::TowerField;

verus! {

pub const SWEEP_SPINE_INPUT_LEAVES: usize = 25;

pub const SWEEP_SPINE_OUTPUT_LEAVES: usize = 2;

pub const SWEEP_SPINE_TREE_LEAVES: usize = 32;

pub const SWEEP_SPINE_TREE_DEPTH: usize = 5;

pub const SWEEP_TREE_LEAF_EPOCH_ANCHOR: usize = 0;

pub const SWEEP_TREE_LEAF_FEE: usize = 1;

pub const SWEEP_TREE_LEAF_SHAPE: usize = 2;

pub const SWEEP_TREE_LEAF_INPUT_BASE: usize = 3;

pub const SWEEP_TREE_LEAF_OUTPUT_BASE: usize = 28;

pub const SWEEP_TREE_LEAF_IS_COINBASE: usize = 30;

pub const SWEEP_TREE_LEAF_PAD: usize = 31;

pub const SWEEP_PERMS_PER_INPUT_LEAF: usize = 3;

pub const SWEEP_PERMS_PER_OUTPUT_LEAF: usize = 2;

pub const SWEEP_PERMS_PER_COMPRESS: usize = 2;

pub const SWEEP_PERMS_PER_WRAP: usize = 1;

/// The number of permutations.
pub const N_SWEEP_SPINE_SLOTS: usize = 142;

/// What a permutation does.
#[derive(Clone, Copy, Debug, PartialEq, Eq, Structural)]
pub enum SweepSpineSlotRole {
    InputLeafPermA { leaf_idx: u8 },
    InputLeafPermB { leaf_idx: u8 },
    InputLeafPermC { leaf_idx: u8 },
    OutputLeafPermA { leaf_idx: u8 },
    OutputLeafPermB { leaf_idx: u8 },
    CompressPermA { level: u8, pos: u8 },
    CompressPermB { level: u8, pos: u8 },
    WrapPerm,
}

impl SweepSpineSlotRole {
    /// Whether the permutation starts a sponge.
    pub open spec fn heads(self) -> bool {
        self is InputLeafPermA || self is OutputLeafPermA || self is CompressPermA
            || self is WrapPerm
    }

    /// Computes [`SweepSpineSlotRole::heads`].
    pub fn is_head(&self) -> (r: bool)
        ensures
            r == self.heads(),
    {
        match self {
            SweepSpineSlotRole::InputLeafPermA { .. } => true,
            SweepSpineSlotRole::OutputLeafPermA { .. } => true,
            SweepSpineSlotRole::CompressPermA { .. } => true,
            SweepSpineSlotRole::WrapPerm => true,
            _ => false,
        }
    }
}

/// The initial capacities of the four kinds of sponges.
#[derive(Clone, Copy, Debug, PartialEq, Eq)]
pub struct SpineIvs<F> {
    pub leaf: [F; 2],
    pub outleaf: [F; 2],
    pub compress: [F; 2],
    pub txbody: [F; 2],
}

/// One permutation, and where its input comes from.
#[derive(Clone, Copy, Debug, PartialEq, Eq)]
pub struct SweepSlotDescriptor<F> {
    pub id: usize,
    pub role: SweepSpineSlotRole,
    pub capacity_iv: [F; 2],
    pub is_head: bool,
    pub prev_output_src: Option<usize>,
    pub left_child: Option<usize>,
    pub right_child: Option<usize>,
}

/// The leaves of a sweep transaction body.
#[derive(Clone, Debug, PartialEq, Eq)]
pub struct SweepSpineInputs<F> {
    pub epoch_anchor: [F; 2],
    pub fee_leaf: [F; 2],
    pub shape_leaf: [F; 2],
    pub input_leaves: [[F; 4]; 25],
    pub output_leaves: [[F; 4]; 2],
    pub is_coinbase_leaf: [F; 2],
    pub pad_leaf: [F; 2],
}

/// The permutations in order.
#[derive(Clone, Debug, PartialEq, Eq)]
pub struct SweepSpineCircuit<F> {
    pub slots: Vec<SweepSlotDescriptor<F>>,
}

/// The number of nodes of a level of the tree.
pub open spec fn level_width(level: int) -> int {
    if level <= 0 {
        32
    } else if level == 1 {
        16
    } else if level == 2 {
        8
    } else if level == 3 {
        4
    } else if level == 4 {
        2
    } else {
        1
    }
}

/// The first permutation of a level of inner nodes.
pub open spec fn level_base(level: int) -> int {
    79 + 2 * (32 - 2 * level_width(level))
}

/// The level of a permutation of an inner node.
pub open spec fn level_of(k: int) -> int {
    if k < 111 {
        1
    } else if k < 127 {
        2
    } else if k < 135 {
        3
    } else if k < 139 {
        4
    } else {
        5
    }
}

/// The last permutation of a node of the tree; none for the leaves that are
/// given as digests.
pub open spec fn node_slot(level: int, pos: int) -> Option<usize> {
    if level > 0 {
        Some((level_base(level) + 2 * pos + 1) as usize)
    } else if 3 <= pos < 28 {
        Some((3 * (pos - 3) + 2) as usize)
    } else if 28 <= pos < 30 {
        Some((75 + 2 * (pos - 28) + 1) as usize)
    } else {
        None
    }
}

/// A permutation without its place in a sponge.
pub open spec fn slot_with<F>(
    id: int,
    role: SweepSpineSlotRole,
    iv: [F; 2],
    left: Option<usize>,
    right: Option<usize>,
) -> SweepSlotDescriptor<F> {
    SweepSlotDescriptor {
        id: id as usize,
        role,
        capacity_iv: iv,
        is_head: role.heads(),
        prev_output_src: if role.heads() {
            None
        } else {
            Some((id - 1) as usize)
        },
        left_child: left,
        right_child: right,
    }
}

/// The permutation with the given index.
pub open spec fn sweep_slot<F>(ivs: SpineIvs<F>, k: int) -> SweepSlotDescriptor<F> {
    if k < 75 {
        let leaf_idx = (k / 3) as u8;
        let role = if k % 3 == 0 {
            SweepSpineSlotRole::InputLeafPermA { leaf_idx }
        } else if k % 3 == 1 {
            SweepSpineSlotRole::InputLeafPermB { leaf_idx }
        } else {
            SweepSpineSlotRole::InputLeafPermC { leaf_idx }
        };
        slot_with(k, role, ivs.leaf, None, None)
    } else if k < 79 {
        let leaf_idx = ((k - 75) / 2) as u8;
        let role = if k % 2 == 1 {
            SweepSpineSlotRole::OutputLeafPermA { leaf_idx }
        } else {
            SweepSpineSlotRole::OutputLeafPermB { leaf_idx }
        };
        slot_with(k, role, ivs.outleaf, None, None)
    } else if k < 141 {
        let level = level_of(k);
        let pos = (k - level_base(level)) / 2;
        let role = if k % 2 == 1 {
            SweepSpineSlotRole::CompressPermA { level: level as u8, pos: pos as u8 }
        } else {
            SweepSpineSlotRole::CompressPermB { level: level as u8, pos: pos as u8 }
        };
        slot_with(
            k,
            role,
            ivs.compress,
            node_slot(level - 1, 2 * pos),
            node_slot(level - 1, 2 * pos + 1),
        )
    } else {
        slot_with(k, SweepSpineSlotRole::WrapPerm, ivs.txbody, Some(140usize), None)
    }
}

/// Appends a permutation.
fn push_slot<F: TowerField>(
    slots: &mut Vec<SweepSlotDescriptor<F>>,
    role: SweepSpineSlotRole,
    capacity_iv: [F; 2],
    left_child: Option<usize>,
    right_child: Option<usize>,
) -> (id: usize)
    requires
        old(slots).len() < usize::MAX,
        role.heads() || old(slots).len() > 0,
    ensures
        id == old(slots).len(),
        final(slots)@ == old(slots)@.push(
            slot_with(id as int, role, capacity_iv, left_child, right_child),
        ),
{
    let id: usize = slots.len();
    let is_head = role.is_head();
    let prev_output_src = if is_head {
        None
    } else {
        Some(id - 1)
    };
    slots.push(
        SweepSlotDescriptor {
            id,
            role,
            capacity_iv,
            is_head,
            prev_output_src,
            left_child,
            right_child,
        },
    );
    id
}

impl<F: TowerField> SweepSpineCircuit<F> {
    /// The circuit with the given initial capacities.
    pub open spec fn of(&self, ivs: SpineIvs<F>) -> bool {
        &&& self.slots.len() == N_SWEEP_SPINE_SLOTS
        &&& forall|k: int|
            0 <= k < N_SWEEP_SPINE_SLOTS ==> #[trigger] self.slots[k] == sweep_slot(ivs, k)
    }

    /// Builds the circuit.
    pub fn build(ivs: &SpineIvs<F>) -> (r: Self)
        ensures
            r.of(*ivs),
    {
        let mut slots: Vec<SweepSlotDescriptor<F>> = Vec::new();
        let mut current: Vec<Option<usize>> = Vec::new();
        let mut t: usize = 0;
        while t < SWEEP_SPINE_TREE_LEAVES
            invariant
                t <= 32,
                current.len() == t,
                forall|k: int| 0 <= k < t ==> #[trigger] current[k] is None,
            decreases 32 - t,
        {
            current.push(None);
            t += 1;
        }
        let mut leaf: usize = 0;
        while leaf < SWEEP_SPINE_INPUT_LEAVES
            invariant
                leaf <= 25,
                slots.len() == 3 * leaf,
                forall|k: int| 0 <= k < slots.len() ==> #[trigger] slots[k] == sweep_slot(*ivs, k),
                current.len() == 32,
                forall|k: int|
                    0 <= k < 32 ==> #[trigger] current[k] == if 3 <= k < 3 + leaf {
                        node_slot(0, k)
                    } else {
                        None
                    },
            decreases 25 - leaf,
        {
            let leaf_idx: u8 = leaf as u8;
            push_slot(
                &mut slots,
                SweepSpineSlotRole::InputLeafPermA { leaf_idx },
                ivs.leaf,
                None,
                None,
            );
            push_slot(
                &mut slots,
                SweepSpineSlotRole::InputLeafPermB { leaf_idx },
                ivs.leaf,
                None,
                None,
            );
            let last: usize = push_slot(
                &mut slots,
                SweepSpineSlotRole::InputLeafPermC { leaf_idx },
                ivs.leaf,
                None,
                None,
            );
            current.set(SWEEP_TREE_LEAF_INPUT_BASE + leaf, Some(last));
            leaf += 1;
        }
        let mut leaf: usize = 0;
        while leaf < SWEEP_SPINE_OUTPUT_LEAVES
            invariant
                leaf <= 2,
                slots.len() == 75 + 2 * leaf,
                forall|k: int| 0 <= k < slots.len() ==> #[trigger] slots[k] == sweep_slot(*ivs, k),
                current.len() == 32,
                forall|k: int|
                    0 <= k < 32 ==> #[trigger] current[k] == if 3 <= k < 28 + leaf {
                        node_slot(0, k)
                    } else {
                        None
                    },
            decreases 2 - leaf,
        {
            let leaf_idx: u8 = leaf as u8;
            push_slot(
                &mut slots,
                SweepSpineSlotRole::OutputLeafPermA { leaf_idx },
                ivs.outleaf,
                None,
                None,
            );
            let last: usize = push_slot(
                &mut slots,
                SweepSpineSlotRole::OutputLeafPermB { leaf_idx },
                ivs.outleaf,
                None,
                None,
            );
            current.set(SWEEP_TREE_LEAF_OUTPUT_BASE + leaf, Some(last));
            leaf += 1;
        }
        let mut level: usize = 1;
        let mut width: usize = 16;
        while level <= SWEEP_SPINE_TREE_DEPTH
            invariant
                1 <= level <= 6,
                level <= 5 ==> width == level_width(level as int),
                slots.len() == if level <= 5 {
                    level_base(level as int)
                } else {
                    141
                },
                forall|k: int| 0 <= k < slots.len() ==> #[trigger] slots[k] == sweep_slot(*ivs, k),
                current.len() == level_width(level - 1),
                forall|k: int|
                    0 <= k < current.len() ==> #[trigger] current[k] == node_slot(level - 1, k),
            decreases 6 - level,
        {
            let mut next: Vec<Option<usize>> = Vec::new();
            let mut pos: usize = 0;
            while pos < width
                invariant
                    pos <= width,
                    1 <= level <= 5,
                    width == level_width(level as int),
                    slots.len() == level_base(level as int) + 2 * pos,
                    forall|k: int|
                        0 <= k < slots.len() ==> #[trigger] slots[k] == sweep_slot(*ivs, k),
                    current.len() == level_width(level - 1),
                    forall|k: int|
                        0 <= k < current.len() ==> #[trigger] current[k] == node_slot(
                            level - 1,
                            k,
                        ),
                    next.len() == pos,
                    forall|k: int|
                        0 <= k < pos ==> #[trigger] next[k] == node_slot(level as int, k),
                decreases width - pos,
            {
                let left = current[2 * pos];
                let right = current[2 * pos + 1];
                let (l8, p8) = (level as u8, pos as u8);
                proof {
                    let k = slots.len() as int;
                    assert(level_of(k) == level && level_of(k + 1) == level);
                    assert(current[2 * pos as int] == node_slot(level - 1, 2 * pos as int));
                    assert(current[2 * pos as int + 1] == node_slot(
                        level - 1,
                        2 * pos as int + 1,
                    ));
                }
                push_slot(
                    &mut slots,
                    SweepSpineSlotRole::CompressPermA { level: l8, pos: p8 },
                    ivs.compress,
                    left,
                    right,
                );
                let last: usize = push_slot(
                    &mut slots,
                    SweepSpineSlotRole::CompressPermB { level: l8, pos: p8 },
                    ivs.compress,
                    left,
                    right,
                );
                next.push(Some(last));
                pos += 1;
            }
            current = next;
            width = width / 2;
            level += 1;
        }
        let root = current[0];
        push_slot(&mut slots, SweepSpineSlotRole::WrapPerm, ivs.txbody, root, None);
        SweepSpineCircuit { slots }
    }

    /// The index of the wrapping permutation.
    pub fn wrap_id(&self) -> (r: usize)
        requires
            self.slots.len() > 0,
        ensures
            r == self.slots.len() - 1,
    {
        self.slots.len() - 1
    }
}

/// The leaf of an input.
pub fn sweep_input_tree_leaf(leaf_slot: usize) -> (r: usize)
    requires
        leaf_slot <= usize::MAX - 3,
    ensures
        r == SWEEP_TREE_LEAF_INPUT_BASE + leaf_slot,
{
    SWEEP_TREE_LEAF_INPUT_BASE + leaf_slot
}

/// The leaf of an output.
pub fn sweep_output_tree_leaf(leaf_slot: usize) -> (r: usize)
    requires
        leaf_slot <= usize::MAX - 28,
    ensures
        r == SWEEP_TREE_LEAF_OUTPUT_BASE + leaf_slot,
{
    SWEEP_TREE_LEAF_OUTPUT_BASE + leaf_slot
}

/// In the circuit, the permutations that start no sponge follow their
/// predecessor, and the last one wraps the root with its own capacity.
pub proof fn lemma_sweep_circuit<F: TowerField>(circuit: SweepSpineCircuit<F>, ivs: SpineIvs<F>, k: int)
    requires
        circuit.of(ivs),
        0 <= k < N_SWEEP_SPINE_SLOTS,
    ensures
        circuit.slots[k].id == k,
        circuit.slots[k].is_head == (circuit.slots[k].prev_output_src is None),
        !circuit.slots[k].is_head ==> circuit.slots[k].prev_output_src == Some((k - 1) as usize),
        circuit.slots[141].role is WrapPerm,
        circuit.slots[141].capacity_iv == ivs.txbody,
{
    assert(circuit.slots[k] == sweep_slot(ivs, k));
    assert(circuit.slots[141] == sweep_slot(ivs, 141));
}

} // verus!
