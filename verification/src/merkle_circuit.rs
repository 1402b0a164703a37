//! The permutations of a Merkle path: two for each of sixteen levels.
use vstd::prelude::*;
use crate::field::TowerField;

verus! {

/// The deepest path.
pub const MAX_MERKLE_DEPTH: usize = 16;

/// The permutations of one compression.
pub const N_PERMS_PER_COMPRESS: usize = 2;

/// The permutations of the deepest path.
pub const N_MERKLE_SLOTS: usize = 32;

/// What a permutation does.
#[derive(Clone, Copy, Debug, PartialEq, Eq, Structural)]
pub enum MerkleSlotRole {
    /// Absorbs the node so far.
    PermA { level: u8 },
    /// Absorbs the sibling; its output is the parent.
    PermB { level: u8 },
}

/// One permutation, and where its input comes from.
#[derive(Clone, Copy, Debug, PartialEq, Eq)]
pub struct MerkleSlotDescriptor<F> {
    pub id: usize,
    pub role: MerkleSlotRole,
    pub capacity_iv: [F; 2],
    pub prev_output_src: Option<usize>,
}

/// A path: the leaf, the siblings, and the root that is expected after the first
/// `active_depth` levels.
#[derive(Clone, Debug, PartialEq, Eq)]
pub struct MerklePathInputs<F> {
    pub leaf: [F; 2],
    pub siblings: [[F; 2]; 16],
    pub expected_root: [F; 2],
    pub active_depth: usize,
}

/// The permutations in order.
#[derive(Clone, Debug, PartialEq, Eq)]
pub struct MerkleCircuit<F> {
    pub slots: Vec<MerkleSlotDescriptor<F>>,
}

/// The permutation with the given index.
pub open spec fn merkle_slot<F>(iv: [F; 2], k: int) -> MerkleSlotDescriptor<F> {
    let level = (k / 2) as u8;
    MerkleSlotDescriptor {
        id: k as usize,
        role: if k % 2 == 0 {
            MerkleSlotRole::PermA { level }
        } else {
            MerkleSlotRole::PermB { level }
        },
        capacity_iv: iv,
        prev_output_src: if k == 0 {
            None
        } else {
            Some((k - 1) as usize)
        },
    }
}

impl<F: TowerField> MerkleCircuit<F> {
    /// The circuit with the given initial capacity.
    pub open spec fn of(&self, iv: [F; 2]) -> bool {
        &&& self.slots.len() == N_MERKLE_SLOTS
        &&& forall|k: int|
            0 <= k < N_MERKLE_SLOTS ==> #[trigger] self.slots[k] == merkle_slot(iv, k)
    }

    /// Builds the circuit.
    pub fn build(iv: [F; 2]) -> (r: Self)
        ensures
            r.of(iv),
    {
        let mut slots: Vec<MerkleSlotDescriptor<F>> = Vec::new();
        let mut k: usize = 0;
        while k < N_MERKLE_SLOTS
            invariant
                k <= 32,
                slots.len() == k,
                forall|j: int| 0 <= j < k ==> #[trigger] slots[j] == merkle_slot(iv, j),
            decreases 32 - k,
        {
            let level: u8 = (k / 2) as u8;
            let role = if k % 2 == 0 {
                MerkleSlotRole::PermA { level }
            } else {
                MerkleSlotRole::PermB { level }
            };
            let prev_output_src = if k == 0 {
                None
            } else {
                Some(k - 1)
            };
            slots.push(MerkleSlotDescriptor { id: k, role, capacity_iv: iv, prev_output_src });
            k += 1;
        }
        MerkleCircuit { slots }
    }

    /// The permutation whose output is the parent at a level.
    pub fn output_slot(level: usize) -> (r: usize)
        requires
            level < MAX_MERKLE_DEPTH,
        ensures
            r == 2 * level + 1,
    {
        level * N_PERMS_PER_COMPRESS + 1
    }

    /// The permutations of a path of the given depth.
    pub fn live_slots(active_depth: usize) -> (r: usize)
        requires
            active_depth <= MAX_MERKLE_DEPTH,
        ensures
            r == 2 * active_depth,
    {
        active_depth * N_PERMS_PER_COMPRESS
    }
}

} // verus!
