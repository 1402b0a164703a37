//! The execution of a Merkle path, permutation by permutation.
use vstd::prelude::*;
use crate::field::TowerField;
use crate::layers::{PermParams, permuted};
use crate::merkle_circuit::{MAX_MERKLE_DEPTH, MerkleCircuit, MerklePathInputs, MerkleSlotDescriptor, MerkleSlotRole, N_MERKLE_SLOTS, merkle_slot};
use crate::sponge::{SlotState, chained, chained_state, digest, hash2, head, head_state};

verus! {

/// The states of one permutation.
pub type MerkleSlotState<F> = SlotState<F>;

/// The states of a path, and its root.
#[derive(Clone, Debug, PartialEq, Eq)]
pub struct MerkleWitness<F> {
    pub slots: Vec<MerkleSlotState<F>>,
    pub derived_root: [F; 2],
}

/// The node after `k` levels of a path.
pub open spec fn path_node<F: TowerField>(
    params: PermParams<F>,
    iv: Seq<F>,
    leaf: Seq<F>,
    siblings: Seq<[F; 2]>,
    k: nat,
) -> Seq<F>
    decreases k,
{
    if k == 0 {
        leaf
    } else {
        hash2(
            params,
            iv,
            path_node(params, iv, leaf, siblings, (k - 1) as nat),
            siblings[k - 1]@,
        )
    }
}

/// The input of the permutation with the given index.
pub open spec fn path_input<F: TowerField>(
    params: PermParams<F>,
    iv: Seq<F>,
    inputs: MerklePathInputs<F>,
    k: int,
) -> Seq<F> {
    let node = path_node(params, iv, inputs.leaf@, inputs.siblings@, (k / 2) as nat);
    let first = head(node, iv);
    if k % 2 == 0 {
        first
    } else {
        chained(permuted(params, first), inputs.siblings[k / 2]@)
    }
}

/// The root that a path derives: the node after its levels, so for a path
/// without levels the leaf.
pub open spec fn path_root<F: TowerField>(
    params: PermParams<F>,
    iv: Seq<F>,
    inputs: MerklePathInputs<F>,
) -> Seq<F> {
    path_node(params, iv, inputs.leaf@, inputs.siblings@, inputs.active_depth as nat)
}

impl<F: TowerField> MerkleWitness<F> {
    /// The witness of a path.
    pub open spec fn of(&self, params: PermParams<F>, iv: Seq<F>, inputs: MerklePathInputs<F>) -> bool {
        &&& self.slots.len() == N_MERKLE_SLOTS
        &&& forall|k: int|
            0 <= k < N_MERKLE_SLOTS ==> (#[trigger] self.slots[k]).of(
                params,
                path_input(params, iv, inputs, k),
            )
        &&& self.derived_root@ == path_root(params, iv, inputs)
    }
}

/// The output of the second permutation of a level is the node above it.
proof fn lemma_level_digest<F: TowerField>(
    params: PermParams<F>,
    iv: Seq<F>,
    inputs: MerklePathInputs<F>,
    level: int,
)
    requires
        0 <= level < 16,
    ensures
        digest(permuted(params, path_input(params, iv, inputs, 2 * level + 1))) == path_node(
            params,
            iv,
            inputs.leaf@,
            inputs.siblings@,
            (level + 1) as nat,
        ),
{
    let k = 2 * level + 1;
    assert(k / 2 == level && k % 2 == 1);
    assert(inputs.siblings@[level] == inputs.siblings[level]);
}

/// The input of a permutation.
fn build_state_in<F: TowerField>(
    slot: &MerkleSlotDescriptor<F>,
    inputs: &MerklePathInputs<F>,
    prev: &Vec<MerkleSlotState<F>>,
    Ghost(params): Ghost<PermParams<F>>,
) -> (r: [F; 4])
    requires
        prev.len() < N_MERKLE_SLOTS,
        *slot == merkle_slot(slot.capacity_iv, prev.len() as int),
        forall|k: int|
            0 <= k < prev.len() ==> (#[trigger] prev[k]).of(
                params,
                path_input(params, slot.capacity_iv@, *inputs, k),
            ),
    ensures
        r@ == path_input(params, slot.capacity_iv@, *inputs, prev.len() as int),
{
    let iv = slot.capacity_iv;
    let ghost k = prev.len() as int;
    match slot.role {
        MerkleSlotRole::PermA { level } => match slot.prev_output_src {
            None => head_state(&inputs.leaf, &iv),
            Some(src) => {
                proof {
                    assert(prev[src as int].of(
                        params,
                        path_input(params, slot.capacity_iv@, *inputs, src as int),
                    ));
                    lemma_level_digest(params, slot.capacity_iv@, *inputs, k / 2 - 1);
                    assert(src == 2 * (k / 2 - 1) + 1);
                }
                head_state(&prev[src].digest(), &iv)
            },
        },
        MerkleSlotRole::PermB { level } => match slot.prev_output_src {
            Some(src) => {
                proof {
                    assert(prev[src as int].of(
                        params,
                        path_input(params, slot.capacity_iv@, *inputs, src as int),
                    ));
                    assert(src as int / 2 == k / 2 && src % 2 == 0);
                }
                chained_state(&prev[src].state_out, &inputs.siblings[level as usize])
            },
            None => head_state(&inputs.leaf, &iv),
        },
    }
}

/// Runs the permutations of a path.
pub fn evaluate_merkle<F: TowerField>(
    params: &PermParams<F>,
    iv: [F; 2],
    circuit: &MerkleCircuit<F>,
    inputs: &MerklePathInputs<F>,
) -> (w: MerkleWitness<F>)
    requires
        circuit.of(iv),
        inputs.active_depth <= MAX_MERKLE_DEPTH,
    ensures
        w.of(*params, iv@, *inputs),
{
    let mut slots: Vec<MerkleSlotState<F>> = Vec::new();
    let mut k: usize = 0;
    while k < N_MERKLE_SLOTS
        invariant
            k <= 32,
            circuit.of(iv),
            slots.len() == k,
            forall|j: int|
                0 <= j < k ==> (#[trigger] slots[j]).of(
                    *params,
                    path_input(*params, iv@, *inputs, j),
                ),
        decreases 32 - k,
    {
        proof {
            assert(circuit.slots[k as int] == merkle_slot(iv, k as int));
        }
        let state_in = build_state_in(&circuit.slots[k], inputs, &slots, Ghost(*params));
        slots.push(SlotState::run(params, state_in));
        k += 1;
    }
    let derived_root = if inputs.active_depth > 0 {
        let root_slot: usize = MerkleCircuit::<F>::output_slot(inputs.active_depth - 1);
        proof {
            assert(slots[root_slot as int].of(
                *params,
                path_input(*params, iv@, *inputs, root_slot as int),
            ));
            lemma_level_digest(*params, iv@, *inputs, inputs.active_depth - 1);
        }
        slots[root_slot].digest()
    } else {
        inputs.leaf
    };
    MerkleWitness { slots, derived_root }
}

/// The siblings of the first `depth` levels; those that are missing are zero.
pub open spec fn padded_siblings<F: TowerField>(siblings: Seq<[F; 2]>, depth: nat) -> Seq<[F; 2]> {
    Seq::new(
        depth,
        |i: int|
            if i < siblings.len() {
                siblings[i]
            } else {
                [F::zero(), F::zero()]
            },
    )
}

/// A node depends on the siblings of the levels below it alone.
pub proof fn lemma_path_prefix<F: TowerField>(
    params: PermParams<F>,
    iv: Seq<F>,
    leaf: Seq<F>,
    a: Seq<[F; 2]>,
    b: Seq<[F; 2]>,
    k: nat,
)
    requires
        forall|i: int| 0 <= i < k ==> #[trigger] a[i]@ == b[i]@,
    ensures
        path_node(params, iv, leaf, a, k) == path_node(params, iv, leaf, b, k),
    decreases k,
{
    if k > 0 {
        lemma_path_prefix(params, iv, leaf, a, b, (k - 1) as nat);
        assert(a[k - 1]@ == b[k - 1]@);
    }
}

/// The root of a path: the leaf, compressed with the siblings of the active
/// levels in turn; siblings that are missing are zero.
pub fn compute_merkle_root<F: TowerField>(
    params: &PermParams<F>,
    iv: [F; 2],
    circuit: &MerkleCircuit<F>,
    leaf: [F; 2],
    siblings: &[[F; 2]],
    active_depth: usize,
) -> (r: [F; 2])
    requires
        circuit.of(iv),
        active_depth <= MAX_MERKLE_DEPTH,
    ensures
        r@ == path_node(
            *params,
            iv@,
            leaf@,
            padded_siblings(siblings@, active_depth as nat),
            active_depth as nat,
        ),
        active_depth <= siblings.len() ==> r@ == path_node(
            *params,
            iv@,
            leaf@,
            siblings@,
            active_depth as nat,
        ),
{
    let zero = [F::zero_value(), F::zero_value()];
    let mut full: [[F; 2]; 16] = [zero; 16];
    let count: usize = if siblings.len() < active_depth {
        siblings.len()
    } else {
        active_depth
    };
    let mut i: usize = 0;
    while i < count
        invariant
            i <= count <= 16,
            count <= siblings.len(),
            forall|k: int| 0 <= k < i ==> #[trigger] full[k] == siblings[k],
            forall|k: int| i <= k < 16 ==> #[trigger] full[k] == zero,
        decreases count - i,
    {
        full[i] = siblings[i];
        i += 1;
    }
    let inputs = MerklePathInputs { leaf, siblings: full, expected_root: zero, active_depth };
    proof {
        let depth = active_depth as nat;
        let padded = padded_siblings(siblings@, depth);
        assert forall|k: int| 0 <= k < depth implies #[trigger] full@[k]@ == padded[k]@ by {
            assert(full@[k] == full[k]);
            if k >= siblings.len() {
                assert(zero@ =~= padded[k]@);
            }
        }
        lemma_path_prefix(*params, iv@, leaf@, full@, padded, depth);
        if active_depth <= siblings.len() {
            lemma_path_prefix(*params, iv@, leaf@, padded, siblings@, depth);
        }
    }
    let w = evaluate_merkle(params, iv, circuit, &inputs);
    w.derived_root
}

} // verus!
