//! The trace of a statement determines the statement.
//!
//! Whatever a statement holds is absorbed by one of the permutations of its
//! trace. So statements with the same inputs of all permutations are the same:
//! nothing is left out of a hash, and nothing is cut.
use vstd::prelude::*;
use crate::auth_circuit::AuthIvs;
use crate::auth_killshot::auth_state_ins;
use crate::auth_oracle::auth_input;
use crate::chain_accumulator_killshot::{ChainAccumulatorBatchInputs, chain_ins, chain_input};
use crate::circuit::SpineInputs;
use crate::circuit_sweep::{SpineIvs, SweepSlotDescriptor, SweepSpineInputs, SweepSpineSlotRole, sweep_slot};
use crate::field::{TowerField, lemma_add_cancel};
use crate::guard_bucket_killshot::{BatchedGuardBucketProofKillShot, GuardBucketUpdateInputs, GuardDomain, slots_block_views, slots_chain_len, slots_field, update_verdict};
use crate::layers::{PermParams, permuted};
use crate::merkle_circuit::MerklePathInputs;
use crate::merkle_killshot::path_state_ins;
use crate::merkle_oracle::path_input;
use crate::oracle::{SpineBoundary, child_digest, second_pair, slot_input, slot_outputs};
use crate::owner_auth::owner_input;
use crate::spine_killshot::body_state_ins;
use crate::sponge::{chained, head};
use crate::sponge_chain::{chain_digest, chain_state};
use crate::transcript::FiatShamir;

verus! {

/// The state that absorbs a first block determines the block and the capacity.
pub proof fn lemma_head_injective<F: TowerField>(a: Seq<F>, b: Seq<F>, x: Seq<F>, y: Seq<F>)
    requires
        a.len() == 2,
        b.len() == 2,
        x.len() == 2,
        y.len() == 2,
        head(a, x) == head(b, y),
    ensures
        a == b,
        x == y,
{
    let (s, t) = (head(a, x), head(b, y));
    assert(s[0] == t[0] && s[1] == t[1] && s[2] == t[2] && s[3] == t[3]);
    assert(a =~= b);
    assert(x =~= y);
}

/// The state that absorbs a further block determines the block, given the state
/// before it, and keeps the capacity.
pub proof fn lemma_chained_injective<F: TowerField>(out: Seq<F>, a: Seq<F>, b: Seq<F>)
    requires
        a.len() == 2,
        b.len() == 2,
        chained(out, a) == chained(out, b),
    ensures
        a == b,
        chained(out, a)[2] == out[2],
        chained(out, a)[3] == out[3],
{
    let (s, t) = (chained(out, a), chained(out, b));
    assert(s[0] == t[0] && s[1] == t[1]);
    lemma_add_cancel(out[0], a[0]);
    lemma_add_cancel(out[0], b[0]);
    lemma_add_cancel(out[1], a[1]);
    lemma_add_cancel(out[1], b[1]);
    assert(a =~= b);
}

/// Paths with the same trace have the same leaf and the same siblings.
pub proof fn lemma_path_trace<F: TowerField>(
    params: PermParams<F>,
    iv: Seq<F>,
    a: MerklePathInputs<F>,
    b: MerklePathInputs<F>,
)
    requires
        iv.len() == 2,
        0 < a.active_depth <= 16,
        path_state_ins(params, iv, a) == path_state_ins(params, iv, b),
    ensures
        a.active_depth == b.active_depth,
        a.leaf@ == b.leaf@,
        forall|i: int|
            0 <= i < a.active_depth ==> (#[trigger] a.siblings[i])@ == b.siblings[i]@,
{
    let (x, y) = (path_state_ins(params, iv, a), path_state_ins(params, iv, b));
    assert(x.len() == y.len());
    assert(x[0] == path_input(params, iv, a, 0) && y[0] == path_input(params, iv, b, 0));
    lemma_head_injective(a.leaf@, b.leaf@, iv, iv);
    assert forall|i: int| 0 <= i < a.active_depth implies (#[trigger] a.siblings[i])@
        == b.siblings[i]@ by {
        let k = 2 * i + 1;
        assert(k / 2 == i && k % 2 == 1);
        assert((2 * i) / 2 == i && (2 * i) % 2 == 0);
        assert(x[2 * i] == path_input(params, iv, a, 2 * i));
        assert(y[2 * i] == path_input(params, iv, b, 2 * i));
        assert(x[k] == path_input(params, iv, a, k) && y[k] == path_input(params, iv, b, k));
        lemma_chained_injective(permuted(params, x[2 * i]), a.siblings[i]@, b.siblings[i]@);
    }
}

/// Authorizations with the same trace have the same secrets and the same body
/// hash.
pub proof fn lemma_auth_trace<F: TowerField>(
    params: PermParams<F>,
    ivs: AuthIvs<F>,
    a: Seq<[F; 2]>,
    b: Seq<[F; 2]>,
    x: Seq<F>,
    y: Seq<F>,
)
    requires
        x.len() == 2,
        y.len() == 2,
        a.len() > 0,
        auth_state_ins(params, ivs, a, x) == auth_state_ins(params, ivs, b, y),
    ensures
        a.len() == b.len(),
        x == y,
        forall|i: int| 0 <= i < a.len() ==> (#[trigger] a[i])@ == b[i]@,
{
    let (s, t) = (auth_state_ins(params, ivs, a, x), auth_state_ins(params, ivs, b, y));
    assert(s.len() == t.len());
    assert forall|i: int| 0 <= i < a.len() implies (#[trigger] a[i])@ == b[i]@ by {
        let k = 5 * i;
        assert(k / 5 == i && k % 5 == 0);
        assert(s[k] == auth_input(params, ivs, a, x, k) && t[k] == auth_input(params, ivs, b, y, k));
        lemma_head_injective(a[i]@, b[i]@, ivs.address@, ivs.address@);
    }
    assert(s[2] == auth_input(params, ivs, a, x, 2) && t[2] == auth_input(params, ivs, b, y, 2));
    assert(s[3] == auth_input(params, ivs, a, x, 3) && t[3] == auth_input(params, ivs, b, y, 3));
    assert(a[0]@ == b[0]@);
    lemma_chained_injective(permuted(params, s[2]), x, y);
}

/// The input of the owner's permutation determines the secret.
pub proof fn lemma_owner_trace<F: TowerField>(iv: Seq<F>, a: Seq<F>, b: Seq<F>)
    requires
        iv.len() == 2,
        a.len() == 2,
        b.len() == 2,
        owner_input(iv, a) == owner_input(iv, b),
    ensures
        a == b,
{
    lemma_head_injective(a, b, iv, iv);
}

/// Accumulators with the same trace have the same start and the same items.
pub proof fn lemma_chain_trace<F: TowerField>(
    params: PermParams<F>,
    iv: Seq<F>,
    a: ChainAccumulatorBatchInputs<F>,
    b: ChainAccumulatorBatchInputs<F>,
    padded: nat,
)
    requires
        iv.len() == 2,
        0 < a.items.len() <= padded,
        a.items.len() == b.items.len(),
        chain_ins(params, iv, a, padded) == chain_ins(params, iv, b, padded),
    ensures
        a.start_chain_hash@ == b.start_chain_hash@,
        forall|i: int|
            0 <= i < a.items.len() ==> (#[trigger] a.items@[i]).block_id@ == b.items@[i].block_id@
                && a.items@[i].chain_claim@ == b.items@[i].chain_claim@,
{
    let (x, y) = (chain_ins(params, iv, a, padded), chain_ins(params, iv, b, padded));
    let (s, t) = (a.start_chain_hash@, b.start_chain_hash@);
    assert(x[2] == chain_input(params, iv, s, a.items@, 2));
    assert(y[2] == chain_input(params, iv, t, b.items@, 2));
    lemma_head_injective(s, t, iv, iv);
    assert forall|i: int| 0 <= i < a.items.len() implies (#[trigger] a.items@[i]).block_id@
        == b.items@[i].block_id@ && a.items@[i].chain_claim@ == b.items@[i].chain_claim@ by {
        let k = 4 * i;
        assert(k / 4 == i && k % 4 == 0 && (k + 1) / 4 == i && (k + 1) % 4 == 1);
        assert(x[k] == chain_input(params, iv, s, a.items@, k));
        assert(y[k] == chain_input(params, iv, t, b.items@, k));
        assert(x[k + 1] == chain_input(params, iv, s, a.items@, k + 1));
        assert(y[k + 1] == chain_input(params, iv, t, b.items@, k + 1));
        lemma_head_injective(a.items@[i].block_id@, b.items@[i].block_id@, iv, iv);
        lemma_chained_injective(
            permuted(params, x[k]),
            a.items@[i].chain_claim@,
            b.items@[i].chain_claim@,
        );
    }
}

/// The blocks of a list determine the list, whatever the capacity.
pub proof fn lemma_slots_blocks_injective<F: TowerField>(
    a: Seq<u32>,
    b: Seq<u32>,
    padded: nat,
)
    requires
        a.len() <= padded,
        b.len() <= padded,
        padded <= usize::MAX,
        slots_block_views::<F>(a, padded) == slots_block_views::<F>(b, padded),
    ensures
        a == b,
{
    let (x, y) = (slots_block_views::<F>(a, padded), slots_block_views::<F>(b, padded));
    assert forall|q: int| 0 <= q <= padded implies #[trigger] slots_field::<F>(a, q)
        == slots_field::<F>(b, q) by {
        let p = q / 2;
        assert(0 <= p < slots_chain_len(padded));
        assert(x[p] == y[p]);
        assert(x[p][q % 2] == y[p][q % 2]);
        assert(x[p][0] == slots_field::<F>(a, 2 * p) && x[p][1] == slots_field::<F>(a, 2 * p + 1));
        assert(y[p][0] == slots_field::<F>(b, 2 * p) && y[p][1] == slots_field::<F>(b, 2 * p + 1));
    }
    assert(slots_field::<F>(a, 0) == slots_field::<F>(b, 0));
    F::bits_of_u128(a.len() as u128);
    F::bits_of_u128(b.len() as u128);
    assert forall|i: int| 0 <= i < a.len() implies a[i] == b[i] by {
        assert(slots_field::<F>(a, i + 1) == slots_field::<F>(b, i + 1));
        F::bits_of_u128(a[i] as u128);
        F::bits_of_u128(b[i] as u128);
    }
    assert(a =~= b);
}

proof fn lemma_slots_state<F: TowerField>(
    params: PermParams<F>,
    iv: Seq<F>,
    spent: Seq<u32>,
    small: nat,
    large: nat,
    p: nat,
)
    requires
        p < slots_chain_len(small),
        p < slots_chain_len(large),
    ensures
        chain_state(params, iv, slots_block_views::<F>(spent, small), p) == chain_state(
            params,
            iv,
            slots_block_views::<F>(spent, large),
            p,
        ),
    decreases p,
{
    let (x, y) = (slots_block_views::<F>(spent, small), slots_block_views::<F>(spent, large));
    assert(x[p as int] == y[p as int]);
    if p > 0 {
        lemma_slots_state(params, iv, spent, small, large, (p - 1) as nat);
    }
}

/// The digest of a list does not depend on the capacity that it is laid out over.
pub proof fn lemma_slots_digest<F: TowerField>(
    params: PermParams<F>,
    iv: Seq<F>,
    spent: Seq<u32>,
    small: nat,
    large: nat,
)
    requires
        spent.len() <= small,
        spent.len() <= large,
    ensures
        chain_digest(
            params,
            iv,
            slots_block_views::<F>(spent, small),
            slots_chain_len(spent.len()),
        ) == chain_digest(
            params,
            iv,
            slots_block_views::<F>(spent, large),
            slots_chain_len(spent.len()),
        ),
{
    lemma_slots_state(
        params,
        iv,
        spent,
        small,
        large,
        (slots_chain_len(spent.len()) - 1) as nat,
    );
}

/// The permutations of a list suffice for its length, its slots and the padding,
/// and the last of them absorbs the end of the padding.
pub proof fn lemma_slots_padded<F: TowerField>(spent: Seq<u32>)
    ensures
        ({
            let len = spent.len() as int;
            let last = 2 * (slots_chain_len(spent.len()) - 1);
            &&& len + 1 <= 2 * slots_chain_len(spent.len()) - 1
            &&& slots_field::<F>(spent, len + 1).bits() & 0xFF == 0x80
            &&& slots_field::<F>(spent, last + 1).bits() >> 120 == 0x01
            &&& forall|q: int| q > last + 1 ==> #[trigger] slots_field::<F>(spent, q) == F::zero()
        }),
{
    F::bits_of_u128(0x80);
    F::bits_of_u128(0x0100_0000_0000_0000_0000_0000_0000_0080);
    F::bits_of_u128(0x0100_0000_0000_0000_0000_0000_0000_0000);
    assert(0x80u128 & 0xFF == 0x80) by (bit_vector);
    assert(0x0100_0000_0000_0000_0000_0000_0000_0080u128 & 0xFF == 0x80) by (bit_vector);
    assert(0x0100_0000_0000_0000_0000_0000_0000_0080u128 >> 120 == 1) by (bit_vector);
    assert(0x0100_0000_0000_0000_0000_0000_0000_0000u128 >> 120 == 1) by (bit_vector);
}

/// An update is accepted only in canonical form: the new leaf is occupied, an old
/// leaf that is not has no height and no list, and the list is not empty, fits the
/// capacity, and rises from every slot to every later one.
pub proof fn lemma_accepted_canonical<F: TowerField, T: FiatShamir<F>>(
    params: PermParams<F>,
    domain: GuardDomain<F>,
    inputs: GuardBucketUpdateInputs<F>,
    proof: BatchedGuardBucketProofKillShot<F>,
    channel: T,
)
    requires
        update_verdict(params, domain, inputs, proof, channel).point is Some,
    ensures
        inputs.new_leaf.occupied,
        !inputs.old_leaf.occupied ==> inputs.old_leaf.absolute_height == 0
            && inputs.old_leaf.slots_digest[0] == F::zero() && inputs.old_leaf.slots_digest[1]
            == F::zero(),
        0 < inputs.spent_slots.len() <= inputs.padded_spent_len,
        proof.padded_spent_len == inputs.padded_spent_len,
        forall|i: int, j: int|
            0 <= i < j < inputs.spent_slots.len() ==> inputs.spent_slots@[i]
                < inputs.spent_slots@[j],
{
    let spent = inputs.spent_slots@;
    assert(!inputs.old_leaf.occupied ==> inputs.old_leaf.slots_digest@[0] == F::zero()
        && inputs.old_leaf.slots_digest@[1] == F::zero());
    assert forall|i: int, j: int| 0 <= i < j < spent.len() implies spent[i] < spent[j] by {
        lemma_rises(spent, i, j);
    }
}

proof fn lemma_rises(spent: Seq<u32>, i: int, j: int)
    requires
        crate::guard_bucket_killshot::rising(spent),
        0 <= i < j < spent.len(),
    ensures
        spent[i] < spent[j],
    decreases j - i,
{
    assert(spent[j - 1] < spent[(j - 1) + 1]);
    if i < j - 1 {
        lemma_rises(spent, i, j - 1);
    }
}

/// What a permutation of a body absorbs is told by its input: given the outputs
/// before it, bodies that give it the same input agree in what it absorbs.
pub proof fn lemma_slot_absorbs<F: TowerField, B: SpineBoundary<F>>(
    slot: SweepSlotDescriptor<F>,
    a: B,
    b: B,
    outs: Seq<Seq<F>>,
)
    requires
        slot_input(slot, a, outs) == slot_input(slot, b, outs),
    ensures
        match slot.role {
            SweepSpineSlotRole::InputLeafPermA { leaf_idx } => {
                let (x, y) = (
                    a.input_payloads()[leaf_idx as int],
                    b.input_payloads()[leaf_idx as int],
                );
                x[0] == y[0] && x[1] == y[1]
            },
            SweepSpineSlotRole::InputLeafPermB { leaf_idx } => {
                let (x, y) = (
                    a.input_payloads()[leaf_idx as int],
                    b.input_payloads()[leaf_idx as int],
                );
                x[2] == y[2] && x[3] == y[3]
            },
            SweepSpineSlotRole::OutputLeafPermA { leaf_idx } => {
                let (x, y) = (
                    a.output_payloads()[leaf_idx as int],
                    b.output_payloads()[leaf_idx as int],
                );
                x[0] == y[0] && x[1] == y[1]
            },
            SweepSpineSlotRole::OutputLeafPermB { leaf_idx } => {
                let (x, y) = (
                    a.output_payloads()[leaf_idx as int],
                    b.output_payloads()[leaf_idx as int],
                );
                x[2] == y[2] && x[3] == y[3]
            },
            SweepSpineSlotRole::CompressPermA { level, pos } => slot.left_child is None ==> {
                let (x, y) = (a.outside(pos as int, true)->0, b.outside(pos as int, true)->0);
                x[0] == y[0] && x[1] == y[1]
            },
            SweepSpineSlotRole::CompressPermB { level, pos } => slot.right_child is None ==> {
                let (x, y) = (a.outside(pos as int, false)->0, b.outside(pos as int, false)->0);
                x[0] == y[0] && x[1] == y[1]
            },
            _ => true,
        },
{
    let (s, t) = (slot_input(slot, a, outs), slot_input(slot, b, outs));
    assert(s[0] == t[0] && s[1] == t[1]);
    let prev = outs[slot.prev_output_src->0 as int];
    match slot.role {
        SweepSpineSlotRole::InputLeafPermB { leaf_idx } => {
            let (x, y) = (
                second_pair(a.input_payloads()[leaf_idx as int]),
                second_pair(b.input_payloads()[leaf_idx as int]),
            );
            lemma_chained_injective(prev, x, y);
            assert(x[0] == y[0] && x[1] == y[1]);
        },
        SweepSpineSlotRole::OutputLeafPermB { leaf_idx } => {
            let (x, y) = (
                second_pair(a.output_payloads()[leaf_idx as int]),
                second_pair(b.output_payloads()[leaf_idx as int]),
            );
            lemma_chained_injective(prev, x, y);
            assert(x[0] == y[0] && x[1] == y[1]);
        },
        SweepSpineSlotRole::CompressPermB { level, pos } => {
            let (x, y) = (
                child_digest(slot.right_child, a, outs, pos as int, false),
                child_digest(slot.right_child, b, outs, pos as int, false),
            );
            lemma_add_cancel(prev[0], x[0]);
            lemma_add_cancel(prev[0], y[0]);
            lemma_add_cancel(prev[1], x[1]);
            lemma_add_cancel(prev[1], y[1]);
        },
        _ => {},
    }
}

/// The leaves of a body that are given as digests stand below the first and the
/// last node of the first level.
pub proof fn lemma_body_outside<F: TowerField>(a: SpineInputs<F>, b: SpineInputs<F>)
    requires
        forall|pos: int, left: bool| #[trigger] a.outside(pos, left) == b.outside(pos, left),
        a.input_payloads() == b.input_payloads(),
        a.output_payloads() == b.output_payloads(),
    ensures
        a.epoch_anchor@ == b.epoch_anchor@,
        a.fee_leaf@ == b.fee_leaf@,
        a.is_coinbase_leaf@ == b.is_coinbase_leaf@,
        a.pad_leaf@ == b.pad_leaf@,
        forall|i: int| 0 <= i < 4 ==> (#[trigger] a.input_leaves[i])@ == b.input_leaves[i]@,
        forall|i: int| 0 <= i < 8 ==> (#[trigger] a.output_leaves[i])@ == b.output_leaves[i]@,
{
    assert(a.outside(0, true) == b.outside(0, true));
    assert(a.outside(0, false) == b.outside(0, false));
    assert(a.outside(7, true) == b.outside(7, true));
    assert(a.outside(7, false) == b.outside(7, false));
    assert forall|i: int| 0 <= i < 4 implies (#[trigger] a.input_leaves[i])@
        == b.input_leaves[i]@ by {
        assert(a.input_payloads()[i] == b.input_payloads()[i]);
    }
    assert forall|i: int| 0 <= i < 8 implies (#[trigger] a.output_leaves[i])@
        == b.output_leaves[i]@ by {
        assert(a.output_payloads()[i] == b.output_payloads()[i]);
    }
}

/// Executions with the same inputs have the same outputs.
proof fn lemma_same_outputs<F: TowerField, B: SpineBoundary<F>>(
    params: PermParams<F>,
    slots: Seq<SweepSlotDescriptor<F>>,
    a: B,
    b: B,
    k: nat,
)
    requires
        k <= slots.len(),
        body_state_ins(params, slots, a) == body_state_ins(params, slots, b),
    ensures
        slot_outputs(params, slots, a, k) == slot_outputs(params, slots, b, k),
    decreases k,
{
    if k > 0 {
        lemma_same_outputs(params, slots, a, b, (k - 1) as nat);
        let (x, y) = (body_state_ins(params, slots, a), body_state_ins(params, slots, b));
        assert(x[k - 1] == y[k - 1]);
    }
}

/// Bodies with the same trace agree in what every permutation absorbs.
pub proof fn lemma_body_trace<F: TowerField, B: SpineBoundary<F>>(
    params: PermParams<F>,
    slots: Seq<SweepSlotDescriptor<F>>,
    a: B,
    b: B,
    k: int,
)
    requires
        0 <= k < slots.len(),
        body_state_ins(params, slots, a) == body_state_ins(params, slots, b),
    ensures
        ({
            let outs = slot_outputs(params, slots, a, k as nat);
            &&& outs == slot_outputs(params, slots, b, k as nat)
            &&& slot_input(slots[k], a, outs) == slot_input(slots[k], b, outs)
        }),
{
    lemma_same_outputs(params, slots, a, b, k as nat);
    let (x, y) = (body_state_ins(params, slots, a), body_state_ins(params, slots, b));
    assert(x[k] == y[k]);
}

/// What two bodies agree in where a permutation of the sweep circuit absorbs the
/// same.
proof fn lemma_sweep_slot_absorbs<F: TowerField>(
    params: PermParams<F>,
    ivs: SpineIvs<F>,
    a: SweepSpineInputs<F>,
    b: SweepSpineInputs<F>,
    k: int,
)
    requires
        0 <= k < 142,
        ({
            let slots = Seq::new(142, |j: int| sweep_slot(ivs, j));
            body_state_ins(params, slots, a) == body_state_ins(params, slots, b)
        }),
    ensures
        k < 75 && k % 3 == 0 ==> a.input_leaves[k / 3][0] == b.input_leaves[k / 3][0]
            && a.input_leaves[k / 3][1] == b.input_leaves[k / 3][1],
        k < 75 && k % 3 == 1 ==> a.input_leaves[k / 3][2] == b.input_leaves[k / 3][2]
            && a.input_leaves[k / 3][3] == b.input_leaves[k / 3][3],
        75 <= k < 79 && k % 2 == 1 ==> a.output_leaves[(k - 75) / 2][0]
            == b.output_leaves[(k - 75) / 2][0] && a.output_leaves[(k - 75) / 2][1]
            == b.output_leaves[(k - 75) / 2][1],
        75 <= k < 79 && k % 2 == 0 ==> a.output_leaves[(k - 75) / 2][2]
            == b.output_leaves[(k - 75) / 2][2] && a.output_leaves[(k - 75) / 2][3]
            == b.output_leaves[(k - 75) / 2][3],
        k == 79 ==> a.epoch_anchor@ == b.epoch_anchor@,
        k == 80 ==> a.fee_leaf@ == b.fee_leaf@,
        k == 81 ==> a.shape_leaf@ == b.shape_leaf@,
        k == 109 ==> a.is_coinbase_leaf@ == b.is_coinbase_leaf@,
        k == 110 ==> a.pad_leaf@ == b.pad_leaf@,
{
    let slots = Seq::new(142, |j: int| sweep_slot(ivs, j));
    let outs = slot_outputs(params, slots, a, k as nat);
    lemma_body_trace(params, slots, a, b, k);
    lemma_slot_absorbs(slots[k], a, b, outs);
    if k < 75 {
        let (x, y) = (a.input_payloads()[k / 3], b.input_payloads()[k / 3]);
        assert(x == a.input_leaves[k / 3]@ && y == b.input_leaves[k / 3]@);
    } else if k < 79 {
        let j = (k - 75) / 2;
        let (x, y) = (a.output_payloads()[j], b.output_payloads()[j]);
        assert(x == a.output_leaves[j]@ && y == b.output_leaves[j]@);
    } else if k == 79 {
        assert(a.epoch_anchor@ =~= b.epoch_anchor@);
    } else if k == 80 {
        assert(a.fee_leaf@ =~= b.fee_leaf@);
    } else if k == 81 {
        assert(a.shape_leaf@ =~= b.shape_leaf@);
    } else if k == 109 {
        assert(a.is_coinbase_leaf@ =~= b.is_coinbase_leaf@);
    } else if k == 110 {
        assert(a.pad_leaf@ =~= b.pad_leaf@);
    }
}

/// Sweep bodies with the same trace are the same.
pub proof fn lemma_sweep_trace<F: TowerField>(
    params: PermParams<F>,
    ivs: SpineIvs<F>,
    a: SweepSpineInputs<F>,
    b: SweepSpineInputs<F>,
)
    requires
        ({
            let slots = Seq::new(142, |j: int| sweep_slot(ivs, j));
            body_state_ins(params, slots, a) == body_state_ins(params, slots, b)
        }),
    ensures
        a.epoch_anchor@ == b.epoch_anchor@,
        a.fee_leaf@ == b.fee_leaf@,
        a.shape_leaf@ == b.shape_leaf@,
        forall|i: int| 0 <= i < 25 ==> (#[trigger] a.input_leaves[i])@ == b.input_leaves[i]@,
        forall|i: int| 0 <= i < 2 ==> (#[trigger] a.output_leaves[i])@ == b.output_leaves[i]@,
        a.is_coinbase_leaf@ == b.is_coinbase_leaf@,
        a.pad_leaf@ == b.pad_leaf@,
{
    lemma_sweep_slot_absorbs(params, ivs, a, b, 79);
    lemma_sweep_slot_absorbs(params, ivs, a, b, 80);
    lemma_sweep_slot_absorbs(params, ivs, a, b, 81);
    lemma_sweep_slot_absorbs(params, ivs, a, b, 109);
    lemma_sweep_slot_absorbs(params, ivs, a, b, 110);
    assert forall|i: int| 0 <= i < 25 implies (#[trigger] a.input_leaves[i])@
        == b.input_leaves[i]@ by {
        assert((3 * i) / 3 == i && (3 * i) % 3 == 0);
        assert((3 * i + 1) / 3 == i && (3 * i + 1) % 3 == 1);
        lemma_sweep_slot_absorbs(params, ivs, a, b, 3 * i);
        lemma_sweep_slot_absorbs(params, ivs, a, b, 3 * i + 1);
        assert(a.input_leaves[i]@ =~= b.input_leaves[i]@);
    }
    assert forall|i: int| 0 <= i < 2 implies (#[trigger] a.output_leaves[i])@
        == b.output_leaves[i]@ by {
        let k = 75 + 2 * i;
        assert(k % 2 == 1 && (k - 75) / 2 == i && (k + 1) % 2 == 0 && (k + 1 - 75) / 2 == i);
        lemma_sweep_slot_absorbs(params, ivs, a, b, k);
        lemma_sweep_slot_absorbs(params, ivs, a, b, k + 1);
        assert(a.output_leaves[i]@ =~= b.output_leaves[i]@);
    }
}

} // verus!
