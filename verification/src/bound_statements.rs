//! Statements and transcripts.
//!
//! A verifier absorbs its statement before it draws a challenge. On a transcript
//! that keeps what it absorbs, a proof that is refused for its shape leaves
//! transcripts that tell statements apart: nothing of a statement is left out,
//! and no two statements are absorbed alike.
use vstd::prelude::*;
use crate::auth_circuit::{AuthPublicInputs, SweepAuthPublicInputs};
use crate::auth_killshot::{AuthProofKillShot, auth_verdict, boundary_elems, pair_elems};
use crate::auth_killshot_sweep::{SweepAuthProofKillShot, sweep_verdict};
use crate::auth_pcs::{commitment_absorbed, lanes_absorbed};
use crate::batch_eval::{ClaimView, batch_channel, claim_elems, claims_wf};
use crate::block_spine_sweep::{SweepBlockSpineProof, block_verdict, hash_elems};
use crate::chain_accumulator_killshot::{ChainAccumulatorBatchInputs, ChainAccumulatorItem, ChainAccumulatorProofKillShot, ChainDomain, chain_shaped, chain_verdict, item_elems, statement_elems};
use crate::circuit::SpineInputs;
use crate::circuit_sweep::SweepSlotDescriptor;
use crate::column_scheme::ColumnScheme;
use crate::compact_fri::tau_of;
use crate::field::TowerField;
use crate::fri::{CryptographicHasher, FriChannel, FriCode};
use crate::guard_bucket_killshot::{BatchedGuardBucketProofKillShot, GuardBucketUpdateInputs, GuardDomain, GuardLeafHashInputs, flag, leaf_elems, padded_slot, update_elems, update_shaped, update_verdict};
use crate::hashing::{HashOutput, lemma_le_bytes_value, lemma_le_value_bound, lemma_pow256_16, le_value};
use crate::interleaved_commit::{InterleavedCommitment, cap_absorbed};
use crate::layers::PermParams;
use crate::merkle_circuit::MerklePathInputs;
use crate::merkle_killshot::{MerkleProofKillShot, path_elems, path_verdict, sibling_elems};
use crate::mixed_open::{EvalClaim, MixedOpeningProof, claim_error, mixed_verdict, openings_absorbed};
use crate::owner_auth::{OwnerAuthParams, OwnerAuthPublicInputs};
use crate::owner_killshot::{OwnerAuthProofKillShot, owner_elems, owner_verdict};
use crate::spine_killshot::{SpineProofKillShot, body_verdict, inputs_header, lemma_header_injective, lemma_header_len};
use crate::transcript::{FiatShamir, absorb_all, keeps_all, lemma_absorb_injective, lemma_squeeze_injective};
use vstd::arithmetic::power2::pow2;

verus! {

/// Pairs can be told from their elements.
proof fn lemma_sibling_elems<F>(pairs: Seq<[F; 2]>, k: nat)
    ensures
        sibling_elems(pairs, k).len() == 2 * k,
        forall|i: int, j: int|
            0 <= i < k && 0 <= j < 2 ==> sibling_elems(pairs, k)[2 * i + j]
                == #[trigger] pairs[i]@[j],
    decreases k,
{
    if k > 0 {
        lemma_sibling_elems(pairs, (k - 1) as nat);
        let rest = sibling_elems(pairs, (k - 1) as nat);
        assert forall|i: int, j: int| 0 <= i < k && 0 <= j < 2 implies sibling_elems(pairs, k)[2 * i
            + j] == #[trigger] pairs[i]@[j] by {
            if i < k - 1 {
                assert(rest[2 * i + j] == pairs[i]@[j]);
            }
        }
    }
}

/// What a transcript absorbs of a path is the path.
pub proof fn lemma_path_elems_injective<F: TowerField>(
    a: MerklePathInputs<F>,
    b: MerklePathInputs<F>,
)
    requires
        path_elems(a) == path_elems(b),
    ensures
        a.expected_root@ == b.expected_root@,
        a.leaf@ == b.leaf@,
        forall|i: int| 0 <= i < 16 ==> (#[trigger] a.siblings[i])@ == b.siblings[i]@,
        a.active_depth == b.active_depth,
{
    let (x, y) = (path_elems(a), path_elems(b));
    lemma_sibling_elems(a.siblings@, 16);
    lemma_sibling_elems(b.siblings@, 16);
    let (s, t) = (sibling_elems(a.siblings@, 16), sibling_elems(b.siblings@, 16));
    assert(x.subrange(0, 2) =~= a.expected_root@ && y.subrange(0, 2) =~= b.expected_root@);
    assert(x.subrange(2, 4) =~= a.leaf@ && y.subrange(2, 4) =~= b.leaf@);
    assert(x.subrange(4, 36) =~= s && y.subrange(4, 36) =~= t);
    assert(x[36] == y[36]);
    F::bits_of_u128(a.active_depth as u128);
    F::bits_of_u128(b.active_depth as u128);
    assert forall|i: int| 0 <= i < 16 implies (#[trigger] a.siblings[i])@ == b.siblings[i]@ by {
        assert forall|j: int| 0 <= j < 2 implies a.siblings@[i]@[j] == b.siblings@[i]@[j] by {
            assert(s[2 * i + j] == t[2 * i + j]);
        }
        assert(a.siblings[i]@ =~= b.siblings[i]@);
    }
}

/// The whole of a path enters the transcript before the first challenge.
pub proof fn lemma_path_bound<F: TowerField, T: FiatShamir<F>>(
    params: PermParams<F>,
    a: MerklePathInputs<F>,
    b: MerklePathInputs<F>,
    proof: MerkleProofKillShot<F>,
    c: T,
    d: T,
)
    requires
        keeps_all::<F, T>(),
        0 < a.active_depth <= 16,
        0 < b.active_depth <= 16,
        proof.kill_shot.main.round_polys.len() == 0,
        path_verdict(params, a, proof, c).channel == path_verdict(params, b, proof, d).channel,
    ensures
        c == d,
        a.expected_root@ == b.expected_root@,
        a.leaf@ == b.leaf@,
        forall|i: int| 0 <= i < 16 ==> (#[trigger] a.siblings[i])@ == b.siblings[i]@,
        a.active_depth == b.active_depth,
{
    lemma_sibling_elems(a.siblings@, 16);
    lemma_sibling_elems(b.siblings@, 16);
    lemma_absorb_injective(c, d, path_elems(a), path_elems(b));
    lemma_path_elems_injective(a, b);
}

/// Addresses and tags can be told from their elements.
proof fn lemma_pair_elems<F>(addresses: Seq<[F; 2]>, tags: Seq<[F; 2]>, k: nat)
    ensures
        pair_elems(addresses, tags, k).len() == 4 * k,
        forall|i: int, j: int|
            0 <= i < k && 0 <= j < 2 ==> pair_elems(addresses, tags, k)[4 * i + j]
                == #[trigger] addresses[i]@[j],
        forall|i: int, j: int|
            0 <= i < k && 0 <= j < 2 ==> pair_elems(addresses, tags, k)[4 * i + 2 + j]
                == #[trigger] tags[i]@[j],
    decreases k,
{
    if k > 0 {
        lemma_pair_elems(addresses, tags, (k - 1) as nat);
        let rest = pair_elems(addresses, tags, (k - 1) as nat);
        let all = pair_elems(addresses, tags, k);
        assert forall|i: int, j: int| 0 <= i < k && 0 <= j < 2 implies all[4 * i + j]
            == #[trigger] addresses[i]@[j] by {
            if i < k - 1 {
                assert(rest[4 * i + j] == addresses[i]@[j]);
            }
        }
        assert forall|i: int, j: int| 0 <= i < k && 0 <= j < 2 implies all[4 * i + 2 + j]
            == #[trigger] tags[i]@[j] by {
            if i < k - 1 {
                assert(rest[4 * i + 2 + j] == tags[i]@[j]);
            }
        }
    }
}

/// What a transcript absorbs of an authorization is its public part.
pub proof fn lemma_boundary_elems_injective<F: TowerField>(
    a: AuthPublicInputs<F>,
    b: AuthPublicInputs<F>,
    n: nat,
)
    requires
        a.wf(n),
        b.wf(n),
        boundary_elems(a) == boundary_elems(b),
    ensures
        a.tx_body_hash@ == b.tx_body_hash@,
        forall|i: int|
            0 <= i < n ==> (#[trigger] a.expected_address@[i])@ == b.expected_address@[i]@,
        forall|i: int|
            0 <= i < n ==> (#[trigger] a.expected_auth_tag@[i])@ == b.expected_auth_tag@[i]@,
{
    let (x, y) = (boundary_elems(a), boundary_elems(b));
    lemma_pair_elems(a.expected_address@, a.expected_auth_tag@, n);
    lemma_pair_elems(b.expected_address@, b.expected_auth_tag@, n);
    let s = pair_elems(a.expected_address@, a.expected_auth_tag@, n);
    let t = pair_elems(b.expected_address@, b.expected_auth_tag@, n);
    assert(x.subrange(0, 2) =~= a.tx_body_hash@ && y.subrange(0, 2) =~= b.tx_body_hash@);
    assert(x.skip(2) =~= s && y.skip(2) =~= t);
    assert forall|i: int| 0 <= i < n implies (#[trigger] a.expected_address@[i])@
        == b.expected_address@[i]@ by {
        assert forall|j: int| 0 <= j < 2 implies a.expected_address@[i]@[j]
            == b.expected_address@[i]@[j] by {
            assert(s[4 * i + j] == t[4 * i + j]);
        }
        assert(a.expected_address@[i]@ =~= b.expected_address@[i]@);
    }
    assert forall|i: int| 0 <= i < n implies (#[trigger] a.expected_auth_tag@[i])@
        == b.expected_auth_tag@[i]@ by {
        assert forall|j: int| 0 <= j < 2 implies a.expected_auth_tag@[i]@[j]
            == b.expected_auth_tag@[i]@[j] by {
            assert(s[4 * i + 2 + j] == t[4 * i + 2 + j]);
        }
        assert(a.expected_auth_tag@[i]@ =~= b.expected_auth_tag@[i]@);
    }
}

/// The whole public part of an authorization enters the transcript before the
/// first challenge.
pub proof fn lemma_auth_bound<F: TowerField, T: FiatShamir<F>>(
    params: PermParams<F>,
    slots: nat,
    a: AuthPublicInputs<F>,
    b: AuthPublicInputs<F>,
    proof: AuthProofKillShot<F>,
    c: T,
    d: T,
)
    requires
        keeps_all::<F, T>(),
        slots == crate::auth_mle_v2::N_AUTH_LIVE_SLOTS,
        a.wf(4),
        b.wf(4),
        proof.kill_shot.main.round_polys.len() == 0,
        auth_verdict(params, slots, a, proof, c).channel == auth_verdict(
            params,
            slots,
            b,
            proof,
            d,
        ).channel,
    ensures
        c == d,
        a.tx_body_hash@ == b.tx_body_hash@,
        forall|i: int|
            0 <= i < 4 ==> (#[trigger] a.expected_address@[i])@ == b.expected_address@[i]@,
        forall|i: int|
            0 <= i < 4 ==> (#[trigger] a.expected_auth_tag@[i])@ == b.expected_auth_tag@[i]@,
{
    lemma_pair_elems(a.expected_address@, a.expected_auth_tag@, 4);
    lemma_pair_elems(b.expected_address@, b.expected_auth_tag@, 4);
    lemma_absorb_injective(c, d, boundary_elems(a), boundary_elems(b));
    lemma_boundary_elems_injective(a, b, 4);
}

/// The lanes of digests enter a transcript one by one.
proof fn lemma_lanes_bound<F: TowerField, T: FiatShamir<F>, S: ColumnScheme<F>>(
    c: T,
    d: T,
    x: Seq<HashOutput>,
    y: Seq<HashOutput>,
    k: nat,
)
    requires
        keeps_all::<F, T>(),
        forall|h: HashOutput| (#[trigger] S::lanes(h)).len() == 2,
        lanes_absorbed::<F, T, S>(c, x, k) == lanes_absorbed::<F, T, S>(d, y, k),
    ensures
        c == d,
        forall|i: int| 0 <= i < k ==> S::lanes(#[trigger] x[i]) == S::lanes(y[i]),
    decreases k,
{
    if k > 0 {
        let (p, q) = (
            lanes_absorbed::<F, T, S>(c, x, (k - 1) as nat),
            lanes_absorbed::<F, T, S>(d, y, (k - 1) as nat),
        );
        assert(S::lanes(x[k - 1]).len() == S::lanes(y[k - 1]).len());
        lemma_absorb_injective(p, q, S::lanes(x[k - 1]), S::lanes(y[k - 1]));
        lemma_lanes_bound::<F, T, S>(c, d, x, y, (k - 1) as nat);
    }
}

/// A commitment enters the transcript whole: the number of its variables, and the
/// lanes of all its digests.
pub proof fn lemma_commitment_bound<F: TowerField, T: FiatShamir<F>, S: ColumnScheme<F>>(
    c: T,
    d: T,
    a: InterleavedCommitment,
    b: InterleavedCommitment,
)
    requires
        keeps_all::<F, T>(),
        forall|h: HashOutput| (#[trigger] S::lanes(h)).len() == 2,
        a.cap.hashes.len() == b.cap.hashes.len(),
        commitment_absorbed::<F, T, S>(c, a) == commitment_absorbed::<F, T, S>(d, b),
    ensures
        c == d,
        a.log_rows == b.log_rows,
        forall|i: int|
            0 <= i < a.cap.hashes.len() ==> S::lanes(#[trigger] a.cap.hashes@[i]) == S::lanes(
                b.cap.hashes@[i],
            ),
{
    let tag = F::of_u128(crate::auth_pcs::AUTH_PCS_COMMIT_TAG);
    let count = F::of_u128(a.cap.hashes.len() as u128);
    let c1 = c.absorbed(tag);
    let c2 = c1.absorbed(F::of_u128(a.log_rows as u128));
    let d1 = d.absorbed(tag);
    let d2 = d1.absorbed(F::of_u128(b.log_rows as u128));
    lemma_lanes_bound::<F, T, S>(
        c2.absorbed(count),
        d2.absorbed(count),
        a.cap.hashes@,
        b.cap.hashes@,
        a.cap.hashes.len() as nat,
    );
    assert(c2 == d2 && c1 == d1);
    F::bits_of_u128(a.log_rows as u128);
    F::bits_of_u128(b.log_rows as u128);
}

/// The whole public part of the authorization of a sweep transaction, and the
/// commitment to its columns, enter the transcript before the first challenge.
pub proof fn lemma_sweep_bound<'b, F: TowerField, T: FiatShamir<F>, S: ColumnScheme<F>>(
    params: PermParams<F>,
    slots: nat,
    a: SweepAuthPublicInputs<F>,
    b: SweepAuthPublicInputs<F>,
    scheme: &'b S,
    p: &'b SweepAuthProofKillShot<F, S::Opening>,
    q: &'b SweepAuthProofKillShot<F, S::Opening>,
    c: T,
    d: T,
)
    requires
        keeps_all::<F, T>(),
        forall|h: HashOutput| (#[trigger] S::lanes(h)).len() == 2,
        slots == crate::auth_shift_sweep::N_SWEEP_AUTH_LIVE_SLOTS,
        a.wf(25),
        b.wf(25),
        p.kill_shot.main.round_polys.len() == 0,
        q.kill_shot.main.round_polys.len() == 0,
        p.pcs.commitment.cap.hashes.len() == q.pcs.commitment.cap.hashes.len(),
        sweep_verdict(params, slots, a, scheme, p, c).channel == sweep_verdict(
            params,
            slots,
            b,
            scheme,
            q,
            d,
        ).channel,
    ensures
        c == d,
        a.tx_body_hash@ == b.tx_body_hash@,
        forall|i: int|
            0 <= i < 25 ==> (#[trigger] a.expected_address@[i])@ == b.expected_address@[i]@,
        forall|i: int|
            0 <= i < 25 ==> (#[trigger] a.expected_auth_tag@[i])@ == b.expected_auth_tag@[i]@,
        p.pcs.commitment.log_rows == q.pcs.commitment.log_rows,
        forall|i: int|
            0 <= i < p.pcs.commitment.cap.hashes.len() ==> S::lanes(
                #[trigger] p.pcs.commitment.cap.hashes@[i],
            ) == S::lanes(q.pcs.commitment.cap.hashes@[i]),
{
    lemma_commitment_bound::<F, T, S>(
        absorb_all(c, boundary_elems(a)),
        absorb_all(d, boundary_elems(b)),
        p.pcs.commitment,
        q.pcs.commitment,
    );
    lemma_pair_elems(a.expected_address@, a.expected_auth_tag@, 25);
    lemma_pair_elems(b.expected_address@, b.expected_auth_tag@, 25);
    lemma_absorb_injective(c, d, boundary_elems(a), boundary_elems(b));
    lemma_boundary_elems_injective(a, b, 25);
}

/// The whole statement of an owner's authorization, and the commitment to its
/// column, enter the transcript before the first challenge.
pub proof fn lemma_owner_bound<'b, F: TowerField, T: FiatShamir<F>, S: ColumnScheme<F>>(
    params: OwnerAuthParams<F>,
    a: OwnerAuthPublicInputs<F>,
    b: OwnerAuthPublicInputs<F>,
    scheme: &'b S,
    p: &'b OwnerAuthProofKillShot<F, S::Opening>,
    q: &'b OwnerAuthProofKillShot<F, S::Opening>,
    c: T,
    d: T,
)
    requires
        keeps_all::<F, T>(),
        forall|h: HashOutput| (#[trigger] S::lanes(h)).len() == 2,
        p.kill_shot.main.round_polys.len() == 0,
        q.kill_shot.main.round_polys.len() == 0,
        p.pcs.commitment.cap.hashes.len() == q.pcs.commitment.cap.hashes.len(),
        owner_verdict(params, a, scheme, p, c).channel == owner_verdict(
            params,
            b,
            scheme,
            q,
            d,
        ).channel,
    ensures
        c == d,
        a.tx_body_hash@ == b.tx_body_hash@,
        a.expected_address@ == b.expected_address@,
        p.pcs.commitment.log_rows == q.pcs.commitment.log_rows,
        forall|i: int|
            0 <= i < p.pcs.commitment.cap.hashes.len() ==> S::lanes(
                #[trigger] p.pcs.commitment.cap.hashes@[i],
            ) == S::lanes(q.pcs.commitment.cap.hashes@[i]),
{
    lemma_commitment_bound::<F, T, S>(
        absorb_all(c, owner_elems(a)),
        absorb_all(d, owner_elems(b)),
        p.pcs.commitment,
        q.pcs.commitment,
    );
    lemma_absorb_injective(c, d, owner_elems(a), owner_elems(b));
    let (x, y) = (owner_elems(a), owner_elems(b));
    assert(x.subrange(5, 7) =~= a.tx_body_hash@ && y.subrange(5, 7) =~= b.tx_body_hash@);
    assert(x.subrange(7, 9) =~= a.expected_address@ && y.subrange(7, 9) =~= b.expected_address@);
}

/// The claimed hash and the whole body enter the transcript before the first
/// challenge.
pub proof fn lemma_body_bound<F: TowerField, T: FiatShamir<F>>(
    params: PermParams<F>,
    slots: Seq<SweepSlotDescriptor<F>>,
    a: SpineInputs<F>,
    b: SpineInputs<F>,
    x: [F; 2],
    y: [F; 2],
    proof: SpineProofKillShot<F>,
    c: T,
    d: T,
)
    requires
        keeps_all::<F, T>(),
        slots.len() == 59,
        x@ == crate::spine_killshot::body_hash(params, slots, a),
        y@ == crate::spine_killshot::body_hash(params, slots, b),
        proof.kill_shot.main.round_polys.len() == 0,
        body_verdict(params, slots, a, x@, proof, c).channel == body_verdict(
            params,
            slots,
            b,
            y@,
            proof,
            d,
        ).channel,
    ensures
        c == d,
        x@ == y@,
        a.epoch_anchor@ == b.epoch_anchor@,
        a.fee_leaf@ == b.fee_leaf@,
        forall|i: int| 0 <= i < 4 ==> (#[trigger] a.input_leaves[i])@ == b.input_leaves[i]@,
        forall|i: int| 0 <= i < 8 ==> (#[trigger] a.output_leaves[i])@ == b.output_leaves[i]@,
        a.is_coinbase_leaf@ == b.is_coinbase_leaf@,
        a.pad_leaf@ == b.pad_leaf@,
{
    lemma_header_len(a);
    lemma_header_len(b);
    lemma_absorb_injective(
        absorb_all(c, x@),
        absorb_all(d, y@),
        inputs_header(a),
        inputs_header(b),
    );
    lemma_absorb_injective(c, d, x@, y@);
    lemma_header_injective(a, b);
}

/// Hashes can be told from their elements.
proof fn lemma_hash_elems<F>(hashes: Seq<[F; 2]>, k: nat)
    ensures
        hash_elems(hashes, k).len() == 2 * k,
        forall|i: int, j: int|
            0 <= i < k && 0 <= j < 2 ==> hash_elems(hashes, k)[2 * i + j]
                == #[trigger] hashes[i]@[j],
    decreases k,
{
    if k > 0 {
        lemma_hash_elems(hashes, (k - 1) as nat);
        let rest = hash_elems(hashes, (k - 1) as nat);
        assert forall|i: int, j: int| 0 <= i < k && 0 <= j < 2 implies hash_elems(hashes, k)[2 * i
            + j] == #[trigger] hashes[i]@[j] by {
            if i < k - 1 {
                assert(rest[2 * i + j] == hashes[i]@[j]);
            }
        }
    }
}

/// All the hashes of a block enter the transcript before the first challenge.
pub proof fn lemma_block_bound<F: TowerField, T: FiatShamir<F>>(
    params: PermParams<F>,
    n_instances: nat,
    a: Seq<[F; 2]>,
    b: Seq<[F; 2]>,
    proof: SweepBlockSpineProof<F>,
    c: T,
    d: T,
)
    requires
        keeps_all::<F, T>(),
        a.len() == n_instances,
        b.len() == n_instances,
        proof.live_slots == n_instances * 142,
        proof.num_vars >= 10,
        crate::block_spine_sweep::is_slot_vars((proof.num_vars - 9) as nat, n_instances * 142),
        proof.kill_shot.main.round_polys.len() == 0,
        block_verdict(params, n_instances, a, proof, c).channel == block_verdict(
            params,
            n_instances,
            b,
            proof,
            d,
        ).channel,
    ensures
        c == d,
        forall|i: int| 0 <= i < n_instances ==> (#[trigger] a[i])@ == b[i]@,
{
    lemma_hash_elems(a, n_instances);
    lemma_hash_elems(b, n_instances);
    let (x, y) = (hash_elems(a, n_instances), hash_elems(b, n_instances));
    lemma_absorb_injective(c, d, x, y);
    assert forall|i: int| 0 <= i < n_instances implies (#[trigger] a[i])@ == b[i]@ by {
        assert forall|j: int| 0 <= j < 2 implies a[i]@[j] == b[i]@[j] by {
            assert(x[2 * i + j] == y[2 * i + j]);
        }
        assert(a[i]@ =~= b[i]@);
    }
}

/// Items can be told from their elements.
proof fn lemma_item_elems<F: TowerField>(items: Seq<ChainAccumulatorItem<F>>, k: nat)
    ensures
        item_elems(items, k).len() == 4 * k,
        forall|i: int, j: int|
            0 <= i < k && i < items.len() && 0 <= j < 2 ==> item_elems(items, k)[4 * i + j]
                == #[trigger] items[i].block_id@[j],
        forall|i: int, j: int|
            0 <= i < k && i < items.len() && 0 <= j < 2 ==> item_elems(items, k)[4 * i + 2 + j]
                == #[trigger] items[i].chain_claim@[j],
    decreases k,
{
    if k > 0 {
        lemma_item_elems(items, (k - 1) as nat);
        let rest = item_elems(items, (k - 1) as nat);
        let all = item_elems(items, k);
        assert forall|i: int, j: int|
            0 <= i < k && i < items.len() && 0 <= j < 2 implies all[4 * i + j]
            == #[trigger] items[i].block_id@[j] by {
            if i < k - 1 {
                assert(rest[4 * i + j] == items[i].block_id@[j]);
            }
        }
        assert forall|i: int, j: int|
            0 <= i < k && i < items.len() && 0 <= j < 2 implies all[4 * i + 2 + j]
            == #[trigger] items[i].chain_claim@[j] by {
            if i < k - 1 {
                assert(rest[4 * i + 2 + j] == items[i].chain_claim@[j]);
            }
        }
    }
}

/// The whole statement of an accumulator enters the transcript before the first
/// challenge.
pub proof fn lemma_chain_bound<F: TowerField, T: FiatShamir<F>>(
    params: PermParams<F>,
    e: ChainDomain<F>,
    f: ChainDomain<F>,
    a: ChainAccumulatorBatchInputs<F>,
    b: ChainAccumulatorBatchInputs<F>,
    padded: nat,
    pad: bool,
    proof: ChainAccumulatorProofKillShot<F>,
    c: T,
    d: T,
)
    requires
        keeps_all::<F, T>(),
        chain_shaped(a, padded, proof),
        chain_shaped(b, padded, proof),
        proof.kill_shot.main.round_polys.len() == 0,
        chain_verdict(params, e, a, padded, pad, proof, c).channel == chain_verdict(
            params,
            f,
            b,
            padded,
            pad,
            proof,
            d,
        ).channel,
    ensures
        c == d,
        e.tag == f.tag,
        a.start_chain_hash@ == b.start_chain_hash@,
        a.expected_chain_hash@ == b.expected_chain_hash@,
        a.items.len() == b.items.len(),
        forall|i: int|
            0 <= i < a.items.len() ==> (#[trigger] a.items@[i]).block_id@ == b.items@[i].block_id@
                && a.items@[i].chain_claim@ == b.items@[i].chain_claim@,
{
    let (x, y) = (
        statement_elems(e, a, padded, pad),
        statement_elems(f, b, padded, pad),
    );
    lemma_item_elems(a.items@, padded);
    lemma_item_elems(b.items@, padded);
    let (s, t) = (item_elems(a.items@, padded), item_elems(b.items@, padded));
    lemma_absorb_injective(c, d, x, y);
    let at = if pad {
        3int
    } else {
        2int
    };
    assert(x[at - 1] == y[at - 1]);
    F::bits_of_u128(e.tag as u128);
    F::bits_of_u128(f.tag as u128);
    assert(x.subrange(at, at + 2) =~= a.start_chain_hash@);
    assert(y.subrange(at, at + 2) =~= b.start_chain_hash@);
    assert(x.subrange(at + 2, at + 4) =~= a.expected_chain_hash@);
    assert(y.subrange(at + 2, at + 4) =~= b.expected_chain_hash@);
    assert(x.skip(at + 4) =~= s && y.skip(at + 4) =~= t);
    assert forall|i: int| 0 <= i < a.items.len() implies (#[trigger] a.items@[i]).block_id@
        == b.items@[i].block_id@ && a.items@[i].chain_claim@ == b.items@[i].chain_claim@ by {
        assert forall|j: int| 0 <= j < 2 implies a.items@[i].block_id@[j]
            == b.items@[i].block_id@[j] && a.items@[i].chain_claim@[j]
            == b.items@[i].chain_claim@[j] by {
            assert(s[4 * i + j] == t[4 * i + j]);
            assert(s[4 * i + 2 + j] == t[4 * i + 2 + j]);
        }
        assert(a.items@[i].block_id@ =~= b.items@[i].block_id@);
        assert(a.items@[i].chain_claim@ =~= b.items@[i].chain_claim@);
    }
}

/// What a transcript absorbs of a leaf is the leaf.
proof fn lemma_leaf_elems_injective<F: TowerField>(
    a: GuardLeafHashInputs<F>,
    b: GuardLeafHashInputs<F>,
)
    requires
        leaf_elems(a) == leaf_elems(b),
    ensures
        a.occupied == b.occupied,
        a.absolute_height == b.absolute_height,
        a.slots_digest@ == b.slots_digest@,
        a.expected_hash@ == b.expected_hash@,
{
    let (x, y) = (leaf_elems(a), leaf_elems(b));
    assert(x[0] == y[0] && x[1] == y[1]);
    F::bits_of_u128(flag(a.occupied));
    F::bits_of_u128(flag(b.occupied));
    F::bits_of_u128(a.absolute_height as u128);
    F::bits_of_u128(b.absolute_height as u128);
    assert(x.subrange(2, 4) =~= a.slots_digest@ && y.subrange(2, 4) =~= b.slots_digest@);
    assert(x.subrange(4, 6) =~= a.expected_hash@ && y.subrange(4, 6) =~= b.expected_hash@);
}

/// The whole statement of an update enters the transcript before the first
/// challenge.
pub proof fn lemma_update_bound<F: TowerField, T: FiatShamir<F>>(
    params: PermParams<F>,
    e: GuardDomain<F>,
    f: GuardDomain<F>,
    a: GuardBucketUpdateInputs<F>,
    b: GuardBucketUpdateInputs<F>,
    proof: BatchedGuardBucketProofKillShot<F>,
    c: T,
    d: T,
)
    requires
        keeps_all::<F, T>(),
        update_shaped(a, proof),
        update_shaped(b, proof),
        proof.kill_shot.main.round_polys.len() == 0,
        update_verdict(params, e, a, proof, c).channel == update_verdict(
            params,
            f,
            b,
            proof,
            d,
        ).channel,
    ensures
        c == d,
        e.tag == f.tag,
        a.padded_spent_len == b.padded_spent_len,
        a.spent_slots@ == b.spent_slots@,
        a.old_leaf.occupied == b.old_leaf.occupied,
        a.old_leaf.absolute_height == b.old_leaf.absolute_height,
        a.old_leaf.slots_digest@ == b.old_leaf.slots_digest@,
        a.old_leaf.expected_hash@ == b.old_leaf.expected_hash@,
        a.new_leaf.occupied == b.new_leaf.occupied,
        a.new_leaf.absolute_height == b.new_leaf.absolute_height,
        a.new_leaf.slots_digest@ == b.new_leaf.slots_digest@,
        a.new_leaf.expected_hash@ == b.new_leaf.expected_hash@,
{
    let (x, y) = (update_elems(e, a), update_elems(f, b));
    lemma_absorb_injective(c, d, x, y);
    assert(x[0] == y[0] && x[14] == y[14]);
    F::bits_of_u128(e.tag as u128);
    F::bits_of_u128(f.tag as u128);
    F::bits_of_u128(a.spent_slots.len() as u128);
    F::bits_of_u128(b.spent_slots.len() as u128);
    assert(x.subrange(2, 8) =~= leaf_elems(a.old_leaf));
    assert(y.subrange(2, 8) =~= leaf_elems(b.old_leaf));
    assert(x.subrange(8, 14) =~= leaf_elems(a.new_leaf));
    assert(y.subrange(8, 14) =~= leaf_elems(b.new_leaf));
    lemma_leaf_elems_injective(a.old_leaf, b.old_leaf);
    lemma_leaf_elems_injective(a.new_leaf, b.new_leaf);
    assert forall|q: int| 0 <= q < a.spent_slots.len() implies a.spent_slots@[q]
        == b.spent_slots@[q] by {
        assert(x[15 + q] == y[15 + q]);
        F::bits_of_u128(padded_slot(a.spent_slots@, q) as u128);
        F::bits_of_u128(padded_slot(b.spent_slots@, q) as u128);
    }
    assert(a.spent_slots@ =~= b.spent_slots@);
}

/// The digests of a cap enter the transcript whole.
pub proof fn lemma_cap_bound<F: TowerField, T: FiatShamir<F>>(
    c: T,
    d: T,
    x: Seq<HashOutput>,
    y: Seq<HashOutput>,
    k: nat,
)
    requires
        keeps_all::<F, T>(),
        cap_absorbed::<F, T>(c, x, k) == cap_absorbed::<F, T>(d, y, k),
    ensures
        c == d,
        forall|i: int| 0 <= i < k ==> (#[trigger] x[i])@ == y[i]@,
    decreases k,
{
    if k > 0 {
        let (a, b) = (x[k - 1]@, y[k - 1]@);
        let (a0, a1) = (le_value(a.subrange(0, 16)), le_value(a.subrange(16, 32)));
        let (b0, b1) = (le_value(b.subrange(0, 16)), le_value(b.subrange(16, 32)));
        let p = cap_absorbed::<F, T>(c, x, (k - 1) as nat);
        let q = cap_absorbed::<F, T>(d, y, (k - 1) as nat);
        assert(p.absorbed(F::of_u128(a0 as u128)) == q.absorbed(F::of_u128(b0 as u128)));
        lemma_pow256_16();
        lemma_le_value_bound(a.subrange(0, 16));
        lemma_le_value_bound(a.subrange(16, 32));
        lemma_le_value_bound(b.subrange(0, 16));
        lemma_le_value_bound(b.subrange(16, 32));
        F::bits_of_u128(a0 as u128);
        F::bits_of_u128(a1 as u128);
        F::bits_of_u128(b0 as u128);
        F::bits_of_u128(b1 as u128);
        lemma_le_bytes_value(a.subrange(0, 16));
        lemma_le_bytes_value(a.subrange(16, 32));
        lemma_le_bytes_value(b.subrange(0, 16));
        lemma_le_bytes_value(b.subrange(16, 32));
        assert(a =~= a.subrange(0, 16) + a.subrange(16, 32));
        assert(b =~= b.subrange(0, 16) + b.subrange(16, 32));
        lemma_cap_bound(c, d, x, y, (k - 1) as nat);
    }
}

/// Claims can be told from their elements.
pub proof fn lemma_claim_elems<F>(a: Seq<ClaimView<F>>, b: Seq<ClaimView<F>>, n: nat)
    requires
        a.len() == b.len(),
        claims_wf(a, n),
        claims_wf(b, n),
    ensures
        claim_elems(a).len() == claim_elems(b).len(),
        claim_elems(a) == claim_elems(b) ==> a == b,
    decreases a.len(),
{
    if a.len() > 0 {
        let (p, q) = (a.drop_last(), b.drop_last());
        assert forall|i: int| 0 <= i < p.len() implies #[trigger] p[i].point.len() == n by {
            assert(a[i].point.len() == n);
        }
        assert forall|i: int| 0 <= i < q.len() implies #[trigger] q[i].point.len() == n by {
            assert(b[i].point.len() == n);
        }
        lemma_claim_elems(p, q, n);
        let (u, v) = (a.last(), b.last());
        assert(a[a.len() - 1].point.len() == n && b[b.len() - 1].point.len() == n);
        if claim_elems(a) == claim_elems(b) {
            let m = claim_elems(p).len() as int;
            let (x, y) = (claim_elems(a), claim_elems(b));
            assert(x.take(m) =~= claim_elems(p) && y.take(m) =~= claim_elems(q));
            assert(x.skip(m) =~= u.point.push(u.value) && y.skip(m) =~= v.point.push(v.value));
            assert(u.point.push(u.value).drop_last() =~= u.point);
            assert(v.point.push(v.value).drop_last() =~= v.point);
            assert(u.point.push(u.value).last() == u.value);
            assert(v.point.push(v.value).last() == v.value);
            assert(a =~= p.push(u) && b =~= q.push(v));
        }
    } else {
        assert(a =~= b);
    }
}

/// All the claims of a reduction, their points and their values, enter the
/// transcript before the challenges that combine them.
pub proof fn lemma_claims_bound<F: TowerField, T: FiatShamir<F>>(
    a: Seq<ClaimView<F>>,
    b: Seq<ClaimView<F>>,
    n: nat,
    c: T,
    d: T,
)
    requires
        keeps_all::<F, T>(),
        a.len() == b.len(),
        claims_wf(a, n),
        claims_wf(b, n),
        batch_channel(a, c) == batch_channel(b, d),
    ensures
        c == d,
        a == b,
{
    lemma_claim_elems(a, b, n);
    lemma_squeeze_injective(
        absorb_all(c, claim_elems(a)),
        absorb_all(d, claim_elems(b)),
        a.len(),
    );
    lemma_absorb_injective(c, d, claim_elems(a), claim_elems(b));
}

/// All the values of a mixed opening, of the columns and of the further claims,
/// and the point, enter the transcript: the values before the challenge that
/// combines the columns.
pub proof fn lemma_openings_bound<
    'b,
    F: TowerField,
    T: FriChannel<F>,
    C: FriCode<F>,
    H: CryptographicHasher<F>,
>(
    code: &'b C,
    hasher: &'b H,
    commitment: &'b InterleavedCommitment,
    x: &'b [F],
    y: &'b [F],
    s: Seq<EvalClaim<F>>,
    t: Seq<EvalClaim<F>>,
    p: &'b MixedOpeningProof<F>,
    q: &'b MixedOpeningProof<F>,
    num_queries: usize,
    c: T,
    d: T,
)
    requires
        keeps_all::<F, T>(),
        x.len() == commitment.log_rows,
        y.len() == commitment.log_rows,
        s.len() == t.len(),
        p.all_openings.len() == commitment.n_cols + s.len(),
        q.all_openings.len() == commitment.n_cols + t.len(),
        claim_error(
            s,
            p.all_openings@,
            commitment.n_cols as nat,
            commitment.log_rows as nat,
            s.len(),
        ) is None,
        claim_error(
            t,
            q.all_openings@,
            commitment.n_cols as nat,
            commitment.log_rows as nat,
            t.len(),
        ) is None,
        p.fri_proof.upper_partial_evals.len() != pow2(tau_of(commitment.log_rows as nat)),
        q.fri_proof.upper_partial_evals.len() != pow2(tau_of(commitment.log_rows as nat)),
        mixed_verdict(code, hasher, commitment, x, s, p, num_queries, c).channel == mixed_verdict(
            code,
            hasher,
            commitment,
            y,
            t,
            q,
            num_queries,
            d,
        ).channel,
    ensures
        c == d,
        x@ == y@,
        p.all_openings@ == q.all_openings@,
{
    let (u, v) = (p.all_openings@, q.all_openings@);
    let (a, b) = (openings_absorbed(c, u), openings_absorbed(d, v));
    lemma_absorb_injective(a.squeezed(), b.squeezed(), x@, y@);
    let tag = F::of_u128(crate::mixed_open::MIXED_OPEN_TAG as u128);
    lemma_absorb_injective(c.absorbed(tag), d.absorbed(tag), u, v);
}

} // verus!
