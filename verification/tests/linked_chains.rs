//! The proofs of linked permutations: an accumulator over blocks, and the update
//! of a guard bucket.
use noid_gkr::chain_accumulator_killshot::{
    discharge_chain_accumulator_reductions_native,
    discharge_chain_accumulator_reductions_native_padded, evaluate_chain_accumulator,
    prove_chain_accumulator_killshot, prove_chain_accumulator_killshot_padded,
    verify_chain_accumulator_killshot, verify_chain_accumulator_killshot_padded,
    ChainAccumulatorBatchInputs, ChainAccumulatorItem, ChainDomain, CHAIN_ACC_PERMS_PER_ITEM,
};
use noid_gkr::field::{BinaryField, TowerField};
use noid_gkr::guard_bucket_killshot::{
    discharge_batched_guard_bucket_reductions_native, guard_slots_chain_len,
    guard_update_chain_claims, guard_update_live_slots, prove_batched_guard_bucket_killshot,
    verify_batched_guard_bucket_killshot, GuardBucketUpdateInputs, GuardDomain,
    GuardLeafHashInputs,
};
use noid_gkr::layers::{permute, PermParams};
use noid_gkr::sponge::digest_to_fields;
use noid_gkr::tower::Tower128;
use noid_gkr::transcript::ElementTranscript;

type F = Tower128;

fn el(bits: u128) -> F {
    F::from_u128(bits)
}

fn params() -> PermParams<F> {
    let mut s = 0x243F_6A88_85A3_08D3_1319_8A2E_0370_7344u128;
    let mut next = || {
        s = s.wrapping_mul(0x2360_ED05_1FC6_5DA4_4385_DF64_9FCC_F645).wrapping_add(0x9E37_79B9);
        el(s ^ (s >> 61))
    };
    PermParams {
        mds_full: std::array::from_fn(|_| std::array::from_fn(|_| next())),
        mds_partial: std::array::from_fn(|_| std::array::from_fn(|_| next())),
        round_constants: std::array::from_fn(|_| std::array::from_fn(|_| next())),
    }
}

/// The digest of blocks by a sponge with the given initial capacity.
fn sponge(iv: [F; 2], blocks: &[[F; 2]]) -> [F; 2] {
    let p = params();
    let mut s = [el(0), el(0), iv[0], iv[1]];
    for b in blocks {
        s[0] = s[0].plus(b[0]);
        s[1] = s[1].plus(b[1]);
        s = permute(&p, s);
    }
    [s[0], s[1]]
}

fn domain() -> ChainDomain<F> {
    ChainDomain { tag: 0x434F_4D50, iv: [el(0xC0E1), el(0xC0E2)] }
}

fn inputs(n: usize) -> ChainAccumulatorBatchInputs<F> {
    let start_chain_hash = digest_to_fields(&[0xA1; 32]);
    let mut chain = start_chain_hash;
    let mut items = Vec::with_capacity(n);
    for i in 0..n {
        let block_id = digest_to_fields(&[i as u8 + 1; 32]);
        let claim = [el(0xCAFE_0000 + i as u128), el(0xF00D_0000 + i as u128)];
        let inner = sponge(domain().iv, &[block_id, claim]);
        chain = sponge(domain().iv, &[chain, inner]);
        items.push(ChainAccumulatorItem { block_id, chain_claim: claim });
    }
    ChainAccumulatorBatchInputs { start_chain_hash, items, expected_chain_hash: chain }
}

#[test]
fn chain_accumulator_roundtrip() {
    let inputs = inputs(4);
    let mut ch_p = ElementTranscript::new();
    let (proof, reductions) =
        prove_chain_accumulator_killshot(&params(), &domain(), &inputs, &mut ch_p);

    let mut ch_v = ElementTranscript::new();
    let verified =
        verify_chain_accumulator_killshot(&params(), &domain(), &proof, &inputs, &mut ch_v)
            .expect("chain accumulator proof verifies");
    assert_eq!(verified, reductions);
    assert_eq!(ch_p, ch_v);
    assert!(discharge_chain_accumulator_reductions_native(
        &params(),
        &domain(),
        &inputs,
        &verified
    ));
}

#[test]
fn chain_accumulator_padded_roundtrip_size_constant_and_rejects_small_shape() {
    let padded_items = 4;
    let mut expected_len = None;

    for n in [1usize, 3, padded_items] {
        let inputs = inputs(n);
        let mut ch_p = ElementTranscript::new();
        let (proof, reductions) = prove_chain_accumulator_killshot_padded(
            &params(),
            &domain(),
            &inputs,
            padded_items,
            &mut ch_p,
        );
        assert_eq!(proof.n_items, n);
        assert_eq!(proof.live_slots, padded_items * CHAIN_ACC_PERMS_PER_ITEM);

        let mut ch_v = ElementTranscript::new();
        let verified = verify_chain_accumulator_killshot_padded(
            &params(),
            &domain(),
            &proof,
            &inputs,
            padded_items,
            &mut ch_v,
        )
        .expect("padded chain accumulator proof verifies");
        assert_eq!(verified, reductions);
        assert!(discharge_chain_accumulator_reductions_native_padded(
            &params(),
            &domain(),
            &inputs,
            &verified,
            padded_items,
        ));

        if let Some(expected_len) = expected_len {
            assert_eq!(proof.byte_len(), expected_len);
        } else {
            expected_len = Some(proof.byte_len());
        }

        if n < padded_items {
            let mut ch_small = ElementTranscript::new();
            assert!(verify_chain_accumulator_killshot_padded(
                &params(),
                &domain(),
                &proof,
                &inputs,
                n,
                &mut ch_small
            )
            .is_none());
        }
    }

    let inputs = inputs(1);
    let mut ch_p = ElementTranscript::new();
    let (small_shape_proof, _) =
        prove_chain_accumulator_killshot(&params(), &domain(), &inputs, &mut ch_p);
    let mut ch_v = ElementTranscript::new();
    assert!(verify_chain_accumulator_killshot_padded(
        &params(),
        &domain(),
        &small_shape_proof,
        &inputs,
        padded_items,
        &mut ch_v,
    )
    .is_none());
}

#[test]
fn proofs_of_another_size_are_refused_however_large() {
    let inputs = inputs(2);
    let mut ch_p = ElementTranscript::new();
    let (proof, _) =
        prove_chain_accumulator_killshot_padded(&params(), &domain(), &inputs, 4, &mut ch_p);
    for padded in [1, 2, 3, 5, 8, usize::MAX / 1000, usize::MAX / 4] {
        let mut ch_v = ElementTranscript::new();
        assert!(verify_chain_accumulator_killshot_padded(
            &params(),
            &domain(),
            &proof,
            &inputs,
            padded,
            &mut ch_v
        )
        .is_none());
        assert_eq!(ch_v, ElementTranscript::new());
    }

    let small = update(empty_leaf(), 266, &[2, 5, 13], 8);
    let mut ch_p = ElementTranscript::new();
    let (proof, _) =
        prove_batched_guard_bucket_killshot(&params(), &guard_domain(), &small, &mut ch_p);
    for capacity in [3, 7, 9, 16, usize::MAX / 1000, usize::MAX] {
        let other = update(empty_leaf(), 266, &[2, 5, 13], capacity);
        let mut ch_v = ElementTranscript::new();
        assert!(verify_batched_guard_bucket_killshot(
            &params(),
            &guard_domain(),
            &proof,
            &other,
            &mut ch_v
        )
        .is_none());
        assert_eq!(ch_v, ElementTranscript::new());
    }
}

#[test]
fn chain_accumulator_rejects_tamper() {
    let inputs = inputs(3);
    let mut ch_p = ElementTranscript::new();
    let (proof, _) = prove_chain_accumulator_killshot(&params(), &domain(), &inputs, &mut ch_p);

    let mut bad = inputs.clone();
    bad.expected_chain_hash[0] = bad.expected_chain_hash[0].plus(el(1));
    let mut ch_v = ElementTranscript::new();
    assert!(
        verify_chain_accumulator_killshot(&params(), &domain(), &proof, &bad, &mut ch_v).is_none()
    );
}

#[test]
fn accumulator_of_nothing_or_of_another_end_is_not_evaluated() {
    let mut none = inputs(1);
    none.items.clear();
    assert!(evaluate_chain_accumulator(&params(), &domain(), &none).is_none());
    let mut wrong = inputs(2);
    wrong.expected_chain_hash[1] = wrong.expected_chain_hash[1].plus(el(1));
    assert!(evaluate_chain_accumulator(&params(), &domain(), &wrong).is_none());
    let ins = evaluate_chain_accumulator(&params(), &domain(), &inputs(2)).unwrap();
    assert_eq!(ins.len(), 8);
}

fn guard_domain() -> GuardDomain<F> {
    GuardDomain {
        tag: 0x5247_4442,
        leaf_iv: [el(0xB0C1), el(0xB0C2)],
        slots_iv: [el(0x5107), el(0x5108)],
    }
}

fn native_slots_digest(slots: &[u32]) -> [F; 2] {
    let mut fields = vec![el(slots.len() as u128)];
    fields.extend(slots.iter().map(|&s| el(s as u128)));
    if fields.len() % 2 == 0 {
        fields.push(el(0x80));
        fields.push(el(1 << 120));
    } else {
        fields.push(el(0x80 | (1 << 120)));
    }
    let blocks: Vec<[F; 2]> = fields.chunks(2).map(|c| [c[0], c[1]]).collect();
    sponge(guard_domain().slots_iv, &blocks)
}

fn native_leaf_hash(occupied: bool, height: u64, digest: [F; 2]) -> [F; 2] {
    sponge(
        guard_domain().leaf_iv,
        &[[el(occupied as u128), el(height as u128)], digest, [el(0x80), el(1 << 120)]],
    )
}

fn empty_leaf() -> GuardLeafHashInputs<F> {
    let digest = [el(0); 2];
    GuardLeafHashInputs {
        occupied: false,
        absolute_height: 0,
        slots_digest: digest,
        expected_hash: native_leaf_hash(false, 0, digest),
    }
}

fn occupied_leaf(height: u64, slots: &[u32]) -> GuardLeafHashInputs<F> {
    let digest = native_slots_digest(slots);
    GuardLeafHashInputs {
        occupied: true,
        absolute_height: height,
        slots_digest: digest,
        expected_hash: native_leaf_hash(true, height, digest),
    }
}

fn update(
    old: GuardLeafHashInputs<F>,
    height: u64,
    slots: &[u32],
    capacity: usize,
) -> GuardBucketUpdateInputs<F> {
    GuardBucketUpdateInputs {
        old_leaf: old,
        new_leaf: occupied_leaf(height, slots),
        spent_slots: slots.to_vec(),
        padded_spent_len: capacity,
    }
}

#[test]
fn guard_update_roundtrip_empty_and_occupied_old() {
    for (inputs, label) in [
        (update(empty_leaf(), 266, &[2, 5, 13], 8), "empty old"),
        (update(occupied_leaf(10, &[7, 9, 11, 20, 33]), 266, &[1], 8), "occupied old"),
        (update(empty_leaf(), 266, &[1, 2, 3, 4, 5, 6, 7, 8], 8), "full capacity"),
    ] {
        let mut ch_p = ElementTranscript::new();
        let (proof, reductions) =
            prove_batched_guard_bucket_killshot(&params(), &guard_domain(), &inputs, &mut ch_p);
        let mut ch_v = ElementTranscript::new();
        let verified = verify_batched_guard_bucket_killshot(
            &params(),
            &guard_domain(),
            &proof,
            &inputs,
            &mut ch_v,
        )
        .unwrap_or_else(|| panic!("guard update proof verifies ({label})"));
        assert_eq!(verified, reductions, "{label}");
        assert!(
            discharge_batched_guard_bucket_reductions_native(
                &params(),
                &guard_domain(),
                &inputs,
                &reductions
            ),
            "{label}"
        );
    }
}

#[test]
fn guard_update_same_class_shapes_match_across_lengths() {
    // Two updates in one class (capacity 8) with different live spend
    // counts must produce the same schedule (live_slots / num_vars) and
    // the same claim layout (claim count and per-claim term counts).
    let a = update(empty_leaf(), 266, &[2], 8);
    let b = update(occupied_leaf(9, &[3, 4, 5]), 266, &[1, 2, 3, 4, 5, 6, 7], 8);
    assert_eq!(
        guard_update_live_slots(a.padded_spent_len),
        guard_update_live_slots(b.padded_spent_len)
    );
    let ca = guard_update_chain_claims(&params(), &guard_domain(), &a, 13);
    let cb = guard_update_chain_claims(&params(), &guard_domain(), &b, 13);
    assert_eq!(ca.len(), cb.len());
    for (x, y) in ca.iter().zip(cb.iter()) {
        assert_eq!(x.terms.len(), y.terms.len());
    }
    assert_eq!((guard_slots_chain_len(1), guard_slots_chain_len(8)), (2, 5));
    assert_eq!(guard_update_live_slots(8), 11);
}

#[test]
fn guard_update_rejects_noncanonical_or_hash_tamper() {
    let inputs = update(empty_leaf(), 10, &[2, 5], 8);
    let mut ch_p = ElementTranscript::new();
    let (proof, _) =
        prove_batched_guard_bucket_killshot(&params(), &guard_domain(), &inputs, &mut ch_p);
    let refused = |bad: &GuardBucketUpdateInputs<F>| {
        let mut ch_v = ElementTranscript::new();
        verify_batched_guard_bucket_killshot(&params(), &guard_domain(), &proof, bad, &mut ch_v)
            .is_none()
    };

    let mut bad = inputs.clone();
    bad.new_leaf.expected_hash[0] = bad.new_leaf.expected_hash[0].plus(el(1));
    assert!(refused(&bad));

    let mut bad = inputs.clone();
    bad.new_leaf.slots_digest[1] = bad.new_leaf.slots_digest[1].plus(el(1));
    assert!(refused(&bad));

    let mut bad = inputs.clone();
    bad.old_leaf.absolute_height = 3; // non-canonical: empty leaf with height
    assert!(refused(&bad));

    let mut bad = inputs.clone();
    bad.spent_slots = vec![5, 2];
    assert!(refused(&bad));

    let mut bad = inputs.clone();
    bad.padded_spent_len = 16;
    assert!(refused(&bad));
    assert!(!refused(&inputs));
}
