//! Folds and layouts of the capsule.
use noid_gkr::affine_code::{
    AffineCode, AffineHighPaddingRankCertificate, RepeatedCode, ZkAffineCodeError, DOMAIN_LEN,
};
use noid_gkr::field::{BinaryField, TowerField};
use noid_gkr::low_fold::fold_low_in_place;
use noid_gkr::mle::evaluate_slice;
use noid_gkr::tower::Tower128;
use noid_gkr::zk_capsule_algebra::{
    build_joint_source_leaf, build_mid_leaf, certify_source_query_hiding_rank,
    contract_high3_for_each_low8, encode_tail16, eq_high_zero,
    evaluate_fundamental_slice_embedding, evaluate_upper_at_low8, fold_bank_low8,
    fold_joint_source_leaf, fundamental_slice_alignment_point,
    fundamental_slice_relation_embedding, interleave_joint_source_leaf,
    joint_source_leaf_positions, joint_source_line_fold, mid_standard_fold4,
    source_standard_fold3, tail16_local_fold, ZkCapsuleAlgebraError, JOINT_SOURCE_BANK_SYMBOLS,
    MID_DOMAIN_LEN, MID_LEAF_COUNT, MID_STANDARD_FOLDS, OWNER_BANK_POINT_VARS,
    OWNER_BANK_RELATION_LEN, PHASE_B_HIGH_VARS, PHASE_B_LOW_VARS, SOURCE_LEAF_COUNT,
    SOURCE_STANDARD_FOLDS, TAIL_SYMBOLS,
};

type F = Tower128;

fn elem(index: usize, domain: u128) -> F {
    F::from_u128(
        domain.wrapping_mul(index as u128 + 1).rotate_left((index % 127) as u32)
            ^ (index as u128 * 0x9E37_79B9),
    )
}

fn message(domain: u128) -> [F; OWNER_BANK_RELATION_LEN] {
    std::array::from_fn(|index| elem(index, domain))
}

fn fold_codeword_once(word: &[F], round: usize, challenge: F) -> Vec<F> {
    (0..word.len() / 2)
        .map(|i| {
            RepeatedCode
                .fold_contiguous_coset(&word[2 * i..2 * i + 2], round, i, &[challenge])
                .unwrap()
        })
        .collect()
}

#[test]
fn joint_leaf_layout_and_contiguous_positions_are_exact() {
    let bank: [F; 8] = std::array::from_fn(|i| elem(i, 0xB4A9));
    let companion: [F; 8] = std::array::from_fn(|i| elem(i, 0xC09A));
    let joint = interleave_joint_source_leaf(&bank, &companion);
    for pair in 0..JOINT_SOURCE_BANK_SYMBOLS {
        assert_eq!(joint[2 * pair], bank[pair]);
        assert_eq!(joint[2 * pair + 1], companion[pair]);
    }

    for leaf in [0, 1, 255, 256, SOURCE_LEAF_COUNT - 1] {
        let positions = joint_source_leaf_positions(leaf).unwrap();
        assert_eq!(positions, std::array::from_fn(|member| 8 * leaf + member));
    }

    // The numbers below are those of the repeated code, which is another one than
    // an affine code whose every symbol mixes the padding: there the leaves 0..64
    // and 17 would be hidden as well. Of the repeated code the leaves 64..128 read
    // padding only, each place once.
    let leaves: Vec<usize> = (64..128).collect();
    let certificate =
        certify_source_query_hiding_rank::<F, RepeatedCode>(&RepeatedCode, &leaves).unwrap();
    assert_eq!(certificate.distinct_query_count, 512);
    assert_eq!(certificate.certified_rank, 512);

    let repeated = [81usize; 64];
    let certificate =
        certify_source_query_hiding_rank::<F, RepeatedCode>(&RepeatedCode, &repeated).unwrap();
    assert_eq!(certificate.distinct_query_count, 8);
    assert_eq!(certificate.certified_rank, 8);

    // The leaves 0..64 show the state itself.
    let leaves: Vec<usize> = (0..64).collect();
    assert_eq!(
        certify_source_query_hiding_rank::<F, RepeatedCode>(&RepeatedCode, &leaves),
        Ok(AffineHighPaddingRankCertificate { distinct_query_count: 512, certified_rank: 0 })
    );
    assert_eq!(
        certify_source_query_hiding_rank::<F, RepeatedCode>(&RepeatedCode, &[3, SOURCE_LEAF_COUNT]),
        Err(ZkCapsuleAlgebraError::SourceLeafOutOfRange)
    );
}

#[test]
fn gamma_then_source_and_mid_folds_match_full_affine_codewords() {
    let code = RepeatedCode;
    let bank = message(0xB4A9);
    let companion = message(0xC09A);
    let gamma = elem(3, 0x6A77A);
    let source_challenges: [F; 3] = std::array::from_fn(|i| elem(i, 0x503CE));
    let mid_challenges: [F; 4] = std::array::from_fn(|i| elem(i, 0xA11D));

    let bank_code = code.encode_after_low_folds(&bank, 0).unwrap();
    let companion_code = code.encode_after_low_folds(&companion, 0).unwrap();
    assert_eq!(bank_code.len(), DOMAIN_LEN);
    let virtual_message: Vec<F> = bank
        .iter()
        .zip(companion.iter())
        .map(|(&b, &c)| b.plus(gamma.times(b.plus(c))))
        .collect();
    let mut mid_code = code.encode_after_low_folds(&virtual_message, 0).unwrap();
    for (round, &challenge) in source_challenges.iter().enumerate() {
        mid_code = fold_codeword_once(&mid_code, round, challenge);
    }

    for source_leaf in [0, 1, 127, 4_097, SOURCE_LEAF_COUNT - 1] {
        let joint = build_joint_source_leaf(&bank_code, &companion_code, source_leaf).unwrap();
        assert_eq!(
            fold_joint_source_leaf(&code, &joint, gamma, source_leaf, &source_challenges).unwrap(),
            mid_code[source_leaf]
        );
        let line = joint_source_line_fold(&joint, gamma);
        assert_eq!(
            source_standard_fold3(&code, &line, source_leaf, &source_challenges).unwrap(),
            mid_code[source_leaf]
        );
    }

    let mut tail_code = mid_code.clone();
    for (inner, &challenge) in mid_challenges.iter().enumerate() {
        tail_code = fold_codeword_once(&tail_code, SOURCE_STANDARD_FOLDS + inner, challenge);
    }
    for mid_leaf in [0, 1, 31, 255, MID_LEAF_COUNT - 1] {
        let leaf = build_mid_leaf(&mid_code, mid_leaf).unwrap();
        assert_eq!(
            mid_standard_fold4(&code, &leaf, mid_leaf, &mid_challenges).unwrap(),
            tail_code[mid_leaf]
        );
    }
}

#[test]
fn phase_b_upper_and_tail_link_the_same_bank() {
    let code = RepeatedCode;
    let bank = message(0xB411C);
    let claim_point: [F; OWNER_BANK_POINT_VARS] = std::array::from_fn(|i| elem(i, 0xC1A1));
    let low_point: [F; PHASE_B_LOW_VARS] = std::array::from_fn(|i| claim_point[i]);
    let high_point: [F; PHASE_B_HIGH_VARS] =
        std::array::from_fn(|i| claim_point[PHASE_B_LOW_VARS + i]);
    let beta: [F; PHASE_B_LOW_VARS] = std::array::from_fn(|i| elem(i, 0xBE7A));

    let upper = contract_high3_for_each_low8(&bank, &high_point);
    assert_eq!(evaluate_upper_at_low8(&upper, &low_point), evaluate_slice(&bank, &claim_point));

    let h = fold_bank_low8(&bank, &beta);
    assert_eq!(evaluate_upper_at_low8(&upper, &beta), evaluate_slice(&h, &high_point));

    let mut after_seven = bank.to_vec();
    for &challenge in &beta[..SOURCE_STANDARD_FOLDS + MID_STANDARD_FOLDS] {
        fold_low_in_place(&mut after_seven, challenge);
    }
    let tail: [F; TAIL_SYMBOLS] = after_seven.try_into().unwrap();
    assert_eq!(tail16_local_fold(&tail, beta[7]), h);
    assert_eq!(encode_tail16(&code, &tail).unwrap().len(), 512);
}

#[test]
fn fundamental_slice_embedding_uses_arbitrary_terminal_high_coordinates() {
    let relation: [F; 512] = std::array::from_fn(|i| elem(i, 0xAE1A710));
    let embedded = fundamental_slice_relation_embedding(&relation);
    let terminal: [F; 11] = std::array::from_fn(|i| elem(i + 17, 0x7E2A11));
    let low_point: [F; 9] = std::array::from_fn(|i| terminal[i]);
    let alignment_point = fundamental_slice_alignment_point(&low_point);

    assert_eq!(
        evaluate_slice(&embedded, &alignment_point),
        evaluate_slice(&relation, &low_point)
    );
    assert_eq!(
        evaluate_slice(&embedded, &terminal),
        evaluate_fundamental_slice_embedding(&relation, &terminal)
    );
    let (zero, one) = (F::from_u128(0), F::from_u128(1));
    assert_eq!(eq_high_zero(&[zero; 2]), one);
    assert_eq!(eq_high_zero(&[one, zero]), zero);
}

#[test]
fn tail_local_fold_consumes_the_low_remaining_variable() {
    let tail: [F; 16] = std::array::from_fn(|i| elem(i, 0x7A11));
    let challenge = elem(4, 0x10CA1);
    let got = tail16_local_fold(&tail, challenge);
    let expected: [F; 8] = std::array::from_fn(|i| {
        tail[2 * i].plus(challenge.times(tail[2 * i].plus(tail[2 * i + 1])))
    });

    assert_eq!(got, expected);
    assert_eq!(
        tail16_local_fold(&tail, F::from_u128(0)),
        std::array::from_fn(|i| tail[2 * i])
    );
    assert_eq!(
        tail16_local_fold(&tail, F::from_u128(1)),
        std::array::from_fn(|i| tail[2 * i + 1])
    );
}

#[test]
fn an_error_of_the_code_becomes_one_of_the_algebra() {
    assert_eq!(
        ZkCapsuleAlgebraError::from(ZkAffineCodeError::PositionOutOfRange),
        ZkCapsuleAlgebraError::AffineCode(ZkAffineCodeError::PositionOutOfRange)
    );
}

#[test]
fn leaves_and_words_of_other_lengths_are_refused() {
    let word = vec![F::from_u128(1); DOMAIN_LEN];
    assert_eq!(
        build_joint_source_leaf(&word, &word[1..], 0),
        Err(ZkCapsuleAlgebraError::SourceCodewordLengthMismatch)
    );
    assert_eq!(
        build_joint_source_leaf(&word, &word, SOURCE_LEAF_COUNT),
        Err(ZkCapsuleAlgebraError::SourceLeafOutOfRange)
    );
    assert_eq!(
        build_mid_leaf(&word, 0),
        Err(ZkCapsuleAlgebraError::MidCodewordLengthMismatch)
    );
    assert_eq!(
        build_mid_leaf(&word[..MID_DOMAIN_LEN], MID_LEAF_COUNT),
        Err(ZkCapsuleAlgebraError::MidLeafOutOfRange)
    );
    assert_eq!(
        RepeatedCode.encode_after_low_folds(&word[..3], 0),
        Err(ZkAffineCodeError::MessageLengthMismatch)
    );
    assert_eq!(
        RepeatedCode.fold_contiguous_coset(&word[..3], 0, 0, &word[..2]),
        Err(ZkAffineCodeError::CosetLengthMismatch)
    );
    assert_eq!(
        AffineCode::<F>::certify_high_padding_rank(&RepeatedCode, &[DOMAIN_LEN]),
        Err(ZkAffineCodeError::PositionOutOfRange)
    );
}
