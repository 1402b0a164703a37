//! Commitments and their openings.
use noid_gkr::auth_pcs::{
    absorb_auth_mle_commitment, commit_auth_mle_column, commit_auth_mle_columns,
    open_auth_mle_columns_committed, open_auth_mle_committed, verify_auth_mle_multi_opening,
    verify_auth_mle_opening, AUTH_PCS_BASE_LOG,
};
use noid_gkr::batch_eval::BatchEvalReduction;
use noid_gkr::column_scheme::MixedScheme;
use noid_gkr::described::{source_message, Described};
use noid_gkr::batched_open::{prove_batched_opening, verify_batched_opening, BatchedOpenError, BatchedOpeningProof};
use noid_gkr::compact_fri::{
    compact_fri_prove, compact_fri_verify, CompactEvalProof, CompactFriError, COMPACT_TAU,
};
use noid_gkr::eval_scheme::CompactScheme;
use noid_gkr::field::{BinaryField, TowerField};
use noid_gkr::fri::{Blake3Hasher, CryptographicHasher, FriCode, TensorCode, RATE};
use noid_gkr::high_fold::{
    build_high_tensor_layers, build_high_tensor_layers_from_source_code, high_pair_leaf_hash,
    high_pair_leaf_index, high_pair_parity, high_pair_positions, tensor_high_fold_pair,
};
use noid_gkr::interleaved_commit::{
    absorb_cap, interleaved_commit, source_leaf_hash, source_leaf_positions,
    source_tree_depth, verify_source_batched_merkle_proof, InterleavedCommitment, CAP_SEGMENTS,
};
use noid_gkr::merkle::{
    build_batched_merkle_proof, verify_batched_merkle_proof, BatchedMerkleProof, MerkleBatchError,
    MerkleTree, NodeHasher,
};
use noid_gkr::mixed_open::{
    compute_batched_claim_flat, prove_mixed_opening, verify_mixed_opening, EvalClaim,
    MixedOpenError, MixedOpeningProof,
};
use noid_gkr::mle::{evaluate_slice, fold_highest_var};
use noid_gkr::source_binding::{reduce_source_pair_flat, SourceBindingError};
use noid_gkr::short_hash::{
    build_short_batched_merkle_proof, short_hash_of, short_hash_to_output,
    verify_short_batched_merkle_proof, ShortHash, ShortMerkleTree,
};
use noid_gkr::tower::Tower128;
use noid_gkr::transcript::{ElementTranscript, FiatShamir};

type F = Tower128;

const TEST_LOG_ROWS: usize = 8;
const TEST_NUM_QUERIES: usize = 2;

type Scheme = MixedScheme<TensorCode, Blake3Hasher, ElementTranscript<F>>;

fn el(bits: u128) -> F {
    F::from_u128(bits)
}

fn scheme() -> Scheme {
    MixedScheme {
        code: TensorCode,
        hasher: Blake3Hasher,
        num_queries: 4,
        channel: ElementTranscript::new(),
    }
}

fn test_columns_with_log(log_rows: usize) -> Vec<Vec<F>> {
    let n = 1usize << log_rows;
    vec![
        (0..n).map(|i| el((i as u128).wrapping_mul(3) ^ 0x1234)).collect(),
        (0..n).map(|i| el((i as u128).wrapping_mul(5) ^ 0xABCD)).collect(),
        (0..n).map(|i| el((i as u128).wrapping_mul(7) ^ 0xCAFE)).collect(),
    ]
}

fn refs(cols: &[Vec<F>]) -> Vec<&[F]> {
    cols.iter().map(Vec::as_slice).collect()
}

type Fixture = (InterleavedCommitment, Vec<F>, Vec<EvalClaim<F>>, MixedOpeningProof<F>);

fn valid_fixture_with_log(log_rows: usize, num_queries: usize) -> Fixture {
    let cols = test_columns_with_log(log_rows);
    let (commitment, state) = interleaved_commit(&refs(&cols), &TensorCode);
    let primary_point: Vec<F> = (0..log_rows).map(|i| el(0x1000u128 + i as u128)).collect();
    let secondary_claims = vec![EvalClaim {
        col_index: 1,
        eval_point: (0..log_rows).map(|i| el(0x2000u128 + i as u128)).collect(),
        value: el(0xDEAD_BEEF),
    }];

    let mut prover_channel = ElementTranscript::new();
    absorb_cap(&mut prover_channel, &commitment.cap);
    let proof = prove_mixed_opening(
        &state,
        &primary_point,
        &secondary_claims,
        &TensorCode,
        &mut prover_channel,
        &Blake3Hasher,
        num_queries,
    );
    (commitment, primary_point, secondary_claims, proof)
}

fn valid_fixture() -> Fixture {
    valid_fixture_with_log(TEST_LOG_ROWS, TEST_NUM_QUERIES)
}

fn verify_with(
    commitment: &InterleavedCommitment,
    primary_point: &[F],
    claims: &[EvalClaim<F>],
    proof: &MixedOpeningProof<F>,
    num_queries: usize,
) -> Result<Vec<F>, MixedOpenError> {
    let mut channel = ElementTranscript::new();
    absorb_cap(&mut channel, &commitment.cap);
    verify_mixed_opening(
        commitment,
        primary_point,
        claims,
        proof,
        &TensorCode,
        &mut channel,
        &Blake3Hasher,
        num_queries,
    )
}

#[test]
fn source_pair_reduction_matches_batched_code_symbols() {
    let cols = test_columns_with_log(TEST_LOG_ROWS);
    let (_commitment, state) = interleaved_commit(&refs(&cols), &TensorCode);
    let gamma = el(0xBAD5_EED);
    // The weight of a column is the combination of its unit vector.
    let weights: Vec<F> = (0..state.n_cols)
        .map(|k| {
            let unit: Vec<F> = (0..state.n_cols).map(|c| el((c == k) as u128)).collect();
            compute_batched_claim_flat(gamma, &unit)
        })
        .collect();
    let n = 1usize << state.log_rows;

    let c_evals: Vec<F> = (0..n)
        .map(|row| {
            let symbols: Vec<F> = cols.iter().map(|col| col[row]).collect();
            compute_batched_claim_flat(gamma, &symbols)
        })
        .collect();
    let c_code = TensorCode.encode(&c_evals);

    for leaf_idx in 0..RATE * (1usize << (state.log_rows - 1)) {
        let (pos0, pos1) = source_leaf_positions(state.log_rows, leaf_idx);
        let mut symbols = Vec::with_capacity(state.n_cols * 2);
        for col in &state.encoded_cols {
            symbols.push(col[pos0]);
            symbols.push(col[pos1]);
        }
        let reduced = reduce_source_pair_flat(&symbols, &weights);
        assert_eq!(reduced.0, c_code[pos0], "pos0 mismatch leaf {leaf_idx}");
        assert_eq!(reduced.1, c_code[pos1], "pos1 mismatch leaf {leaf_idx}");
    }
}

#[test]
fn high_tensor_fold_matches_code_new_parallel() {
    let mut current: Vec<F> = (0..(1usize << TEST_LOG_ROWS))
        .map(|i| el((i as u128).wrapping_mul(0x1_0001) ^ 0xA11CE))
        .collect();
    let beta: Vec<F> = (0..TEST_LOG_ROWS).map(|i| el(0x7000u128 + i as u128)).collect();

    for round in 0..TEST_LOG_ROWS {
        let layer_log = TEST_LOG_ROWS - round;
        let r = beta[TEST_LOG_ROWS - 1 - round];
        let code_before = TensorCode.encode(&current);
        let mut folded = current.clone();
        fold_highest_var(&mut folded, r);
        let code_after = TensorCode.encode(&folded);
        for leaf_idx in 0..(RATE * (1usize << (layer_log - 1))) {
            let (pos0, pos1) = high_pair_positions(layer_log, leaf_idx);
            let got = tensor_high_fold_pair(
                r,
                layer_log,
                leaf_idx,
                code_before[pos0],
                code_before[pos1],
            );
            assert_eq!(
                got, code_after[leaf_idx],
                "high TensorFold mismatch round {round} layer_log {layer_log} leaf {leaf_idx}"
            );
            assert_eq!(high_pair_leaf_index(pos0, layer_log), leaf_idx);
            assert_eq!(high_pair_leaf_index(pos1, layer_log), leaf_idx);
            assert_eq!(
                (high_pair_parity(pos0, layer_log), high_pair_parity(pos1, layer_log)),
                (0, 1)
            );
        }
        current = folded;
    }
}

#[test]
fn source_code_high_tensor_layers_match_ntt_rebuild_path() {
    let log_rows = COMPACT_TAU + 2;
    let tau = COMPACT_TAU;
    let c_evals: Vec<F> = (0..(1usize << log_rows))
        .map(|i| el((i as u128).wrapping_mul(0x10_0001) ^ 0xD1A6))
        .collect();
    let beta: Vec<F> = (0..tau).map(|i| el(0x9100u128 + i as u128)).collect();
    let source_code = TensorCode.encode(&c_evals);

    let (h_ref, layers_ref) = build_high_tensor_layers(&c_evals, &beta, &TensorCode);
    let (h_direct, layers_direct) =
        build_high_tensor_layers_from_source_code(&c_evals, &source_code, &beta, &TensorCode);

    assert_eq!(h_ref, h_direct);
    assert_eq!(layers_ref.len(), layers_direct.len());
    for (idx, (a, b)) in layers_ref.iter().zip(layers_direct.iter()).enumerate() {
        assert_eq!(a.log_rows, b.log_rows, "layer {idx} log_rows mismatch");
        assert_eq!(a.code, b.code, "layer {idx} code mismatch");
        assert_eq!(a.tree.get_root(), b.tree.get_root(), "layer {idx} root mismatch");
    }
}

#[test]
fn valid_secondary_claim_hygiene_passes() {
    let (commitment, primary_point, claims, proof) = valid_fixture();
    let values = verify_with(&commitment, &primary_point, &claims, &proof, TEST_NUM_QUERIES)
        .expect("valid mixed opening must verify");
    let cols = test_columns_with_log(TEST_LOG_ROWS);
    let want: Vec<F> = cols.iter().map(|c| evaluate_slice(c, &primary_point)).collect();
    assert_eq!(values, want);
}

#[test]
fn valid_round0_source_binding_path_passes() {
    let log_rows = COMPACT_TAU + 2;
    let num_queries = 3;
    let (commitment, primary_point, claims, proof) = valid_fixture_with_log(log_rows, num_queries);
    verify_with(&commitment, &primary_point, &claims, &proof, num_queries)
        .expect("valid mixed opening with compact FRI round-0 source binding must verify");
    let parts = proof.fri_proof.byte_len() + proof.source_proof.byte_len();
    assert_eq!(proof.byte_len(), 4 * 16 + parts);

    // 16 a field element, 32 a digest of the source tree, 16 one of a layer.
    let source = &proof.source_proof;
    let pairs: usize = source.folded_queried_symbols.iter().map(Vec::len).sum();
    let folded: usize = source.folded_merkle_batch.iter().map(|b| b.siblings.len()).sum();
    let elements = source.h_evals.len() + source.source_symbols.len() + 2 * pairs;
    let digests = COMPACT_TAU - 1 + folded;
    assert_eq!(source.folded_roots.len(), COMPACT_TAU - 1);
    let siblings = source.source_merkle_batch.siblings.len();
    assert_eq!(source.byte_len(), 16 * (elements + digests) + 32 * siblings);
}

#[test]
fn tampered_folded_layer_rejects() {
    let log_rows = COMPACT_TAU + 2;
    let num_queries = 3;
    let (commitment, primary_point, claims, proof) = valid_fixture_with_log(log_rows, num_queries);
    let check = |bad: &MixedOpeningProof<F>| {
        verify_with(&commitment, &primary_point, &claims, bad, num_queries)
    };
    let mut bad = proof.clone();
    bad.source_proof.folded_queried_symbols[2].pop();
    assert_eq!(
        check(&bad),
        Err(MixedOpenError::Fri(CompactFriError::Hook(SourceBindingError::SymbolCount {
            layer: 2,
            expected: 3,
            got: 2
        })))
    );
    let mut bad = proof.clone();
    bad.source_proof.folded_merkle_batch[1].siblings.push([0; 16]);
    let total = bad.source_proof.folded_merkle_batch[1].siblings.len();
    let err = check(&bad).expect_err("an unused sibling must reject");
    assert_eq!(
        err,
        MixedOpenError::Fri(CompactFriError::Hook(SourceBindingError::Merkle(
            MerkleBatchError::UnusedSiblings { consumed: total - 1, total }
        )))
    );
    assert_eq!(
        err.message(),
        format!("unused source siblings: consumed {}, total {total}", total - 1)
    );
    let mut bad = proof;
    bad.source_proof.folded_merkle_batch[0].siblings[0][15] ^= 1;
    assert_eq!(
        check(&bad),
        Err(MixedOpenError::Fri(CompactFriError::Hook(SourceBindingError::Merkle(
            MerkleBatchError::RootMismatch
        ))))
    );
}

#[test]
fn tampered_round0_fri_root_rejects_source_binding() {
    let log_rows = COMPACT_TAU + 2;
    let num_queries = 3;
    let (commitment, primary_point, claims, mut proof) =
        valid_fixture_with_log(log_rows, num_queries);
    proof.fri_proof.fri_roots[0][0] ^= 1;
    let err = verify_with(&commitment, &primary_point, &claims, &proof, num_queries)
        .expect_err("tampered compact FRI round-0 root must reject");
    assert!(
        matches!(
            err,
            MixedOpenError::Fri(CompactFriError::Hook(SourceBindingError::RoundZeroRoot))
                | MixedOpenError::Fri(CompactFriError::Merkle(_))
                | MixedOpenError::Fri(CompactFriError::Sumcheck { .. })
        ),
        "unexpected error: {err:?}"
    );
}

#[test]
fn tampered_source_h_rejects_round0_binding() {
    let log_rows = COMPACT_TAU + 2;
    let num_queries = 3;
    let (commitment, primary_point, claims, mut proof) =
        valid_fixture_with_log(log_rows, num_queries);
    proof.source_proof.h_evals[0] = proof.source_proof.h_evals[0].plus(el(1));
    let err = verify_with(&commitment, &primary_point, &claims, &proof, num_queries)
        .expect_err("tampered source H table must reject");
    assert!(matches!(err, MixedOpenError::Fri(_)), "unexpected error: {err:?}");
}

#[test]
fn secondary_claim_value_mismatch_rejects_before_fri() {
    let (commitment, primary_point, mut claims, proof) = valid_fixture();
    claims[0].value = claims[0].value.plus(el(1));
    let err = verify_with(&commitment, &primary_point, &claims, &proof, TEST_NUM_QUERIES)
        .expect_err("mismatched secondary claim value must reject");
    assert_eq!(
        err,
        MixedOpenError::ClaimValueMismatch {
            index: 0,
            opening: 0xDEAD_BEEF,
            claim: 0xDEAD_BEEE
        }
    );
    assert_eq!(
        err.message(),
        "Secondary claim value mismatch at index 0: opening 3735928559 != claim 3735928558"
    );
}

#[test]
fn secondary_claim_column_out_of_range_rejects_before_fri() {
    let (commitment, primary_point, mut claims, proof) = valid_fixture();
    claims[0].col_index = commitment.n_cols;
    let err = verify_with(&commitment, &primary_point, &claims, &proof, TEST_NUM_QUERIES)
        .expect_err("out-of-range secondary claim column must reject");
    assert_eq!(err, MixedOpenError::ColumnOutOfRange { index: 0, col_index: 3, n_cols: 3 });
    assert_eq!(
        err.message(),
        "Secondary claim column out of range: col_index=3 n_cols=3"
    );
}

#[test]
fn secondary_claim_eval_point_dimension_mismatch_rejects_before_fri() {
    let (commitment, primary_point, mut claims, proof) = valid_fixture();
    claims[0].eval_point.pop();
    let err = verify_with(&commitment, &primary_point, &claims, &proof, TEST_NUM_QUERIES)
        .expect_err("secondary claim dimension mismatch must reject");
    assert_eq!(err, MixedOpenError::ClaimPointDimension { index: 0, expected: 8, got: 7 });
    assert_eq!(
        err.message(),
        "Secondary claim eval point dimension mismatch at index 0: expected 8, got 7"
    );
}

#[test]
fn mixed_opening_of_another_shape_is_refused() {
    let (commitment, primary_point, claims, proof) = valid_fixture();
    let err = verify_with(&commitment, &primary_point, &[], &proof, TEST_NUM_QUERIES);
    assert_eq!(err, Err(MixedOpenError::OpeningCount));
    let err =
        verify_with(&commitment, &primary_point[1..], &claims, &proof, TEST_NUM_QUERIES);
    assert_eq!(err, Err(MixedOpenError::PointDimension));
}

#[test]
fn commit_to_a_open_from_a_prime_must_reject_after_s1_fix() {
    let log_rows = COMPACT_TAU + 2;
    let num_queries = 3;
    let cols_a = test_columns_with_log(log_rows);
    let mut cols_b = cols_a.clone();
    for (col_idx, col) in cols_b.iter_mut().enumerate() {
        for (row_idx, value) in col.iter_mut().enumerate() {
            *value = value.plus(el(
                0xA5A5_0000_0000_0000u128 ^ ((col_idx as u128) << 16) ^ row_idx as u128,
            ));
        }
    }

    let (commitment_a, _state_a) = interleaved_commit(&refs(&cols_a), &TensorCode);
    let refs_b = refs(&cols_b);
    let (commitment_b, state_b) = interleaved_commit(&refs_b, &TensorCode);
    assert_ne!(
        commitment_a.cap, commitment_b.cap,
        "test must use two distinct committed column sets"
    );

    let primary_point: Vec<F> = (0..log_rows).map(|i| el(0x3000u128 + i as u128)).collect();
    let secondary_claims = Vec::new();

    // Malicious shape: the Fiat-Shamir prefix uses commitment A, while the
    // prover-side columns used to build all_openings and C(x) come from A'.
    // A source-bound opening must reject this mixed state.
    let mut prover_channel = ElementTranscript::new();
    absorb_cap(&mut prover_channel, &commitment_a.cap);
    let proof_from_b = prove_mixed_opening(
        &state_b,
        &primary_point,
        &secondary_claims,
        &TensorCode,
        &mut prover_channel,
        &Blake3Hasher,
        num_queries,
    );

    let result =
        verify_with(&commitment_a, &primary_point, &secondary_claims, &proof_from_b, num_queries);
    assert!(
        result.is_err(),
        "verifier accepted an opening proof built from A' against commitment(A)"
    );
    assert_eq!(
        result,
        Err(MixedOpenError::Fri(CompactFriError::Hook(SourceBindingError::Merkle(
            MerkleBatchError::RootMismatch
        ))))
    );
}

fn fri_fixture(log_n: usize) -> (Vec<F>, Vec<F>, CompactEvalProof<F>) {
    let evals: Vec<F> =
        (0..1usize << log_n).map(|i| el((i as u128).wrapping_mul(0x1F3D_5B79) ^ 0x77)).collect();
    let point: Vec<F> = (0..log_n).map(|i| el(0x4400 + 3 * i as u128)).collect();
    let mut channel = ElementTranscript::new();
    let proof =
        compact_fri_prove(&evals, &point, &TensorCode, &mut channel, &Blake3Hasher, 5);
    (evals, point, proof)
}

fn fri_check(point: &[F], eval: F, proof: &CompactEvalProof<F>) -> Result<(), CompactFriError<()>> {
    let mut channel = ElementTranscript::new();
    compact_fri_verify(point, eval, proof, &TensorCode, &mut channel, &Blake3Hasher, 5)
}

#[test]
fn compact_opening_round_trip_and_refusals() {
    let (evals, point, proof) = fri_fixture(11);
    let eval = evaluate_slice(&evals, &point);
    assert_eq!(fri_check(&point, eval, &proof), Ok(()));

    assert_eq!(fri_check(&point, eval.plus(el(1)), &proof), Err(CompactFriError::EvalMismatch));
    let mut bad = proof.clone();
    bad.upper_partial_evals.pop();
    assert_eq!(
        fri_check(&point, eval, &bad),
        Err(CompactFriError::UpperLength { expected: 256, got: 255 })
    );
    let mut bad = proof.clone();
    bad.sum_check_oracles.pop();
    assert_eq!(fri_check(&point, eval, &bad), Err(CompactFriError::RoundCount));
    let mut bad = proof.clone();
    bad.sum_check_oracles[1][1] = bad.sum_check_oracles[1][1].plus(el(1));
    assert_eq!(fri_check(&point, eval, &bad), Err(CompactFriError::Sumcheck { round: 1 }));
    let mut bad = proof.clone();
    bad.fri_queried_symbols[0].pop();
    assert_eq!(fri_check(&point, eval, &bad), Err(CompactFriError::SymbolCount { round: 0 }));
    let mut bad = proof.clone();
    bad.fri_queried_symbols[0][0].0 = bad.fri_queried_symbols[0][0].0.plus(el(1));
    assert!(fri_check(&point, eval, &bad).is_err());
    let mut bad = proof;
    bad.fri_roots[2][5] ^= 1;
    assert!(fri_check(&point, eval, &bad).is_err());
}

#[test]
fn batched_opening_round_trip_and_refusals() {
    let log_rows = 9;
    let cols = test_columns_with_log(log_rows);
    let (commitment, state) = interleaved_commit(&refs(&cols), &TensorCode);
    let point: Vec<F> = (0..log_rows).map(|i| el(0x5100 + i as u128)).collect();
    let scheme = CompactScheme { code: TensorCode, hasher: Blake3Hasher, num_queries: 4 };
    let mut ch_p = ElementTranscript::new();
    let proof = prove_batched_opening(&state, &point, &TensorCode, &mut ch_p, &scheme);
    let want: Vec<F> = cols.iter().map(|c| evaluate_slice(c, &point)).collect();
    assert_eq!(proof.column_openings, want);
    assert_eq!(
        proof.byte_len::<ElementTranscript<F>, CompactScheme<TensorCode, Blake3Hasher>>(),
        3 * 16 + 9 * 48 + proof.fri_proof.byte_len()
    );
    let check = |proof: &BatchedOpeningProof<F, CompactEvalProof<F>>, point: &[F]| {
        let mut ch_v = ElementTranscript::new();
        verify_batched_opening(&commitment, point, proof, &mut ch_v, &scheme)
    };
    assert_eq!(check(&proof, &point), Ok(want));

    let mut bad = proof.clone();
    bad.column_openings.pop();
    assert_eq!(check(&bad, &point), Err(BatchedOpenError::ColumnCount));
    let mut bad = proof.clone();
    bad.sumcheck_rounds.pop();
    assert_eq!(check(&bad, &point), Err(BatchedOpenError::RoundCount));
    assert_eq!(check(&proof, &point[1..]), Err(BatchedOpenError::PointDimension));
    let mut bad = proof.clone();
    bad.sumcheck_rounds[4][1] = bad.sumcheck_rounds[4][1].plus(el(1));
    assert_eq!(check(&bad, &point), Err(BatchedOpenError::Sumcheck { round: 4 }));
    let mut bad = proof.clone();
    bad.column_openings[2] = bad.column_openings[2].plus(el(1));
    assert_eq!(check(&bad, &point), Err(BatchedOpenError::Sumcheck { round: 0 }));
    let mut bad = proof.clone();
    bad.sumcheck_rounds[8][2] = bad.sumcheck_rounds[8][2].plus(el(1));
    assert_eq!(check(&bad, &point), Err(BatchedOpenError::TerminalClaim));
    let mut bad = proof;
    bad.fri_proof.fri_roots[0][0] ^= 1;
    assert!(matches!(check(&bad, &point), Err(BatchedOpenError::Fri(_))));
}

#[test]
fn auth_mle_opening_roundtrip() {
    let num_vars = AUTH_PCS_BASE_LOG + 2;
    let column: Vec<F> =
        (0..(1usize << num_vars)).map(|i| el((i as u128).wrapping_mul(17) ^ 0xA5A5)).collect();
    let point: Vec<F> = (0..num_vars).map(|i| el(0x1000u128 + i as u128)).collect();
    let value = evaluate_slice(&column, &point);
    let reduction = BatchEvalReduction { point, value };

    let mut committed = commit_auth_mle_column(&column, num_vars, &scheme());
    let proof = open_auth_mle_committed(
        &mut committed,
        num_vars,
        &reduction,
        &scheme(),
    );
    assert!(committed.state.is_none());
    assert!(verify_auth_mle_opening(
        &proof,
        num_vars,
        &reduction,
        &scheme(),
    ));
    assert_eq!(proof.byte_len::<F, Scheme>(), 33 * 32 + proof.opening.byte_len());
    assert!(!verify_auth_mle_opening(
        &proof,
        AUTH_PCS_BASE_LOG - 1,
        &reduction,
        &scheme(),
    ));
}

#[test]
fn auth_mle_opening_rejects_wrong_value() {
    let num_vars = AUTH_PCS_BASE_LOG + 1;
    let column: Vec<F> =
        (0..(1usize << num_vars)).map(|i| el((i as u128).wrapping_mul(9) ^ 0x5A5A)).collect();
    let point: Vec<F> = (0..num_vars).map(|i| el(0x2000u128 + i as u128)).collect();
    let value = evaluate_slice(&column, &point);
    let reduction = BatchEvalReduction { point, value };
    let mut committed = commit_auth_mle_column(&column, num_vars, &scheme());
    let proof = open_auth_mle_committed(
        &mut committed,
        num_vars,
        &reduction,
        &scheme(),
    );

    let bad = BatchEvalReduction {
        point: reduction.point.clone(),
        value: reduction.value.plus(el(1)),
    };
    assert!(!verify_auth_mle_opening(
        &proof,
        num_vars,
        &bad,
        &scheme(),
    ));
}

#[test]
fn several_columns_open_at_one_point() {
    let num_vars = AUTH_PCS_BASE_LOG;
    let cols = test_columns_with_log(num_vars);
    let point: Vec<F> = (0..num_vars).map(|i| el(0x6600 + i as u128)).collect();
    let refs = refs(&cols);
    let mut committed = commit_auth_mle_columns(&refs, num_vars, &scheme());
    let proof = open_auth_mle_columns_committed(
        &mut committed,
        num_vars,
        &point,
        &scheme(),
    );
    let mut values: Vec<F> = cols.iter().map(|c| evaluate_slice(c, &point)).collect();
    let check = |values: &[F]| {
        verify_auth_mle_multi_opening(
            &proof,
            num_vars,
            &point,
            values,
            &scheme(),
        )
    };
    assert!(check(&values));
    assert!(!check(&values[1..]));
    values[2] = values[2].plus(el(1));
    assert!(!check(&values));
}

#[test]
fn transcript_absorbs_the_whole_commitment() {
    let cols = test_columns_with_log(AUTH_PCS_BASE_LOG);
    let committed = commit_auth_mle_columns(&refs(&cols), AUTH_PCS_BASE_LOG, &scheme());
    let mut a = ElementTranscript::<F>::new();
    absorb_auth_mle_commitment::<F, ElementTranscript<F>, Scheme>(&mut a, &committed.commitment);
    let mut b = ElementTranscript::<F>::new();
    b.absorb(el(0xA07D_6B12_C011_17ED));
    b.absorb(el(9));
    b.absorb(el(33));
    for h in &committed.commitment.cap.hashes {
        b.absorb(el(u128::from_le_bytes(h[..16].try_into().unwrap())));
        b.absorb(el(u128::from_le_bytes(h[16..].try_into().unwrap())));
    }
    assert_eq!(a, b);
}

#[test]
fn node_hash_is_blake3_of_both_children() {
    let (left, right) = ([7u8; 32], [9u8; 32]);
    let mut message = left.to_vec();
    message.extend_from_slice(&right);
    let want = *blake3::hash(&message).as_bytes();
    assert_eq!(Blake3Hasher.compress(&left, &right), want);
    let (s0, s1) = (el(0x1122), el(0x3344));
    let mut message = 0x1122u128.to_le_bytes().to_vec();
    message.extend_from_slice(&0x3344u128.to_le_bytes());
    assert_eq!(Blake3Hasher.hash_pair(&s0, &s1), *blake3::hash(&message).as_bytes());
}

#[test]
fn commitment_tree_opens_at_its_leaves() {
    let log_rows = 6;
    let cols = test_columns_with_log(log_rows);
    let (commitment, state) = interleaved_commit(&refs(&cols), &TensorCode);
    assert_eq!(commitment.cap.hashes.len(), CAP_SEGMENTS + 1);
    assert_eq!((commitment.n_cols, commitment.log_rows), (3, 6));
    assert_eq!(commitment.tree_depth(), 6);
    assert_eq!(source_tree_depth(log_rows), 7);
    let leaves = [3usize, 77, 78, 12, 3];
    let batch = state.source_tree.build_batched_merkle_proof(
        &state.encoded_cols,
        log_rows,
        &leaves,
    );
    let hashes: Vec<[u8; 32]> = leaves
        .iter()
        .map(|&leaf| {
            let (a, b) = source_leaf_positions(log_rows, leaf);
            let mut symbols = Vec::new();
            for col in &state.encoded_cols {
                symbols.push(col[a]);
                symbols.push(col[b]);
            }
            source_leaf_hash(log_rows, 3, leaf, &symbols)
        })
        .collect();
    let root = commitment.cap.hashes[CAP_SEGMENTS];
    assert_eq!(
        verify_source_batched_merkle_proof(&root, &batch, 7, &leaves, &hashes),
        Ok(())
    );
    let mut wrong = hashes.clone();
    wrong[1][0] ^= 1;
    assert_eq!(
        verify_source_batched_merkle_proof(&root, &batch, 7, &leaves, &wrong),
        Err(MerkleBatchError::RootMismatch)
    );
}

#[test]
fn chunked_source_tree_opens_as_the_full_one() {
    // Over depth 18 the tree keeps roots of chunks and rebuilds what it needs.
    let log_rows = 18;
    let column: Vec<F> = (0..1usize << log_rows).map(|i| el(i as u128 * 0x9E37_79B9)).collect();
    let (commitment, state) = interleaved_commit(&[column.as_slice()], &TensorCode);
    let leaves = [0usize, 255, 256, 400_000];
    assert_eq!(commitment.tree_depth(), log_rows);
    let depth = source_tree_depth(log_rows);
    assert_eq!(depth, 19);
    let batch = state.source_tree.build_batched_merkle_proof(
        &state.encoded_cols,
        log_rows,
        &leaves,
    );
    let hashes: Vec<[u8; 32]> = leaves
        .iter()
        .map(|&leaf| {
            let (a, b) = source_leaf_positions(log_rows, leaf);
            let word = &state.encoded_cols[0];
            source_leaf_hash(log_rows, 1, leaf, &[word[a], word[b]])
        })
        .collect();
    assert_eq!(state.source_tree.get_root(), commitment.cap.hashes[CAP_SEGMENTS]);
    assert_eq!(
        verify_source_batched_merkle_proof(
            &state.source_tree.get_root(),
            &batch,
            depth,
            &leaves,
            &hashes
        ),
        Ok(())
    );
}

#[test]
fn batched_merkle_proofs_and_their_refusals() {
    let leaves: Vec<[u8; 32]> = (0..16u8).map(|i| [i + 1; 32]).collect();
    let tree = MerkleTree::new(&Blake3Hasher, leaves.clone(), 4);
    let root = tree.get_root();
    let at = [2usize, 3, 9];
    let hashes: Vec<[u8; 32]> = at.iter().map(|&i| leaves[i]).collect();
    let batch = build_batched_merkle_proof(&Blake3Hasher, &tree, &at, 4);
    let check = |batch: &BatchedMerkleProof, at: &[usize], hashes: &[[u8; 32]]| {
        verify_batched_merkle_proof(&root, batch, 4, at, hashes, &Blake3Hasher)
    };
    assert_eq!(check(&batch, &at, &hashes), Ok(()));
    assert_eq!(check(&batch, &at, &hashes[1..]), Err(MerkleBatchError::CountMismatch));
    assert_eq!(
        check(&batch, &[2, 2, 9], &[leaves[2], leaves[3], leaves[9]]),
        Err(MerkleBatchError::InconsistentLeaf { index: 2 })
    );
    assert_eq!(check(&batch, &[], &[]), Err(MerkleBatchError::MissingRoot));
    let mut short = batch.clone();
    short.siblings.pop();
    assert!(matches!(
        check(&short, &at, &hashes),
        Err(MerkleBatchError::InsufficientSiblings { .. })
    ));
    let mut long = batch.clone();
    long.siblings.push([0; 32]);
    assert_eq!(
        check(&long, &at, &hashes),
        Err(MerkleBatchError::UnusedSiblings {
            consumed: batch.siblings.len(),
            total: batch.siblings.len() + 1
        })
    );
    let mut wrong = hashes.clone();
    wrong[0][3] ^= 1;
    assert_eq!(check(&batch, &at, &wrong), Err(MerkleBatchError::RootMismatch));
}

#[test]
fn leaf_of_a_folded_layer_is_hashed_with_its_place() {
    let (s0, s1) = (el(5), el(6));
    let a = high_pair_leaf_hash(3, 1, s0, s1);
    assert_ne!(a, high_pair_leaf_hash(3, 2, s0, s1));
    assert_ne!(a, high_pair_leaf_hash(4, 1, s0, s1));
    assert_ne!(a, high_pair_leaf_hash(3, 1, s1, s0));

    // The first half of the digest of the tag, the place and the symbols.
    let mut message = b"PARANOID/MIXED-SOURCE-HIGH-FOLD-LEAF/128/v1".to_vec();
    message.extend(3u64.to_le_bytes());
    message.extend(1u64.to_le_bytes());
    message.extend(5u128.to_le_bytes());
    message.extend(6u128.to_le_bytes());
    assert_eq!(a, blake3::hash(&message).as_bytes()[..16]);
}

#[test]
fn trees_of_short_digests_and_their_refusals() {
    let leaves: Vec<ShortHash> = (0..8u8).map(|i| [i + 1; 16]).collect();
    let tree = ShortMerkleTree::new(leaves.clone());
    let root = tree.get_root();
    let join = |l: ShortHash, r: ShortHash| -> ShortHash {
        let mut message = b"PARANOID/SOURCE-BINDING-MERKLE-128/v1".to_vec();
        message.extend(l);
        message.extend(r);
        blake3::hash(&message).as_bytes()[..16].try_into().unwrap()
    };
    let mut layer = leaves.clone();
    while layer.len() > 1 {
        layer = layer.chunks(2).map(|c| join(c[0], c[1])).collect();
    }
    assert_eq!(root, layer[0]);

    let at = [1usize, 6, 7];
    let hashes: Vec<ShortHash> = at.iter().map(|&i| leaves[i]).collect();
    let batch = build_short_batched_merkle_proof(&tree, &at, 3);
    assert_eq!(batch.siblings, vec![
        leaves[0],
        join(leaves[2], leaves[3]),
        join(leaves[4], leaves[5]),
    ]);
    assert_eq!(verify_short_batched_merkle_proof(&root, &batch, 3, &at, &hashes), Ok(()));
    let mut wrong = hashes.clone();
    wrong[2][15] ^= 1;
    assert_eq!(
        verify_short_batched_merkle_proof(&root, &batch, 3, &at, &wrong),
        Err(MerkleBatchError::RootMismatch)
    );
    assert_eq!(
        verify_short_batched_merkle_proof(&root, &batch, 3, &at, &hashes[1..]),
        Err(MerkleBatchError::CountMismatch)
    );

    let wide = short_hash_to_output(&root);
    assert_eq!((&wide[..16], &wide[16..]), (&root[..], &[0u8; 16][..]));
    assert_eq!(short_hash_of(&wide), root);
}

#[test]
fn combinations_by_powers_tell_values_apart() {
    // Two lists of three values agree at two elements at most: here where
    // 1 + x + x^2 is 0, that is at the two elements of order three.
    let (a, b) = ([el(1), el(2), el(3)], [el(0), el(3), el(2)]);
    let same = (0..1000u128)
        .filter(|&g| {
            compute_batched_claim_flat(el(g), &a) == compute_batched_claim_flat(el(g), &b)
        })
        .count();
    assert_eq!(same, 2);
}

#[test]
fn a_batched_opening_is_accepted_where_the_weight_is_zero() {
    // The rounds of zero columns do not depend on the point, so the challenges
    // are known beforehand and a point can be chosen with `eq(point, r) == 0`.
    let log_rows = 9;
    let cols = vec![vec![el(0); 1 << log_rows]; 2];
    let mut ch = ElementTranscript::<F>::new();
    ch.absorb(el(0xFFFC_0000_0000_0000));
    ch.absorb(el(0));
    ch.absorb(el(0));
    ch.squeeze();
    let mut point: Vec<F> = (0..log_rows)
        .map(|_| {
            (0..3).for_each(|_| ch.absorb(el(0)));
            ch.squeeze()
        })
        .collect();
    point.reverse();
    point[4] = point[4].plus(el(1));

    let (commitment, state) = interleaved_commit(&refs(&cols), &TensorCode);
    let scheme = CompactScheme { code: TensorCode, hasher: Blake3Hasher, num_queries: 4 };
    let mut ch_p = ElementTranscript::new();
    let proof = prove_batched_opening(&state, &point, &TensorCode, &mut ch_p, &scheme);
    let mut ch_v = ElementTranscript::new();
    assert_eq!(
        verify_batched_opening(&commitment, &point, &proof, &mut ch_v, &scheme),
        Ok(vec![el(0); 2])
    );
    assert_eq!(ch_v, ch_p);
}

#[test]
fn errors_have_words() {
    let merkle = MerkleBatchError::UnusedSiblings { consumed: 10, total: 205 };
    assert_eq!(merkle.message(), "unused siblings: consumed 10, total 205");
    assert_eq!(source_message(&merkle), "unused source siblings: consumed 10, total 205");
    let fri: CompactFriError<()> = CompactFriError::SymbolMismatch { query: 7, round: 0 };
    assert_eq!(fri.message(), "symbol inconsistency at query 7 round 0");
    assert_eq!(
        MixedOpenError::Fri(CompactFriError::Hook(SourceBindingError::RoundZeroRoot)).message(),
        "source binding Code(H*eq_right) root does not match compact FRI round-0 root"
    );
    assert_eq!(
        SourceBindingError::HCodeMismatch { query: 4, got: 1 << 127, expected: 0 }.message(),
        "source binding H-code mismatch at query 4: got \
         170141183460469231731687303715884105728 expected 0"
    );
    assert_eq!(SourceBindingError::Merkle(merkle).message(), source_message(&merkle));
    assert_eq!(
        BatchedOpenError::<CompactFriError<()>>::Sumcheck { round: 1234567890 }.message(),
        "Sumcheck check failed at round 1234567890"
    );
    assert_eq!(
        BatchedOpenError::Fri(CompactFriError::<()>::Merkle(MerkleBatchError::MissingRoot))
            .message(),
        "failed to compute root"
    );
}
