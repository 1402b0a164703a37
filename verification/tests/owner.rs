//! Authorizations by one owner, and the ghost transaction.
use noid_gkr::column_scheme::MixedScheme;
use noid_gkr::sponge::digest_to_fields;
use noid_gkr::field::{BinaryField, TowerField};
use noid_gkr::fri::{Blake3Hasher, TensorCode};
use noid_gkr::ghost_tx::{
    ghost_address, ghost_authorization, ghost_spend_secret, ghost_tx_body, ghost_tx_body_hash,
    TxInput, TxOutput,
};
use noid_gkr::layers::{permute, PermParams};
use noid_gkr::matrix::mds_full_inverse;
use noid_gkr::mixed_open::MixedOpeningProof;
use noid_gkr::owner_auth::{
    build_owner_auth_unified_from_inputs, build_owner_auth_unified_mle,
    compute_owner_auth_boundary, evaluate_owner_auth, owner_auth_public_from_body,
    owner_auth_trace_inputs_from_body_and_secret, CanonicalOwnerAuth, OwnerAuthCircuit,
    OwnerAuthInputs, OwnerAuthLayout, OwnerAuthParams, OwnerAuthPublicInputs,
    OwnerAuthStatementError, OWNER_AUTH_LIVE_SLOTS, OWNER_AUTH_NUM_VARS,
};
use noid_gkr::owner_killshot::{
    discharge_owner_auth_reductions_native, owner_auth_gkr_channel, prove_owner_auth_killshot,
    verify_owner_auth_killshot, OwnerAuthKillShotReductions, OwnerAuthProofKillShot,
};
use noid_gkr::tower::Tower128;
use noid_gkr::transcript::{ElementTranscript, FiatShamir};

type F = Tower128;
type Channel = ElementTranscript<F>;

const N_ROUNDS: usize = 66;
type Scheme = MixedScheme<TensorCode, Blake3Hasher, Channel>;

const PCS: Scheme = MixedScheme {
    code: TensorCode,
    hasher: Blake3Hasher,
    num_queries: 3,
    channel: ElementTranscript { state: Tower128(0) },
};

fn el(bits: u128) -> F {
    F::from_u128(bits)
}

fn params() -> PermParams<F> {
    let mut s = 0x243F_6A88_85A3_08D3_1319_8A2E_0370_7344u128;
    let mut next = || {
        s = s.wrapping_mul(0x2360_ED05_1FC6_5DA4_4385_DF64_9FCC_F645).wrapping_add(0x9E37_79B9);
        el(s ^ (s >> 61))
    };
    PermParams {
        mds_full: std::array::from_fn(|_| std::array::from_fn(|_| next())),
        mds_partial: std::array::from_fn(|_| std::array::from_fn(|_| next())),
        round_constants: std::array::from_fn(|_| std::array::from_fn(|_| next())),
    }
}

fn address_iv() -> [F; 2] {
    [el(0xADD2_E550), el(0x1F)]
}

fn owner_params() -> OwnerAuthParams<F> {
    OwnerAuthParams::new(params(), address_iv()).expect("the full matrix has an inverse")
}

fn circuit() -> OwnerAuthCircuit<F> {
    OwnerAuthCircuit::build(&address_iv())
}

fn secret(seed: u8) -> [F; 2] {
    let bytes: [u8; 32] =
        std::array::from_fn(|i| seed.wrapping_mul(17).wrapping_add(i as u8));
    digest_to_fields(&bytes)
}

/// One permutation of the secret over the initial capacity.
fn derive_address(secret: [F; 2]) -> [F; 2] {
    let iv = address_iv();
    let out = permute(&params(), [secret[0], secret[1], iv[0], iv[1]]);
    [out[0], out[1]]
}

fn trace_inputs(secret: [F; 2], hash_seed: u8) -> OwnerAuthInputs<F> {
    let public = OwnerAuthPublicInputs::new(
        digest_to_fields(&[hash_seed; 32]),
        derive_address(secret),
    );
    OwnerAuthInputs::from_parts(&public, secret)
}

fn statement(secret: [F; 2], hash_seed: u8) -> CanonicalOwnerAuth<F> {
    CanonicalOwnerAuth {
        tx_body_hash: digest_to_fields(&[hash_seed; 32]),
        input_owner: derive_address(secret),
        first_live_input: 0,
    }
}

fn prove(
    inputs: &OwnerAuthInputs<F>,
) -> (OwnerAuthProofKillShot<F, MixedOpeningProof<F>>, OwnerAuthKillShotReductions<F>) {
    let mut ch = owner_auth_gkr_channel(Channel::new());
    prove_owner_auth_killshot(&owner_params(), &circuit(), inputs, &PCS, &mut ch)
}

fn verify(
    proof: &OwnerAuthProofKillShot<F, MixedOpeningProof<F>>,
    public: &OwnerAuthPublicInputs<F>,
) -> Option<OwnerAuthKillShotReductions<F>> {
    let mut ch = owner_auth_gkr_channel(Channel::new());
    verify_owner_auth_killshot(&owner_params(), proof, public, &PCS, &mut ch)
}

#[test]
fn owner_auth_oracle_matches_native_hash() {
    let secret = secret(1);
    let tx_hash = digest_to_fields(&[0x55; 32]);
    let addr = compute_owner_auth_boundary(&params(), &circuit(), secret, tx_hash);
    assert_eq!(addr, derive_address(secret));
}

#[test]
fn owner_secrets_are_overwritten() {
    let mut inputs = trace_inputs(secret(9), 0x33);
    let mut witness = evaluate_owner_auth(&params(), &circuit(), &inputs);
    assert_eq!(witness.derived_address, derive_address(secret(9)));
    assert_eq!(witness.slots[0].state_in[..2], secret(9));
    witness.wipe();
    assert_eq!(witness.slots.len(), OWNER_AUTH_LIVE_SLOTS);
    for slot in &witness.slots {
        assert_eq!((slot.state_in, slot.state_out), ([el(0); 4], [el(0); 4]));
    }
    assert_eq!(witness.derived_address, derive_address(secret(9)));

    let public = inputs.to_public();
    inputs.wipe();
    assert_eq!(inputs.to_public(), public);
    let emptied = evaluate_owner_auth(&params(), &circuit(), &inputs);
    assert_eq!(emptied.derived_address, derive_address([el(0); 2]));
}

#[test]
fn owner_auth_state_mle_round_zero_extracts_spend_secret() {
    let secret = secret(70);
    let inputs = trace_inputs(secret, 0x71);
    let mle = build_owner_auth_unified_from_inputs(&params(), &circuit(), &inputs);
    let inv = mds_full_inverse(&params().mds_full).unwrap();
    let slot = OwnerAuthCircuit::<F>::haddr_output_slot();
    let row0: [F; 4] = std::array::from_fn(|lane| mle.state[inputs.layout.index(slot, 0, lane)]);
    let pre: [F; 2] = std::array::from_fn(|lane| {
        let mut acc = el(0);
        for post_lane in 0..4 {
            acc = acc.plus(inv[lane][post_lane].times(row0[post_lane]));
        }
        acc
    });
    assert_eq!(pre, secret);
    assert_eq!(
        [
            mle.state[inputs.layout.index(slot, N_ROUNDS, 0)],
            mle.state[inputs.layout.index(slot, N_ROUNDS, 1)],
        ],
        inputs.expected_address
    );
}

#[test]
fn owner_auth_mle_has_fixed_geometry() {
    let layout = OwnerAuthLayout::FIXED;
    let state_ins = [[el(1), el(2), el(3), el(4)]];
    let (mle, witnesses) = build_owner_auth_unified_mle(&params(), layout, &state_ins);
    assert_eq!(witnesses.len(), OWNER_AUTH_LIVE_SLOTS);
    assert_eq!(mle.state.len(), layout.cells());
}

#[test]
fn owner_auth_killshot_roundtrip_repeated_inputs_fixed_owner() {
    let s = secret(9);
    let canonical: Result<_, ()> = Ok(statement(s, 0xA5));
    let inputs =
        owner_auth_trace_inputs_from_body_and_secret(&params(), &circuit(), canonical, s)
            .ok()
            .expect("inputs");
    let (proof, reductions) = prove(&inputs);
    assert!(discharge_owner_auth_reductions_native(
        &owner_params(),
        &circuit(),
        &inputs,
        &reductions
    ));

    let verified = verify(&proof, &inputs.to_public()).expect("verify");
    assert_eq!(verified.state.point.len(), OWNER_AUTH_NUM_VARS);
    assert_eq!(verified, reductions);
}

#[test]
fn owner_auth_killshot_roundtrip_fixed_layout() {
    let inputs = trace_inputs(secret(20), 0x72);
    let (proof, _reductions) = prove(&inputs);
    verify(&proof, &inputs.to_public()).expect("verify owner auth");
    // 9 rounds of 10, 2 and 2 elements, 7 values, 9 rounds of 3 and the last one.
    assert_eq!(
        proof.byte_len::<Scheme>(),
        16 * (9 * 10 + 9 * 2 + 9 * 2 + 7 + 9 * 3 + 1) + proof.pcs.byte_len::<F, Scheme>()
    );
}

#[test]
fn owner_auth_v3_transcript_rejects_v4_proof() {
    const OWNER_AUTH_GKR_V3_DOMAIN_TAG: u128 = 0xA07D_0B47_CAFE_0003;
    let inputs = trace_inputs(secret(33), 0xA5);
    let (proof, _) = prove(&inputs);

    let mut old_channel = Channel::new();
    old_channel.absorb(el(OWNER_AUTH_GKR_V3_DOMAIN_TAG));
    assert!(
        verify_owner_auth_killshot(
            &owner_params(),
            &proof,
            &inputs.to_public(),
            &PCS,
            &mut old_channel
        )
        .is_none(),
        "a v4 proof must not verify under the retired v3 transcript"
    );
}

#[test]
fn owner_auth_killshot_rejects_tamper() {
    let inputs = trace_inputs(secret(41), 0x73);
    let (mut proof, _) = prove(&inputs);
    let main = &mut proof.kill_shot.main;
    main.state_at_r = main.state_at_r.plus(el(1));
    assert!(verify(&proof, &inputs.to_public()).is_none());
}

#[test]
fn owner_auth_rejects_tampered_or_off_shape_round_polys() {
    let inputs = trace_inputs(secret(71), 0x74);

    // Compressed rounds have no sum check of their own; a flipped coefficient
    // must still die at the final constraint check.
    for (poly_idx, coeff_idx) in [(0usize, 0usize), (2, 7)] {
        let mut proof = prove(&inputs).0;
        let c = &mut proof.kill_shot.main.round_polys[poly_idx].coeffs_no_linear[coeff_idx];
        *c = c.plus(el(1));
        assert!(verify(&proof, &inputs.to_public()).is_none());
    }

    // The length is an exact shape check in both directions.
    let mut proof = prove(&inputs).0;
    proof.kill_shot.main.round_polys[1].coeffs_no_linear.pop();
    assert!(verify(&proof, &inputs.to_public()).is_none());

    let mut proof = prove(&inputs).0;
    proof.kill_shot.main.round_polys[1].coeffs_no_linear.push(el(0));
    assert!(verify(&proof, &inputs.to_public()).is_none());
}

#[test]
fn owner_auth_rejects_canonical_statement_tamper() {
    let inputs = trace_inputs(secret(51), 0x75);
    let (proof, _) = prove(&inputs);

    let mut wrong_hash = inputs.to_public();
    wrong_hash.tx_body_hash[0] = wrong_hash.tx_body_hash[0].plus(el(1));
    assert!(verify(&proof, &wrong_hash).is_none());

    let mut wrong_address = inputs.to_public();
    wrong_address.expected_address[0] = wrong_address.expected_address[0].plus(el(1));
    assert!(verify(&proof, &wrong_address).is_none());
}

#[test]
fn owner_auth_rejects_boundary_batch_and_pcs_tamper() {
    let inputs = trace_inputs(secret(61), 0x76);
    let (proof, _) = prove(&inputs);

    let mut bad_boundary = proof.clone();
    bad_boundary.boundary.state_at_r = bad_boundary.boundary.state_at_r.plus(el(1));
    assert!(verify(&bad_boundary, &inputs.to_public()).is_none());

    let mut bad_batch = proof.clone();
    bad_batch.batch.b_final = bad_batch.batch.b_final.plus(el(1));
    assert!(verify(&bad_batch, &inputs.to_public()).is_none());

    let mut bad_pcs = proof;
    bad_pcs.pcs.opening.all_openings[0] = bad_pcs.pcs.opening.all_openings[0].plus(el(1));
    assert!(verify(&bad_pcs, &inputs.to_public()).is_none());
}

#[test]
fn a_secret_of_another_owner_gives_no_authorization() {
    let mut canonical = statement(secret(4), 0x11);
    canonical.first_live_input = 3;
    let got = owner_auth_trace_inputs_from_body_and_secret::<F, u8>(
        &params(),
        &circuit(),
        Ok(canonical),
        secret(5),
    );
    assert_eq!(
        got.err(),
        Some(OwnerAuthStatementError::SecretMismatch { input_position: 3 })
    );
    let got = owner_auth_trace_inputs_from_body_and_secret::<F, u8>(
        &params(),
        &circuit(),
        Err(7),
        secret(5),
    );
    assert_eq!(got.err(), Some(OwnerAuthStatementError::Canonical(7)));
    assert_eq!(OwnerAuthStatementError::from(8u8), OwnerAuthStatementError::Canonical(8));
    assert_eq!(
        owner_auth_public_from_body::<F, u8>(Err(9)),
        Err(OwnerAuthStatementError::Canonical(9))
    );
    assert_eq!(
        owner_auth_public_from_body::<F, u8>(Ok(canonical)),
        Ok(OwnerAuthPublicInputs::new(canonical.tx_body_hash, canonical.input_owner))
    );
}

#[test]
fn a_singular_matrix_gives_no_parameters() {
    let mut singular = params();
    singular.mds_full[3] = singular.mds_full[1];
    assert!(OwnerAuthParams::new(singular, address_iv()).is_none());

    let m = params().mds_full;
    let inv = mds_full_inverse(&m).unwrap();
    for i in 0..4 {
        for j in 0..4 {
            let dot = (0..4).fold(el(0), |s, k| s.plus(inv[i][k].times(m[k][j])));
            assert_eq!(dot, el((i == j) as u128));
        }
    }
}

fn dummies() -> (TxInput, TxOutput<F>) {
    (
        TxInput { slot_index: u32::MAX, amount: 0, creation_id: 0 },
        TxOutput { slot_index: u32::MAX, amount: 0, owner: [el(0), el(0)] },
    )
}

#[test]
fn ghost_body_bitmap_is_257_and_hash_derives_from_it() {
    let (input, output) = dummies();
    let body = ghost_tx_body(&owner_params(), &circuit(), input, output);
    assert_eq!(body.validity_bitmap, 257, "input 0 + output 0");
    let txid: [u8; 32] = std::array::from_fn(|i| i as u8);
    let hash: [F; 2] = ghost_tx_body_hash(&txid);
    assert_eq!(hash[0], el(0x0F0E_0D0C_0B0A_0908_0706_0504_0302_0100));
    assert_eq!(hash[1], el(0x1F1E_1D1C_1B1A_1918_1716_1514_1312_1110));
}

#[test]
fn ghost_body_passes_public_logic_and_proof_verifies() {
    let (input, output) = dummies();
    let body = ghost_tx_body(&owner_params(), &circuit(), input, output);
    assert_eq!(&ghost_spend_secret(), b"PARANOID-GHOST-TX-SPEND-SECRET.0");
    let owner = derive_address(digest_to_fields(&ghost_spend_secret()));
    assert_eq!(ghost_address(&owner_params(), &circuit()), owner);
    assert_eq!(body.fee, 0);
    assert_eq!(body.inputs.iter().map(|i| i.amount).sum::<u64>(), 1);
    assert_eq!(body.outputs.iter().map(|o| o.amount).sum::<u64>(), 1);
    assert_eq!((body.input_owner, body.outputs[0].owner), (owner, owner));
    assert_eq!((body.inputs[1], body.outputs[1]), (input, output));

    let hash = ghost_tx_body_hash(&[0x3C; 32]);
    let (proof, public) = ghost_authorization(
        &owner_params(),
        &circuit(),
        hash,
        &PCS,
        Channel::new(),
    );
    assert_eq!(public.tx_body_hash, hash);
    assert_eq!(public.expected_address, owner);
    verify(&proof, &public).expect("the ghost authorization verifies");
}

#[test]
fn ghost_authorization_is_deterministic() {
    let run = || {
        ghost_authorization(
            &owner_params(),
            &circuit(),
            digest_to_fields(&[0x3C; 32]),
            &PCS,
            Channel::new(),
        )
        .0
    };
    assert_eq!(run(), run());
}
