//! The proofs of an authorization.
use noid_gkr::auth_circuit::{AuthCircuit, AuthInputs, AuthIvs, N_AUTH_INPUTS, N_AUTH_SLOTS};
use noid_gkr::auth_killshot::{
    auth_gkr_channel, discharge_auth_reductions_native, prove_auth_killshot, verify_auth_killshot,
};
use noid_gkr::auth_sumcheck::{
    auth_boundary_output_cell, build_auth_boundary_mle, compute_auth_boundary,
    discharge_auth_boundary_native, point_for_auth_boundary_cell, prove_auth,
    reconstruct_auth_slot_states, verify_auth, AuthBoundaryPins, N_AUTH_BOUNDARY_CELLS,
    N_AUTH_BOUNDARY_VARS,
};
use noid_gkr::field::{BinaryField, TowerField};
use noid_gkr::layers::PermParams;
use noid_gkr::mle::evaluate_slice;
use noid_gkr::sponge::digest_to_fields;
use noid_gkr::tower::Tower128;
use noid_gkr::transcript::{ElementTranscript, FiatShamir};

type F = Tower128;

fn el(bits: u128) -> F {
    F::from_u128(bits)
}

fn params() -> PermParams<F> {
    let mut s = 0x243F_6A88_85A3_08D3_1319_8A2E_0370_7344u128;
    let mut next = || {
        s = s.wrapping_mul(0x2360_ED05_1FC6_5DA4_4385_DF64_9FCC_F645).wrapping_add(0x9E37_79B9);
        el(s ^ (s >> 61))
    };
    PermParams {
        mds_full: std::array::from_fn(|_| std::array::from_fn(|_| next())),
        mds_partial: std::array::from_fn(|_| std::array::from_fn(|_| next())),
        round_constants: std::array::from_fn(|_| std::array::from_fn(|_| next())),
    }
}

fn ivs() -> AuthIvs<F> {
    AuthIvs { address: [el(0xADD1), el(0xADD2)], auth_tag: [el(0x7A61), el(0x7A62)] }
}

fn circuit() -> AuthCircuit<F> {
    AuthCircuit::build(&ivs())
}

fn fixture_inputs() -> AuthInputs<F> {
    let mut inputs = AuthInputs::zero(N_AUTH_INPUTS);
    for i in 0..N_AUTH_INPUTS {
        let mut bytes = [0u8; 32];
        for (j, b) in bytes.iter_mut().enumerate() {
            *b = ((i + 1) as u8).wrapping_mul((j + 7) as u8);
        }
        inputs.spend_secret[i] = digest_to_fields(&bytes);
    }
    inputs.tx_body_hash = digest_to_fields(&[0x5Au8; 32]);
    let (address, tag) = compute_auth_boundary(
        &params(),
        &ivs(),
        &circuit(),
        &inputs.spend_secret,
        inputs.tx_body_hash,
    );
    inputs.expected_address = address;
    inputs.expected_auth_tag = tag;
    inputs
}

fn channel() -> ElementTranscript<F> {
    let mut ch = ElementTranscript::new();
    auth_gkr_channel(&mut ch);
    ch
}

#[test]
fn auth_killshot_auth_killshot_round_trip_native_discharge() {
    let inputs = fixture_inputs();
    let public = inputs.to_public();

    let mut ch_p = channel();
    let (proof, reductions) =
        prove_auth_killshot(&params(), &ivs(), &circuit(), &inputs, &mut ch_p);

    let mut ch_v = channel();
    let v_red = verify_auth_killshot(&params(), &proof, &circuit(), &public, &mut ch_v)
        .expect("verifier accepts honest proof");

    assert_eq!(v_red, reductions);
    assert_eq!(ch_p, ch_v);
    assert!(discharge_auth_reductions_native(&params(), &ivs(), &circuit(), &inputs, &v_red));
    assert_eq!(proof.byte_len(), 14 * (10 + 3) * 16 + 15 * 16 + 3 * (14 * 48 + 16));

    // A circuit of another number of slots is refused at once.
    let mut small = circuit();
    small.slots.pop();
    let mut ch_v = channel();
    assert!(verify_auth_killshot(&params(), &proof, &small, &public, &mut ch_v).is_none());
    assert_eq!(ch_v, channel());
}

#[test]
fn auth_killshot_auth_killshot_rejects_tampered_state_at_r() {
    let inputs = fixture_inputs();
    let mut ch_p = channel();
    let (mut proof, _) = prove_auth_killshot(&params(), &ivs(), &circuit(), &inputs, &mut ch_p);
    proof.kill_shot.main.state_at_r = proof.kill_shot.main.state_at_r.plus(el(1));

    let mut ch_v = channel();
    assert!(
        verify_auth_killshot(&params(), &proof, &circuit(), &inputs.to_public(), &mut ch_v)
            .is_none()
    );
}

#[test]
fn auth_killshot_auth_killshot_rejects_tampered_shift_claim() {
    let inputs = fixture_inputs();
    let mut ch_p = channel();
    let (mut proof, _) = prove_auth_killshot(&params(), &ivs(), &circuit(), &inputs, &mut ch_p);
    proof.kill_shot.shift.s_in_at_r2 = proof.kill_shot.shift.s_in_at_r2.plus(el(1));

    let mut ch_v = channel();
    assert!(
        verify_auth_killshot(&params(), &proof, &circuit(), &inputs.to_public(), &mut ch_v)
            .is_none()
    );
}

#[test]
fn auth_killshot_auth_killshot_rejects_wrong_expected_address() {
    let inputs = fixture_inputs();
    let mut public = inputs.to_public();
    let mut ch_p = channel();
    let (proof, _) = prove_auth_killshot(&params(), &ivs(), &circuit(), &inputs, &mut ch_p);

    public.expected_address[0][0] = public.expected_address[0][0].plus(el(1));
    let mut ch_v = channel();
    assert!(verify_auth_killshot(&params(), &proof, &circuit(), &public, &mut ch_v).is_none());
}

#[test]
fn auth_killshot_auth_killshot_rejects_tampered_state_batch() {
    let inputs = fixture_inputs();
    let mut ch_p = channel();
    let (mut proof, _) = prove_auth_killshot(&params(), &ivs(), &circuit(), &inputs, &mut ch_p);
    proof.state_batch.b_final = proof.state_batch.b_final.plus(el(1));

    let mut ch_v = channel();
    assert!(
        verify_auth_killshot(&params(), &proof, &circuit(), &inputs.to_public(), &mut ch_v)
            .is_none()
    );
}

#[test]
fn slot_by_slot_proof_round_trip() {
    let inputs = fixture_inputs();
    let mut ch_p = channel();
    let (proof, red_p) = prove_auth(&params(), &ivs(), &circuit(), &inputs, &mut ch_p);
    assert_eq!(proof.slots.len(), N_AUTH_SLOTS);
    let mut ch_v = channel();
    let red_v = verify_auth(&params(), &proof, &circuit(), &inputs, &mut ch_v).expect("accepts");
    assert_eq!(red_p, red_v);
    assert_eq!(ch_p, ch_v);
    assert!(discharge_auth_boundary_native(&params(), &ivs(), &circuit(), &inputs, &red_v));
    let per_slot = 9 * 13 * 16 + 15 * 16 + 9 * 32 + 16;
    assert_eq!(proof.byte_len(), 20 * per_slot + 20 * 16 + 15 * 48 + 16);

    // The verifier does not look at the secrets.
    let mut blind = inputs.clone();
    blind.spend_secret = AuthInputs::<F>::zero(N_AUTH_INPUTS).spend_secret;
    let mut ch_v = channel();
    assert!(verify_auth(&params(), &proof, &circuit(), &blind, &mut ch_v).is_some());

    let mut bad = proof.clone();
    bad.slot_v0[3] = bad.slot_v0[3].plus(el(1));
    let mut ch_v = channel();
    assert!(verify_auth(&params(), &bad, &circuit(), &inputs, &mut ch_v).is_none());
    let mut bad = proof.clone();
    bad.boundary.b_final = bad.boundary.b_final.plus(el(1));
    let mut ch_v = channel();
    assert!(verify_auth(&params(), &bad, &circuit(), &inputs, &mut ch_v).is_none());
    let mut bad = inputs.clone();
    bad.expected_auth_tag[1][1] = bad.expected_auth_tag[1][1].plus(el(1));
    let mut ch_v = channel();
    assert!(verify_auth(&params(), &proof, &circuit(), &bad, &mut ch_v).is_none());
    let mut short = proof;
    short.slot_v0.pop();
    let mut ch_v = channel();
    assert!(verify_auth(&params(), &short, &circuit(), &inputs, &mut ch_v).is_none());
    assert_eq!(ch_v, channel());
}

#[test]
fn pins_open_to_the_addresses_and_tags() {
    let inputs = fixture_inputs();
    let states = reconstruct_auth_slot_states(&params(), &ivs(), &circuit(), &inputs);
    let column = build_auth_boundary_mle(&params(), &states);
    assert_eq!(column.len(), N_AUTH_BOUNDARY_CELLS);
    let pins = AuthBoundaryPins::from_public_inputs(&inputs);
    let claims = pins.as_eval_claims();
    assert_eq!(claims.len(), 16);
    for claim in &claims {
        assert_eq!(claim.point.len(), N_AUTH_BOUNDARY_VARS);
        assert_eq!(evaluate_slice(&column, &claim.point), claim.value);
    }
    let cell = auth_boundary_output_cell(1, 1);
    assert_eq!(cell, 512 + 66 * 4 + 1);
    assert_eq!(pins.address[0][1].cell, cell);
    assert_eq!(claims[1].point, point_for_auth_boundary_cell::<F>(cell));
    assert_eq!(claims[1].value, inputs.expected_address[0][1]);
    assert_eq!(claims[8].value, inputs.expected_auth_tag[0][0]);
}
