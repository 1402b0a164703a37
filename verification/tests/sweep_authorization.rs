//! The authorization of a sweep transaction.
use noid_gkr::auth_circuit::{
    AuthIvs, SweepAuthCircuit, SweepAuthInputs, SweepAuthPublicInputs, N_SWEEP_AUTH_INPUTS,
};
use noid_gkr::auth_killshot_sweep::{
    discharge_sweep_auth_reductions_native, prove_sweep_auth_killshot, sweep_auth_gkr_channel,
    verify_sweep_auth_killshot, SweepAuthProofKillShot,
};
use noid_gkr::auth_oracle::compute_sweep_auth_boundary;
use noid_gkr::column_scheme::MixedScheme;
use noid_gkr::sponge::digest_to_fields;
use noid_gkr::field::{BinaryField, TowerField};
use noid_gkr::fri::{Blake3Hasher, TensorCode};
use noid_gkr::layers::PermParams;
use noid_gkr::mixed_open::MixedOpeningProof;
use noid_gkr::tower::Tower128;
use noid_gkr::transcript::{ElementTranscript, FiatShamir};

type F = Tower128;
type Channel = ElementTranscript<F>;

const PCS: MixedScheme<TensorCode, Blake3Hasher, Channel> = MixedScheme {
    code: TensorCode,
    hasher: Blake3Hasher,
    num_queries: 3,
    channel: ElementTranscript { state: Tower128(0) },
};

fn el(bits: u128) -> F {
    F::from_u128(bits)
}

fn params() -> PermParams<F> {
    let mut s = 0x243F_6A88_85A3_08D3_1319_8A2E_0370_7344u128;
    let mut next = || {
        s = s.wrapping_mul(0x2360_ED05_1FC6_5DA4_4385_DF64_9FCC_F645).wrapping_add(0x9E37_79B9);
        el(s ^ (s >> 61))
    };
    PermParams {
        mds_full: std::array::from_fn(|_| std::array::from_fn(|_| next())),
        mds_partial: std::array::from_fn(|_| std::array::from_fn(|_| next())),
        round_constants: std::array::from_fn(|_| std::array::from_fn(|_| next())),
    }
}

fn ivs() -> AuthIvs<F> {
    AuthIvs { address: [el(0xADD2), el(1)], auth_tag: [el(0x7A60), el(2)] }
}

fn started() -> Channel {
    let mut ch = Channel::new();
    sweep_auth_gkr_channel(&mut ch);
    ch
}

fn fixture_inputs() -> SweepAuthInputs<F> {
    let circuit = SweepAuthCircuit::build_sweep(&ivs());
    let spend_secret: Vec<[F; 2]> = (0..N_SWEEP_AUTH_INPUTS)
        .map(|i| {
            let bytes: [u8; 32] =
                std::array::from_fn(|j| ((i + 1) as u8).wrapping_mul((j + 7) as u8));
            digest_to_fields(&bytes)
        })
        .collect();
    let tx_body_hash = digest_to_fields(&[0x5A; 32]);
    let (expected_address, expected_auth_tag) =
        compute_sweep_auth_boundary(&params(), &ivs(), &circuit, &spend_secret, tx_body_hash);
    SweepAuthInputs { spend_secret, tx_body_hash, expected_address, expected_auth_tag }
}

#[test]
fn auth_killshot_sweep_auth_killshot_round_trip_native_discharge() {
    let circuit = SweepAuthCircuit::build_sweep(&ivs());
    let inputs = fixture_inputs();
    let public = inputs.to_public();

    let mut ch_p = started();
    let (proof, reductions) = prove_sweep_auth_killshot(
        &params(),
        &ivs(),
        &circuit,
        &inputs,
        &PCS,
        &mut ch_p,
    );

    let mut ch_v = started();
    let v_red = verify_sweep_auth_killshot(
        &params(),
        &proof,
        &circuit,
        &public,
        &PCS,
        &mut ch_v,
    )
    .expect("verifier accepts honest proof");

    assert_eq!(v_red, reductions);
    assert!(discharge_sweep_auth_reductions_native(
        &params(),
        &ivs(),
        &circuit,
        &inputs,
        &v_red
    ));
}

fn proved(inputs: &SweepAuthInputs<F>) -> SweepAuthProofKillShot<F, MixedOpeningProof<F>> {
    let circuit = SweepAuthCircuit::build_sweep(&ivs());
    let mut ch = started();
    prove_sweep_auth_killshot(&params(), &ivs(), &circuit, inputs, &PCS, &mut ch).0
}

fn accepted(proof: &SweepAuthProofKillShot<F, MixedOpeningProof<F>>, public: &SweepAuthPublicInputs<F>) -> bool {
    let circuit = SweepAuthCircuit::build_sweep(&ivs());
    let mut ch = started();
    verify_sweep_auth_killshot(&params(), proof, &circuit, public, &PCS, &mut ch)
        .is_some()
}

#[test]
fn auth_killshot_serialization_does_not_contain_raw_spend_secret_limbs() {
    let inputs = fixture_inputs();
    let text = format!("{:?}", proved(&inputs));
    for limb in inputs.spend_secret.iter().flatten() {
        assert!(!text.contains(&format!("{}", limb.to_u128())), "the proof holds a secret limb");
    }
}

#[test]
fn auth_killshot_sweep_auth_killshot_rejects_tampered_state_at_r() {
    let inputs = fixture_inputs();
    let mut proof = proved(&inputs);
    let main = &mut proof.kill_shot.main;
    main.state_at_r = main.state_at_r.plus(el(1));
    assert!(!accepted(&proof, &inputs.to_public()));
}

#[test]
fn auth_killshot_sweep_auth_killshot_rejects_tampered_shift_claim() {
    let inputs = fixture_inputs();
    let mut proof = proved(&inputs);
    let shift = &mut proof.kill_shot.shift;
    shift.s_in_at_r2 = shift.s_in_at_r2.plus(el(1));
    assert!(!accepted(&proof, &inputs.to_public()));
}

#[test]
fn auth_killshot_sweep_auth_killshot_rejects_wrong_expected_address() {
    let inputs = fixture_inputs();
    let proof = proved(&inputs);
    let mut public = inputs.to_public();
    public.expected_address[0][0] = public.expected_address[0][0].plus(el(1));
    assert!(!accepted(&proof, &public));
}

#[test]
fn auth_killshot_sweep_auth_killshot_rejects_tampered_state_batch() {
    let inputs = fixture_inputs();
    let mut proof = proved(&inputs);
    proof.batch.b_finals[0] = proof.batch.b_finals[0].plus(el(1));
    assert!(!accepted(&proof, &inputs.to_public()));
}

/// A transcript that keeps what it absorbs.
struct RecordingChannel {
    inner: Channel,
    absorbed: Vec<F>,
}

impl FiatShamir<F> for RecordingChannel {
    fn absorb(&mut self, elem: F) {
        self.absorbed.push(elem);
        self.inner.absorb(elem);
    }

    fn squeeze(&mut self) -> F {
        self.inner.squeeze()
    }

    fn absorbed(mut self, elem: F) -> Self {
        self.absorb(elem);
        self
    }

    fn challenge(mut self) -> F {
        self.squeeze()
    }

    fn squeezed(mut self) -> Self {
        self.squeeze();
        self
    }
}

#[test]
fn auth_killshot_transcript_never_absorbs_raw_spend_secret_limbs() {
    let circuit = SweepAuthCircuit::build_sweep(&ivs());
    let inputs = fixture_inputs();
    let mut ch = RecordingChannel { inner: Channel::new(), absorbed: Vec::new() };
    sweep_auth_gkr_channel(&mut ch);
    let _ = prove_sweep_auth_killshot(
        &params(),
        &ivs(),
        &circuit,
        &inputs,
        &PCS,
        &mut ch,
    );

    for limb in inputs.spend_secret.iter().flatten() {
        assert!(
            !ch.absorbed.contains(limb),
            "Sweep Auth transcript absorbed a raw spend_secret limb"
        );
    }
}
