//! The proof of a Merkle path.
use noid_gkr::field::{BinaryField, TowerField};
use noid_gkr::layers::{permute, PermParams};
use noid_gkr::merkle_circuit::{MerkleCircuit, MerklePathInputs, MAX_MERKLE_DEPTH};
use noid_gkr::merkle_killshot::{
    discharge_merkle_reductions_native, prove_merkle_killshot, verify_merkle_killshot,
};
use noid_gkr::merkle_mle::{build_merkle_unified_mle, MerkleUnifiedMle};
use noid_gkr::merkle_shift::{
    build_merkle_mu_table, merkle_dec_round_index, merkle_permute_by_dec, merkle_round_of,
    merkle_slot_of, N_MERKLE_UNIFIED_CELLS,
};
use noid_gkr::sponge::{digest_to_fields, fields_to_digest};
use noid_gkr::tower::Tower128;
use noid_gkr::transcript::ElementTranscript;

type F = Tower128;

fn el(bits: u128) -> F {
    F::from_u128(bits)
}

fn params() -> PermParams<F> {
    let mut s = 0x243F_6A88_85A3_08D3_1319_8A2E_0370_7344u128;
    let mut next = || {
        s = s.wrapping_mul(0x2360_ED05_1FC6_5DA4_4385_DF64_9FCC_F645).wrapping_add(0x9E37_79B9);
        el(s ^ (s >> 61))
    };
    PermParams {
        mds_full: std::array::from_fn(|_| std::array::from_fn(|_| next())),
        mds_partial: std::array::from_fn(|_| std::array::from_fn(|_| next())),
        round_constants: std::array::from_fn(|_| std::array::from_fn(|_| next())),
    }
}

/// The digest of blocks by a sponge with the given initial capacity.
fn sponge(iv: [F; 2], blocks: &[[F; 2]]) -> [F; 2] {
    let p = params();
    let mut s = [el(0), el(0), iv[0], iv[1]];
    for b in blocks {
        s[0] = s[0].plus(b[0]);
        s[1] = s[1].plus(b[1]);
        s = permute(&p, s);
    }
    [s[0], s[1]]
}

fn iv() -> [F; 2] {
    [el(0xC0E1), el(0xC0E2)]
}

fn circuit() -> MerkleCircuit<F> {
    MerkleCircuit::build(iv())
}

fn compress(left: &[u8; 32], right: &[u8; 32]) -> [u8; 32] {
    fields_to_digest(&sponge(iv(), &[digest_to_fields(left), digest_to_fields(right)]))
}

fn fixture_inputs(depth: usize) -> MerklePathInputs<F> {
    let leaf = [0x42u8; 32];
    let mut current = leaf;
    let mut siblings = [[el(0); 2]; MAX_MERKLE_DEPTH];
    for i in 0..depth {
        let sibling = [(i as u8).wrapping_add(0xA0); 32];
        current = compress(&current, &sibling);
        siblings[i] = digest_to_fields(&sibling);
    }
    MerklePathInputs {
        leaf: digest_to_fields(&leaf),
        siblings,
        expected_root: digest_to_fields(&current),
        active_depth: depth,
    }
}

fn round_trip(depth: usize) {
    let inputs = fixture_inputs(depth);

    let mut ch_p = ElementTranscript::new();
    let (proof, reductions) =
        prove_merkle_killshot(&params(), iv(), &circuit(), &inputs, &mut ch_p);

    let mut ch_v = ElementTranscript::new();
    let v_red = verify_merkle_killshot(&params(), &proof, &inputs, &mut ch_v)
        .expect("verifier accepts honest proof");

    assert_eq!(v_red, reductions);
    assert!(discharge_merkle_reductions_native(&params(), iv(), &circuit(), &inputs, &v_red));
}

#[test]
fn merkle_killshot_round_trip_depth_8() {
    round_trip(8);
}

#[test]
fn merkle_killshot_round_trip_depth_16() {
    round_trip(16);
}

#[test]
fn merkle_killshot_rejects_tampered_root() {
    let inputs = fixture_inputs(8);

    let mut ch_p = ElementTranscript::new();
    let (proof, _) = prove_merkle_killshot(&params(), iv(), &circuit(), &inputs, &mut ch_p);

    let mut bad_inputs = inputs.clone();
    bad_inputs.expected_root[0] = bad_inputs.expected_root[0].plus(el(1));

    let mut ch_v = ElementTranscript::new();
    assert!(verify_merkle_killshot(&params(), &proof, &bad_inputs, &mut ch_v).is_none());
}

#[test]
fn merkle_killshot_rejects_tampered_state_batch() {
    let inputs = fixture_inputs(4);

    let mut ch_p = ElementTranscript::new();
    let (mut proof, _) = prove_merkle_killshot(&params(), iv(), &circuit(), &inputs, &mut ch_p);
    proof.state_batch.b_final = proof.state_batch.b_final.plus(el(1));

    let mut ch_v = ElementTranscript::new();
    assert!(verify_merkle_killshot(&params(), &proof, &inputs, &mut ch_v).is_none());
}

#[test]
fn proof_size_is_compact() {
    let inputs = fixture_inputs(8);

    let mut ch_p = ElementTranscript::new();
    let (proof, _) = prove_merkle_killshot(&params(), iv(), &circuit(), &inputs, &mut ch_p);

    let size = proof.byte_len();
    assert!(size < 8000, "proof should be < 8 KB, got {size}");
}

fn random_state(seed: u128) -> [F; 4] {
    let mut s = seed;
    std::array::from_fn(|_| {
        s = s.wrapping_mul(0x9E3779B97F4A7C15).wrapping_add(0xDEAD_BEEF);
        el(s)
    })
}

#[test]
fn build_mle_round_trips_permutation() {
    let live = 8;
    let state_ins: Vec<_> = (0..live).map(|i| random_state(i as u128 + 1)).collect();
    let (_, witnesses) = build_merkle_unified_mle(&params(), &state_ins, live);
    assert_eq!(witnesses.len(), live);
    for (slot, state_in) in state_ins.iter().enumerate() {
        let native = permute(&params(), *state_in);
        assert_eq!(witnesses[slot].final_state(), native, "slot {slot}");
    }
}

#[test]
fn padded_slots_are_zero() {
    let live = 4;
    let state_ins: Vec<_> = (0..live).map(|i| random_state(i as u128 + 100)).collect();
    let (mle, _) = build_merkle_unified_mle(&params(), &state_ins, live);
    for slot in live..32 {
        for round in 0..128 {
            for elem in 0..4 {
                let idx = MerkleUnifiedMle::<F>::index(slot, round, elem);
                assert_eq!(mle.s_in[idx], el(0));
                assert_eq!(mle.s_out[idx], el(0));
                assert_eq!(mle.state[idx], el(0));
            }
        }
    }
}

#[test]
fn merkle_shift_mu_table_matches_definition() {
    let live = 16;
    let tab = build_merkle_mu_table::<F>(live);
    for idx in 0..N_MERKLE_UNIFIED_CELLS {
        let want = if merkle_slot_of(idx as u16) < live && merkle_round_of(idx as u16) < 66 {
            el(1)
        } else {
            el(0)
        };
        assert_eq!(tab[idx], want, "mu mismatch at idx {idx}");
    }
}

#[test]
fn merkle_shift_permute_by_dec_is_round_shift() {
    let src: Vec<_> = (0..N_MERKLE_UNIFIED_CELLS).map(|i| el(i as u128)).collect();
    let dst = merkle_permute_by_dec(&src);
    for y in 0..N_MERKLE_UNIFIED_CELLS {
        let x = merkle_dec_round_index(y as u16) as usize;
        assert_eq!(dst[y], src[x]);
    }
}
