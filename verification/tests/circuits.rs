//! The circuits, and their executions against a direct computation of what they
//! stand for.
use noid_gkr::auth_circuit::{
    AuthCircuit, AuthInputs, AuthIvs, AuthPublicInputs, AuthSlotRole, N_AUTH_INPUTS, N_AUTH_SLOTS,
    N_SWEEP_AUTH_INPUTS,
};
use noid_gkr::auth_oracle::{compute_sweep_auth_boundary, evaluate_sweep_auth};
use noid_gkr::binding::BindingCut;
use noid_gkr::circuit::{
    input_tree_leaf, output_tree_leaf, InstanceMeta, InstanceRole, SpineCircuit, SpineInputs,
    N_INSTANCES,
};
use noid_gkr::circuit_sweep::{
    sweep_input_tree_leaf, sweep_output_tree_leaf, SpineIvs, SweepSpineCircuit, SweepSpineInputs,
    SweepSpineSlotRole, N_SWEEP_SPINE_SLOTS,
};
use noid_gkr::block_spine_sweep::{
    discharge_sweep_block_spine_reductions_native, prove_sweep_block_spine_killshot,
    verify_sweep_block_spine_killshot, SweepBlockSpineMle,
};
use noid_gkr::field::{BinaryField, TowerField};
use noid_gkr::layers::PermParams;
use noid_gkr::merkle_circuit::{MerkleCircuit, MerklePathInputs, MAX_MERKLE_DEPTH};
use noid_gkr::merkle_oracle::{compute_merkle_root, evaluate_merkle};
use noid_gkr::oracle::evaluate_spine;
use noid_gkr::oracle_sweep::evaluate_sweep_spine;
use noid_gkr::sponge::{digest_to_fields, fields_to_digest};
use noid_gkr::tower::Tower128;
use noid_gkr::transcript::ElementTranscript;

type F = Tower128;

fn el(bits: u128) -> F {
    F::from_u128(bits)
}

fn params() -> PermParams<F> {
    let mut s = 0x243F_6A88_85A3_08D3_1319_8A2E_0370_7344u128;
    let mut next = || {
        s = s.wrapping_mul(0x2360_ED05_1FC6_5DA4_4385_DF64_9FCC_F645).wrapping_add(0x9E37_79B9);
        el(s ^ (s >> 61))
    };
    PermParams {
        mds_full: std::array::from_fn(|_| std::array::from_fn(|_| next())),
        mds_partial: std::array::from_fn(|_| std::array::from_fn(|_| next())),
        round_constants: std::array::from_fn(|_| std::array::from_fn(|_| next())),
    }
}

fn mds(m: &[[F; 4]; 4], v: [F; 4]) -> [F; 4] {
    std::array::from_fn(|i| {
        let mut acc = el(0);
        for j in 0..4 {
            acc = acc.plus(m[i][j].times(v[j]));
        }
        acc
    })
}

/// The permutation, round by round.
fn permutation(p: &PermParams<F>, input: [F; 4]) -> [F; 4] {
    let mut s = mds(&p.mds_full, input);
    for round in 0..66 {
        let partial = (4..62).contains(&round);
        for lane in 0..4 {
            if !partial || lane == 0 {
                let x = s[lane].plus(p.round_constants[lane][round]);
                let mut y = x;
                for _ in 0..6 {
                    y = y.times(x);
                }
                s[lane] = y;
            }
        }
        s = mds(if partial { &p.mds_partial } else { &p.mds_full }, s);
    }
    s
}

/// A sponge that absorbs blocks, and pads with a block of its own where asked.
fn sponge(iv: [F; 2], blocks: &[[F; 2]], pad: bool) -> [F; 2] {
    let p = params();
    let mut s = [el(0), el(0), iv[0], iv[1]];
    let mut all = blocks.to_vec();
    if pad {
        all.push([el(0x80), el(1 << 120)]);
    }
    for b in all {
        s[0] = s[0].plus(b[0]);
        s[1] = s[1].plus(b[1]);
        s = permutation(&p, s);
    }
    [s[0], s[1]]
}

fn auth_ivs() -> AuthIvs<F> {
    AuthIvs { address: [el(0xADD1), el(0xADD2)], auth_tag: [el(0x7A61), el(0x7A62)] }
}

fn spine_ivs() -> SpineIvs<F> {
    SpineIvs {
        leaf: [el(0x1EAF1), el(0x1EAF2)],
        outleaf: [el(0x0071), el(0x0072)],
        compress: [el(0xC0E1), el(0xC0E2)],
        txbody: [el(0x7B01), el(0x7B02)],
    }
}

#[test]
fn build_has_expected_slot_count_and_shape() {
    let c = AuthCircuit::build(&auth_ivs());
    assert_eq!(c.slots.len(), N_AUTH_SLOTS);
    assert_eq!(N_AUTH_SLOTS, 5 * N_AUTH_INPUTS);
}

#[test]
fn auth_circuit_heads_are_ivs_non_heads_chain_prev() {
    let c = AuthCircuit::build(&auth_ivs());
    for s in &c.slots {
        match s.role {
            AuthSlotRole::HAddrPermA { .. } | AuthSlotRole::HAuthPermA { .. } => {
                assert!(s.is_head);
                assert!(s.prev_output_src.is_none());
            }
            AuthSlotRole::HAddrPermB { .. }
            | AuthSlotRole::HAuthPermB { .. }
            | AuthSlotRole::HAuthPermC { .. } => {
                assert!(!s.is_head);
                assert_eq!(s.prev_output_src, Some(s.id - 1));
            }
        }
    }
}

#[test]
fn ivs_match_domain_tags() {
    let ivs = auth_ivs();
    let c = AuthCircuit::build(&ivs);
    for s in &c.slots {
        match s.role {
            AuthSlotRole::HAddrPermA { .. } | AuthSlotRole::HAddrPermB { .. } => {
                assert_eq!(s.capacity_iv, ivs.address);
            }
            AuthSlotRole::HAuthPermA { .. }
            | AuthSlotRole::HAuthPermB { .. }
            | AuthSlotRole::HAuthPermC { .. } => {
                assert_eq!(s.capacity_iv, ivs.auth_tag);
            }
        }
    }
}

#[test]
fn output_slot_accessors_land_on_correct_role() {
    let c = AuthCircuit::build(&auth_ivs());
    for i in 0..N_AUTH_INPUTS {
        let addr_slot = &c.slots[AuthCircuit::<F>::haddr_output_slot(i)];
        assert!(
            matches!(addr_slot.role, AuthSlotRole::HAddrPermB { input_idx } if input_idx as usize == i)
        );
        assert_eq!(addr_slot.role.input_idx(), i);

        let auth_slot = &c.slots[AuthCircuit::<F>::hauth_output_slot(i)];
        assert!(
            matches!(auth_slot.role, AuthSlotRole::HAuthPermC { input_idx } if input_idx as usize == i)
        );
        assert_eq!(auth_slot.role.input_idx(), i);
    }
}

#[test]
fn public_part_leaves_the_secrets_out() {
    let mut inputs = AuthInputs::<F>::zero(N_AUTH_INPUTS);
    inputs.spend_secret[2] = [el(5), el(6)];
    inputs.expected_address[1] = [el(7), el(8)];
    inputs.tx_body_hash = [el(9), el(10)];
    let public = inputs.to_public();
    let mut want = AuthPublicInputs::<F>::zero(N_AUTH_INPUTS);
    want.expected_address[1] = [el(7), el(8)];
    want.tx_body_hash = [el(9), el(10)];
    assert_eq!(public, want);
    let back = AuthInputs::from_parts(&public, inputs.spend_secret.clone());
    assert_eq!(back.spend_secret, inputs.spend_secret);
    assert_eq!(back.to_public(), public);
}

fn address_of(secret: &[u8; 32]) -> [F; 2] {
    sponge(auth_ivs().address, &[digest_to_fields(secret)], true)
}

fn tag_of(secret: &[u8; 32], hash: &[u8; 32]) -> [F; 2] {
    sponge(auth_ivs().auth_tag, &[digest_to_fields(secret), digest_to_fields(hash)], true)
}

#[test]
fn empty_inputs_witness_is_well_formed() {
    let circuit = AuthCircuit::build_sweep(&auth_ivs());
    let inputs = AuthInputs::zero(N_SWEEP_AUTH_INPUTS);
    let w = evaluate_sweep_auth(&params(), &auth_ivs(), &circuit, &inputs);
    assert_eq!(w.slots.len(), circuit.slots.len());
}

#[test]
fn derived_address_matches_native() {
    let circuit = AuthCircuit::build_sweep(&auth_ivs());
    let secrets: [[u8; 32]; N_SWEEP_AUTH_INPUTS] = std::array::from_fn(|i| [i as u8 + 1; 32]);

    let mut inputs = AuthInputs::zero(N_SWEEP_AUTH_INPUTS);
    for (i, s) in secrets.iter().enumerate() {
        inputs.spend_secret[i] = digest_to_fields(s);
    }

    let w = evaluate_sweep_auth(&params(), &auth_ivs(), &circuit, &inputs);
    for i in 0..N_SWEEP_AUTH_INPUTS {
        let native = address_of(&secrets[i]);
        assert_eq!(
            fields_to_digest(&w.derived_address[i]),
            fields_to_digest(&native),
            "derive_address mismatch at input {i}",
        );
    }
}

#[test]
fn derived_auth_tag_matches_native() {
    let circuit = AuthCircuit::build_sweep(&auth_ivs());
    let secrets: [[u8; 32]; N_SWEEP_AUTH_INPUTS] =
        std::array::from_fn(|i| [(i as u8).wrapping_mul(7).wrapping_add(11); 32]);
    let tbh = [0x5Au8; 32];

    let mut inputs = AuthInputs::zero(N_SWEEP_AUTH_INPUTS);
    for (i, s) in secrets.iter().enumerate() {
        inputs.spend_secret[i] = digest_to_fields(s);
    }
    inputs.tx_body_hash = digest_to_fields(&tbh);

    let w = evaluate_sweep_auth(&params(), &auth_ivs(), &circuit, &inputs);
    for i in 0..N_SWEEP_AUTH_INPUTS {
        let native = tag_of(&secrets[i], &tbh);
        assert_eq!(
            fields_to_digest(&w.derived_auth_tag[i]),
            fields_to_digest(&native),
            "hash_auth_tag mismatch at input {i}",
        );
    }
    let (addresses, tags) = compute_sweep_auth_boundary(
        &params(),
        &auth_ivs(),
        &circuit,
        &inputs.spend_secret,
        inputs.tx_body_hash,
    );
    assert_eq!(addresses, w.derived_address);
    assert_eq!(tags, w.derived_auth_tag);
}

#[test]
fn zero_secret_matches_native() {
    let circuit = AuthCircuit::build_sweep(&auth_ivs());
    let inputs = AuthInputs::zero(N_SWEEP_AUTH_INPUTS);
    let w = evaluate_sweep_auth(&params(), &auth_ivs(), &circuit, &inputs);
    let expected_addr = address_of(&[0u8; 32]);
    let expected_tag = tag_of(&[0u8; 32], &[0u8; 32]);
    for i in 0..N_SWEEP_AUTH_INPUTS {
        assert_eq!(fields_to_digest(&w.derived_address[i]), fields_to_digest(&expected_addr));
        assert_eq!(fields_to_digest(&w.derived_auth_tag[i]), fields_to_digest(&expected_tag));
    }
}

/// The sixteen leaves under a body hash, folded pair by pair, the leaves of the
/// inputs and outputs each with the permutations that hash it.
fn body_layout() -> Vec<InstanceMeta> {
    fn push_node(
        out: &mut Vec<InstanceMeta>,
        level: u8,
        pos: u8,
    ) -> Option<usize> {
        let leaf = |role, is_head| InstanceMeta { role, is_head, children: None };
        if level == 0 {
            let p = pos as usize;
            if (2..6).contains(&p) {
                let leaf_idx = pos - 2;
                out.push(leaf(InstanceRole::InputLeafPermA { leaf_idx }, true));
                out.push(leaf(InstanceRole::InputLeafPermB { leaf_idx }, false));
                out.push(leaf(InstanceRole::InputLeafPermC { leaf_idx }, false));
                return Some(out.len() - 1);
            }
            if (6..14).contains(&p) {
                let leaf_idx = pos - 6;
                out.push(leaf(InstanceRole::OutputLeafPermA { leaf_idx }, true));
                out.push(leaf(InstanceRole::OutputLeafPermB { leaf_idx }, false));
                return Some(out.len() - 1);
            }
            return None;
        }
        let left = push_node(out, level - 1, 2 * pos);
        let right = push_node(out, level - 1, 2 * pos + 1);
        let children = Some((left, right));
        out.push(InstanceMeta {
            role: InstanceRole::CompressPermA { level, pos },
            is_head: true,
            children,
        });
        out.push(InstanceMeta {
            role: InstanceRole::CompressPermB { level, pos },
            is_head: false,
            children,
        });
        Some(out.len() - 1)
    }
    let mut out = Vec::new();
    let root = push_node(&mut out, 4, 0);
    out.push(InstanceMeta {
        role: InstanceRole::WrapPerm,
        is_head: true,
        children: Some((root, None)),
    });
    out
}

#[test]
fn build_has_59_slots_with_one_wrap() {
    let c = SpineCircuit::build(&spine_ivs(), body_layout());
    assert_eq!(c.slots.len(), N_INSTANCES);
    assert_eq!(c.wrap_id(), N_INSTANCES - 1);
    assert!(matches!(c.slots.last().unwrap().role, InstanceRole::WrapPerm));
}

#[test]
fn circuit_heads_are_ivs_non_heads_chain_prev() {
    let c = SpineCircuit::build(&spine_ivs(), body_layout());
    for s in &c.slots {
        if s.is_head {
            assert!(s.prev_output_src.is_none(), "head must not chain from prev");
        } else {
            assert_eq!(s.prev_output_src, Some(s.id - 1));
        }
    }
}

#[test]
fn circuit_wrap_iv_is_txbody() {
    let c = SpineCircuit::build(&spine_ivs(), body_layout());
    let wrap = c.slots.last().unwrap();
    assert_eq!(wrap.capacity_iv, spine_ivs().txbody);
}

fn payload(seed: u128) -> [F; 4] {
    std::array::from_fn(|k| el(seed * 1_000 + k as u128 * 7 + 3))
}

#[test]
fn spine_oracle_folds_the_sixteen_leaves() {
    let ivs = spine_ivs();
    let inputs = SpineInputs {
        epoch_anchor: [el(1), el(2)],
        fee_leaf: [el(3), el(4)],
        input_leaves: std::array::from_fn(|i| payload(10 + i as u128)),
        output_leaves: std::array::from_fn(|i| payload(20 + i as u128)),
        is_coinbase_leaf: [el(5), el(6)],
        pad_leaf: [el(7), el(8)],
    };
    let mut leaves = vec![inputs.epoch_anchor, inputs.fee_leaf];
    for p in &inputs.input_leaves {
        leaves.push(sponge(ivs.leaf, &[[p[0], p[1]], [p[2], p[3]]], true));
    }
    for p in &inputs.output_leaves {
        leaves.push(sponge(ivs.outleaf, &[[p[0], p[1]], [p[2], p[3]]], false));
    }
    leaves.push(inputs.is_coinbase_leaf);
    leaves.push(inputs.pad_leaf);
    assert_eq!(leaves.len(), 16);
    assert_eq!((input_tree_leaf(0), output_tree_leaf(0)), (2, 6));
    while leaves.len() > 1 {
        leaves = leaves.chunks(2).map(|c| sponge(ivs.compress, &[c[0], c[1]], false)).collect();
    }
    let want = sponge(ivs.txbody, &[leaves[0]], false);

    let circuit = SpineCircuit::build(&ivs, body_layout());
    let w = evaluate_spine(&params(), &circuit, &inputs);
    assert_eq!(w.tx_body_hash, want);
    assert_eq!(w.tx_body_hash_bytes(), fields_to_digest(&want));
    let (cut, again) = BindingCut::honest(&params(), &circuit, inputs);
    assert_eq!(cut.output_lanes(), want);
    assert_eq!(again.tx_body_hash, want);
}

#[test]
fn build_has_expected_slot_count_and_wrap() {
    let c = SweepSpineCircuit::build(&spine_ivs());
    assert_eq!(N_SWEEP_SPINE_SLOTS, 142);
    assert_eq!(c.slots.len(), N_SWEEP_SPINE_SLOTS);
    assert_eq!(c.wrap_id(), N_SWEEP_SPINE_SLOTS - 1);
    assert!(matches!(c.slots.last().unwrap().role, SweepSpineSlotRole::WrapPerm));
}

#[test]
fn circuit_sweep_heads_are_ivs_non_heads_chain_prev() {
    let c = SweepSpineCircuit::build(&spine_ivs());
    for s in &c.slots {
        assert_eq!(s.is_head, s.role.is_head());
        if s.is_head {
            assert!(s.prev_output_src.is_none());
        } else {
            assert_eq!(s.prev_output_src, Some(s.id - 1));
        }
    }
}

#[test]
fn circuit_sweep_wrap_iv_is_txbody() {
    let c = SweepSpineCircuit::build(&spine_ivs());
    let wrap = c.slots.last().unwrap();
    assert_eq!(wrap.capacity_iv, spine_ivs().txbody);
}

fn sweep_payload(slot: u128, value: u128, owner: u8) -> [F; 4] {
    let o = digest_to_fields(&[owner; 32]);
    [el(slot), el(value), o[0], o[1]]
}

fn sweep_inputs() -> SweepSpineInputs<F> {
    SweepSpineInputs {
        epoch_anchor: digest_to_fields(&[0x5Au8; 32]),
        fee_leaf: [el(123), el(0)],
        shape_leaf: [el(1), el(0)],
        input_leaves: std::array::from_fn(|i| {
            sweep_payload(10 + i as u128, 1_000 + i as u128, i as u8 + 1)
        }),
        output_leaves: std::array::from_fn(|i| {
            sweep_payload(100 + i as u128, 9_000 + i as u128, 0xA0 + i as u8)
        }),
        is_coinbase_leaf: [el(0), el(0)],
        pad_leaf: [el(0), el(0)],
    }
}

#[test]
fn sweep_spine_oracle_matches_native_hash() {
    let ivs = spine_ivs();
    let circuit = SweepSpineCircuit::build(&ivs);
    let inputs = sweep_inputs();
    let got = evaluate_sweep_spine(&params(), &circuit, &inputs).tx_body_hash;

    let mut leaves = vec![inputs.epoch_anchor, inputs.fee_leaf, inputs.shape_leaf];
    for p in &inputs.input_leaves {
        leaves.push(sponge(ivs.leaf, &[[p[0], p[1]], [p[2], p[3]]], true));
    }
    for p in &inputs.output_leaves {
        leaves.push(sponge(ivs.outleaf, &[[p[0], p[1]], [p[2], p[3]]], false));
    }
    leaves.push(inputs.is_coinbase_leaf);
    leaves.push(inputs.pad_leaf);
    assert_eq!(leaves.len(), 32);
    assert_eq!((sweep_input_tree_leaf(0), sweep_output_tree_leaf(0)), (3, 28));
    while leaves.len() > 1 {
        leaves = leaves.chunks(2).map(|c| sponge(ivs.compress, &[c[0], c[1]], false)).collect();
    }
    let want = sponge(ivs.txbody, &[leaves[0]], false);
    assert_eq!(fields_to_digest(&got), fields_to_digest(&want));
}

#[test]
fn sweep_spine_oracle_binds_shape_leaf() {
    let circuit = SweepSpineCircuit::build(&spine_ivs());
    let mut inputs = sweep_inputs();
    let honest = evaluate_sweep_spine(&params(), &circuit, &inputs).tx_body_hash;
    inputs.shape_leaf[0] = inputs.shape_leaf[0].plus(el(1));
    let tampered = evaluate_sweep_spine(&params(), &circuit, &inputs).tx_body_hash;
    assert_ne!(honest, tampered);
}

fn merkle_iv() -> [F; 2] {
    [el(0xC0E1), el(0xC0E2)]
}

fn compress(left: &[u8; 32], right: &[u8; 32]) -> [u8; 32] {
    fields_to_digest(&sponge(
        merkle_iv(),
        &[digest_to_fields(left), digest_to_fields(right)],
        false,
    ))
}

fn path(leaf: &[u8; 32], siblings: &[[u8; 32]], root: &[u8; 32]) -> MerklePathInputs<F> {
    let mut full = [[el(0); 2]; MAX_MERKLE_DEPTH];
    for (i, s) in siblings.iter().enumerate() {
        full[i] = digest_to_fields(s);
    }
    MerklePathInputs {
        leaf: digest_to_fields(leaf),
        siblings: full,
        expected_root: digest_to_fields(root),
        active_depth: siblings.len(),
    }
}

#[test]
fn single_compression_matches_native() {
    let circuit = MerkleCircuit::build(merkle_iv());
    let left = [0x11u8; 32];
    let right = [0x22u8; 32];
    let native_out = compress(&left, &right);
    let inputs = path(&left, &[right], &native_out);
    let w = evaluate_merkle(&params(), merkle_iv(), &circuit, &inputs);
    assert_eq!(fields_to_digest(&w.derived_root), native_out);
}

#[test]
fn three_level_path_matches_native() {
    let circuit = MerkleCircuit::build(merkle_iv());
    let leaf = [0xAAu8; 32];
    let s0 = [0xBBu8; 32];
    let s1 = [0xCCu8; 32];
    let s2 = [0xDDu8; 32];

    let h0 = compress(&leaf, &s0);
    let h1 = compress(&h0, &s1);
    let h2 = compress(&h1, &s2);

    let inputs = path(&leaf, &[s0, s1, s2], &h2);
    let w = evaluate_merkle(&params(), merkle_iv(), &circuit, &inputs);
    assert_eq!(fields_to_digest(&w.derived_root), h2);
    let siblings = [digest_to_fields(&s0), digest_to_fields(&s1), digest_to_fields(&s2)];
    let root = compute_merkle_root(
        &params(),
        merkle_iv(),
        &circuit,
        digest_to_fields(&leaf),
        &siblings,
        3,
    );
    assert_eq!(fields_to_digest(&root), h2);
}

#[test]
fn full_depth_16_path() {
    let circuit = MerkleCircuit::build(merkle_iv());
    let mut current = [0x42u8; 32];
    let mut siblings_raw = [[0u8; 32]; MAX_MERKLE_DEPTH];
    for (i, sibling) in siblings_raw.iter_mut().enumerate().take(MAX_MERKLE_DEPTH) {
        *sibling = [(i as u8).wrapping_add(1); 32];
        current = compress(&current, sibling);
    }
    let inputs = path(&[0x42u8; 32], &siblings_raw, &current);
    let w = evaluate_merkle(&params(), merkle_iv(), &circuit, &inputs);
    assert_eq!(fields_to_digest(&w.derived_root), current);
}

#[test]
fn block_of_one_sweep_transaction_round_trip() {
    let ivs = spine_ivs();
    let inputs = [sweep_inputs()];
    let circuit = SweepSpineCircuit::build(&ivs);
    let hash = evaluate_sweep_spine(&params(), &circuit, &inputs[0]).tx_body_hash;
    let mle = SweepBlockSpineMle::build(&params(), &ivs, &inputs);
    let mut ch_p = ElementTranscript::new();
    let (proof, reductions) =
        prove_sweep_block_spine_killshot(&params(), 1, &mle, &[hash], &mut ch_p);
    let verify = |hash: [F; 2]| {
        let mut ch_v = ElementTranscript::new();
        verify_sweep_block_spine_killshot(&params(), &proof, 1, &[hash], &mut ch_v)
    };
    let got = verify(hash).expect("the honest proof is accepted");
    assert_eq!(got, reductions);
    assert!(discharge_sweep_block_spine_reductions_native(&params(), &ivs, &inputs, &got));
    assert!(verify([hash[0].plus(el(1)), hash[1]]).is_none());
    let mut ch_v = ElementTranscript::new();
    assert!(verify_sweep_block_spine_killshot(&params(), &proof, 0, &[], &mut ch_v).is_none());
    assert_eq!(ch_v, ElementTranscript::new());
}

#[test]
fn a_path_without_levels_ends_at_its_leaf() {
    let iv = [el(0xC0E1), el(0xC0E2)];
    let circuit = MerkleCircuit::build(iv);
    let (leaf, s0, s1) = ([el(5), el(6)], [el(7), el(8)], [el(9), el(10)]);
    let root = |siblings: &[[F; 2]], depth| {
        compute_merkle_root(&params(), iv, &circuit, leaf, siblings, depth)
    };
    assert_eq!(root(&[s0], 0), leaf);
    assert_eq!(root(&[], 0), leaf);
    let one = sponge(iv, &[leaf, s0], false);
    assert_eq!(root(&[s0], 1), one);
    assert_eq!(root(&[s0, s1], 1), one);
    assert_eq!(root(&[s0], 2), sponge(iv, &[one, [el(0), el(0)]], false));
}
