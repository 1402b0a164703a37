//! The proof of a body hash.
use noid_gkr::circuit::{InstanceMeta, InstanceRole, SpineCircuit, SpineInputs};
use noid_gkr::circuit_sweep::SpineIvs;
use noid_gkr::field::{BinaryField, TowerField};
use noid_gkr::layers::PermParams;
use noid_gkr::spine_killshot::{
    compute_tx_body_hash, discharge_reductions_native, prove_spine_killshot,
    prove_spine_killshot_with_states, reconstruct_slot_states, verify_spine_killshot,
};
use noid_gkr::tower::Tower128;
use noid_gkr::transcript::ElementTranscript;

type F = Tower128;

fn el(bits: u128) -> F {
    F::from_u128(bits)
}

fn params() -> PermParams<F> {
    let mut s = 0x243F_6A88_85A3_08D3_1319_8A2E_0370_7344u128;
    let mut next = || {
        s = s.wrapping_mul(0x2360_ED05_1FC6_5DA4_4385_DF64_9FCC_F645).wrapping_add(0x9E37_79B9);
        el(s ^ (s >> 61))
    };
    PermParams {
        mds_full: std::array::from_fn(|_| std::array::from_fn(|_| next())),
        mds_partial: std::array::from_fn(|_| std::array::from_fn(|_| next())),
        round_constants: std::array::from_fn(|_| std::array::from_fn(|_| next())),
    }
}

fn ivs() -> SpineIvs<F> {
    SpineIvs {
        leaf: [el(0x1EAF1), el(0x1EAF2)],
        outleaf: [el(0x0071), el(0x0072)],
        compress: [el(0xC0E1), el(0xC0E2)],
        txbody: [el(0x7B01), el(0x7B02)],
    }
}

/// Appends the permutations under a node, and returns the last of them.
fn push_node(out: &mut Vec<InstanceMeta>, level: u8, pos: u8) -> Option<usize> {
    let leaf = |role, is_head| InstanceMeta { role, is_head, children: None };
    if level == 0 {
        if (2..6).contains(&pos) {
            let leaf_idx = pos - 2;
            out.push(leaf(InstanceRole::InputLeafPermA { leaf_idx }, true));
            out.push(leaf(InstanceRole::InputLeafPermB { leaf_idx }, false));
            out.push(leaf(InstanceRole::InputLeafPermC { leaf_idx }, false));
            return Some(out.len() - 1);
        }
        if (6..14).contains(&pos) {
            let leaf_idx = pos - 6;
            out.push(leaf(InstanceRole::OutputLeafPermA { leaf_idx }, true));
            out.push(leaf(InstanceRole::OutputLeafPermB { leaf_idx }, false));
            return Some(out.len() - 1);
        }
        return None;
    }
    let left = push_node(out, level - 1, 2 * pos);
    let right = push_node(out, level - 1, 2 * pos + 1);
    let children = Some((left, right));
    let first = InstanceRole::CompressPermA { level, pos };
    let second = InstanceRole::CompressPermB { level, pos };
    out.push(InstanceMeta { role: first, is_head: true, children });
    out.push(InstanceMeta { role: second, is_head: false, children });
    Some(out.len() - 1)
}

fn circuit() -> SpineCircuit<F> {
    let mut layout = Vec::new();
    let root = push_node(&mut layout, 4, 0);
    layout.push(InstanceMeta {
        role: InstanceRole::WrapPerm,
        is_head: true,
        children: Some((root, None)),
    });
    SpineCircuit::build(&ivs(), layout)
}

fn fixture_inputs() -> SpineInputs<F> {
    SpineInputs {
        epoch_anchor: [el(11), el(22)],
        fee_leaf: [el(33), el(44)],
        input_leaves: [[el(1); 4]; 4],
        output_leaves: [[el(2); 4]; 8],
        is_coinbase_leaf: [el(55), el(66)],
        pad_leaf: [el(0), el(0)],
    }
}

#[test]
fn killshot_round_trip_native_discharge() {
    let (circuit, inputs) = (circuit(), fixture_inputs());
    let claimed = compute_tx_body_hash(&params(), &circuit, &inputs);

    let mut ch_p = ElementTranscript::new();
    let (proof, reductions) =
        prove_spine_killshot(&params(), &circuit, &inputs, claimed, &mut ch_p);

    let mut ch_v = ElementTranscript::new();
    let v_red = verify_spine_killshot(&params(), &proof, &circuit, &inputs, claimed, &mut ch_v)
        .expect("verifier accepts honest proof");

    assert_eq!(v_red, reductions);
    assert!(discharge_reductions_native(&params(), &circuit, &inputs, &v_red));
}

#[test]
fn killshot_rejects_tampered_state_at_r() {
    let (circuit, inputs) = (circuit(), fixture_inputs());
    let claimed = compute_tx_body_hash(&params(), &circuit, &inputs);

    let mut ch_p = ElementTranscript::new();
    let (mut proof, _) = prove_spine_killshot(&params(), &circuit, &inputs, claimed, &mut ch_p);
    proof.kill_shot.main.state_at_r = proof.kill_shot.main.state_at_r.plus(el(1));

    let mut ch_v = ElementTranscript::new();
    assert!(verify_spine_killshot(&params(), &proof, &circuit, &inputs, claimed, &mut ch_v)
        .is_none());
}

#[test]
fn killshot_rejects_tampered_shift_claim() {
    let (circuit, inputs) = (circuit(), fixture_inputs());
    let claimed = compute_tx_body_hash(&params(), &circuit, &inputs);

    let mut ch_p = ElementTranscript::new();
    let (mut proof, _) = prove_spine_killshot(&params(), &circuit, &inputs, claimed, &mut ch_p);
    proof.kill_shot.shift.s_in_at_r2 = proof.kill_shot.shift.s_in_at_r2.plus(el(1));

    let mut ch_v = ElementTranscript::new();
    assert!(verify_spine_killshot(&params(), &proof, &circuit, &inputs, claimed, &mut ch_v)
        .is_none());
}

#[test]
fn killshot_rejects_tampered_state_batch() {
    let (circuit, inputs) = (circuit(), fixture_inputs());
    let claimed = compute_tx_body_hash(&params(), &circuit, &inputs);

    let mut ch_p = ElementTranscript::new();
    let (mut proof, _) = prove_spine_killshot(&params(), &circuit, &inputs, claimed, &mut ch_p);
    proof.state_batch.b_final = proof.state_batch.b_final.plus(el(1));

    let mut ch_v = ElementTranscript::new();
    assert!(verify_spine_killshot(&params(), &proof, &circuit, &inputs, claimed, &mut ch_v)
        .is_none());
}

#[test]
fn killshot_rejects_wrong_claimed_hash() {
    let (circuit, inputs) = (circuit(), fixture_inputs());
    let bad = [el(0xDEAD), el(0xBEEF)];

    let mut ch_v = ElementTranscript::new();
    // Build an honest proof under a real claimed hash.
    let real = compute_tx_body_hash(&params(), &circuit, &inputs);
    let mut ch_p = ElementTranscript::new();
    let (proof, _) = prove_spine_killshot(&params(), &circuit, &inputs, real, &mut ch_p);

    // The verifier asks for `bad` — should reject before even
    // walking the sumchecks.
    assert!(verify_spine_killshot(&params(), &proof, &circuit, &inputs, bad, &mut ch_v).is_none());
    assert_eq!(ch_v, ElementTranscript::new());
}

#[test]
fn the_size_counts_round_polynomials_and_last_values() {
    let (circuit, inputs) = (circuit(), fixture_inputs());
    let claimed = compute_tx_body_hash(&params(), &circuit, &inputs);
    let mut ch = ElementTranscript::new();
    let (proof, _) = prove_spine_killshot(&params(), &circuit, &inputs, claimed, &mut ch);
    assert_eq!(proof.byte_len(), 15 * 160 + 15 * 48 + 3 * (15 * 48 + 16));
}

#[test]
fn the_transcript_binds_the_inputs() {
    // The states are those of the inputs, but the statement names others.
    let (circuit, inputs) = (circuit(), fixture_inputs());
    let claimed = compute_tx_body_hash(&params(), &circuit, &inputs);
    let states = reconstruct_slot_states(&params(), &circuit, &inputs);
    let mut other = fixture_inputs();
    other.output_leaves[7][3] = el(3);
    let mut ch_p = ElementTranscript::new();
    let (proof, _) =
        prove_spine_killshot_with_states(&params(), &states, &other, claimed, &mut ch_p);
    let mut ch_v = ElementTranscript::new();
    assert!(verify_spine_killshot(&params(), &proof, &circuit, &inputs, claimed, &mut ch_v)
        .is_none());

    let mut ch_p = ElementTranscript::new();
    let (proof, _) =
        prove_spine_killshot_with_states(&params(), &states, &inputs, claimed, &mut ch_p);
    let mut ch_v = ElementTranscript::new();
    assert!(verify_spine_killshot(&params(), &proof, &circuit, &inputs, claimed, &mut ch_v)
        .is_some());
    assert_eq!(ch_p, ch_v);
}
