//! The maps between cells and their slot, round and lane, and the maps of
//! queries.
use noid_gkr::auth_mle_v2::{AuthUnifiedMle, N_AUTH_LIVE_SLOTS, N_AUTH_UNIFIED_CELLS, N_AUTH_UNIFIED_VARS};
use noid_gkr::auth_shift_sweep::{
    sweep_auth_dec_round_index, sweep_auth_elem_of, sweep_auth_inc_round_index,
    sweep_auth_pack_index, sweep_auth_round_of, sweep_auth_slot_of, N_SWEEP_AUTH_LIVE_SLOTS,
    N_SWEEP_AUTH_UNIFIED_CELLS,
};
use noid_gkr::auth_unified_v2::{AUTH_SHIFT_ROUND_DEGREE, AUTH_UNIFIED_ROUND_DEGREE};
use noid_gkr::block_spine_sweep::{num_vars_for, slot_vars_for};
use noid_gkr::circuit_sweep::N_SWEEP_SPINE_SLOTS;
use noid_gkr::layers::{N_ROUNDS, STATE_SIZE};
use noid_gkr::merkle_mle::{MerkleUnifiedMle, N_MERKLE_MAX_LIVE_SLOTS};
use noid_gkr::merkle_shift::{
    merkle_dec_round_index, merkle_elem_of, merkle_inc_round_index, merkle_pack_index,
    merkle_round_of, merkle_slot_of, N_MERKLE_UNIFIED_CELLS, N_MERKLE_UNIFIED_VARS,
};
use noid_gkr::owner_auth::{
    owner_auth_dec_round_index, owner_auth_elem_of, owner_auth_pack_index, owner_auth_round_of,
    owner_auth_slot_of, OwnerAuthLayout, OWNER_AUTH_LIVE_SLOTS, OWNER_AUTH_NUM_VARS,
    OWNER_AUTH_SLOT_BITS,
};
use noid_gkr::spine_degree7::SPINE_D7_ROUND_DEGREE;
use noid_gkr::spine_shift_sweep::{
    sweep_spine_dec_round_index, sweep_spine_elem_of, sweep_spine_inc_round_index,
    sweep_spine_pack_index, sweep_spine_round_of, sweep_spine_slot_of,
    N_SWEEP_SPINE_UNIFIED_CELLS,
};
use noid_gkr::tower::Tower128;
use noid_gkr::trace::ROUND_LIMIT;
use noid_gkr::zk_capsule_algebra::{
    joint_source_leaf_positions, map_source_query_leaf, source_leaf_from_query_bits,
    source_query_bits, ZkCapsuleAlgebraError, MID_LEAF_COUNT, MID_STANDARD_FOLDS,
    SOURCE_LEAF_COUNT, SOURCE_QUERY_BITS, SOURCE_STANDARD_FOLDS,
};

#[test]
fn topology_constants_consistent() {
    assert_eq!(N_AUTH_UNIFIED_VARS, 14);
    assert_eq!(N_AUTH_UNIFIED_CELLS, 16_384);
}

#[test]
fn auth_mle_v2_index_round_trip() {
    for slot in 0..N_AUTH_LIVE_SLOTS {
        for round in 0..N_ROUNDS {
            for elem in 0..STATE_SIZE {
                let idx = AuthUnifiedMle::<Tower128>::index(slot, round, elem);
                assert!(idx < N_AUTH_UNIFIED_CELLS);
                let recovered_elem = idx & 0b11;
                let recovered_round = (idx >> 2) & 0b111_1111;
                let recovered_slot = idx >> 9;
                assert_eq!(recovered_elem, elem);
                assert_eq!(recovered_round, round);
                assert_eq!(recovered_slot, slot);
            }
        }
    }
}

#[test]
fn topology_constants() {
    assert_eq!(N_MERKLE_UNIFIED_VARS, 14);
    assert_eq!(N_MERKLE_UNIFIED_CELLS, 16_384);
}

#[test]
fn merkle_mle_index_round_trip() {
    for slot in 0..N_MERKLE_MAX_LIVE_SLOTS {
        for round in 0..N_ROUNDS {
            for elem in 0..STATE_SIZE {
                let idx = MerkleUnifiedMle::<Tower128>::index(slot, round, elem);
                assert!(idx < N_MERKLE_UNIFIED_CELLS);
                let recovered_elem = idx & 0b11;
                let recovered_round = (idx >> 2) & 0b111_1111;
                let recovered_slot = idx >> 9;
                assert_eq!(recovered_elem, elem);
                assert_eq!(recovered_round, round);
                assert_eq!(recovered_slot, slot);
            }
        }
    }
}

#[test]
fn round_degree_constants() {
    assert_eq!(AUTH_UNIFIED_ROUND_DEGREE, 9);
    assert_eq!(AUTH_SHIFT_ROUND_DEGREE, 2);
}

#[test]
fn round_degree_matches_constant() {
    assert_eq!(SPINE_D7_ROUND_DEGREE, 9);
}

#[test]
fn sweep_block_spine_num_vars() {
    assert_eq!(slot_vars_for(N_SWEEP_SPINE_SLOTS), 8);
    assert_eq!(num_vars_for(N_SWEEP_SPINE_SLOTS), 17);
    assert_eq!(slot_vars_for(2 * N_SWEEP_SPINE_SLOTS), 9);
    assert_eq!(num_vars_for(2 * N_SWEEP_SPINE_SLOTS), 18);
}

#[test]
fn owner_auth_layout_is_fixed_one_owner() {
    assert_eq!(OWNER_AUTH_LIVE_SLOTS, 1);
    assert_eq!(OWNER_AUTH_SLOT_BITS, 0);
    assert_eq!(OWNER_AUTH_NUM_VARS, 9);
    assert_eq!(OwnerAuthLayout::FIXED.cells(), 512);
    assert_eq!(OwnerAuthLayout::default(), OwnerAuthLayout::FIXED);
}

#[test]
fn owner_cells_pack_and_unpack() {
    let layout = OwnerAuthLayout::FIXED;
    for round in 0..ROUND_LIMIT {
        for elem in 0..STATE_SIZE {
            let idx = owner_auth_pack_index(layout, 0, round, elem);
            assert_eq!(idx, layout.index(0, round, elem));
            assert_eq!(owner_auth_slot_of(layout, idx), 0);
            assert_eq!(owner_auth_round_of(layout, idx), round);
            assert_eq!(owner_auth_elem_of(idx), elem);
            let dec = owner_auth_dec_round_index(layout, idx);
            assert_eq!(owner_auth_elem_of(dec), elem);
            assert_eq!(owner_auth_round_of(layout, dec), (round + 127) % 128);
        }
    }
}

#[test]
fn auth_shift_sweep_dec_round_is_inverse_of_inc_round() {
    for idx in 0..N_SWEEP_AUTH_UNIFIED_CELLS {
        let idx = idx as u16;
        assert_eq!(sweep_auth_inc_round_index(sweep_auth_dec_round_index(idx)), idx);
        assert_eq!(sweep_auth_dec_round_index(sweep_auth_inc_round_index(idx)), idx);
    }
}

#[test]
fn auth_shift_sweep_dec_round_wraps_modulo_128() {
    let idx = sweep_auth_pack_index(3, 0, 2);
    let dec = sweep_auth_dec_round_index(idx);
    assert_eq!(sweep_auth_slot_of(dec), 3);
    assert_eq!(sweep_auth_elem_of(dec), 2);
    assert_eq!(sweep_auth_round_of(dec), ROUND_LIMIT - 1);
}

#[test]
fn auth_shift_sweep_pack_unpack_round_trip() {
    for slot in 0..N_SWEEP_AUTH_LIVE_SLOTS {
        for round in 0..N_ROUNDS {
            for elem in 0..STATE_SIZE {
                let idx = sweep_auth_pack_index(slot, round, elem);
                assert_eq!(sweep_auth_slot_of(idx), slot);
                assert_eq!(sweep_auth_round_of(idx), round);
                assert_eq!(sweep_auth_elem_of(idx), elem);
            }
        }
    }
}

#[test]
fn spine_shift_sweep_dec_round_is_inverse_of_inc_round() {
    for idx in 0..N_SWEEP_SPINE_UNIFIED_CELLS as u32 {
        assert_eq!(sweep_spine_inc_round_index(sweep_spine_dec_round_index(idx)), idx);
        assert_eq!(sweep_spine_dec_round_index(sweep_spine_inc_round_index(idx)), idx);
    }
}

#[test]
fn spine_shift_sweep_dec_round_wraps_modulo_128() {
    let idx = sweep_spine_pack_index(3, 0, 2);
    let dec = sweep_spine_dec_round_index(idx);
    assert_eq!(sweep_spine_slot_of(dec), 3);
    assert_eq!(sweep_spine_elem_of(dec), 2);
    assert_eq!(sweep_spine_round_of(dec), ROUND_LIMIT - 1);
}

#[test]
fn dec_round_decrements_in_middle() {
    let idx = sweep_spine_pack_index(7, 33, 1);
    let dec = sweep_spine_dec_round_index(idx);
    assert_eq!(sweep_spine_slot_of(dec), 7);
    assert_eq!(sweep_spine_elem_of(dec), 1);
    assert_eq!(sweep_spine_round_of(dec), 32);
}

#[test]
fn spine_shift_sweep_pack_unpack_round_trip() {
    for slot in 0..N_SWEEP_SPINE_SLOTS {
        for round in 0..N_ROUNDS {
            for elem in 0..STATE_SIZE {
                let idx = sweep_spine_pack_index(slot, round, elem);
                assert_eq!(sweep_spine_slot_of(idx), slot);
                assert_eq!(sweep_spine_round_of(idx), round);
                assert_eq!(sweep_spine_elem_of(idx), elem);
            }
        }
    }
}

#[test]
fn dec_round_is_inverse_of_inc() {
    for idx in 0..N_MERKLE_UNIFIED_CELLS as u16 {
        assert_eq!(merkle_inc_round_index(merkle_dec_round_index(idx)), idx);
        assert_eq!(merkle_dec_round_index(merkle_inc_round_index(idx)), idx);
    }
}

#[test]
fn merkle_shift_pack_unpack_round_trip() {
    for slot in 0..32 {
        for round in 0..N_ROUNDS {
            for elem in 0..STATE_SIZE {
                let idx = merkle_pack_index(slot, round, elem);
                assert_eq!(merkle_slot_of(idx), slot);
                assert_eq!(merkle_round_of(idx), round);
                assert_eq!(merkle_elem_of(idx), elem);
            }
        }
    }
}

#[test]
fn source_and_mid_query_mapping_roundtrips_exhaustively() {
    assert_eq!(SOURCE_LEAF_COUNT, 1 << SOURCE_QUERY_BITS);

    for source_leaf in 0..SOURCE_LEAF_COUNT {
        let mapping = map_source_query_leaf(source_leaf).unwrap();
        assert_eq!(source_leaf_from_query_bits(&mapping.source_bits_lsb), source_leaf);
        assert_eq!(mapping.source_tree_roundtrip(), source_leaf);
        assert_eq!(mapping.mid_tree_roundtrip(), mapping.mid_leaf_index);
        assert_eq!(mapping.source_from_mid_roundtrip(), source_leaf);
        assert_eq!(mapping.mid_position, source_leaf);
        assert_eq!(mapping.mid_member_index, source_leaf & 15);
        assert_eq!(mapping.mid_leaf_index, source_leaf >> 4);
        let positions: [usize; 8] =
            std::array::from_fn(|member| (source_leaf << SOURCE_STANDARD_FOLDS) | member);
        assert_eq!(joint_source_leaf_positions(source_leaf).unwrap(), positions);
        assert_eq!(
            mapping.mid_position,
            (mapping.mid_leaf_index << MID_STANDARD_FOLDS) | mapping.mid_member_index
        );

        // Source path q0..q7; mid path q4..q11; auxiliary q12.
        for bit in 0..8 {
            assert_eq!((mapping.source_path_index >> bit) & 1, (source_leaf >> bit) & 1);
            assert_eq!((mapping.mid_path_index >> bit) & 1, (source_leaf >> (bit + 4)) & 1);
        }
        assert_eq!(mapping.source_cap_index, source_leaf >> 8);
        assert_eq!(mapping.mid_cap_index, source_leaf >> 12);
    }

    assert_eq!(
        map_source_query_leaf(SOURCE_LEAF_COUNT),
        Err(ZkCapsuleAlgebraError::SourceLeafOutOfRange)
    );
    assert_eq!(
        source_query_bits(SOURCE_LEAF_COUNT),
        Err(ZkCapsuleAlgebraError::SourceLeafOutOfRange)
    );
    assert!(joint_source_leaf_positions(SOURCE_LEAF_COUNT).is_err());
}

#[test]
fn source_queries_lift_each_tail_code_coordinate_with_exact_uniform_density() {
    let mut preimages = vec![0usize; MID_LEAF_COUNT];
    for source_leaf in 0..SOURCE_LEAF_COUNT {
        let mapping = map_source_query_leaf(source_leaf).unwrap();
        preimages[mapping.mid_leaf_index] += 1;
    }
    assert!(
        preimages.iter().all(|&count| count == 1usize << MID_STANDARD_FOLDS),
        "q -> q>>4 must give every tail-code coordinate sixteen preimages"
    );

    // An arbitrary tail-code error set therefore lifts to exactly the same
    // relative density in the uniform source-query domain.
    let marked = (0..MID_LEAF_COUNT)
        .filter(|index| (index * 17 + 5) % 29 < 7)
        .collect::<std::collections::BTreeSet<_>>();
    let lifted = (0..SOURCE_LEAF_COUNT)
        .filter(|&source_leaf| {
            let tail_position = map_source_query_leaf(source_leaf).unwrap().mid_leaf_index;
            marked.contains(&tail_position)
        })
        .count();
    assert_eq!(lifted, marked.len() * (1usize << MID_STANDARD_FOLDS));
    assert_eq!(lifted * MID_LEAF_COUNT, marked.len() * SOURCE_LEAF_COUNT);
}
