//! Tables over the cells of the traces.
use noid_gkr::auth_mle_v2::{
    auth_sigma_at, build_auth_unified_mle_v2, AuthUnifiedMle, N_AUTH_ELEM_VARS, N_AUTH_LIVE_SLOTS,
    N_AUTH_ROUND_VARS, N_AUTH_SLOT_BITS,
};
use noid_gkr::auth_shift_sweep::{
    sweep_auth_build_u_table, sweep_auth_dec_round_index, sweep_auth_elem_of, sweep_auth_mds_coeff,
    sweep_auth_mds_lane_table, sweep_auth_mu_table, sweep_auth_pack_index,
    sweep_auth_permute_by_dec, sweep_auth_project_lane, sweep_auth_rc_evaluate,
    sweep_auth_rc_table, sweep_auth_round_of, sweep_auth_sigma_at, sweep_auth_sigma_evaluate,
    sweep_auth_sigma_table, sweep_auth_slot_of, N_SWEEP_AUTH_LIVE_SLOTS,
    N_SWEEP_AUTH_UNIFIED_CELLS, N_SWEEP_AUTH_UNIFIED_VARS,
};
use noid_gkr::circuit_sweep::N_SWEEP_SPINE_SLOTS;
use noid_gkr::field::{BinaryField, TowerField};
use noid_gkr::layers::{permute, round_kind, PermParams, RoundKind};
use noid_gkr::spine_shift_sweep::{
    build_sweep_spine_mds_lane_table, build_sweep_spine_mu_table, build_sweep_spine_u_table,
    sweep_spine_dec_round_index, sweep_spine_elem_of, sweep_spine_mds_coeff,
    sweep_spine_mu_evaluate, sweep_spine_pack_index, sweep_spine_permute_by_dec,
    sweep_spine_project_lane, sweep_spine_rc_evaluate, sweep_spine_round_of, sweep_spine_sigma_at,
    sweep_spine_sigma_evaluate, sweep_spine_slot_of, N_SWEEP_SPINE_UNIFIED_CELLS,
    N_SWEEP_SPINE_UNIFIED_VARS,
};
use noid_gkr::tower::Tower128;

type F = Tower128;

const N_ROUNDS: usize = 66;
const STATE_SIZE: usize = 4;

fn el(bits: u128) -> F {
    F::from_u128(bits)
}

fn params() -> PermParams<F> {
    let mut s = 0x243F_6A88_85A3_08D3_1319_8A2E_0370_7344u128;
    let mut next = || {
        s = s.wrapping_mul(0x2360_ED05_1FC6_5DA4_4385_DF64_9FCC_F645).wrapping_add(0x9E37_79B9);
        el(s ^ (s >> 61))
    };
    PermParams {
        mds_full: std::array::from_fn(|_| std::array::from_fn(|_| next())),
        mds_partial: std::array::from_fn(|_| std::array::from_fn(|_| next())),
        round_constants: std::array::from_fn(|_| std::array::from_fn(|_| next())),
    }
}

fn boolean_point(idx: usize, vars: usize) -> Vec<F> {
    (0..vars).map(|b| el(((idx >> b) & 1) as u128)).collect()
}

fn random_state(seed: u128) -> [F; 4] {
    let mut s = seed;
    std::array::from_fn(|_| {
        s = s.wrapping_mul(0x9E3779B97F4A7C15).wrapping_add(0xDEAD_BEEF);
        el(s)
    })
}

#[test]
fn sigma_schedule_matches_native_round_kinds() {
    for round in 0..N_ROUNDS {
        let kind = round_kind(round);
        for elem in 0..STATE_SIZE {
            let expected = match kind {
                RoundKind::Full => el(1),
                RoundKind::Partial => {
                    if elem == 0 {
                        el(1)
                    } else {
                        el(0)
                    }
                }
            };
            assert_eq!(auth_sigma_at::<F>(round, elem), expected, "round {round} elem {elem}");
        }
    }
}

#[test]
fn build_auth_unified_mle_v2_round_trips() {
    let state_ins: Vec<[F; 4]> =
        (0..N_AUTH_LIVE_SLOTS).map(|i| random_state(i as u128 + 1)).collect();
    let (mle, witnesses) = build_auth_unified_mle_v2(&params(), &state_ins);
    assert_eq!(witnesses.len(), N_AUTH_LIVE_SLOTS);

    for (slot, state_in) in state_ins.iter().enumerate() {
        let native = permute(&params(), *state_in);
        assert_eq!(witnesses[slot].final_state(), native, "slot {slot}");
    }

    // Padded slots must be all-zero in every column.
    for slot in N_AUTH_LIVE_SLOTS..(1 << N_AUTH_SLOT_BITS) {
        for round in 0..(1 << N_AUTH_ROUND_VARS) {
            for elem in 0..(1 << N_AUTH_ELEM_VARS) {
                let idx = AuthUnifiedMle::<F>::index(slot, round, elem);
                assert_eq!(mle.s_in[idx], el(0));
                assert_eq!(mle.s_out[idx], el(0));
                assert_eq!(mle.sigma[idx], el(0));
                assert_eq!(mle.state[idx], el(0));
            }
        }
    }
    // Padded rounds inside live slots must also be zero.
    for slot in 0..N_AUTH_LIVE_SLOTS {
        for round in N_ROUNDS..(1 << N_AUTH_ROUND_VARS) {
            for elem in 0..STATE_SIZE {
                let idx = AuthUnifiedMle::<F>::index(slot, round, elem);
                assert_eq!(mle.s_in[idx], el(0));
                assert_eq!(mle.s_out[idx], el(0));
                assert_eq!(mle.sigma[idx], el(0));
            }
        }
    }
}

#[test]
fn cached_tables_are_idempotent() {
    assert_eq!(sweep_auth_mu_table::<F>(), sweep_auth_mu_table::<F>());
    assert_eq!(sweep_auth_sigma_table::<F>(), sweep_auth_sigma_table::<F>());
    assert_eq!(sweep_auth_rc_table(&params()), sweep_auth_rc_table(&params()));
    for lane in 0..STATE_SIZE {
        assert_eq!(
            sweep_auth_mds_lane_table(&params(), lane),
            sweep_auth_mds_lane_table(&params(), lane)
        );
    }
}

#[test]
fn auth_shift_sweep_mu_table_matches_definition() {
    let tab: Vec<F> = sweep_auth_mu_table();
    for idx in 0..N_SWEEP_AUTH_UNIFIED_CELLS {
        let want = if sweep_auth_slot_of(idx as u16) < N_SWEEP_AUTH_LIVE_SLOTS && sweep_auth_round_of(idx as u16) < N_ROUNDS {
            el(1)
        } else {
            el(0)
        };
        assert_eq!(tab[idx], want, "mu mismatch at idx {idx}");
    }
}

#[test]
fn sigma_evaluate_at_boolean_points_matches_native() {
    for slot in [0usize, 5, 19] {
        for round in [0usize, 4, 5, 30, 61, 62, 65] {
            for elem in 0..STATE_SIZE {
                let idx = sweep_auth_pack_index(slot, round, elem);
                let pt = boolean_point(idx as usize, N_SWEEP_AUTH_UNIFIED_VARS);
                assert_eq!(sweep_auth_sigma_evaluate(&pt), sweep_auth_sigma_at::<F>(round, elem));
            }
        }
    }
}

#[test]
fn rc_evaluate_at_live_boolean_points_matches_native() {
    let params = params();
    for slot in [0usize, 1, 10, 19] {
        for round in [0usize, 1, 4, 5, 33, 61, 62, 65] {
            let is_partial = (4..62).contains(&round);
            for elem in 0..STATE_SIZE {
                let idx = sweep_auth_pack_index(slot, round, elem);
                let pt = boolean_point(idx as usize, N_SWEEP_AUTH_UNIFIED_VARS);
                let want = if is_partial && elem != 0 {
                    el(0)
                } else {
                    params.round_constants[elem][round]
                };
                assert_eq!(
                    sweep_auth_rc_evaluate(&params, &pt),
                    want,
                    "slot={slot} round={round} elem={elem}"
                );
            }
        }
    }
}

#[test]
fn auth_shift_sweep_rc_zero_outside_live_topology() {
    // A padded slot, and a padded round inside a live slot.
    for (slot, round, elem) in [(N_SWEEP_AUTH_LIVE_SLOTS, 7, 1), (0, N_ROUNDS, 0)] {
        let idx = sweep_auth_pack_index(slot, round, elem);
        let pt = boolean_point(idx as usize, N_SWEEP_AUTH_UNIFIED_VARS);
        assert_eq!(sweep_auth_rc_evaluate(&params(), &pt), el(0));
    }
}

#[test]
fn auth_shift_sweep_permute_by_dec_is_round_shift() {
    let src: Vec<F> = (0..N_SWEEP_AUTH_UNIFIED_CELLS).map(|i| el(i as u128)).collect();
    let dst = sweep_auth_permute_by_dec(&src);
    for y in 0..N_SWEEP_AUTH_UNIFIED_CELLS {
        let x = sweep_auth_dec_round_index(y as u16) as usize;
        assert_eq!(dst[y], src[x], "y={y} x={x}");
    }
}

#[test]
fn build_u_table_matches_definition() {
    // At a Boolean point `eq` is an indicator.
    let rho = boolean_point(7, N_SWEEP_AUTH_UNIFIED_VARS);
    let u = sweep_auth_build_u_table(&rho);
    let mu: Vec<F> = sweep_auth_mu_table();
    for y in 0..N_SWEEP_AUTH_UNIFIED_CELLS {
        let x = sweep_auth_dec_round_index(y as u16) as usize;
        let want = if x == 7 { mu[x] } else { el(0) };
        assert_eq!(u[y], want, "y={y}");
    }
}

#[test]
fn project_lane_is_elem_substitution() {
    let src: Vec<F> = (0..N_SWEEP_AUTH_UNIFIED_CELLS).map(|i| el(i as u128)).collect();
    for lane in 0..STATE_SIZE {
        let p = sweep_auth_project_lane(&src, lane);
        for y in 0..N_SWEEP_AUTH_UNIFIED_CELLS {
            assert_eq!(p[y], src[(y & !3) | lane], "lane={lane} y={y}");
        }
    }
}

#[test]
fn auth_shift_sweep_mds_lane_table_zero_outside_topology() {
    for lane in 0..STATE_SIZE {
        let tab = sweep_auth_mds_lane_table(&params(), lane);
        for y in (N_SWEEP_AUTH_LIVE_SLOTS << 9)..N_SWEEP_AUTH_UNIFIED_CELLS {
            if sweep_auth_slot_of(y as u16) >= N_SWEEP_AUTH_LIVE_SLOTS {
                assert_eq!(tab[y], el(0), "padded slot y={y}");
            }
        }
        let y = sweep_auth_pack_index(0, 1, 2);
        let dec_round = sweep_auth_round_of(sweep_auth_dec_round_index(y));
        let elem = sweep_auth_elem_of(y);
        assert_eq!(
            tab[y as usize],
            sweep_auth_mds_coeff(&params(), dec_round, elem, lane)
        );
    }
}

#[test]
fn spine_shift_sweep_mu_table_matches_definition() {
    let tab: Vec<F> = build_sweep_spine_mu_table();
    for idx in 0..N_SWEEP_SPINE_UNIFIED_CELLS {
        let want = if sweep_spine_slot_of(idx as u32) < N_SWEEP_SPINE_SLOTS && sweep_spine_round_of(idx as u32) < N_ROUNDS {
            el(1)
        } else {
            el(0)
        };
        assert_eq!(tab[idx], want, "mu mismatch at idx {idx}");
    }
}

#[test]
fn sweep_spine_sigma_evaluate_at_boolean_points_matches_native() {
    for slot in [0usize, 5, 58, N_SWEEP_SPINE_SLOTS - 1] {
        for round in [0usize, 4, 5, 30, 61, 62, 65] {
            for elem in 0..STATE_SIZE {
                let idx = sweep_spine_pack_index(slot, round, elem);
                let pt = boolean_point(idx as usize, N_SWEEP_SPINE_UNIFIED_VARS);
                assert_eq!(sweep_spine_sigma_evaluate(&pt), sweep_spine_sigma_at::<F>(round, elem));
            }
        }
    }
}

#[test]
fn sweep_spine_rc_evaluate_at_live_boolean_points_matches_native() {
    let params = params();
    for slot in [0usize, 1, 30, 58, N_SWEEP_SPINE_SLOTS - 1] {
        for round in [0usize, 1, 4, 5, 33, 61, 62, 65] {
            let is_partial = (4..62).contains(&round);
            for elem in 0..STATE_SIZE {
                let idx = sweep_spine_pack_index(slot, round, elem);
                let pt = boolean_point(idx as usize, N_SWEEP_SPINE_UNIFIED_VARS);
                let want = if is_partial && elem != 0 {
                    el(0)
                } else {
                    params.round_constants[elem][round]
                };
                assert_eq!(
                    sweep_spine_rc_evaluate(&params, &pt),
                    want,
                    "slot={slot} round={round} elem={elem}"
                );
            }
        }
    }
}

#[test]
fn spine_shift_sweep_rc_zero_outside_live_topology() {
    // A padded slot, and a padded round inside a live slot.
    for (slot, round, elem) in [(N_SWEEP_SPINE_SLOTS, 7, 1), (0, N_ROUNDS, 0)] {
        let idx = sweep_spine_pack_index(slot, round, elem);
        let pt = boolean_point(idx as usize, N_SWEEP_SPINE_UNIFIED_VARS);
        assert_eq!(sweep_spine_rc_evaluate(&params(), &pt), el(0));
    }
}

#[test]
fn sweep_spine_permute_by_dec_is_round_shift() {
    let src: Vec<F> = (0..N_SWEEP_SPINE_UNIFIED_CELLS).map(|i| el(i as u128)).collect();
    let dst = sweep_spine_permute_by_dec(&src);
    for y in 0..N_SWEEP_SPINE_UNIFIED_CELLS {
        let x = sweep_spine_dec_round_index(y as u32) as usize;
        assert_eq!(dst[y], src[x], "y={y} x={x}");
    }
}

#[test]
fn build_sweep_spine_u_table_matches_definition() {
    // At a Boolean point `eq` is an indicator.
    let rho = boolean_point(7, N_SWEEP_SPINE_UNIFIED_VARS);
    let u = build_sweep_spine_u_table(&rho);
    let mu: Vec<F> = build_sweep_spine_mu_table();
    for y in 0..N_SWEEP_SPINE_UNIFIED_CELLS {
        let x = sweep_spine_dec_round_index(y as u32) as usize;
        let want = if x == 7 { mu[x] } else { el(0) };
        assert_eq!(u[y], want, "y={y}");
    }
}

#[test]
fn sweep_spine_project_lane_is_elem_substitution() {
    let src: Vec<F> = (0..N_SWEEP_SPINE_UNIFIED_CELLS).map(|i| el(i as u128)).collect();
    for lane in 0..STATE_SIZE {
        let p = sweep_spine_project_lane(&src, lane);
        for y in 0..N_SWEEP_SPINE_UNIFIED_CELLS {
            assert_eq!(p[y], src[(y & !3) | lane], "lane={lane} y={y}");
        }
    }
}

#[test]
fn spine_shift_sweep_mds_lane_table_zero_outside_topology() {
    for lane in 0..STATE_SIZE {
        let tab = build_sweep_spine_mds_lane_table(&params(), lane);
        for y in (N_SWEEP_SPINE_SLOTS << 9)..N_SWEEP_SPINE_UNIFIED_CELLS {
            if sweep_spine_slot_of(y as u32) >= N_SWEEP_SPINE_SLOTS {
                assert_eq!(tab[y], el(0), "padded slot y={y}");
            }
        }
        let y = sweep_spine_pack_index(0, 1, 2);
        let dec_round = sweep_spine_round_of(sweep_spine_dec_round_index(y));
        let elem = sweep_spine_elem_of(y);
        assert_eq!(
            tab[y as usize],
            sweep_spine_mds_coeff(&params(), dec_round, elem, lane)
        );
    }
}

#[test]
fn sweep_spine_mu_evaluate_at_boolean_points_matches_table() {
    let tab: Vec<F> = build_sweep_spine_mu_table();
    for &idx in &[0usize, 1, 4, 7, 64, 1023, 8192, 16383, 32767, 131071] {
        let pt = boolean_point(idx, N_SWEEP_SPINE_UNIFIED_VARS);
        assert_eq!(sweep_spine_mu_evaluate(&pt), tab[idx], "idx {idx}");
    }
}

#[test]
fn sweep_spine_mds_coeff_switches_full_vs_partial() {
    let p = params();
    for i in 0..STATE_SIZE {
        for j in 0..STATE_SIZE {
            assert_eq!(sweep_spine_mds_coeff(&p, 0, i, j), p.mds_full[i][j]);
            assert_eq!(sweep_spine_mds_coeff(&p, 5, i, j), p.mds_partial[i][j]);
            assert_eq!(sweep_spine_mds_coeff(&p, 63, i, j), p.mds_full[i][j]);
        }
    }
}

#[test]
fn mds_coefficients_enter_the_permutation() {
    // One column of ones: a round of the sweep's coefficients is the matrix.
    let p = params();
    let m: F = (0..4).fold(el(0), |s, j| s.plus(sweep_auth_mds_coeff(&p, 0, 1, j)));
    let want: F = p.mds_full[1].iter().fold(el(0), |s, &c| s.plus(c));
    assert_eq!(m, want);
}
