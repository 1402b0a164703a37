//! The sumchecks, each from an honest prover to the verifier, and with one value
//! changed.
use noid_gkr::auth_mle_v2::{
    build_auth_unified_mle_v2, AuthUnifiedMle, N_AUTH_LIVE_SLOTS, N_AUTH_UNIFIED_VARS,
};
use noid_gkr::auth_unified_v2::{
    prove_auth_shift, prove_auth_unified, verify_auth_shift, verify_auth_unified,
    AuthKillShotProof, AUTH_SHIFT_ROUND_DEGREE,
};
use noid_gkr::batch_eval::{prove_batch_eval, verify_batch_eval, EvalClaim};
use noid_gkr::spine_killshot::N_SPINE_SLOTS;
use noid_gkr::compressed_rounds::CompressedRoundPolynomial;
use noid_gkr::field::{BinaryField, TowerField};
use noid_gkr::layers::PermParams;
use noid_gkr::linear_eval::{
    prove_linear_eval_prebound, verify_linear_eval_prebound, LinearEvalClaim, LinearEvalTerm,
};
use noid_gkr::mle::evaluate_slice;
use noid_gkr::multi_batch::{prove_multi_batch_eval, verify_multi_batch_eval};
use noid_gkr::product_sumcheck::{
    compute_product_claim, lagrange_at_0_1_2_3, prove_product, verify_product,
};
use noid_gkr::round_poly::RoundPolynomial;
use noid_gkr::shift::combined_target;
use noid_gkr::spine_degree7::{prove_spine_degree7, verify_spine_degree7};
use noid_gkr::spine_mle::{build_unified_mle, SpineUnifiedMle, N_SPINE_UNIFIED_VARS};
use noid_gkr::tower::Tower128;
use noid_gkr::trace::{permute_by_dec, project_lane};
use noid_gkr::transcript::{ElementTranscript, FiatShamir};
use noid_gkr::weighted_state::{
    prove_weighted_state_sumcheck, verify_weighted_state_sumcheck,
};
use rand::rngs::StdRng;
use rand::{Rng, SeedableRng};

type F = Tower128;

fn el(bits: u128) -> F {
    F::from_u128(bits)
}

fn rand_vec(rng: &mut StdRng, n: usize) -> Vec<F> {
    (0..n).map(|_| el(rng.gen::<u128>())).collect()
}

fn fresh_channel(seed: u64) -> ElementTranscript<F> {
    let mut ch = ElementTranscript::new();
    ch.absorb(el(seed as u128));
    ch
}

fn params() -> PermParams<F> {
    let mut s = 0x243F_6A88_85A3_08D3_1319_8A2E_0370_7344u128;
    let mut next = || {
        s = s.wrapping_mul(0x2360_ED05_1FC6_5DA4_4385_DF64_9FCC_F645).wrapping_add(0x9E37_79B9);
        el(s ^ (s >> 61))
    };
    PermParams {
        mds_full: std::array::from_fn(|_| std::array::from_fn(|_| next())),
        mds_partial: std::array::from_fn(|_| std::array::from_fn(|_| next())),
        round_constants: std::array::from_fn(|_| std::array::from_fn(|_| next())),
    }
}

fn random_state(seed: u128) -> [F; 4] {
    let mut s = seed.wrapping_add(0xC0FFEE);
    std::array::from_fn(|_| {
        s = s.wrapping_mul(0x9E3779B97F4A7C15).wrapping_add(0xDEAD_BEEF);
        el(s)
    })
}

#[test]
fn honest_roundtrip_single_claim() {
    let mut rng = StdRng::seed_from_u64(1);
    let n = 5;
    let b = rand_vec(&mut rng, 1 << n);
    let r0 = rand_vec(&mut rng, n);
    let v0 = evaluate_slice(&b, &r0);
    let claims = vec![EvalClaim { point: r0, value: v0 }];

    let mut cp = fresh_channel(7);
    let (proof, red_p) = prove_batch_eval(&b, &claims, &mut cp);

    let mut cv = fresh_channel(7);
    let red_v = verify_batch_eval(&proof, &claims, n, &mut cv).unwrap();
    assert_eq!(red_p, red_v);
    assert_eq!(red_v.value, evaluate_slice(&b, &red_v.point));
    assert_eq!(proof.byte_len(), 5 * 48 + 16);
}

#[test]
fn honest_roundtrip_many_claims() {
    let mut rng = StdRng::seed_from_u64(2);
    let n = 6;
    let b = rand_vec(&mut rng, 1 << n);
    let m = 17;
    let claims: Vec<EvalClaim<F>> = (0..m)
        .map(|_| {
            let r = rand_vec(&mut rng, n);
            let v = evaluate_slice(&b, &r);
            EvalClaim { point: r, value: v }
        })
        .collect();

    let mut cp = fresh_channel(13);
    let (proof, red_p) = prove_batch_eval(&b, &claims, &mut cp);

    let mut cv = fresh_channel(13);
    let red_v = verify_batch_eval(&proof, &claims, n, &mut cv).unwrap();
    assert_eq!(red_p, red_v);
    assert_eq!(red_v.value, evaluate_slice(&b, &red_v.point));
}

#[test]
fn forged_verifier_claim_rejected() {
    // Prover runs honestly. Verifier is handed a claim vector with
    // one tampered `value`; its initial running claim forks, so
    // round 0's telescope `e0+e1 == claim` fails immediately.
    let mut rng = StdRng::seed_from_u64(3);
    let n = 5;
    let b = rand_vec(&mut rng, 1 << n);
    let r0 = rand_vec(&mut rng, n);
    let good = evaluate_slice(&b, &r0);
    let honest_claims = vec![EvalClaim { point: r0.clone(), value: good }];

    let mut cp = fresh_channel(9);
    let (proof, _) = prove_batch_eval(&b, &honest_claims, &mut cp);

    let bad_claims = vec![EvalClaim { point: r0, value: good.plus(el(1)) }];
    let mut cv = fresh_channel(9);
    assert!(verify_batch_eval(&proof, &bad_claims, n, &mut cv).is_none());
}

#[test]
fn tampered_b_final_rejected() {
    let mut rng = StdRng::seed_from_u64(4);
    let n = 5;
    let b = rand_vec(&mut rng, 1 << n);
    let r0 = rand_vec(&mut rng, n);
    let v0 = evaluate_slice(&b, &r0);
    let claims = vec![EvalClaim { point: r0, value: v0 }];

    let mut cp = fresh_channel(17);
    let (mut proof, _) = prove_batch_eval(&b, &claims, &mut cp);
    proof.b_final = proof.b_final.plus(el(1));

    let mut cv = fresh_channel(17);
    assert!(verify_batch_eval(&proof, &claims, n, &mut cv).is_none());
}

#[test]
fn determinism() {
    let mut rng = StdRng::seed_from_u64(5);
    let n = 5;
    let b = rand_vec(&mut rng, 1 << n);
    let r0 = rand_vec(&mut rng, n);
    let v0 = evaluate_slice(&b, &r0);
    let claims = vec![EvalClaim { point: r0, value: v0 }];

    let mut c1 = fresh_channel(21);
    let (p1, _) = prove_batch_eval(&b, &claims, &mut c1);
    let mut c2 = fresh_channel(21);
    let (p2, _) = prove_batch_eval(&b, &claims, &mut c2);
    assert_eq!(p1, p2);
}

#[test]
fn batch_of_no_claims_or_of_another_dimension_is_refused() {
    let mut rng = StdRng::seed_from_u64(6);
    let n = 4;
    let b = rand_vec(&mut rng, 1 << n);
    let r0 = rand_vec(&mut rng, n);
    let claims = vec![EvalClaim { point: r0.clone(), value: evaluate_slice(&b, &r0) }];
    let mut cp = fresh_channel(2);
    let (proof, _) = prove_batch_eval(&b, &claims, &mut cp);
    let mut cv = fresh_channel(2);
    assert!(verify_batch_eval(&proof, &[], n, &mut cv).is_none());
    assert!(verify_batch_eval(&proof, &claims, n + 1, &mut cv).is_none());
    // A refusal of the shape leaves the transcript alone.
    assert_eq!(cv, fresh_channel(2));
}

#[test]
fn lagrange_roundtrip_through_0_1_2_3() {
    // Fix a known deg-3 polynomial p(X) = 7 + 3X + 2X^2 + X^3 and
    // verify Lagrange reconstruction at several points.
    let c0 = el(7);
    let c1 = el(3);
    let c2 = el(2);
    let c3 = el(1);
    let eval = |x: F| -> F {
        c0.plus(c1.times(x)).plus(c2.times(x).times(x)).plus(c3.times(x).times(x).times(x))
    };

    let evals = [eval(el(0)), eval(el(1)), eval(el(2)), eval(el(3))];

    for r_i in [5u128, 17, 0x1234, u128::MAX] {
        let r = el(r_i);
        let got = lagrange_at_0_1_2_3(&evals, r);
        let want = eval(r);
        assert_eq!(got, want, "lagrange mismatch at r={r_i}");
    }
}

#[test]
fn product_sumcheck_round_trip_and_refusals() {
    let mut rng = StdRng::seed_from_u64(8);
    let n = 5;
    let a = rand_vec(&mut rng, 1 << n);
    let b = rand_vec(&mut rng, 1 << n);
    let r = rand_vec(&mut rng, n);
    let v = compute_product_claim(&a, &b, &r);
    let products: Vec<F> = a.iter().zip(&b).map(|(&x, &y)| x.times(y)).collect();
    assert_eq!(v, evaluate_slice(&products, &r));

    let mut cp = fresh_channel(3);
    let (proof, point) = prove_product(&a, &b, &r, v, &mut cp);
    assert_eq!(proof.a_final, evaluate_slice(&a, &point));
    assert_eq!(proof.b_final, evaluate_slice(&b, &point));
    let mut cv = fresh_channel(3);
    assert_eq!(verify_product(&proof, &r, v, &mut cv), Some(point));
    assert_eq!(cp, cv);

    let mut cv = fresh_channel(3);
    assert!(verify_product(&proof, &r, v.plus(el(1)), &mut cv).is_none());
    let mut bad = proof.clone();
    bad.a_final = bad.a_final.plus(el(1));
    let mut cv = fresh_channel(3);
    assert!(verify_product(&bad, &r, v, &mut cv).is_none());
    let mut short = proof;
    short.rounds.pop();
    let mut cv = fresh_channel(3);
    assert!(verify_product(&short, &r, v, &mut cv).is_none());
}

#[test]
fn linear_claims_reduce_to_one() {
    let mut rng = StdRng::seed_from_u64(9);
    let n = 5;
    let b = rand_vec(&mut rng, 1 << n);
    let mut claims: Vec<LinearEvalClaim<F>> = Vec::new();
    for k in 0..4usize {
        let mut terms = Vec::new();
        let mut value = el(0);
        for _ in 0..=k {
            let point = rand_vec(&mut rng, n);
            let coeff = el(rng.gen::<u128>());
            value = value.plus(coeff.times(evaluate_slice(&b, &point)));
            terms.push(LinearEvalTerm { point, coeff });
        }
        claims.push(LinearEvalClaim { terms, value });
    }
    let mut cp = fresh_channel(4);
    let (proof, red_p) = prove_linear_eval_prebound(&b, &claims, 77, n, &mut cp);
    assert_eq!(red_p.value, evaluate_slice(&b, &red_p.point));
    let mut cv = fresh_channel(4);
    let red_v = verify_linear_eval_prebound(&proof, &claims, n, 77, &mut cv).unwrap();
    assert_eq!(red_p, red_v);
    assert_eq!(cp, cv);
    assert_eq!(proof.byte_len(), 5 * 48 + 16);

    let mut cv = fresh_channel(4);
    assert!(verify_linear_eval_prebound(&proof, &claims, n, 78, &mut cv).is_none());
    claims[2].value = claims[2].value.plus(el(1));
    let mut cv = fresh_channel(4);
    assert!(verify_linear_eval_prebound(&proof, &claims, n, 77, &mut cv).is_none());
}

#[test]
fn claims_on_several_columns_reduce_to_one_point() {
    let mut rng = StdRng::seed_from_u64(10);
    let n = 5;
    let columns: Vec<Vec<F>> = (0..3).map(|_| rand_vec(&mut rng, 1 << n)).collect();
    let slices: Vec<&[F]> = columns.iter().map(|c| c.as_slice()).collect();
    let groups: Vec<Vec<EvalClaim<F>>> = (0..3usize)
        .map(|c| {
            (0..=c)
                .map(|_| {
                    let point = rand_vec(&mut rng, n);
                    let value = evaluate_slice(&columns[c], &point);
                    EvalClaim { point, value }
                })
                .collect()
        })
        .collect();
    let mut cp = fresh_channel(5);
    let (proof, reds_p) = prove_multi_batch_eval(&slices, &groups, n, &mut cp);
    for c in 0..3 {
        assert_eq!(reds_p[c].point, reds_p[0].point);
        assert_eq!(reds_p[c].value, evaluate_slice(&columns[c], &reds_p[c].point));
    }
    let mut cv = fresh_channel(5);
    let reds_v = verify_multi_batch_eval(&proof, &groups, n, &mut cv).unwrap();
    assert_eq!(reds_p, reds_v);
    assert_eq!(cp, cv);
    assert_eq!(proof.byte_len(), 5 * 48 + 3 * 16);

    let mut bad = proof.clone();
    bad.b_finals[1] = bad.b_finals[1].plus(el(1));
    let mut cv = fresh_channel(5);
    assert!(verify_multi_batch_eval(&bad, &groups, n, &mut cv).is_none());
    let mut bad = proof;
    bad.b_finals.pop();
    let mut cv = fresh_channel(5);
    assert!(verify_multi_batch_eval(&bad, &groups, n, &mut cv).is_none());
}

#[test]
fn weighted_sum_reduces_to_the_column() {
    let mut rng = StdRng::seed_from_u64(11);
    let n = 5;
    let column = rand_vec(&mut rng, 1 << n);
    let weights = rand_vec(&mut rng, 1 << n);
    let mut target = el(0);
    for (&w, &x) in weights.iter().zip(&column) {
        target = target.plus(w.times(x));
    }
    let mut cp = fresh_channel(6);
    let (rounds, point, value) =
        prove_weighted_state_sumcheck(&column, weights.clone(), n, &mut cp);
    assert_eq!(value, evaluate_slice(&column, &point));
    let mut cv = fresh_channel(6);
    let got = verify_weighted_state_sumcheck(&rounds, value, n, &weights, target, &mut cv);
    assert_eq!(got, Some(point));
    assert_eq!(cp, cv);
    let mut cv = fresh_channel(6);
    let wrong = target.plus(el(1));
    assert!(verify_weighted_state_sumcheck(&rounds, value, n, &weights, wrong, &mut cv).is_none());
    let mut cv = fresh_channel(6);
    assert!(
        verify_weighted_state_sumcheck(&rounds, value, n + 1, &weights, target, &mut cv).is_none()
    );
    assert_eq!(cv, fresh_channel(6));
}

#[test]
fn compressed_round_polynomial_restores_its_linear_coefficient() {
    let poly = RoundPolynomial::from_coeffs(vec![el(9), el(4), el(7), el(0x51)]);
    let claim = poly.evaluate(el(0)).plus(poly.evaluate(el(1)));
    let wire = CompressedRoundPolynomial::compress(&poly);
    assert_eq!(wire.coeffs_no_linear, vec![el(9), el(7), el(0x51)]);
    assert_eq!(wire.degree(), 3);
    assert_eq!(wire.reconstruct(claim), poly);
    assert_ne!(wire.reconstruct(claim.plus(el(1))), poly);
}

fn random_spine(seed: u128) -> SpineUnifiedMle<F> {
    let state_ins: Vec<_> =
        (0..N_SPINE_SLOTS).map(|i| random_state(i as u128 + seed)).collect();
    build_unified_mle(&params(), &state_ins)
}

#[test]
fn honest_prover_verifies() {
    let mle = random_spine(17);

    let mut ch_p = ElementTranscript::new();
    let proof = prove_spine_degree7(&mle, &mut ch_p);
    assert_eq!(proof.n_rounds(), N_SPINE_UNIFIED_VARS);

    let mut ch_v = ElementTranscript::new();
    let red = verify_spine_degree7(&proof, &mut ch_v).expect("verify must accept");
    assert_eq!(red.r_prime.len(), N_SPINE_UNIFIED_VARS);
    // Channels must remain in sync — squeeze one more and compare.
    assert_eq!(ch_p.squeeze(), ch_v.squeeze());
}

#[test]
fn final_claims_match_native_mle_evaluations() {
    let mle = random_spine(91);

    let mut ch_p = ElementTranscript::new();
    let proof = prove_spine_degree7(&mle, &mut ch_p);

    let mut ch_v = ElementTranscript::new();
    let red = verify_spine_degree7(&proof, &mut ch_v).unwrap();

    // The claimed openings must equal the native MLE evaluations at r'.
    assert_eq!(evaluate_slice(&mle.sigma, &red.r_prime), red.sigma_at_r);
    assert_eq!(evaluate_slice(&mle.s_in, &red.r_prime), red.sin_at_r);
    assert_eq!(evaluate_slice(&mle.s_out, &red.r_prime), red.sout_at_r);
}

#[test]
fn tampered_sigma_is_rejected() {
    let mle = random_spine(5);

    let mut ch_p = ElementTranscript::new();
    let mut proof = prove_spine_degree7(&mle, &mut ch_p);
    // Flip the prover's claimed sigma evaluation.
    proof.sigma_at_r = proof.sigma_at_r.plus(el(1));

    let mut ch_v = ElementTranscript::new();
    assert!(verify_spine_degree7(&proof, &mut ch_v).is_none());
}

#[test]
fn tampered_sin_is_rejected() {
    let mle = random_spine(13);

    let mut ch_p = ElementTranscript::new();
    let mut proof = prove_spine_degree7(&mle, &mut ch_p);
    proof.sin_at_r = proof.sin_at_r.plus(el(0xBAD));

    let mut ch_v = ElementTranscript::new();
    assert!(verify_spine_degree7(&proof, &mut ch_v).is_none());
}

#[test]
fn spine_degree7_tampered_round_poly_is_rejected() {
    let mle = random_spine(23);

    let mut ch_p = ElementTranscript::new();
    let mut proof = prove_spine_degree7(&mle, &mut ch_p);
    // Bump the constant term of round 0's poly.
    proof.round_polys[0].coeffs[0] = proof.round_polys[0].coeffs[0].plus(el(1));

    let mut ch_v = ElementTranscript::new();
    assert!(verify_spine_degree7(&proof, &mut ch_v).is_none());
}

#[test]
fn malformed_proof_rejected_on_round_count() {
    let mle = random_spine(31);

    let mut ch_p = ElementTranscript::new();
    let mut proof = prove_spine_degree7(&mle, &mut ch_p);
    proof.round_polys.pop();

    let mut ch_v = ElementTranscript::new();
    assert!(verify_spine_degree7(&proof, &mut ch_v).is_none());
}

fn random_mle(seed: u128) -> AuthUnifiedMle<F> {
    let state_ins: Vec<_> =
        (0..N_AUTH_LIVE_SLOTS).map(|i| random_state(i as u128 + seed)).collect();
    let (mle, _) = build_auth_unified_mle_v2(&params(), &state_ins);
    mle
}

#[test]
fn honest_main_verifies() {
    let mle = random_mle(17);

    let mut ch_p = ElementTranscript::new();
    let (proof, _r_prime) = prove_auth_unified(&params(), &mle, &mut ch_p);
    assert_eq!(proof.round_polys.len(), N_AUTH_UNIFIED_VARS);

    let mut ch_v = ElementTranscript::new();
    let red = verify_auth_unified(&params(), &proof, &mut ch_v).expect("verify must accept");
    assert_eq!(red.r_prime.len(), N_AUTH_UNIFIED_VARS);
    assert_eq!(ch_p.squeeze(), ch_v.squeeze());
}

#[test]
fn final_main_claims_match_native_evaluations() {
    let mle = random_mle(91);

    let mut ch_p = ElementTranscript::new();
    let (proof, _r_prime) = prove_auth_unified(&params(), &mle, &mut ch_p);

    let mut ch_v = ElementTranscript::new();
    let red = verify_auth_unified(&params(), &proof, &mut ch_v).unwrap();

    let s_out_dec_full = permute_by_dec(&mle.s_out);
    let state_dec_full = permute_by_dec(&mle.state);
    assert_eq!(evaluate_slice(&mle.state, &red.r_prime), red.state_at_r);
    assert_eq!(evaluate_slice(&permute_by_dec(&mle.s_in), &red.r_prime), red.s_in_dec_at_r);
    assert_eq!(evaluate_slice(&s_out_dec_full, &red.r_prime), red.s_out_dec_at_r);
    assert_eq!(evaluate_slice(&state_dec_full, &red.r_prime), red.state_dec_at_r);

    for j in 0..4 {
        assert_eq!(
            evaluate_slice(&project_lane(&s_out_dec_full, j), &red.r_prime),
            red.s_out_lane_dec_at_r[j],
            "s_out lane {j}"
        );
        assert_eq!(
            evaluate_slice(&project_lane(&state_dec_full, j), &red.r_prime),
            red.state_lane_dec_at_r[j],
            "state lane {j}"
        );
    }
}

#[test]
fn tampered_state_claim_is_rejected() {
    let mle = random_mle(5);

    let mut ch_p = ElementTranscript::new();
    let (mut proof, _r_prime) = prove_auth_unified(&params(), &mle, &mut ch_p);
    proof.state_at_r = proof.state_at_r.plus(el(1));

    let mut ch_v = ElementTranscript::new();
    assert!(verify_auth_unified(&params(), &proof, &mut ch_v).is_none());
}

#[test]
fn auth_unified_v2_tampered_round_poly_is_rejected() {
    let mle = random_mle(31);

    let mut ch_p = ElementTranscript::new();
    let (mut proof, _r_prime) = prove_auth_unified(&params(), &mle, &mut ch_p);
    proof.round_polys[7].coeffs[0] = proof.round_polys[7].coeffs[0].plus(el(1));

    let mut ch_v = ElementTranscript::new();
    assert!(verify_auth_unified(&params(), &proof, &mut ch_v).is_none());
}

fn run_full_pipeline(seed: u128) -> (AuthUnifiedMle<F>, AuthKillShotProof<F>) {
    let mle = random_mle(seed);
    let mut ch = ElementTranscript::new();
    let (main, r_prime) = prove_auth_unified(&params(), &mle, &mut ch);
    let (shift, _r2) = prove_auth_shift(&mle, &r_prime, &mut ch);
    (mle, AuthKillShotProof { main, shift })
}

#[test]
fn shift_gadget_round_count_and_degree() {
    let (_, proof) = run_full_pipeline(101);
    assert_eq!(proof.shift.round_polys.len(), N_AUTH_UNIFIED_VARS);
    for p in &proof.shift.round_polys {
        assert!(p.degree() <= AUTH_SHIFT_ROUND_DEGREE);
    }
}

#[test]
fn shift_gadget_verifies_end_to_end() {
    let (_, proof) = run_full_pipeline(102);

    let mut ch = ElementTranscript::new();
    let main_red = verify_auth_unified(&params(), &proof.main, &mut ch).expect("main verify");
    let shift_red = verify_auth_shift(&proof.shift, &main_red, &mut ch).expect("shift verify");
    assert_eq!(shift_red.r_double_prime.len(), N_AUTH_UNIFIED_VARS);
}

#[test]
fn shift_final_claims_match_native_evaluations() {
    let (mle, proof) = run_full_pipeline(103);

    let mut ch = ElementTranscript::new();
    let main_red = verify_auth_unified(&params(), &proof.main, &mut ch).unwrap();
    let shift_red = verify_auth_shift(&proof.shift, &main_red, &mut ch).unwrap();

    assert_eq!(evaluate_slice(&mle.s_in, &shift_red.r_double_prime), shift_red.s_in_at_r2);
    assert_eq!(evaluate_slice(&mle.s_out, &shift_red.r_double_prime), shift_red.s_out_at_r2);
    assert_eq!(evaluate_slice(&mle.state, &shift_red.r_double_prime), shift_red.state_at_r2);
}

#[test]
fn shift_tampered_final_claim_is_rejected() {
    let (_, mut proof) = run_full_pipeline(104);
    proof.shift.s_in_at_r2 = proof.shift.s_in_at_r2.plus(el(1));

    let mut ch = ElementTranscript::new();
    let main_red = verify_auth_unified(&params(), &proof.main, &mut ch).unwrap();
    assert!(verify_auth_shift(&proof.shift, &main_red, &mut ch).is_none());
}

#[test]
fn shift_combined_target_matches_first_round_sum() {
    let mle = random_mle(106);

    let mut ch = ElementTranscript::new();
    let (main, r_prime) = prove_auth_unified(&params(), &mle, &mut ch);
    let (shift, _r2) = prove_auth_shift(&mle, &r_prime, &mut ch);

    let mut ch_v = ElementTranscript::new();
    let main_red = verify_auth_unified(&params(), &main, &mut ch_v).unwrap();
    let delta = ch_v.squeeze();
    let target = combined_target(
        main_red.s_in_dec_at_r,
        main_red.s_out_dec_at_r,
        main_red.state_dec_at_r,
        &main_red.s_out_lane_dec_at_r,
        &main_red.state_lane_dec_at_r,
        delta,
    );
    let first = &shift.round_polys[0];
    assert_eq!(first.evaluate(el(0)).plus(first.evaluate(el(1))), target);
}
