//! The unified sumcheck of the authorization trace, and the gadget that reduces
//! its claims on shifted columns to claims on the columns themselves.
use vstd::prelude::*;
use vstd::arithmetic::power2::pow2;
use crate::auth_mle_v2::{AuthUnifiedMle, N_AUTH_LIVE_SLOTS, N_AUTH_UNIFIED_VARS};
use crate::field::{TowerField, lemma_units};
use crate::high_fold::horner;
use crate::layers::PermParams;
use crate::mle::{evaluate_slice, mle};
use crate::poly::pow;
use crate::round_poly::{RoundPolynomial, pow7_value};
use crate::rounds::{lemma_rounds_complete, lemma_rounds_sound, poly_messages, prove_rounds, rounds_check_run, rounds_misled, rounds_run, verify_rounds, views};
use crate::shift::{ShiftTerm, build_combined_weights, combined_target, combined_weights_at_point, lemma_shift_target, lemma_shift_total, shift_tables, shift_target, shift_term, sin_weights, sout_weights, state_weights};
use crate::soundness::lemma_gamma_separates;
use crate::spine_degree7::lemma_absorb_three;
use crate::sum::{lemma_sum_ext, lemma_sum_split, sum};
use crate::sumcheck::{ProverRun, VerifierRun, tables_wf, total};
use crate::table::copied;
use crate::trace::{build_u_table, dec_table, lane_table, lemma_slots, mds_cell, mds_lane_table, permute_by_dec, project_lane, rc_cell, rc_table, sigma_cell, sigma_table, u_table};
use crate::trace_mle::{lemma_unified_total, sin_column, sout_column, state_column};
use crate::transcript::{FiatShamir, absorb_all, absorb_slice, challenges, lemma_absorb_all_add, lemma_challenges_len, squeeze_many, squeezed_by};
use crate::unified::{UnifiedTerm, linear_identity, unified_tables, unified_term};

verus! {

/// The degree of a round polynomial of the unified sumcheck.
pub const AUTH_UNIFIED_ROUND_DEGREE: usize = 9;

/// The degree of a round polynomial of the shift gadget.
pub const AUTH_SHIFT_ROUND_DEGREE: usize = 2;

/// The number of claims that the unified sumcheck leaves on the witness.
pub const N_AUTH_UNIFIED_WITNESS_CLAIMS: usize = 12;

/// The round polynomials and the claims on the witness at the final point.
#[derive(Clone, Debug, PartialEq, Eq)]
pub struct AuthUnifiedProof<F> {
    pub round_polys: Vec<RoundPolynomial<F>>,
    pub s_in_dec_at_r: F,
    pub s_out_dec_at_r: F,
    pub state_dec_at_r: F,
    pub state_at_r: F,
    pub s_out_lane_dec_at_r: [F; 4],
    pub state_lane_dec_at_r: [F; 4],
}

/// The final point, the claims there, and the challenges that combined the
/// identities.
#[derive(Clone, Debug, PartialEq, Eq)]
pub struct AuthUnifiedReduction<F> {
    pub r_prime: Vec<F>,
    pub s_in_dec_at_r: F,
    pub s_out_dec_at_r: F,
    pub state_dec_at_r: F,
    pub state_at_r: F,
    pub s_out_lane_dec_at_r: [F; 4],
    pub state_lane_dec_at_r: [F; 4],
    pub beta: F,
    pub gamma: F,
}

/// Whether the rounds fit `n` variables and the degree.
pub open spec fn rounds_shape<F>(polys: Seq<RoundPolynomial<F>>, n: nat, degree: nat) -> bool {
    &&& polys.len() == n
    &&& forall|i: int| 0 <= i < polys.len() ==> (#[trigger] polys[i]).coeffs.len() <= degree + 1
}

/// Checks the number of the round polynomials and their degrees.
pub fn check_rounds_shape<F: TowerField>(
    polys: &Vec<RoundPolynomial<F>>,
    n: usize,
    degree: usize,
) -> (r: bool)
    requires
        degree < usize::MAX,
    ensures
        r == rounds_shape(polys@, n as nat, degree as nat),
{
    if polys.len() != n {
        return false;
    }
    let mut i: usize = 0;
    while i < n
        invariant
            i <= n,
            polys.len() == n,
            forall|k: int| 0 <= k < i ==> (#[trigger] polys[k]).coeffs.len() <= degree + 1,
        decreases n - i,
    {
        if polys[i].degree() > degree {
            proof {
                assert(polys[i as int].coeffs.len() > degree + 1);
            }
            return false;
        }
        i += 1;
    }
    true
}

/// The transcript after the challenges of the unified sumcheck over `n`
/// variables.
pub open spec fn unified_start<F: TowerField, T: FiatShamir<F>>(n: nat, channel: T) -> T {
    squeezed_by(channel, n).squeezed().squeezed()
}

/// The point of the unified sumcheck.
pub open spec fn unified_rho<F: TowerField, T: FiatShamir<F>>(n: nat, channel: T) -> Seq<F> {
    challenges(channel, n)
}

/// The challenge for the identity of the constants.
pub open spec fn unified_beta<F: TowerField, T: FiatShamir<F>>(n: nat, channel: T) -> F {
    squeezed_by(channel, n).challenge()
}

/// The challenge for the identity of the linear layer.
pub open spec fn unified_gamma<F: TowerField, T: FiatShamir<F>>(n: nat, channel: T) -> F {
    squeezed_by(channel, n).squeezed().challenge()
}

/// The columns that the transcript's point gives.
pub open spec fn unified_columns<F: TowerField, T: FiatShamir<F>>(
    params: PermParams<F>,
    live: nat,
    n: nat,
    s_in: Seq<F>,
    s_out: Seq<F>,
    state: Seq<F>,
    channel: T,
) -> Seq<Seq<F>> {
    unified_tables(params, live as int, unified_rho(n, channel), s_in, s_out, state)
}

/// The prover's run over a trace of `n` variables and `live` slots.
pub open spec fn unified_run<F: TowerField, T: FiatShamir<F>>(
    params: PermParams<F>,
    live: nat,
    n: nat,
    s_in: Seq<F>,
    s_out: Seq<F>,
    state: Seq<F>,
    channel: T,
) -> ProverRun<F, T> {
    rounds_run(
        unified_columns(params, live, n, s_in, s_out, state, channel),
        unified_term(unified_beta(n, channel), unified_gamma(n, channel)),
        10,
        n,
        unified_start(n, channel),
    )
}

/// The verifier's run.
pub open spec fn unified_check_run<F: TowerField, T: FiatShamir<F>>(
    polys: Seq<RoundPolynomial<F>>,
    n: nat,
    channel: T,
) -> VerifierRun<F, T> {
    rounds_check_run(polys, F::zero(), unified_start(n, channel))
}

/// What the transcript absorbs of the claims.
pub open spec fn unified_claims<F>(proof: AuthUnifiedProof<F>) -> Seq<F> {
    seq![
        proof.s_in_dec_at_r,
        proof.s_out_dec_at_r,
        proof.state_dec_at_r,
        proof.state_at_r,
    ] + proof.s_out_lane_dec_at_r@ + proof.state_lane_dec_at_r@
}

/// The values of all the columns at a point, the witness columns as claimed and
/// the public ones as they are.
pub open spec fn unified_values<F: TowerField>(
    params: PermParams<F>,
    live: nat,
    rho: Seq<F>,
    proof: AuthUnifiedProof<F>,
    point: Seq<F>,
) -> Seq<F> {
    let cells = pow2(rho.len());
    let sigma_dec = dec_table(Seq::new(cells, |y: int| sigma_cell::<F>(live as int, y)));
    let rc_dec = dec_table(Seq::new(cells, |y: int| rc_cell(params, live as int, y)));
    Seq::new(
        23,
        |c: int|
            if c == 0 {
                mle(u_table(rho, live as int, cells), point)
            } else if c == 1 {
                mle(sigma_dec, point)
            } else if c == 2 {
                mle(rc_dec, point)
            } else if c == 3 {
                proof.s_in_dec_at_r
            } else if c == 4 {
                proof.s_out_dec_at_r
            } else if c == 5 {
                proof.state_dec_at_r
            } else if c == 6 {
                proof.state_at_r
            } else if c < 11 {
                mle(Seq::new(cells, |y: int| mds_cell(params, c - 7, live as int, y)), point)
            } else if c < 15 {
                mle(lane_table(sigma_dec, c - 11), point)
            } else if c < 19 {
                proof.s_out_lane_dec_at_r[c - 15]
            } else {
                proof.state_lane_dec_at_r[c - 19]
            },
    )
}

/// Whether the verifier accepts.
pub open spec fn unified_accepts<F: TowerField, T: FiatShamir<F>>(
    params: PermParams<F>,
    live: nat,
    n: nat,
    proof: AuthUnifiedProof<F>,
    channel: T,
) -> bool {
    let run = unified_check_run(proof.round_polys@, n, channel);
    let values = unified_values(
        params,
        live,
        unified_rho(n, channel),
        proof,
        run.challenges.reverse(),
    );
    &&& rounds_shape(proof.round_polys@, n, AUTH_UNIFIED_ROUND_DEGREE as nat)
    &&& run.ok
    &&& run.claim == unified_term(unified_beta(n, channel), unified_gamma(n, channel))(values)
}

/// The claims of a proof are the values of the columns at a point.
pub open spec fn unified_claims_hold<F: TowerField>(
    proof: AuthUnifiedProof<F>,
    s_in: Seq<F>,
    s_out: Seq<F>,
    state: Seq<F>,
    point: Seq<F>,
) -> bool {
    &&& proof.s_in_dec_at_r == mle(dec_table(s_in), point)
    &&& proof.s_out_dec_at_r == mle(dec_table(s_out), point)
    &&& proof.state_dec_at_r == mle(dec_table(state), point)
    &&& proof.state_at_r == mle(state, point)
    &&& forall|j: int|
        0 <= j < 4 ==> #[trigger] proof.s_out_lane_dec_at_r[j] == mle(
            lane_table(dec_table(s_out), j),
            point,
        )
    &&& forall|j: int|
        0 <= j < 4 ==> #[trigger] proof.state_lane_dec_at_r[j] == mle(
            lane_table(dec_table(state), j),
            point,
        )
}

/// Pushes the four lanes of a table.
fn push_lanes<F: TowerField>(tables: &mut Vec<Vec<F>>, t: &Vec<F>)
    requires
        t.len() % 4 == 0,
    ensures
        views(final(tables)@) == views(old(tables)@) + seq![
            lane_table(t@, 0),
            lane_table(t@, 1),
            lane_table(t@, 2),
            lane_table(t@, 3),
        ],
{
    tables.push(project_lane(t.as_slice(), 0));
    tables.push(project_lane(t.as_slice(), 1));
    tables.push(project_lane(t.as_slice(), 2));
    tables.push(project_lane(t.as_slice(), 3));
    proof {
        assert(views(tables@) =~= views(old(tables)@) + seq![
            lane_table(t@, 0),
            lane_table(t@, 1),
            lane_table(t@, 2),
            lane_table(t@, 3),
        ]);
    }
}

/// Builds the columns of the unified sumcheck.
pub fn build_unified_tables<F: TowerField>(
    params: &PermParams<F>,
    s_in: &[F],
    s_out: &[F],
    state: &[F],
    rho: &[F],
    live: usize,
) -> (r: Vec<Vec<F>>)
    requires
        rho.len() >= 9,
        s_in.len() == pow2(rho.len() as nat),
        s_out.len() == pow2(rho.len() as nat),
        state.len() == pow2(rho.len() as nat),
    ensures
        r.len() == 23,
        views(r@) == unified_tables(*params, live as int, rho@, s_in@, s_out@, state@),
{
    let cells: usize = s_in.len();
    proof {
        lemma_slots(rho.len() as nat);
    }
    let sigma_dec = permute_by_dec(sigma_table::<F>(cells, live).as_slice());
    let s_out_dec = permute_by_dec(s_out);
    let state_dec = permute_by_dec(state);
    let mut r: Vec<Vec<F>> = Vec::new();
    r.push(build_u_table(rho, live));
    r.push(copied(sigma_dec.as_slice()));
    r.push(permute_by_dec(rc_table(params, cells, live).as_slice()));
    r.push(permute_by_dec(s_in));
    r.push(copied(s_out_dec.as_slice()));
    r.push(copied(state_dec.as_slice()));
    r.push(copied(state));
    r.push(mds_lane_table(params, 0, cells, live));
    r.push(mds_lane_table(params, 1, cells, live));
    r.push(mds_lane_table(params, 2, cells, live));
    r.push(mds_lane_table(params, 3, cells, live));
    push_lanes(&mut r, &sigma_dec);
    push_lanes(&mut r, &s_out_dec);
    push_lanes(&mut r, &state_dec);
    proof {
        let t = unified_tables(*params, live as int, rho@, s_in@, s_out@, state@);
        assert(views(r@).len() == 23);
        assert forall|c: int| 0 <= c < 23 implies views(r@)[c] == t[c] by {}
        assert(views(r@) =~= t);
    }
    r
}

/// The columns of the unified sumcheck have one value a cell.
pub proof fn lemma_unified_tables_wf<F: TowerField>(
    params: PermParams<F>,
    live: int,
    rho: Seq<F>,
    s_in: Seq<F>,
    s_out: Seq<F>,
    state: Seq<F>,
)
    requires
        s_in.len() == pow2(rho.len()),
        s_out.len() == pow2(rho.len()),
        state.len() == pow2(rho.len()),
    ensures
        tables_wf(unified_tables(params, live, rho, s_in, s_out, state), rho.len()),
{
}

/// Runs the unified prover over a trace of `n` variables and `live` slots;
/// returns the proof and the final point.
pub fn prove_trace_unified<F: TowerField, T: FiatShamir<F>>(
    params: &PermParams<F>,
    s_in: &[F],
    s_out: &[F],
    state: &[F],
    n: usize,
    live: usize,
    channel: &mut T,
) -> (out: (AuthUnifiedProof<F>, Vec<F>))
    requires
        n >= 9,
        s_in.len() == pow2(n as nat),
        s_out.len() == pow2(n as nat),
        state.len() == pow2(n as nat),
    ensures
        ({
            let run = unified_run(
                *params,
                live as nat,
                n as nat,
                s_in@,
                s_out@,
                state@,
                *old(channel),
            );
            &&& poly_messages(out.0.round_polys@) == run.messages
            &&& out.1@ == run.challenges.reverse()
            &&& *final(channel) == absorb_all(run.channel, unified_claims(out.0))
        }),
        out.1.len() == n,
        unified_claims_hold(out.0, s_in@, s_out@, state@, out.1@),
        rounds_shape(out.0.round_polys@, n as nat, AUTH_UNIFIED_ROUND_DEGREE as nat),
{
    proof {
        lemma_challenges_len(*channel, n as nat);
    }
    let rho = squeeze_many(channel, n);
    let beta = channel.squeeze();
    let gamma = channel.squeeze();
    let tables = build_unified_tables(params, s_in, s_out, state, rho.as_slice(), live);
    proof {
        lemma_unified_tables_wf(*params, live as int, rho@, s_in@, s_out@, state@);
    }
    let ghost t = views(tables@);
    let rounds = prove_rounds(&UnifiedTerm { beta, gamma }, tables, n, channel);
    let ghost before = *channel;
    let f = &rounds.finals;
    let proof_out = AuthUnifiedProof {
        round_polys: rounds.polys,
        s_in_dec_at_r: f[3],
        s_out_dec_at_r: f[4],
        state_dec_at_r: f[5],
        state_at_r: f[6],
        s_out_lane_dec_at_r: [f[15], f[16], f[17], f[18]],
        state_lane_dec_at_r: [f[19], f[20], f[21], f[22]],
    };
    absorb_unified_claims(channel, &proof_out);
    proof {
        let p = rounds.point@;
        assert(f[3] == mle(t[3], p) && f[4] == mle(t[4], p) && f[5] == mle(t[5], p) && f[6] == mle(
            t[6],
            p,
        ));
        assert(f[15] == mle(t[15], p) && f[16] == mle(t[16], p) && f[17] == mle(t[17], p) && f[18]
            == mle(t[18], p));
        assert(f[19] == mle(t[19], p) && f[20] == mle(t[20], p) && f[21] == mle(t[21], p) && f[22]
            == mle(t[22], p));
        assert forall|j: int| 0 <= j < 4 implies #[trigger] proof_out.s_out_lane_dec_at_r[j] == mle(
            lane_table(dec_table(s_out@), j),
            p,
        ) by {
            assert(proof_out.s_out_lane_dec_at_r[j] == f[15 + j]);
            assert(t[15 + j] == lane_table(dec_table(s_out@), j));
        }
        assert forall|j: int| 0 <= j < 4 implies #[trigger] proof_out.state_lane_dec_at_r[j] == mle(
            lane_table(dec_table(state@), j),
            p,
        ) by {
            assert(proof_out.state_lane_dec_at_r[j] == f[19 + j]);
            assert(t[19 + j] == lane_table(dec_table(state@), j));
        }
    }
    (proof_out, rounds.point)
}

/// Absorbs the claims of a proof.
fn absorb_unified_claims<F: TowerField, T: FiatShamir<F>>(
    channel: &mut T,
    proof: &AuthUnifiedProof<F>,
)
    ensures
        *final(channel) == absorb_all(*old(channel), unified_claims(*proof)),
{
    let head = [
        proof.s_in_dec_at_r,
        proof.s_out_dec_at_r,
        proof.state_dec_at_r,
        proof.state_at_r,
    ];
    absorb_slice(channel, head.as_slice());
    absorb_slice(channel, proof.s_out_lane_dec_at_r.as_slice());
    absorb_slice(channel, proof.state_lane_dec_at_r.as_slice());
    proof {
        let start = *old(channel);
        let a = head@;
        let b = proof.s_out_lane_dec_at_r@;
        let c = proof.state_lane_dec_at_r@;
        lemma_absorb_all_add(start, a, b);
        lemma_absorb_all_add(start, a + b, c);
        assert(a =~= seq![
            proof.s_in_dec_at_r,
            proof.s_out_dec_at_r,
            proof.state_dec_at_r,
            proof.state_at_r,
        ]);
    }
}

/// Evaluates the summand at given values of the columns.
fn unified_term_value<F: TowerField>(v: &Vec<F>, beta: F, gamma: F) -> (r: F)
    requires
        v.len() == 23,
    ensures
        r == unified_term(beta, gamma)(v@),
{
    let c1 = v[1].times(pow7_value(v[3])).plus(v[4]).plus(v[3]).plus(v[1].times(v[3]));
    let c1p = v[1].times(v[3].plus(v[5]).plus(v[2]));
    let mut c2 = v[6];
    let mut j: usize = 0;
    while j < 4
        invariant
            j <= 4,
            v.len() == 23,
            c2 == linear_identity(v@, j as nat),
        decreases 4 - j,
    {
        let pi = v[11 + j].times(v[15 + j]).plus(F::one_value().plus(v[11 + j]).times(v[19 + j]));
        c2 = c2.plus(v[7 + j].times(pi));
        j += 1;
    }
    v[0].times(c1.plus(beta.times(c1p)).plus(gamma.times(c2)))
}

/// Evaluates the public columns and puts the claims beside them.
fn gather_values<F: TowerField>(
    params: &PermParams<F>,
    live: usize,
    rho: &[F],
    proof: &AuthUnifiedProof<F>,
    point: &[F],
) -> (v: Vec<F>)
    requires
        rho.len() >= 9,
        point.len() == rho.len(),
        pow2(rho.len() as nat) <= usize::MAX,
    ensures
        v.len() == 23,
        v@ == unified_values(*params, live as nat, rho@, *proof, point@),
{
    let u = build_u_table(rho, live);
    let cells: usize = u.len();
    proof {
        lemma_slots(rho.len() as nat);
    }
    let sigma_dec = permute_by_dec(sigma_table::<F>(cells, live).as_slice());
    let rc_dec = permute_by_dec(rc_table(params, cells, live).as_slice());
    let mut v: Vec<F> = Vec::new();
    v.push(evaluate_slice(u.as_slice(), point));
    v.push(evaluate_slice(sigma_dec.as_slice(), point));
    v.push(evaluate_slice(rc_dec.as_slice(), point));
    v.push(proof.s_in_dec_at_r);
    v.push(proof.s_out_dec_at_r);
    v.push(proof.state_dec_at_r);
    v.push(proof.state_at_r);
    let mut j: usize = 0;
    while j < 4
        invariant
            j <= 4,
            cells == pow2(rho.len() as nat),
            point.len() == rho.len(),
            v.len() == 7 + j,
            forall|c: int|
                0 <= c < 7 + j ==> #[trigger] v[c] == unified_values(
                    *params,
                    live as nat,
                    rho@,
                    *proof,
                    point@,
                )[c],
        decreases 4 - j,
    {
        let t = mds_lane_table(params, j, cells, live);
        v.push(evaluate_slice(t.as_slice(), point));
        j += 1;
    }
    let mut k: usize = 0;
    while k < 4
        invariant
            k <= 4,
            cells == pow2(rho.len() as nat),
            cells % 4 == 0,
            point.len() == rho.len(),
            sigma_dec@ == dec_table(
                Seq::new(cells as nat, |y: int| sigma_cell::<F>(live as int, y)),
            ),
            v.len() == 11 + k,
            forall|c: int|
                0 <= c < 11 + k ==> #[trigger] v[c] == unified_values(
                    *params,
                    live as nat,
                    rho@,
                    *proof,
                    point@,
                )[c],
        decreases 4 - k,
    {
        let t = project_lane(sigma_dec.as_slice(), k);
        v.push(evaluate_slice(t.as_slice(), point));
        k += 1;
    }
    v.push(proof.s_out_lane_dec_at_r[0]);
    v.push(proof.s_out_lane_dec_at_r[1]);
    v.push(proof.s_out_lane_dec_at_r[2]);
    v.push(proof.s_out_lane_dec_at_r[3]);
    v.push(proof.state_lane_dec_at_r[0]);
    v.push(proof.state_lane_dec_at_r[1]);
    v.push(proof.state_lane_dec_at_r[2]);
    v.push(proof.state_lane_dec_at_r[3]);
    proof {
        assert(v@ =~= unified_values(*params, live as nat, rho@, *proof, point@));
    }
    v
}

/// Runs the unified verifier over `n` variables and `live` slots; on success
/// returns the claims that are left.
pub fn verify_trace_unified<F: TowerField, T: FiatShamir<F>>(
    params: &PermParams<F>,
    proof: &AuthUnifiedProof<F>,
    n: usize,
    live: usize,
    channel: &mut T,
) -> (out: Option<AuthUnifiedReduction<F>>)
    requires
        n >= 9,
        pow2(n as nat) <= usize::MAX,
    ensures
        out is Some <==> unified_accepts(*params, live as nat, n as nat, *proof, *old(channel)),
        out matches Some(red) ==> {
            &&& red.r_prime@ == unified_check_run(
                proof.round_polys@,
                n as nat,
                *old(channel),
            ).challenges.reverse()
            &&& red.r_prime.len() == n
            &&& red.s_in_dec_at_r == proof.s_in_dec_at_r
            &&& red.s_out_dec_at_r == proof.s_out_dec_at_r
            &&& red.state_dec_at_r == proof.state_dec_at_r
            &&& red.state_at_r == proof.state_at_r
            &&& red.s_out_lane_dec_at_r == proof.s_out_lane_dec_at_r
            &&& red.state_lane_dec_at_r == proof.state_lane_dec_at_r
            &&& red.beta == unified_beta(n as nat, *old(channel))
            &&& red.gamma == unified_gamma(n as nat, *old(channel))
        },
        *final(channel) == if !rounds_shape(
            proof.round_polys@,
            n as nat,
            AUTH_UNIFIED_ROUND_DEGREE as nat,
        ) {
            *old(channel)
        } else {
            let end = unified_check_run(proof.round_polys@, n as nat, *old(channel)).channel;
            if out is None {
                end
            } else {
                absorb_all(end, unified_claims(*proof))
            }
        },
{
    if !check_rounds_shape(&proof.round_polys, n, AUTH_UNIFIED_ROUND_DEGREE) {
        return None;
    }
    proof {
        lemma_challenges_len(*channel, n as nat);
    }
    let rho = squeeze_many(channel, n);
    let beta = channel.squeeze();
    let gamma = channel.squeeze();
    let (expected, r_prime) = match verify_rounds(&proof.round_polys, F::zero_value(), channel) {
        Some(o) => o,
        None => {
            return None;
        },
    };
    let v = gather_values(params, live, rho.as_slice(), proof, r_prime.as_slice());
    let want = unified_term_value(&v, beta, gamma);
    if !expected.equals(want) {
        return None;
    }
    absorb_unified_claims(channel, proof);
    Some(
        AuthUnifiedReduction {
            r_prime,
            s_in_dec_at_r: proof.s_in_dec_at_r,
            s_out_dec_at_r: proof.s_out_dec_at_r,
            state_dec_at_r: proof.state_dec_at_r,
            state_at_r: proof.state_at_r,
            s_out_lane_dec_at_r: proof.s_out_lane_dec_at_r,
            state_lane_dec_at_r: proof.state_lane_dec_at_r,
            beta,
            gamma,
        },
    )
}

/// Completeness: the verifier accepts the honest proof of a trace of
/// permutations, at the prover's point and transcript.
pub proof fn lemma_unified_complete<F: TowerField, T: FiatShamir<F>>(
    params: PermParams<F>,
    inputs: Seq<Seq<F>>,
    n: nat,
    proof: AuthUnifiedProof<F>,
    channel: T,
)
    requires
        n >= 9,
        rounds_shape(proof.round_polys@, n, AUTH_UNIFIED_ROUND_DEGREE as nat),
        ({
            let cells = pow2(n);
            let s_in = sin_column(params, inputs, cells);
            let s_out = sout_column(params, inputs, cells);
            let state = state_column(params, inputs, cells);
            let run = unified_run(params, inputs.len(), n, s_in, s_out, state, channel);
            &&& poly_messages(proof.round_polys@) == run.messages
            &&& unified_claims_hold(proof, s_in, s_out, state, run.challenges.reverse())
        }),
    ensures
        unified_accepts(params, inputs.len(), n, proof, channel),
        ({
            let cells = pow2(n);
            let run = unified_run(
                params,
                inputs.len(),
                n,
                sin_column(params, inputs, cells),
                sout_column(params, inputs, cells),
                state_column(params, inputs, cells),
                channel,
            );
            let check = unified_check_run(proof.round_polys@, n, channel);
            check.challenges == run.challenges && check.channel == run.channel
                && run.challenges.len() == n
        }),
{
    let cells = pow2(n);
    let s_in = sin_column(params, inputs, cells);
    let s_out = sout_column(params, inputs, cells);
    let state = state_column(params, inputs, cells);
    let rho = unified_rho::<F, T>(n, channel);
    let beta = unified_beta::<F, T>(n, channel);
    let gamma = unified_gamma::<F, T>(n, channel);
    lemma_challenges_len::<F, T>(channel, n);
    let t = unified_tables(params, inputs.len() as int, rho, s_in, s_out, state);
    lemma_unified_tables_wf(params, inputs.len() as int, rho, s_in, s_out, state);
    lemma_unified_total(params, inputs, rho, beta, gamma);
    let term = UnifiedTerm { beta, gamma };
    lemma_rounds_complete::<F, T, UnifiedTerm<F>>(
        term,
        t,
        proof.round_polys@,
        n,
        unified_start(n, channel),
    );
    let run = unified_run(params, inputs.len(), n, s_in, s_out, state, channel);
    let point = run.challenges.reverse();
    lemma_unified_values(params, inputs.len(), rho, proof, s_in, s_out, state, point);
}

/// True claims stand in for the values of the columns.
proof fn lemma_unified_values<F: TowerField>(
    params: PermParams<F>,
    live: nat,
    rho: Seq<F>,
    proof: AuthUnifiedProof<F>,
    s_in: Seq<F>,
    s_out: Seq<F>,
    state: Seq<F>,
    point: Seq<F>,
)
    requires
        unified_claims_hold(proof, s_in, s_out, state, point),
    ensures
        ({
            let t = unified_tables(params, live as int, rho, s_in, s_out, state);
            unified_values(params, live, rho, proof, point) == Seq::new(
                t.len(),
                |c: int| mle(t[c], point),
            )
        }),
{
    let t = unified_tables(params, live as int, rho, s_in, s_out, state);
    let values = unified_values(params, live, rho, proof, point);
    let want = Seq::new(t.len(), |c: int| mle(t[c], point));
    assert(values =~= want) by {
        assert forall|c: int| 0 <= c < 23 implies values[c] == mle(t[c], point) by {
            if 15 <= c < 19 {
                assert(proof.s_out_lane_dec_at_r[c - 15] == mle(
                    lane_table(dec_table(s_out), c - 15),
                    point,
                ));
            } else if 19 <= c {
                assert(proof.state_lane_dec_at_r[c - 19] == mle(
                    lane_table(dec_table(state), c - 19),
                    point,
                ));
            }
        }
    }
}

/// Soundness: if a proof is accepted whose claims are true of some columns, then
/// the combined identities of those columns sum to zero, or a challenge misled
/// the verifier in some round.
pub proof fn lemma_unified_sound<F: TowerField, T: FiatShamir<F>>(
    params: PermParams<F>,
    live: nat,
    n: nat,
    s_in: Seq<F>,
    s_out: Seq<F>,
    state: Seq<F>,
    proof: AuthUnifiedProof<F>,
    channel: T,
)
    requires
        s_in.len() == pow2(n),
        s_out.len() == pow2(n),
        state.len() == pow2(n),
        unified_accepts(params, live, n, proof, channel),
        unified_claims_hold(
            proof,
            s_in,
            s_out,
            state,
            unified_check_run(proof.round_polys@, n, channel).challenges.reverse(),
        ),
    ensures
        ({
            let t = unified_tables(
                params,
                live as int,
                unified_rho(n, channel),
                s_in,
                s_out,
                state,
            );
            let f = unified_term(unified_beta(n, channel), unified_gamma(n, channel));
            ||| total(t, f, n) == F::zero()
            ||| exists|j: nat|
                j < n && #[trigger] rounds_misled(
                    t,
                    f,
                    proof.round_polys@,
                    F::zero(),
                    unified_start(n, channel),
                    j,
                )
        }),
{
    let rho = unified_rho::<F, T>(n, channel);
    lemma_challenges_len::<F, T>(channel, n);
    let t = unified_tables(params, live as int, rho, s_in, s_out, state);
    let f = unified_term(unified_beta(n, channel), unified_gamma(n, channel));
    lemma_unified_tables_wf(params, live as int, rho, s_in, s_out, state);
    let point = unified_check_run(proof.round_polys@, n, channel).challenges.reverse();
    lemma_unified_values(params, live, rho, proof, s_in, s_out, state, point);
    lemma_rounds_sound(t, f, proof.round_polys@, F::zero(), unified_start(n, channel));
}

/// Runs the unified prover over the authorization trace.
pub fn prove_auth_unified<F: TowerField, T: FiatShamir<F>>(
    params: &PermParams<F>,
    mle: &AuthUnifiedMle<F>,
    channel: &mut T,
) -> (out: (AuthUnifiedProof<F>, Vec<F>))
    requires
        mle.wf(),
    ensures
        ({
            let run = unified_run(
                *params,
                N_AUTH_LIVE_SLOTS as nat,
                N_AUTH_UNIFIED_VARS as nat,
                mle.s_in@,
                mle.s_out@,
                mle.state@,
                *old(channel),
            );
            &&& poly_messages(out.0.round_polys@) == run.messages
            &&& out.1@ == run.challenges.reverse()
            &&& *final(channel) == absorb_all(run.channel, unified_claims(out.0))
        }),
        out.1.len() == N_AUTH_UNIFIED_VARS,
        unified_claims_hold(out.0, mle.s_in@, mle.s_out@, mle.state@, out.1@),
        rounds_shape(
            out.0.round_polys@,
            N_AUTH_UNIFIED_VARS as nat,
            AUTH_UNIFIED_ROUND_DEGREE as nat,
        ),
{
    proof {
        vstd::arithmetic::power2::lemma2_to64();
        assert(pow2(14) == 16384);
    }
    prove_trace_unified(
        params,
        mle.s_in.as_slice(),
        mle.s_out.as_slice(),
        mle.state.as_slice(),
        N_AUTH_UNIFIED_VARS,
        N_AUTH_LIVE_SLOTS,
        channel,
    )
}

/// Runs the unified verifier over the authorization trace.
pub fn verify_auth_unified<F: TowerField, T: FiatShamir<F>>(
    params: &PermParams<F>,
    proof: &AuthUnifiedProof<F>,
    channel: &mut T,
) -> (out: Option<AuthUnifiedReduction<F>>)
    ensures
        out is Some <==> unified_accepts(
            *params,
            N_AUTH_LIVE_SLOTS as nat,
            N_AUTH_UNIFIED_VARS as nat,
            *proof,
            *old(channel),
        ),
        out matches Some(red) ==> {
            &&& red.r_prime@ == unified_check_run(
                proof.round_polys@,
                N_AUTH_UNIFIED_VARS as nat,
                *old(channel),
            ).challenges.reverse()
            &&& red.r_prime.len() == N_AUTH_UNIFIED_VARS
            &&& red.s_in_dec_at_r == proof.s_in_dec_at_r
            &&& red.s_out_dec_at_r == proof.s_out_dec_at_r
            &&& red.state_dec_at_r == proof.state_dec_at_r
            &&& red.state_at_r == proof.state_at_r
            &&& red.s_out_lane_dec_at_r == proof.s_out_lane_dec_at_r
            &&& red.state_lane_dec_at_r == proof.state_lane_dec_at_r
            &&& red.beta == unified_beta(N_AUTH_UNIFIED_VARS as nat, *old(channel))
            &&& red.gamma == unified_gamma(N_AUTH_UNIFIED_VARS as nat, *old(channel))
        },
        *final(channel) == if !rounds_shape(
            proof.round_polys@,
            N_AUTH_UNIFIED_VARS as nat,
            AUTH_UNIFIED_ROUND_DEGREE as nat,
        ) {
            *old(channel)
        } else {
            let end = unified_check_run(
                proof.round_polys@,
                N_AUTH_UNIFIED_VARS as nat,
                *old(channel),
            ).channel;
            if out is None {
                end
            } else {
                absorb_all(end, unified_claims(*proof))
            }
        },
{
    proof {
        vstd::arithmetic::power2::lemma2_to64();
        assert(pow2(14) == 16384);
    }
    verify_trace_unified(params, proof, N_AUTH_UNIFIED_VARS, N_AUTH_LIVE_SLOTS, channel)
}

/// The round polynomials of the shift gadget and the values of the columns at
/// its final point.
#[derive(Clone, Debug, PartialEq, Eq)]
pub struct AuthShiftProof<F> {
    pub round_polys: Vec<RoundPolynomial<F>>,
    pub s_in_at_r2: F,
    pub s_out_at_r2: F,
    pub state_at_r2: F,
}

/// The final point of the shift gadget and the values that are left to open.
#[derive(Clone, Debug, PartialEq, Eq)]
pub struct AuthShiftReduction<F> {
    pub r_double_prime: Vec<F>,
    pub s_in_at_r2: F,
    pub s_out_at_r2: F,
    pub state_at_r2: F,
}

/// The two sumchecks of a trace.
#[derive(Clone, Debug, PartialEq, Eq)]
pub struct AuthKillShotProof<F> {
    pub main: AuthUnifiedProof<F>,
    pub shift: AuthShiftProof<F>,
}

/// The prover's run of the shift gadget at the point `r`.
pub open spec fn shift_run<F: TowerField, T: FiatShamir<F>>(
    s_in: Seq<F>,
    s_out: Seq<F>,
    state: Seq<F>,
    r: Seq<F>,
    channel: T,
) -> ProverRun<F, T> {
    rounds_run(
        shift_tables(s_in, s_out, state, r, channel.challenge()),
        shift_term(),
        3,
        r.len(),
        channel.squeezed(),
    )
}

/// The claims on the shifted columns at a point.
pub struct ShiftedClaims<F> {
    pub point: Seq<F>,
    pub s_in_dec: F,
    pub s_out_dec: F,
    pub state_dec: F,
    pub s_out_lanes: Seq<F>,
    pub state_lanes: Seq<F>,
}

impl<F> AuthUnifiedReduction<F> {
    /// The claims on the shifted columns.
    pub open spec fn shifted(&self) -> ShiftedClaims<F> {
        ShiftedClaims {
            point: self.r_prime@,
            s_in_dec: self.s_in_dec_at_r,
            s_out_dec: self.s_out_dec_at_r,
            state_dec: self.state_dec_at_r,
            s_out_lanes: self.s_out_lane_dec_at_r@,
            state_lanes: self.state_lane_dec_at_r@,
        }
    }
}

impl<F> AuthUnifiedProof<F> {
    /// The claims on the shifted columns, at the final point.
    pub open spec fn shifted(&self, point: Seq<F>) -> ShiftedClaims<F> {
        ShiftedClaims {
            point,
            s_in_dec: self.s_in_dec_at_r,
            s_out_dec: self.s_out_dec_at_r,
            state_dec: self.state_dec_at_r,
            s_out_lanes: self.s_out_lane_dec_at_r@,
            state_lanes: self.state_lane_dec_at_r@,
        }
    }
}

/// The combination of the claims that the shift gadget starts from.
pub open spec fn shift_claim<F: TowerField, T: FiatShamir<F>>(
    red: ShiftedClaims<F>,
    channel: T,
) -> F {
    shift_target(
        red.s_in_dec,
        red.s_out_dec,
        red.state_dec,
        red.s_out_lanes,
        red.state_lanes,
        channel.challenge(),
    )
}

/// The verifier's run of the shift gadget.
pub open spec fn shift_check_run<F: TowerField, T: FiatShamir<F>>(
    polys: Seq<RoundPolynomial<F>>,
    red: ShiftedClaims<F>,
    channel: T,
) -> VerifierRun<F, T> {
    rounds_check_run(polys, shift_claim(red, channel), channel.squeezed())
}

/// Whether the verifier of the shift gadget accepts.
pub open spec fn shift_accepts<F: TowerField, T: FiatShamir<F>>(
    proof: AuthShiftProof<F>,
    red: ShiftedClaims<F>,
    channel: T,
) -> bool {
    let n = red.point.len();
    let delta = channel.challenge();
    let run = shift_check_run(proof.round_polys@, red, channel);
    let point = run.challenges.reverse();
    &&& rounds_shape(proof.round_polys@, n, AUTH_SHIFT_ROUND_DEGREE as nat)
    &&& run.ok
    &&& run.claim == mle(sin_weights(red.point, delta), point).mul(proof.s_in_at_r2).add(
        mle(sout_weights(red.point, delta), point).mul(proof.s_out_at_r2),
    ).add(mle(state_weights(red.point, delta), point).mul(proof.state_at_r2))
}

/// What the transcript absorbs at the end of the shift gadget.
pub open spec fn shift_claims<F>(proof: AuthShiftProof<F>) -> Seq<F> {
    seq![proof.s_in_at_r2, proof.s_out_at_r2, proof.state_at_r2]
}

/// Runs the prover of the shift gadget at the point `r`; returns the proof and
/// the final point.
pub fn prove_trace_shift<F: TowerField, T: FiatShamir<F>>(
    s_in: &[F],
    s_out: &[F],
    state: &[F],
    r: &[F],
    channel: &mut T,
) -> (out: (AuthShiftProof<F>, Vec<F>))
    requires
        r.len() >= 9,
        s_in.len() == pow2(r.len() as nat),
        s_out.len() == pow2(r.len() as nat),
        state.len() == pow2(r.len() as nat),
    ensures
        ({
            let run = shift_run(s_in@, s_out@, state@, r@, *old(channel));
            &&& poly_messages(out.0.round_polys@) == run.messages
            &&& out.1@ == run.challenges.reverse()
            &&& *final(channel) == absorb_all(run.channel, shift_claims(out.0))
        }),
        out.1.len() == r.len(),
        out.0.s_in_at_r2 == mle(s_in@, out.1@),
        out.0.s_out_at_r2 == mle(s_out@, out.1@),
        out.0.state_at_r2 == mle(state@, out.1@),
        rounds_shape(out.0.round_polys@, r.len() as nat, AUTH_SHIFT_ROUND_DEGREE as nat),
{
    let delta = channel.squeeze();
    let w = build_combined_weights(r, delta);
    let mut tables: Vec<Vec<F>> = Vec::new();
    tables.push(copied(s_in));
    tables.push(copied(s_out));
    tables.push(copied(state));
    tables.push(w.w_sin);
    tables.push(w.w_sout);
    tables.push(w.w_state);
    proof {
        assert(views(tables@) =~= shift_tables(s_in@, s_out@, state@, r@, delta));
    }
    let ghost t = views(tables@);
    let rounds = prove_rounds(&ShiftTerm, tables, r.len(), channel);
    let (s_in_at_r2, s_out_at_r2, state_at_r2) = (
        rounds.finals[0],
        rounds.finals[1],
        rounds.finals[2],
    );
    let ghost before = *channel;
    channel.absorb(s_in_at_r2);
    channel.absorb(s_out_at_r2);
    channel.absorb(state_at_r2);
    proof {
        lemma_absorb_three(before, s_in_at_r2, s_out_at_r2, state_at_r2);
        assert(rounds.finals[0] == mle(t[0], rounds.point@));
        assert(rounds.finals[1] == mle(t[1], rounds.point@));
        assert(rounds.finals[2] == mle(t[2], rounds.point@));
    }
    (
        AuthShiftProof { round_polys: rounds.polys, s_in_at_r2, s_out_at_r2, state_at_r2 },
        rounds.point,
    )
}

/// Runs the verifier of the shift gadget.
pub fn verify_trace_shift<F: TowerField, T: FiatShamir<F>>(
    proof: &AuthShiftProof<F>,
    main_red: &AuthUnifiedReduction<F>,
    channel: &mut T,
) -> (out: Option<AuthShiftReduction<F>>)
    requires
        main_red.r_prime.len() >= 9,
    ensures
        out is Some <==> shift_accepts(*proof, main_red.shifted(), *old(channel)),
        out matches Some(red) ==> {
            &&& red.r_double_prime@ == shift_check_run(
                proof.round_polys@,
                main_red.shifted(),
                *old(channel),
            ).challenges.reverse()
            &&& red.r_double_prime.len() == main_red.r_prime.len()
            &&& red.s_in_at_r2 == proof.s_in_at_r2
            &&& red.s_out_at_r2 == proof.s_out_at_r2
            &&& red.state_at_r2 == proof.state_at_r2
        },
        *final(channel) == if !rounds_shape(
            proof.round_polys@,
            main_red.r_prime@.len(),
            AUTH_SHIFT_ROUND_DEGREE as nat,
        ) {
            *old(channel)
        } else {
            let end = shift_check_run(proof.round_polys@, main_red.shifted(), *old(channel)).channel;
            if out is None {
                end
            } else {
                absorb_all(end, shift_claims(*proof))
            }
        },
{
    let n: usize = main_red.r_prime.len();
    if !check_rounds_shape(&proof.round_polys, n, AUTH_SHIFT_ROUND_DEGREE) {
        return None;
    }
    let delta = channel.squeeze();
    let target = combined_target(
        main_red.s_in_dec_at_r,
        main_red.s_out_dec_at_r,
        main_red.state_dec_at_r,
        &main_red.s_out_lane_dec_at_r,
        &main_red.state_lane_dec_at_r,
        delta,
    );
    let (expected, r_double_prime) = match verify_rounds(&proof.round_polys, target, channel) {
        Some(o) => o,
        None => {
            return None;
        },
    };
    let w = combined_weights_at_point(main_red.r_prime.as_slice(), delta, r_double_prime.as_slice());
    let claimed = w.w_sin.times(proof.s_in_at_r2).plus(w.w_sout.times(proof.s_out_at_r2)).plus(
        w.w_state.times(proof.state_at_r2),
    );
    if !expected.equals(claimed) {
        return None;
    }
    let ghost before = *channel;
    channel.absorb(proof.s_in_at_r2);
    channel.absorb(proof.s_out_at_r2);
    channel.absorb(proof.state_at_r2);
    proof {
        lemma_absorb_three(before, proof.s_in_at_r2, proof.s_out_at_r2, proof.state_at_r2);
    }
    Some(
        AuthShiftReduction {
            r_double_prime,
            s_in_at_r2: proof.s_in_at_r2,
            s_out_at_r2: proof.s_out_at_r2,
            state_at_r2: proof.state_at_r2,
        },
    )
}

/// Claims that are true of the columns.
pub open spec fn reduction_holds<F: TowerField>(
    red: ShiftedClaims<F>,
    s_in: Seq<F>,
    s_out: Seq<F>,
    state: Seq<F>,
) -> bool {
    let r = red.point;
    &&& red.s_in_dec == mle(dec_table(s_in), r)
    &&& red.s_out_dec == mle(dec_table(s_out), r)
    &&& red.state_dec == mle(dec_table(state), r)
    &&& red.s_out_lanes.len() == 4
    &&& red.state_lanes.len() == 4
    &&& forall|j: int|
        0 <= j < 4 ==> #[trigger] red.s_out_lanes[j] == mle(lane_table(dec_table(s_out), j), r)
    &&& forall|j: int|
        0 <= j < 4 ==> #[trigger] red.state_lanes[j] == mle(lane_table(dec_table(state), j), r)
}

/// Completeness of the shift gadget: for true claims on any columns the
/// verifier accepts the honest proof, at the prover's point and transcript.
pub proof fn lemma_shift_complete<F: TowerField, T: FiatShamir<F>>(
    s_in: Seq<F>,
    s_out: Seq<F>,
    state: Seq<F>,
    red: ShiftedClaims<F>,
    proof: AuthShiftProof<F>,
    channel: T,
)
    requires
        red.point.len() >= 9,
        s_in.len() == pow2(red.point.len()),
        s_out.len() == pow2(red.point.len()),
        state.len() == pow2(red.point.len()),
        reduction_holds(red, s_in, s_out, state),
        rounds_shape(proof.round_polys@, red.point.len(), AUTH_SHIFT_ROUND_DEGREE as nat),
        ({
            let run = shift_run(s_in, s_out, state, red.point, channel);
            let point = run.challenges.reverse();
            &&& poly_messages(proof.round_polys@) == run.messages
            &&& proof.s_in_at_r2 == mle(s_in, point)
            &&& proof.s_out_at_r2 == mle(s_out, point)
            &&& proof.state_at_r2 == mle(state, point)
        }),
    ensures
        shift_accepts(proof, red, channel),
        ({
            let run = shift_run(s_in, s_out, state, red.point, channel);
            let check = shift_check_run(proof.round_polys@, red, channel);
            check.challenges == run.challenges && check.channel == run.channel
                && run.challenges.len() == red.point.len()
        }),
{
    let r = red.point;
    let delta = channel.challenge();
    let t = shift_tables(s_in, s_out, state, r, delta);
    let run = shift_run(s_in, s_out, state, r, channel);
    let point = run.challenges.reverse();
    assert(tables_wf(t, r.len()));
    lemma_shift_target(
        s_in,
        s_out,
        state,
        red.s_out_lanes,
        red.state_lanes,
        r,
        delta,
    );
    lemma_shift_total(s_in, s_out, state, r, delta);
    lemma_rounds_complete::<F, T, ShiftTerm>(
        ShiftTerm,
        t,
        proof.round_polys@,
        r.len(),
        channel.squeezed(),
    );
    let values = Seq::new(t.len(), |c: int| mle(t[c], point));
    assert(values[0] == proof.s_in_at_r2 && values[1] == proof.s_out_at_r2 && values[2]
        == proof.state_at_r2);
    assert(values[3] == mle(sin_weights(r, delta), point));
}

/// The claims that are true of columns at a point.
pub open spec fn true_shifted<F: TowerField>(
    s_in: Seq<F>,
    s_out: Seq<F>,
    state: Seq<F>,
    r: Seq<F>,
) -> ShiftedClaims<F> {
    ShiftedClaims {
        point: r,
        s_in_dec: mle(dec_table(s_in), r),
        s_out_dec: mle(dec_table(s_out), r),
        state_dec: mle(dec_table(state), r),
        s_out_lanes: Seq::new(4, |j: int| mle(lane_table(dec_table(s_out), j), r)),
        state_lanes: Seq::new(4, |j: int| mle(lane_table(dec_table(state), j), r)),
    }
}

/// Soundness of the shift gadget: if a proof is accepted whose last values are
/// true of some columns, then the combination of the claims is that of the true
/// ones, or a challenge misled the verifier in some round.
pub proof fn lemma_shift_sound<F: TowerField, T: FiatShamir<F>>(
    s_in: Seq<F>,
    s_out: Seq<F>,
    state: Seq<F>,
    red: ShiftedClaims<F>,
    proof: AuthShiftProof<F>,
    channel: T,
)
    requires
        red.point.len() >= 9,
        s_in.len() == pow2(red.point.len()),
        s_out.len() == pow2(red.point.len()),
        state.len() == pow2(red.point.len()),
        shift_accepts(proof, red, channel),
        ({
            let point = shift_check_run(proof.round_polys@, red, channel).challenges.reverse();
            &&& proof.s_in_at_r2 == mle(s_in, point)
            &&& proof.s_out_at_r2 == mle(s_out, point)
            &&& proof.state_at_r2 == mle(state, point)
        }),
    ensures
        shift_claim(red, channel) == shift_claim(
            true_shifted(s_in, s_out, state, red.point),
            channel,
        ) || exists|j: nat|
            j < red.point.len() && #[trigger] rounds_misled(
                shift_tables(s_in, s_out, state, red.point, channel.challenge()),
                shift_term(),
                proof.round_polys@,
                shift_claim(red, channel),
                channel.squeezed(),
                j,
            ),
{
    let r = red.point;
    let delta = channel.challenge();
    let t = shift_tables(s_in, s_out, state, r, delta);
    let truth = true_shifted(s_in, s_out, state, r);
    let point = shift_check_run(proof.round_polys@, red, channel).challenges.reverse();
    assert(tables_wf(t, r.len()));
    lemma_shift_target(s_in, s_out, state, truth.s_out_lanes, truth.state_lanes, r, delta);
    lemma_shift_total(s_in, s_out, state, r, delta);
    let values = Seq::new(t.len(), |c: int| mle(t[c], point));
    assert(values[0] == proof.s_in_at_r2 && values[1] == proof.s_out_at_r2 && values[2]
        == proof.state_at_r2);
    assert(values[3] == mle(sin_weights(r, delta), point));
    lemma_rounds_sound(
        t,
        shift_term(),
        proof.round_polys@,
        shift_claim(red, channel),
        channel.squeezed(),
    );
}

/// The values that the shift gadget combines.
pub open spec fn shifted_values<F>(red: ShiftedClaims<F>) -> Seq<F> {
    seq![red.s_in_dec, red.s_out_dec, red.state_dec] + red.s_out_lanes + red.state_lanes
}

/// The claim of the shift gadget combines the values by powers of the challenge.
pub proof fn lemma_target_powers<F: TowerField>(red: ShiftedClaims<F>, delta: F)
    requires
        red.s_out_lanes.len() == 4,
        red.state_lanes.len() == 4,
    ensures
        shift_target(
            red.s_in_dec,
            red.s_out_dec,
            red.state_dec,
            red.s_out_lanes,
            red.state_lanes,
            delta,
        ) == horner(delta, shifted_values(red)),
{
    let v = shifted_values(red);
    let f = |k: int| pow(delta, k as nat).mul(v[k]);
    lemma_sum_split(7, 4, f);
    lemma_sum_split(3, 4, f);
    let (a, b) = (|j: int| f(3 + j), |j: int| f(7 + j));
    let (c, d) = (
        |j: int| pow(delta, (3 + j) as nat).mul(red.s_out_lanes[j]),
        |j: int| pow(delta, (7 + j) as nat).mul(red.state_lanes[j]),
    );
    lemma_sum_ext(4, a, c);
    lemma_sum_ext(4, b, d);
    reveal_with_fuel(sum, 4);
    reveal_with_fuel(pow, 3);
    lemma_units(delta);
    lemma_units(red.s_in_dec);
    assert(f(0) == red.s_in_dec);
    assert(f(1) == delta.mul(red.s_out_dec));
}

/// Claims that differ have the same combination for fewer than eleven
/// challenges.
pub proof fn lemma_delta_separates<F: TowerField>(
    a: ShiftedClaims<F>,
    b: ShiftedClaims<F>,
    bad: Seq<F>,
)
    requires
        a.s_out_lanes.len() == 4,
        a.state_lanes.len() == 4,
        b.s_out_lanes.len() == 4,
        b.state_lanes.len() == 4,
        shifted_values(a) != shifted_values(b),
        bad.no_duplicates(),
        forall|k: int|
            0 <= k < bad.len() ==> shift_target(
                a.s_in_dec,
                a.s_out_dec,
                a.state_dec,
                a.s_out_lanes,
                a.state_lanes,
                #[trigger] bad[k],
            ) == shift_target(
                b.s_in_dec,
                b.s_out_dec,
                b.state_dec,
                b.s_out_lanes,
                b.state_lanes,
                bad[k],
            ),
    ensures
        bad.len() < 11,
{
    assert forall|k: int| 0 <= k < bad.len() implies horner(
        #[trigger] bad[k],
        shifted_values(a),
    ) == horner(bad[k], shifted_values(b)) by {
        lemma_target_powers(a, bad[k]);
        lemma_target_powers(b, bad[k]);
    }
    lemma_gamma_separates(shifted_values(a), shifted_values(b), bad);
}

/// Runs the prover of the shift gadget over the authorization trace.
pub fn prove_auth_shift<F: TowerField, T: FiatShamir<F>>(
    mle: &AuthUnifiedMle<F>,
    main_red_r_prime: &[F],
    channel: &mut T,
) -> (out: (AuthShiftProof<F>, Vec<F>))
    requires
        mle.wf(),
        main_red_r_prime.len() == N_AUTH_UNIFIED_VARS,
    ensures
        ({
            let run = shift_run(
                mle.s_in@,
                mle.s_out@,
                mle.state@,
                main_red_r_prime@,
                *old(channel),
            );
            &&& poly_messages(out.0.round_polys@) == run.messages
            &&& out.1@ == run.challenges.reverse()
            &&& *final(channel) == absorb_all(run.channel, shift_claims(out.0))
        }),
        out.1.len() == N_AUTH_UNIFIED_VARS,
        out.0.s_in_at_r2 == crate::mle::mle(mle.s_in@, out.1@),
        out.0.s_out_at_r2 == crate::mle::mle(mle.s_out@, out.1@),
        out.0.state_at_r2 == crate::mle::mle(mle.state@, out.1@),
        rounds_shape(
            out.0.round_polys@,
            N_AUTH_UNIFIED_VARS as nat,
            AUTH_SHIFT_ROUND_DEGREE as nat,
        ),
{
    proof {
        vstd::arithmetic::power2::lemma2_to64();
        assert(pow2(14) == 16384);
    }
    prove_trace_shift(
        mle.s_in.as_slice(),
        mle.s_out.as_slice(),
        mle.state.as_slice(),
        main_red_r_prime,
        channel,
    )
}

/// Runs the verifier of the shift gadget over the authorization trace.
pub fn verify_auth_shift<F: TowerField, T: FiatShamir<F>>(
    proof: &AuthShiftProof<F>,
    main_red: &AuthUnifiedReduction<F>,
    channel: &mut T,
) -> (out: Option<AuthShiftReduction<F>>)
    requires
        main_red.r_prime.len() == N_AUTH_UNIFIED_VARS,
    ensures
        out is Some <==> shift_accepts(*proof, main_red.shifted(), *old(channel)),
        out matches Some(red) ==> {
            &&& red.r_double_prime@ == shift_check_run(
                proof.round_polys@,
                main_red.shifted(),
                *old(channel),
            ).challenges.reverse()
            &&& red.r_double_prime.len() == N_AUTH_UNIFIED_VARS
            &&& red.s_in_at_r2 == proof.s_in_at_r2
            &&& red.s_out_at_r2 == proof.s_out_at_r2
            &&& red.state_at_r2 == proof.state_at_r2
        },
        *final(channel) == if !rounds_shape(
            proof.round_polys@,
            N_AUTH_UNIFIED_VARS as nat,
            AUTH_SHIFT_ROUND_DEGREE as nat,
        ) {
            *old(channel)
        } else {
            let end = shift_check_run(proof.round_polys@, main_red.shifted(), *old(channel)).channel;
            if out is None {
                end
            } else {
                absorb_all(end, shift_claims(*proof))
            }
        },
{
    verify_trace_shift(proof, main_red, channel)
}

} // verus!

