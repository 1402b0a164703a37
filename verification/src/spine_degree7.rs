//! Degree-7 sumcheck of the S-box identity.
//!
//! Proves `sum_x eq(rho, x) Q(x) = 0` for
//! `Q = sigma sin^7 + sout + sin + sigma sin`, which vanishes on the hypercube
//! when every active S-box is a seventh power and every inactive one passes its
//! input through.
use vstd::prelude::*;
use vstd::arithmetic::power2::pow2;
use crate::field::{BinaryField, TowerField, lemma_units};
use crate::interpolate::{lemma_interpolate, lemma_small_points, small_points};
use crate::mle::{eq_ind_partial_eval, eq_poly, eq_table, evaluate_slice, lemma_mle_eq_table, mle};
use crate::poly::{is_poly, lemma_poly_add, lemma_poly_mul, lemma_poly_pow7, lemma_poly_widen, peval, slice_of};
use crate::round_poly::{RoundPolynomial, pow7, pow7_value};
use crate::rounds::{Summand, half_sum_of, lemma_half_sum_poly, lemma_rounds_complete, poly_messages, prove_rounds, rounds_check_run, rounds_run, verify_rounds, views};
use crate::spine_mle::{N_SPINE_UNIFIED_CELLS, N_SPINE_UNIFIED_VARS, SpineUnifiedMle};
use crate::sum::{lemma_sum_zero, sum};
use crate::sumcheck::{ProverRun, VerifierRun, entry_of, fold_tables, half_sum, lemma_column_poly, tables_wf, total, values_at};
use crate::table::copied;
use crate::transcript::{FiatShamir, absorb_all, challenges, lemma_challenges_len, squeeze_many, squeezed_by};

verus! {

/// The degree of a round polynomial: one each for `eq` and `sigma`, seven for
/// `sin^7`.
pub const SPINE_D7_ROUND_DEGREE: usize = 9;

/// The round polynomials and the claimed values at the final point.
#[derive(Clone, Debug, PartialEq, Eq)]
pub struct SpineD7Proof<F> {
    pub round_polys: Vec<RoundPolynomial<F>>,
    pub sigma_at_r: F,
    pub sin_at_r: F,
    pub sout_at_r: F,
}

impl<F> SpineD7Proof<F> {
    /// The number of rounds.
    pub fn n_rounds(&self) -> (r: usize)
        ensures
            r == self.round_polys.len(),
    {
        self.round_polys.len()
    }
}

/// The final point and the values that later checks have to open there.
#[derive(Clone, Debug, PartialEq, Eq)]
pub struct SpineD7Reduction<F> {
    pub r_prime: Vec<F>,
    pub sigma_at_r: F,
    pub sin_at_r: F,
    pub sout_at_r: F,
    pub eq_at_r: F,
    pub q_at_r: F,
}

/// `sigma sin^7 + sout + sin + sigma sin`.
pub open spec fn sbox_identity<F: BinaryField>(sigma: F, sin: F, sout: F) -> F {
    sigma.mul(pow7(sin)).add(sout).add(sin).add(sigma.mul(sin))
}

/// The identity holds in every cell.
pub open spec fn sbox_holds<F: BinaryField>(mle: SpineUnifiedMle<F>) -> bool {
    forall|i: int|
        0 <= i < N_SPINE_UNIFIED_CELLS ==> #[trigger] sbox_identity(
            mle.sigma[i],
            mle.s_in[i],
            mle.s_out[i],
        ) == F::zero()
}

/// The summand `eq Q` over the columns `eq`, `sigma`, `sin`, `sout`.
pub struct SboxTerm;

/// The summand of [`SboxTerm`].
pub open spec fn sbox_term<F: BinaryField>() -> spec_fn(Seq<F>) -> F {
    |v: Seq<F>| v[0].mul(sbox_identity(v[1], v[2], v[3]))
}

/// The prover's tables at the point `rho`.
pub open spec fn sbox_tables<F: BinaryField>(mle: SpineUnifiedMle<F>, rho: Seq<F>) -> Seq<Seq<F>> {
    seq![eq_table(rho), mle.sigma@, mle.s_in@, mle.s_out@]
}

impl<F: TowerField> Summand<F> for SboxTerm {
    open spec fn columns(&self) -> nat {
        4
    }

    open spec fn width(&self) -> nat {
        10
    }

    open spec fn term(&self) -> spec_fn(Seq<F>) -> F {
        sbox_term()
    }

    proof fn sizes(&self) {
    }

    proof fn term_poly(&self, t: Seq<Seq<F>>, n: nat, i: int) {
        lemma_sbox_term_poly(t, n, i);
    }

    fn round_poly(&self, tables: &Vec<Vec<F>>) -> (p: RoundPolynomial<F>) {
        compute_round_polynomial(
            tables[0].as_slice(),
            tables[1].as_slice(),
            tables[2].as_slice(),
            tables[3].as_slice(),
            Ghost(views(tables@)),
        )
    }
}

/// The summand has degree nine in the folded variable.
proof fn lemma_sbox_term_poly<F: TowerField>(t: Seq<Seq<F>>, n: nat, i: int)
    requires
        n > 0,
        t.len() == 4,
        tables_wf(t, n),
        0 <= i < pow2((n - 1) as nat),
    ensures
        is_poly(slice_of(entry_of(t, sbox_term::<F>()), i), 10),
{
    let e = |x: F| values_at(fold_tables(t, x), i)[0];
    let sg = |x: F| values_at(fold_tables(t, x), i)[1];
    let si = |x: F| values_at(fold_tables(t, x), i)[2];
    let so = |x: F| values_at(fold_tables(t, x), i)[3];
    lemma_column_poly(t, n, 0, i, e);
    lemma_column_poly(t, n, 1, i, sg);
    lemma_column_poly(t, n, 2, i, si);
    lemma_column_poly(t, n, 3, i, so);
    let si7 = |x: F| pow7(si(x));
    lemma_poly_pow7(si, si7);
    let a = |x: F| sg(x).mul(si7(x));
    lemma_poly_mul(sg, 2, si7, 8, a);
    lemma_poly_widen(so, 2, 9);
    lemma_poly_widen(si, 2, 9);
    let b = |x: F| a(x).add(so(x));
    lemma_poly_add(a, so, b, 9);
    let c = |x: F| b(x).add(si(x));
    lemma_poly_add(b, si, c, 9);
    let d = |x: F| sg(x).mul(si(x));
    assert(is_poly(d, 3)) by {
        lemma_column_poly(t, n, 2, i, si);
        lemma_poly_mul(sg, 2, si, 2, d);
    }
    lemma_poly_widen(d, 3, 9);
    let q = |x: F| c(x).add(d(x));
    lemma_poly_add(c, d, q, 9);
    lemma_poly_mul(e, 2, q, 9, slice_of(entry_of(t, sbox_term::<F>()), i));
}

/// The value of the round polynomial at `t`.
fn round_value_at<F: TowerField>(
    eq_tab: &[F],
    sigma_tab: &[F],
    sin_tab: &[F],
    sout_tab: &[F],
    t: F,
    Ghost(tables): Ghost<Seq<Seq<F>>>,
) -> (v: F)
    requires
        tables == seq![eq_tab@, sigma_tab@, sin_tab@, sout_tab@],
        eq_tab.len() == sigma_tab.len() == sin_tab.len() == sout_tab.len(),
    ensures
        v == half_sum(tables, sbox_term(), t),
{
    let half: usize = eq_tab.len() / 2;
    let ghost f = sbox_term::<F>();
    let ghost g = |i: int| f(values_at(fold_tables(tables, t), i));
    let mut acc = F::zero_value();
    let mut i: usize = 0;
    while i < half
        invariant
            i <= half,
            half == eq_tab.len() / 2,
            tables == seq![eq_tab@, sigma_tab@, sin_tab@, sout_tab@],
            eq_tab.len() == sigma_tab.len() == sin_tab.len() == sout_tab.len(),
            f == sbox_term::<F>(),
            g == (|i: int| f(values_at(fold_tables(tables, t), i))),
            acc == sum(i as nat, g),
        decreases half - i,
    {
        let e = eq_tab[i].plus(t.times(eq_tab[i].plus(eq_tab[i + half])));
        let sg = sigma_tab[i].plus(t.times(sigma_tab[i].plus(sigma_tab[i + half])));
        let si = sin_tab[i].plus(t.times(sin_tab[i].plus(sin_tab[i + half])));
        let so = sout_tab[i].plus(t.times(sout_tab[i].plus(sout_tab[i + half])));
        let q = sg.times(pow7_value(si)).plus(so).plus(si).plus(sg.times(si));
        acc = acc.plus(e.times(q));
        i += 1;
    }
    acc
}

/// The round polynomial, from its values at 0, 1, .., 9.
fn compute_round_polynomial<F: TowerField>(
    eq_tab: &[F],
    sigma_tab: &[F],
    sin_tab: &[F],
    sout_tab: &[F],
    Ghost(tables): Ghost<Seq<Seq<F>>>,
) -> (p: RoundPolynomial<F>)
    requires
        tables =~= seq![eq_tab@, sigma_tab@, sin_tab@, sout_tab@],
        exists|n: nat| n > 0 && #[trigger] tables_wf(tables, n),
    ensures
        p.coeffs.len() == 10,
        forall|x: F| #[trigger] peval(p.coeffs@, x) == half_sum(tables, sbox_term(), x),
{
    proof {
        let n = choose|n: nat| n > 0 && #[trigger] tables_wf(tables, n);
        assert(tables[0].len() == pow2(n));
        assert(tables[1].len() == pow2(n));
        assert(tables[2].len() == pow2(n));
        assert(tables[3].len() == pow2(n));
    }
    let mut evals: Vec<F> = Vec::new();
    let mut k: usize = 0;
    while k < 10
        invariant
            k <= 10,
            tables == seq![eq_tab@, sigma_tab@, sin_tab@, sout_tab@],
            eq_tab.len() == sigma_tab.len() == sin_tab.len() == sout_tab.len(),
            evals.len() == k,
            forall|j: int|
                0 <= j < k ==> #[trigger] evals[j] == half_sum(
                    tables,
                    sbox_term(),
                    F::of_u128(j as u128),
                ),
        decreases 10 - k,
    {
        let t = F::from_u128(k as u128);
        evals.push(round_value_at(eq_tab, sigma_tab, sin_tab, sout_tab, t, Ghost(tables)));
        k += 1;
    }
    let p = RoundPolynomial::from_evals(evals.as_slice());
    proof {
        let n = choose|n: nat| n > 0 && #[trigger] tables_wf(tables, n);
        let g = half_sum_of(tables, sbox_term::<F>());
        assert forall|i: int| 0 <= i < pow2((n - 1) as nat) implies is_poly(
            #[trigger] slice_of(entry_of(tables, sbox_term::<F>()), i),
            10,
        ) by {
            lemma_sbox_term_poly(tables, n, i);
        }
        lemma_half_sum_poly(sbox_term::<F>(), 10, tables, n);
        lemma_small_points::<F>(10);
        let points = small_points::<F>(10);
        assert forall|x: F| #[trigger] peval(p.coeffs@, x) == half_sum(
            tables,
            sbox_term(),
            x,
        ) by {
            lemma_interpolate(g, points, evals@, x);
        }
    }
    p
}

/// The point `rho` that the transcript gives.
pub open spec fn sbox_rho<F: TowerField, T: FiatShamir<F>>(channel: T) -> Seq<F> {
    challenges(channel, N_SPINE_UNIFIED_VARS as nat)
}

/// The prover's run.
pub open spec fn sbox_run<F: TowerField, T: FiatShamir<F>>(
    mle: SpineUnifiedMle<F>,
    channel: T,
) -> ProverRun<F, T> {
    rounds_run(
        sbox_tables(mle, sbox_rho(channel)),
        sbox_term(),
        10,
        N_SPINE_UNIFIED_VARS as nat,
        squeezed_by(channel, N_SPINE_UNIFIED_VARS as nat),
    )
}

/// The verifier's run.
pub open spec fn sbox_check_run<F: TowerField, T: FiatShamir<F>>(
    polys: Seq<RoundPolynomial<F>>,
    channel: T,
) -> VerifierRun<F, T> {
    rounds_check_run(polys, F::zero(), squeezed_by(channel, N_SPINE_UNIFIED_VARS as nat))
}

/// Whether the number of rounds and their degrees fit.
pub open spec fn sbox_shape<F>(polys: Seq<RoundPolynomial<F>>) -> bool {
    &&& polys.len() == N_SPINE_UNIFIED_VARS
    &&& forall|i: int|
        0 <= i < polys.len() ==> (#[trigger] polys[i]).coeffs.len() <= SPINE_D7_ROUND_DEGREE + 1
}

/// Whether the verifier accepts.
pub open spec fn sbox_accepts<F: TowerField, T: FiatShamir<F>>(
    proof: SpineD7Proof<F>,
    channel: T,
) -> bool {
    let run = sbox_check_run(proof.round_polys@, channel);
    &&& sbox_shape(proof.round_polys@)
    &&& run.ok
    &&& run.claim == eq_poly(sbox_rho(channel), run.challenges.reverse()).mul(
        sbox_identity(proof.sigma_at_r, proof.sin_at_r, proof.sout_at_r),
    )
}

/// Runs the prover.
pub fn prove_spine_degree7<F: TowerField, T: FiatShamir<F>>(
    mle: &SpineUnifiedMle<F>,
    channel: &mut T,
) -> (out: SpineD7Proof<F>)
    requires
        mle.wf(),
    ensures
        ({
            let run = sbox_run(*mle, *old(channel));
            let point = run.challenges.reverse();
            &&& poly_messages(out.round_polys@) == run.messages
            &&& out.sigma_at_r == crate::mle::mle(mle.sigma@, point)
            &&& out.sin_at_r == crate::mle::mle(mle.s_in@, point)
            &&& out.sout_at_r == crate::mle::mle(mle.s_out@, point)
            &&& *final(channel) == absorb_all(
                run.channel,
                seq![out.sigma_at_r, out.sin_at_r, out.sout_at_r],
            )
        }),
        sbox_shape(out.round_polys@),
{
    let n: usize = N_SPINE_UNIFIED_VARS;
    proof {
        vstd::arithmetic::power2::lemma2_to64();
        lemma_challenges_len(*channel, n as nat);
    }
    let rho = squeeze_many(channel, n);
    let mut tables: Vec<Vec<F>> = Vec::new();
    tables.push(eq_ind_partial_eval(rho.as_slice()));
    tables.push(copied(mle.sigma.as_slice()));
    tables.push(copied(mle.s_in.as_slice()));
    tables.push(copied(mle.s_out.as_slice()));
    proof {
        assert(views(tables@) =~= sbox_tables(*mle, rho@));
        assert(pow2(15) == 32768);
    }
    let rounds = prove_rounds(&SboxTerm, tables, n, channel);
    let sigma_at_r = rounds.finals[1];
    let sin_at_r = rounds.finals[2];
    let sout_at_r = rounds.finals[3];
    let ghost before = *channel;
    channel.absorb(sigma_at_r);
    channel.absorb(sin_at_r);
    channel.absorb(sout_at_r);
    proof {
        lemma_absorb_three(before, sigma_at_r, sin_at_r, sout_at_r);
    }
    SpineD7Proof { round_polys: rounds.polys, sigma_at_r, sin_at_r, sout_at_r }
}

/// Absorbing three elements in turn.
pub proof fn lemma_absorb_three<F, T: FiatShamir<F>>(channel: T, a: F, b: F, c: F)
    ensures
        absorb_all(channel, seq![a, b, c]) == channel.absorbed(a).absorbed(b).absorbed(c),
{
    reveal_with_fuel(absorb_all, 4);
    let s = seq![a, b, c];
    assert(s.drop_last() =~= seq![a, b]);
    assert(s.drop_last().drop_last() =~= seq![a]);
    assert(s.drop_last().drop_last().drop_last() =~= Seq::empty());
}

/// Runs the verifier; on success returns what is left to open.
pub fn verify_spine_degree7<F: TowerField, T: FiatShamir<F>>(
    proof: &SpineD7Proof<F>,
    channel: &mut T,
) -> (out: Option<SpineD7Reduction<F>>)
    ensures
        out is Some <==> sbox_accepts(*proof, *old(channel)),
        out matches Some(red) ==> {
            &&& red.r_prime@ == sbox_check_run(
                proof.round_polys@,
                *old(channel),
            ).challenges.reverse()
            &&& red.sigma_at_r == proof.sigma_at_r
            &&& red.sin_at_r == proof.sin_at_r
            &&& red.sout_at_r == proof.sout_at_r
            &&& red.eq_at_r == eq_poly(sbox_rho(*old(channel)), red.r_prime@)
            &&& red.q_at_r == sbox_identity(proof.sigma_at_r, proof.sin_at_r, proof.sout_at_r)
        },
        *final(channel) == if !sbox_shape(proof.round_polys@) {
            *old(channel)
        } else if out is None {
            sbox_check_run(proof.round_polys@, *old(channel)).channel
        } else {
            absorb_all(
                sbox_check_run(proof.round_polys@, *old(channel)).channel,
                seq![proof.sigma_at_r, proof.sin_at_r, proof.sout_at_r],
            )
        },
{
    let n: usize = N_SPINE_UNIFIED_VARS;
    if proof.round_polys.len() != n {
        return None;
    }
    let mut i: usize = 0;
    while i < n
        invariant
            i <= n,
            n == N_SPINE_UNIFIED_VARS,
            proof.round_polys.len() == n,
            *channel == *old(channel),
            forall|k: int|
                0 <= k < i ==> (#[trigger] proof.round_polys[k]).coeffs.len()
                    <= SPINE_D7_ROUND_DEGREE + 1,
        decreases n - i,
    {
        if proof.round_polys[i].degree() > SPINE_D7_ROUND_DEGREE {
            proof {
                assert(proof.round_polys[i as int].coeffs.len() > SPINE_D7_ROUND_DEGREE + 1);
            }
            return None;
        }
        i += 1;
    }
    proof {
        vstd::arithmetic::power2::lemma2_to64();
        lemma_challenges_len(*channel, n as nat);
        assert(pow2(15) == 32768);
    }
    let rho = squeeze_many(channel, n);
    let (expected, r_prime) = match verify_rounds(&proof.round_polys, F::zero_value(), channel) {
        Some(o) => o,
        None => {
            return None;
        },
    };
    let eq_tab = eq_ind_partial_eval(rho.as_slice());
    let eq_at_r = evaluate_slice(eq_tab.as_slice(), r_prime.as_slice());
    proof {
        lemma_mle_eq_table(rho@, r_prime@);
    }
    let (sigma, sin, sout) = (proof.sigma_at_r, proof.sin_at_r, proof.sout_at_r);
    let q_at_r = sigma.times(pow7_value(sin)).plus(sout).plus(sin).plus(sigma.times(sin));
    if !expected.equals(eq_at_r.times(q_at_r)) {
        return None;
    }
    let ghost before = *channel;
    channel.absorb(sigma);
    channel.absorb(sin);
    channel.absorb(sout);
    proof {
        lemma_absorb_three(before, sigma, sin, sout);
    }
    Some(
        SpineD7Reduction {
            r_prime,
            sigma_at_r: sigma,
            sin_at_r: sin,
            sout_at_r: sout,
            eq_at_r,
            q_at_r,
        },
    )
}

/// Completeness: if the identity holds in every cell, the verifier accepts the
/// honest proof, at the prover's point and transcript.
pub proof fn lemma_spine_degree7_complete<F: TowerField, T: FiatShamir<F>>(
    mle: SpineUnifiedMle<F>,
    proof: SpineD7Proof<F>,
    channel: T,
)
    requires
        mle.wf(),
        sbox_holds(mle),
        sbox_shape(proof.round_polys@),
        poly_messages(proof.round_polys@) == sbox_run(mle, channel).messages,
        ({
            let point = sbox_run(mle, channel).challenges.reverse();
            &&& proof.sigma_at_r == crate::mle::mle(mle.sigma@, point)
            &&& proof.sin_at_r == crate::mle::mle(mle.s_in@, point)
            &&& proof.sout_at_r == crate::mle::mle(mle.s_out@, point)
        }),
    ensures
        sbox_accepts(proof, channel),
        sbox_check_run(proof.round_polys@, channel).challenges == sbox_run(
            mle,
            channel,
        ).challenges,
        sbox_check_run(proof.round_polys@, channel).channel == sbox_run(mle, channel).channel,
{
    let n = N_SPINE_UNIFIED_VARS as nat;
    let rho = sbox_rho::<F, T>(channel);
    let tables = sbox_tables(mle, rho);
    let start = squeezed_by(channel, n);
    vstd::arithmetic::power2::lemma2_to64();
    lemma_challenges_len::<F, T>(channel, n);
    assert(tables_wf(tables, n));
    let f = sbox_term::<F>();
    assert(total(tables, f, n) == F::zero()) by {
        let g = |i: int| f(values_at(tables, i));
        assert forall|i: int| 0 <= i < pow2(n) implies #[trigger] g(i) == F::zero() by {
            assert(sbox_identity(mle.sigma[i], mle.s_in[i], mle.s_out[i]) == F::zero());
            lemma_units(eq_table(rho)[i]);
        }
        lemma_sum_zero(pow2(n), g);
    }
    lemma_rounds_complete::<F, T, SboxTerm>(SboxTerm, tables, proof.round_polys@, n, start);
    let point = sbox_run(mle, channel).challenges.reverse();
    lemma_mle_eq_table(rho, point);
}

} // verus!
