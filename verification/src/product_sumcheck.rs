//! Product sumcheck.
//!
//! Reduces a claim `v = sum_x eq(r, x) A(x) B(x)` over the boolean hypercube
//! to the two claims `a = A(r')` and `b = B(r')` at a fresh point `r'`, which
//! is the vector of the challenges in variable order. Each round sends the
//! round polynomial by its values at 0, 1, 2 and 3.
use vstd::prelude::*;
use vstd::arithmetic::power2::pow2;
use crate::field::{BinaryField, TowerField};
use crate::interpolate::{interpolate, lagrange_at_small_points, small_points};
use crate::mle::{eq_ind, eq_ind_partial_eval, eq_poly, eq_table, fold_highest_var, lemma_line_ends, lemma_mle_eq_table, mle};
use crate::poly::{is_poly, lemma_poly_mul, slice_of};
use crate::soundness::{lemma_accepted_challenges, lemma_few_misleading_values, lemma_sound_at_point, misled};
use crate::sum::{lemma_sum_ext, sum};
use crate::table::{copied, reversed};
use crate::sumcheck::{ProverRun, VerifierRun, entry_of, fold_tables, honest, lemma_column_poly, lemma_complete, lemma_final_values, lemma_prover_run_shape, lemma_refused, lemma_total_one, lemma_values_honest, prover_run, round_value, tables_wf, total, value_check, value_eval, value_message, values_at, verifier_run};
use crate::transcript::{FiatShamir, absorb_slice};

verus! {

/// A round polynomial, as its values at 0, 1, 2 and 3.
#[derive(Clone, Copy, Debug, PartialEq, Eq, Structural)]
pub struct RoundEvals<F> {
    pub evals: [F; 4],
}

impl<F: TowerField> RoundEvals<F> {
    /// The value at zero plus the value at one.
    pub fn sum_at_0_plus_1(&self) -> (r: F)
        ensures
            r == self.evals[0].add(self.evals[1]),
    {
        self.evals[0].plus(self.evals[1])
    }

    /// The value at `r`.
    pub fn evaluate(&self, r: F) -> (v: F)
        ensures
            v == interpolate(small_points::<F>(4), self.evals@, r),
    {
        lagrange_at_0_1_2_3(&self.evals, r)
    }
}

/// The value at `r` of the cubic through the given values at 0, 1, 2 and 3.
pub fn lagrange_at_0_1_2_3<F: TowerField>(evals: &[F; 4], r: F) -> (v: F)
    ensures
        v == interpolate(small_points::<F>(4), evals@, r),
{
    lagrange_at_small_points(evals.as_slice(), r)
}

/// The rounds of a product sumcheck and the two reduced values.
#[derive(Clone, Debug, PartialEq, Eq)]
pub struct ProductProof<F> {
    pub rounds: Vec<RoundEvals<F>>,
    pub a_final: F,
    pub b_final: F,
}

impl<F: TowerField> ProductProof<F> {
    /// The size of the proof at 16 bytes a field element.
    pub fn byte_len(&self) -> (r: usize)
        requires
            self.rounds.len() * 64 + 32 <= usize::MAX,
        ensures
            r == self.rounds.len() * 64 + 32,
    {
        self.rounds.len() * 4 * 16 + 2 * 16
    }
}

/// The messages that the rounds of a proof carry.
pub open spec fn round_messages<F>(rounds: Seq<RoundEvals<F>>) -> Seq<Seq<F>> {
    Seq::new(rounds.len(), |i: int| rounds[i].evals@)
}

/// The summand `eq * a * b`.
pub open spec fn product_term<F: BinaryField>() -> spec_fn(Seq<F>) -> F {
    |v: Seq<F>| v[0].mul(v[1]).mul(v[2])
}

/// What a round sends.
pub open spec fn product_message<F: TowerField>() -> spec_fn(Seq<Seq<F>>) -> Seq<F> {
    |t: Seq<Seq<F>>| value_message(t, product_term(), 4)
}

/// `sum_x eq(r, x) A(x) B(x)`.
pub open spec fn product_claim<F: BinaryField>(a: Seq<F>, b: Seq<F>, r: Seq<F>) -> F {
    sum(a.len(), |i: int| eq_table(r)[i].mul(a[i]).mul(b[i]))
}

/// The prover's run over the tables of `eq(r, .)`, `A` and `B`.
pub open spec fn product_run<F: TowerField, T: FiatShamir<F>>(
    a: Seq<F>,
    b: Seq<F>,
    r: Seq<F>,
    channel: T,
) -> ProverRun<F, T> {
    prover_run(seq![eq_table(r), a, b], channel, product_message(), r.len())
}

/// The verifier's run over the rounds of a proof.
pub open spec fn product_check_run<F: TowerField, T: FiatShamir<F>>(
    rounds: Seq<RoundEvals<F>>,
    v: F,
    channel: T,
) -> VerifierRun<F, T> {
    verifier_run(v, channel, round_messages(rounds), value_check(), value_eval(), rounds.len())
}

/// Whether the verifier accepts.
pub open spec fn product_accepts<F: TowerField, T: FiatShamir<F>>(
    rounds: Seq<RoundEvals<F>>,
    a_final: F,
    b_final: F,
    r: Seq<F>,
    v: F,
    channel: T,
) -> bool {
    let run = product_check_run(rounds, v, channel);
    &&& rounds.len() == r.len()
    &&& run.ok
    &&& run.claim == eq_poly(r, run.challenges.reverse()).mul(a_final).mul(b_final)
}

/// Computes `sum_x eq(r, x) A(x) B(x)`.
pub fn compute_product_claim<F: TowerField>(a: &[F], b: &[F], r: &[F]) -> (v: F)
    requires
        a.len() == pow2(r.len() as nat),
        b.len() == a.len(),
    ensures
        v == product_claim(a@, b@, r@),
{
    let eq = eq_ind_partial_eval(r);
    let ghost f = |i: int| eq_table(r@)[i].mul(a@[i]).mul(b@[i]);
    let mut acc = F::zero_value();
    let mut i: usize = 0;
    while i < a.len()
        invariant
            i <= a.len(),
            a.len() == b.len() == eq.len(),
            eq@ == eq_table(r@),
            f == (|i: int| eq_table(r@)[i].mul(a@[i]).mul(b@[i])),
            acc == sum(i as nat, f),
        decreases a.len() - i,
    {
        acc = acc.plus(eq[i].times(a[i]).times(b[i]));
        i += 1;
    }
    acc
}

/// The values at 0, 1, 2 and 3 of the round polynomial.
fn eval_round_at_0_1_2_3<F: TowerField>(eq: &[F], a: &[F], b: &[F], half: usize) -> (e: [F; 4])
    requires
        half == eq.len() / 2,
        eq.len() == a.len() == b.len(),
    ensures
        e@ == product_message::<F>()(seq![eq@, a@, b@]),
{
    let ghost tables = seq![eq@, a@, b@];
    let ghost f = product_term::<F>();
    let ghost g0 = |i: int| f(values_at(fold_tables(tables, F::of_u128(0)), i));
    let ghost g1 = |i: int| f(values_at(fold_tables(tables, F::of_u128(1)), i));
    let ghost g2 = |i: int| f(values_at(fold_tables(tables, F::of_u128(2)), i));
    let ghost g3 = |i: int| f(values_at(fold_tables(tables, F::of_u128(3)), i));
    let f2 = F::from_u128(2);
    let f3 = F::from_u128(3);
    let mut e0 = F::zero_value();
    let mut e1 = F::zero_value();
    let mut e2 = F::zero_value();
    let mut e3 = F::zero_value();
    let mut j: usize = 0;
    while j < half
        invariant
            j <= half,
            half == eq.len() / 2,
            eq.len() == a.len() == b.len(),
            tables == seq![eq@, a@, b@],
            f == product_term::<F>(),
            f2 == F::of_u128(2),
            f3 == F::of_u128(3),
            g0 == (|i: int| f(values_at(fold_tables(tables, F::of_u128(0)), i))),
            g1 == (|i: int| f(values_at(fold_tables(tables, F::of_u128(1)), i))),
            g2 == (|i: int| f(values_at(fold_tables(tables, F::of_u128(2)), i))),
            g3 == (|i: int| f(values_at(fold_tables(tables, F::of_u128(3)), i))),
            e0 == sum(j as nat, g0),
            e1 == sum(j as nat, g1),
            e2 == sum(j as nat, g2),
            e3 == sum(j as nat, g3),
        decreases half - j,
    {
        let (eq_lo, eq_hi) = (eq[j], eq[j + half]);
        let (a_lo, a_hi) = (a[j], a[j + half]);
        let (b_lo, b_hi) = (b[j], b[j + half]);
        let d_eq = eq_lo.plus(eq_hi);
        let d_a = a_lo.plus(a_hi);
        let d_b = b_lo.plus(b_hi);
        proof {
            F::of_u128_units();
            lemma_line_ends(eq_lo, eq_hi);
            lemma_line_ends(a_lo, a_hi);
            lemma_line_ends(b_lo, b_hi);
        }
        e0 = e0.plus(eq_lo.times(a_lo).times(b_lo));
        e1 = e1.plus(eq_hi.times(a_hi).times(b_hi));
        e2 = e2.plus(
            eq_lo.plus(f2.times(d_eq)).times(a_lo.plus(f2.times(d_a))).times(
                b_lo.plus(f2.times(d_b)),
            ),
        );
        e3 = e3.plus(
            eq_lo.plus(f3.times(d_eq)).times(a_lo.plus(f3.times(d_a))).times(
                b_lo.plus(f3.times(d_b)),
            ),
        );
        j += 1;
    }
    let e = [e0, e1, e2, e3];
    proof {
        assert(e@ =~= product_message::<F>()(tables));
    }
    e
}

/// Proves `v = sum_x eq(r, x) A(x) B(x)`; returns the proof and the point `r'`.
pub fn prove_product<F: TowerField, T: FiatShamir<F>>(
    a: &[F],
    b: &[F],
    r: &[F],
    v: F,
    channel: &mut T,
) -> (out: (ProductProof<F>, Vec<F>))
    requires
        a.len() == pow2(r.len() as nat),
        b.len() == pow2(r.len() as nat),
    ensures
        ({
            let run = product_run(a@, b@, r@, *old(channel));
            &&& round_messages(out.0.rounds@) == run.messages
            &&& out.1@ == run.challenges.reverse()
            &&& out.0.a_final == mle(a@, out.1@)
            &&& out.0.b_final == mle(b@, out.1@)
            &&& *final(channel) == run.channel
        }),
{
    let _ = v;
    let n: usize = r.len();
    let mut eq_tbl = eq_ind_partial_eval(r);
    let mut a_tbl = copied(a);
    let mut b_tbl = copied(b);
    let mut rounds: Vec<RoundEvals<F>> = Vec::new();
    let mut challenges: Vec<F> = Vec::new();
    let ghost tables = seq![eq_table(r@), a@, b@];
    let ghost start = *channel;
    let ghost msg = product_message::<F>();
    proof {
        assert(seq![eq_tbl@, a_tbl@, b_tbl@] =~= tables);
        assert(round_messages(rounds@) =~= Seq::empty());
    }
    let mut round: usize = 0;
    while round < n
        invariant
            round <= n,
            n == r.len(),
            start == *old(channel),
            tables_wf(tables, n as nat),
            tables.len() == 3,
            msg == product_message::<F>(),
            ({
                let run = prover_run(tables, start, msg, round as nat);
                &&& run.tables == seq![eq_tbl@, a_tbl@, b_tbl@]
                &&& run.channel == *channel
                &&& run.messages == round_messages(rounds@)
                &&& run.challenges == challenges@
            }),
        decreases n - round,
    {
        proof {
            lemma_prover_run_shape(tables, start, msg, n as nat, round as nat);
            let t = seq![eq_tbl@, a_tbl@, b_tbl@];
            assert(t[0].len() == t[1].len() && t[1].len() == t[2].len());
        }
        let half: usize = a_tbl.len() / 2;
        let evals = eval_round_at_0_1_2_3(eq_tbl.as_slice(), a_tbl.as_slice(), b_tbl.as_slice(), half);
        let re = RoundEvals { evals };
        absorb_slice(channel, re.evals.as_slice());
        let r_i = channel.squeeze();
        let ghost before = seq![eq_tbl@, a_tbl@, b_tbl@];
        fold_highest_var(&mut eq_tbl, r_i);
        fold_highest_var(&mut a_tbl, r_i);
        fold_highest_var(&mut b_tbl, r_i);
        let ghost old_rounds = rounds@;
        rounds.push(re);
        challenges.push(r_i);
        proof {
            assert(seq![eq_tbl@, a_tbl@, b_tbl@] =~= fold_tables(before, r_i));
            assert(round_messages(rounds@) =~= round_messages(old_rounds).push(evals@));
        }
        round += 1;
    }
    proof {
        lemma_final_values(tables, start, msg, n as nat);
        let last = prover_run(tables, start, msg, n as nat).tables;
        assert(last[1][0] == mle(tables[1], challenges@.reverse()));
        assert(last[2][0] == mle(tables[2], challenges@.reverse()));
        vstd::arithmetic::power2::lemma2_to64();
        assert(last[1].len() == 1 && last[2].len() == 1);
    }
    let challenges = reversed(challenges.as_slice());
    let proof_out = ProductProof { rounds, a_final: a_tbl[0], b_final: b_tbl[0] };
    (proof_out, challenges)
}

/// Verifies a proof; on success returns the point `r'`, at which `A` has the
/// value `a_final` and `B` the value `b_final` if the claim is true.
pub fn verify_product<F: TowerField, T: FiatShamir<F>>(
    proof: &ProductProof<F>,
    r: &[F],
    v: F,
    channel: &mut T,
) -> (out: Option<Vec<F>>)
    ensures
        out is Some <==> product_accepts(
            proof.rounds@,
            proof.a_final,
            proof.b_final,
            r@,
            v,
            *old(channel),
        ),
        out matches Some(p) ==> p@ == product_check_run(
            proof.rounds@,
            v,
            *old(channel),
        ).challenges.reverse(),
        *final(channel) == if proof.rounds.len() == r.len() {
            product_check_run(proof.rounds@, v, *old(channel)).channel
        } else {
            *old(channel)
        },
{
    let n: usize = r.len();
    if proof.rounds.len() != n {
        return None;
    }
    let ghost start = *channel;
    let ghost msgs = round_messages(proof.rounds@);
    let ghost check = value_check::<F>();
    let ghost eval = value_eval::<F>();
    let mut claim = v;
    let mut challenges: Vec<F> = Vec::new();
    let mut i: usize = 0;
    while i < n
        invariant
            i <= n,
            n == proof.rounds.len(),
            n == r.len(),
            start == *old(channel),
            msgs == round_messages(proof.rounds@),
            check == value_check::<F>(),
            eval == value_eval::<F>(),
            ({
                let run = verifier_run(v, start, msgs, check, eval, i as nat);
                &&& run.ok
                &&& run.claim == claim
                &&& run.channel == *channel
                &&& run.challenges == challenges@
                &&& challenges.len() == i
            }),
        decreases n - i,
    {
        let re = &proof.rounds[i];
        if !re.sum_at_0_plus_1().equals(claim) {
            proof {
                lemma_refused(v, start, msgs, check, eval, (i + 1) as nat, n as nat);
            }
            return None;
        }
        absorb_slice(channel, re.evals.as_slice());
        let r_i = channel.squeeze();
        claim = re.evaluate(r_i);
        challenges.push(r_i);
        i += 1;
    }
    let challenges = reversed(challenges.as_slice());
    let eq_rr = eq_ind(r, challenges.as_slice());
    let rhs = eq_rr.times(proof.a_final).times(proof.b_final);
    if !claim.equals(rhs) {
        return None;
    }
    Some(challenges)
}

/// The entries of the summand are polynomials of four coefficients.
proof fn lemma_product_entries<F: TowerField>(t: Seq<Seq<F>>, n: nat, i: int)
    requires
        n > 0,
        t.len() == 3,
        tables_wf(t, n),
        0 <= i < pow2((n - 1) as nat),
    ensures
        is_poly(slice_of(entry_of(t, product_term::<F>()), i), 4),
{
    let f = product_term::<F>();
    let c0 = |x: F| values_at(fold_tables(t, x), i)[0];
    let c1 = |x: F| values_at(fold_tables(t, x), i)[1];
    let c2 = |x: F| values_at(fold_tables(t, x), i)[2];
    lemma_column_poly(t, n, 0, i, c0);
    lemma_column_poly(t, n, 1, i, c1);
    lemma_column_poly(t, n, 2, i, c2);
    let c01 = |x: F| c0(x).mul(c1(x));
    lemma_poly_mul(c0, 2, c1, 2, c01);
    lemma_poly_mul(c01, 3, c2, 2, slice_of(entry_of(t, f), i));
}

/// Product messages are honest.
proof fn lemma_product_honest<F: TowerField>()
    ensures
        honest(product_term::<F>(), 3, product_message::<F>(), value_check(), value_eval()),
{
    let f = product_term::<F>();
    assert forall|t: Seq<Seq<F>>, n: nat, i: int|
        #![trigger tables_wf(t, n), slice_of(entry_of(t, f), i)]
        n > 0 && t.len() == 3 && tables_wf(t, n) && 0 <= i < pow2((n - 1) as nat) implies is_poly(
        slice_of(entry_of(t, f), i),
        4,
    ) by {
        lemma_product_entries(t, n, i);
    }
    lemma_values_honest(f, 3, 4, product_message::<F>());
}

/// Completeness: a verifier on the same transcript accepts what an honest
/// prover sends for a true claim, and arrives at the prover's point and
/// transcript.
pub proof fn lemma_product_complete<F: TowerField, T: FiatShamir<F>>(
    a: Seq<F>,
    b: Seq<F>,
    r: Seq<F>,
    rounds: Seq<RoundEvals<F>>,
    channel: T,
)
    requires
        a.len() == pow2(r.len()),
        b.len() == pow2(r.len()),
        round_messages(rounds) == product_run(a, b, r, channel).messages,
    ensures
        ({
            let run = product_run(a, b, r, channel);
            let point = run.challenges.reverse();
            let v = product_claim(a, b, r);
            &&& product_accepts(rounds, mle(a, point), mle(b, point), r, v, channel)
            &&& product_check_run(rounds, v, channel).challenges == run.challenges
            &&& product_check_run(rounds, v, channel).channel == run.channel
        }),
{
    let n = r.len();
    let tables = seq![eq_table(r), a, b];
    let f = product_term::<F>();
    let msg = product_message::<F>();
    let run = product_run(a, b, r, channel);
    let point = run.challenges.reverse();
    assert(tables_wf(tables, n));
    lemma_prover_run_shape(tables, channel, msg, n, n);
    assert(round_messages(rounds).len() == rounds.len());
    assert(product_claim(a, b, r) == total(tables, f, n)) by {
        lemma_sum_ext(
            a.len(),
            |i: int| eq_table(r)[i].mul(a[i]).mul(b[i]),
            |i: int| f(values_at(tables, i)),
        );
    }
    lemma_product_honest::<F>();
    lemma_complete(tables, channel, f, msg, value_check(), value_eval(), n, n);
    lemma_final_values(tables, channel, msg, n);
    lemma_total_one(run.tables, f);
    assert(run.tables[0][0] == mle(tables[0], point));
    assert(run.tables[1][0] == mle(tables[1], point));
    assert(run.tables[2][0] == mle(tables[2], point));
    lemma_mle_eq_table(r, point);
}

/// Whether the challenge of round `j` turned a false claim into a true one.
pub open spec fn product_misled<F: TowerField, T: FiatShamir<F>>(
    a: Seq<F>,
    b: Seq<F>,
    r: Seq<F>,
    rounds: Seq<RoundEvals<F>>,
    v: F,
    channel: T,
    j: nat,
) -> bool {
    misled(
        seq![eq_table(r), a, b],
        product_term(),
        r.len(),
        v,
        channel,
        round_messages(rounds),
        value_check(),
        value_eval(),
        j,
    )
}

/// Soundness: if a proof is accepted whose two last values are true, then the
/// claim is true, or a challenge misled the verifier in some round.
pub proof fn lemma_product_sound<F: TowerField, T: FiatShamir<F>>(
    a: Seq<F>,
    b: Seq<F>,
    r: Seq<F>,
    rounds: Seq<RoundEvals<F>>,
    v: F,
    channel: T,
)
    requires
        a.len() == pow2(r.len()),
        b.len() == pow2(r.len()),
        ({
            let point = product_check_run(rounds, v, channel).challenges.reverse();
            product_accepts(rounds, mle(a, point), mle(b, point), r, v, channel)
        }),
    ensures
        v == product_claim(a, b, r) || exists|j: nat|
            j < r.len() && #[trigger] product_misled(a, b, r, rounds, v, channel, j),
{
    let n = r.len();
    let tables = seq![eq_table(r), a, b];
    let f = product_term::<F>();
    let msgs = round_messages(rounds);
    let run = product_check_run(rounds, v, channel);
    let point = run.challenges.reverse();
    assert(tables_wf(tables, n));
    lemma_accepted_challenges(v, channel, msgs, value_check(), value_eval(), n);
    lemma_mle_eq_table(r, point);
    let finals = Seq::new(tables.len(), |c: int| mle(tables[c], point));
    assert(finals[0] == mle(eq_table(r), point) && finals[1] == mle(a, point) && finals[2] == mle(
        b,
        point,
    ));
    lemma_sound_at_point(tables, f, n, v, channel, msgs, value_check(), value_eval());
    assert(product_claim(a, b, r) == total(tables, f, n)) by {
        lemma_sum_ext(
            a.len(),
            |i: int| eq_table(r)[i].mul(a[i]).mul(b[i]),
            |i: int| f(values_at(tables, i)),
        );
    }
    if v != total(tables, f, n) {
        let j = choose|j: nat|
            j < n && #[trigger] misled(
                tables,
                f,
                n,
                v,
                channel,
                msgs,
                value_check(),
                value_eval(),
                j,
            );
        assert(product_misled(a, b, r, rounds, v, channel, j));
    }
}

/// In a round of four values at most three challenges mislead.
pub proof fn lemma_product_few_misleading<F: TowerField>(
    tables: Seq<Seq<F>>,
    n: nat,
    claim: F,
    message: Seq<F>,
    bad: Seq<F>,
)
    requires
        n > 0,
        tables.len() == 3,
        tables_wf(tables, n),
        message.len() == 4,
        value_check()(message, claim),
        claim != total(tables, product_term(), n),
        bad.no_duplicates(),
        forall|k: int|
            0 <= k < bad.len() ==> value_eval()(message, claim, #[trigger] bad[k]) == round_value(
                tables,
                product_term(),
                n,
                bad[k],
            ),
    ensures
        bad.len() <= 3,
{
    let f = product_term::<F>();
    assert forall|i: int| 0 <= i < pow2((n - 1) as nat) implies is_poly(
        #[trigger] slice_of(entry_of(tables, f), i),
        4,
    ) by {
        lemma_product_entries(tables, n, i);
    }
    lemma_few_misleading_values(tables, f, n, claim, message, bad);
}

} // verus!
