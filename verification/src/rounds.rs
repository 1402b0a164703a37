//! Sumcheck rounds whose messages are the coefficients of the round
//! polynomial.
use vstd::prelude::*;
use vstd::arithmetic::power2::pow2;
use crate::field::{BinaryField, TowerField};
use crate::mle::{fold_highest_var, lemma_half_pow2, mle};
use crate::poly::{coeffs_of, is_poly, lemma_coeffs_unique, lemma_poly_sum, peval, slice_of};
use crate::round_poly::RoundPolynomial;
use crate::soundness::{lemma_few_misleading, lemma_sound_at_point, misled};
use crate::sum::{lemma_sum_ext, sum};
use crate::sumcheck::{ProverRun, VerifierRun, entry_of, fold_tables, half_sum, honest, lemma_complete, lemma_final_values, lemma_prover_run_shape, lemma_refused, lemma_round_sums, lemma_total_one, prover_run, round_value, tables_wf, total, values_at, verifier_run};
use crate::table::reversed;
use crate::transcript::{FiatShamir, absorb_slice};

verus! {

/// What a sumcheck sums over its tables.
pub trait Summand<F: TowerField> {
    /// The number of tables.
    spec fn columns(&self) -> nat;

    /// The number of coefficients of a round polynomial.
    spec fn width(&self) -> nat;

    /// The summand as a function of the values of the tables.
    spec fn term(&self) -> spec_fn(Seq<F>) -> F;

    /// There is at least one table and one coefficient.
    proof fn sizes(&self)
        ensures
            self.columns() > 0,
            0 < self.width() < u64::MAX,
    ;

    /// The summand is a polynomial in the folded variable.
    proof fn term_poly(&self, t: Seq<Seq<F>>, n: nat, i: int)
        requires
            n > 0,
            t.len() == self.columns(),
            tables_wf(t, n),
            0 <= i < pow2((n - 1) as nat),
        ensures
            is_poly(slice_of(entry_of(t, self.term()), i), self.width()),
    ;

    /// Computes the round polynomial.
    fn round_poly(&self, tables: &Vec<Vec<F>>) -> (p: RoundPolynomial<F>)
        requires
            tables.len() == self.columns(),
            exists|n: nat| n > 0 && #[trigger] tables_wf(views(tables@), n),
        ensures
            p.coeffs.len() == self.width(),
            forall|x: F|
                #[trigger] peval(p.coeffs@, x) == half_sum(views(tables@), self.term(), x),
    ;
}

/// The contents of the tables.
pub open spec fn views<F>(tables: Seq<Vec<F>>) -> Seq<Seq<F>> {
    Seq::new(tables.len(), |c: int| tables[c]@)
}

/// The round polynomial as a function.
pub open spec fn half_sum_of<F: BinaryField>(
    t: Seq<Seq<F>>,
    f: spec_fn(Seq<F>) -> F,
) -> spec_fn(F) -> F {
    |x: F| half_sum(t, f, x)
}

/// The message of a round: the coefficients of the round polynomial.
pub open spec fn coeff_message<F: BinaryField>(
    f: spec_fn(Seq<F>) -> F,
    width: nat,
) -> spec_fn(Seq<Seq<F>>) -> Seq<F> {
    |t: Seq<Seq<F>>| coeffs_of(width, half_sum_of(t, f))
}

/// The check that a message of coefficients is about the claimed sum.
pub open spec fn coeff_check<F: BinaryField>() -> spec_fn(Seq<F>, F) -> bool {
    |m: Seq<F>, claim: F| peval(m, F::zero()).add(peval(m, F::one())) == claim
}

/// The evaluation of a message of coefficients at a challenge.
pub open spec fn coeff_eval<F: BinaryField>() -> spec_fn(Seq<F>, F, F) -> F {
    |m: Seq<F>, claim: F, r: F| peval(m, r)
}

/// The messages that round polynomials carry.
pub open spec fn poly_messages<F>(polys: Seq<RoundPolynomial<F>>) -> Seq<Seq<F>> {
    Seq::new(polys.len(), |i: int| polys[i].coeffs@)
}

/// The prover's run on `n` variables.
pub open spec fn rounds_run<F: TowerField, T: FiatShamir<F>>(
    tables: Seq<Seq<F>>,
    f: spec_fn(Seq<F>) -> F,
    width: nat,
    n: nat,
    channel: T,
) -> ProverRun<F, T> {
    prover_run(tables, channel, coeff_message(f, width), n)
}

/// The verifier's run.
pub open spec fn rounds_check_run<F: TowerField, T: FiatShamir<F>>(
    polys: Seq<RoundPolynomial<F>>,
    claim: F,
    channel: T,
) -> VerifierRun<F, T> {
    verifier_run(
        claim,
        channel,
        poly_messages(polys),
        coeff_check(),
        coeff_eval(),
        polys.len(),
    )
}

/// What the prover's rounds leave behind.
pub struct ProvedRounds<F> {
    pub polys: Vec<RoundPolynomial<F>>,
    pub point: Vec<F>,
    pub finals: Vec<F>,
}

/// Folds every table.
pub(crate) fn fold_all<F: TowerField>(tables: &mut Vec<Vec<F>>, r: F)
    ensures
        views(final(tables)@) == fold_tables(views(old(tables)@), r),
        final(tables).len() == old(tables).len(),
{
    let mut folded: Vec<Vec<F>> = Vec::new();
    let mut c: usize = 0;
    while c < tables.len()
        invariant
            c <= tables.len(),
            tables@ == old(tables)@,
            folded.len() == c,
            forall|k: int|
                0 <= k < c ==> #[trigger] folded[k]@ == crate::mle::fold(old(tables)[k]@, r),
        decreases tables.len() - c,
    {
        let mut t = crate::table::copied(tables[c].as_slice());
        fold_highest_var(&mut t, r);
        folded.push(t);
        c += 1;
    }
    proof {
        assert(views(folded@) =~= fold_tables(views(old(tables)@), r));
    }
    *tables = folded;
}

/// Runs the prover's rounds.
pub fn prove_rounds<F: TowerField, T: FiatShamir<F>, S: Summand<F>>(
    summand: &S,
    tables: Vec<Vec<F>>,
    n: usize,
    channel: &mut T,
) -> (out: ProvedRounds<F>)
    requires
        tables.len() == summand.columns(),
        tables_wf(views(tables@), n as nat),
    ensures
        ({
            let run = rounds_run(
                views(tables@),
                summand.term(),
                summand.width(),
                n as nat,
                *old(channel),
            );
            &&& poly_messages(out.polys@) == run.messages
            &&& out.polys.len() == n
            &&& out.point@ == run.challenges.reverse()
            &&& out.point.len() == n
            &&& *final(channel) == run.channel
        }),
        out.finals.len() == tables.len(),
        forall|c: int|
            0 <= c < tables.len() ==> #[trigger] out.finals[c] == mle(
                tables[c]@,
                out.point@,
            ),
        forall|i: int|
            0 <= i < n ==> (#[trigger] out.polys[i]).coeffs.len() == summand.width(),
{
    let ghost start = *channel;
    let ghost first = views(tables@);
    let ghost f = summand.term();
    let ghost msg = coeff_message(f, summand.width());
    let mut cur = tables;
    let mut polys: Vec<RoundPolynomial<F>> = Vec::new();
    let mut drawn: Vec<F> = Vec::new();
    proof {
        summand.sizes();
        assert(poly_messages(polys@) =~= Seq::empty());
    }
    let mut round: usize = 0;
    while round < n
        invariant
            round <= n,
            start == *old(channel),
            f == summand.term(),
            msg == coeff_message(f, summand.width()),
            summand.columns() > 0,
            0 < summand.width() < u64::MAX,
            first.len() == summand.columns(),
            tables_wf(first, n as nat),
            cur.len() == summand.columns(),
            ({
                let run = prover_run(first, start, msg, round as nat);
                &&& run.tables == views(cur@)
                &&& run.channel == *channel
                &&& run.messages == poly_messages(polys@)
                &&& run.challenges == drawn@
            }),
            polys.len() == round,
            forall|i: int|
                0 <= i < round ==> (#[trigger] polys[i]).coeffs.len() == summand.width(),
        decreases n - round,
    {
        proof {
            lemma_prover_run_shape(first, start, msg, n as nat, round as nat);
            assert(tables_wf(views(cur@), (n - round) as nat));
        }
        let poly = summand.round_poly(&cur);
        proof {
            lemma_coeffs_unique(poly.coeffs@, half_sum_of(views(cur@), f));
            assert(poly.coeffs@ == msg(views(cur@)));
        }
        absorb_slice(channel, poly.coeffs.as_slice());
        let r = channel.squeeze();
        fold_all(&mut cur, r);
        let ghost before = polys@;
        polys.push(poly);
        drawn.push(r);
        proof {
            assert(poly_messages(polys@) =~= poly_messages(before).push(poly.coeffs@));
        }
        round += 1;
    }
    let point = reversed(drawn.as_slice());
    proof {
        lemma_prover_run_shape(first, start, msg, n as nat, n as nat);
        lemma_final_values(first, start, msg, n as nat);
        vstd::arithmetic::power2::lemma2_to64();
        assert forall|c: int| 0 <= c < cur.len() implies #[trigger] cur[c].len() == 1 by {
            assert(views(cur@)[c].len() == 1);
        }
    }
    let mut finals: Vec<F> = Vec::new();
    let mut c: usize = 0;
    while c < cur.len()
        invariant
            c <= cur.len(),
            forall|c: int| 0 <= c < cur.len() ==> #[trigger] cur[c].len() == 1,
            finals.len() == c,
            forall|k: int| 0 <= k < c ==> #[trigger] finals[k] == views(cur@)[k][0],
        decreases cur.len() - c,
    {
        proof {
            assert(cur[c as int].len() == 1);
        }
        finals.push(cur[c][0]);
        c += 1;
    }
    proof {
        let last = prover_run(first, start, msg, n as nat).tables;
        assert forall|c: int| 0 <= c < tables.len() implies #[trigger] finals[c] == mle(
            tables[c]@,
            point@,
        ) by {
            assert(last[c][0] == mle(first[c], point@));
        }
    }
    ProvedRounds { polys, point, finals }
}

/// Checks the rounds; on success returns the final claim and the point of the
/// challenges in variable order.
pub fn verify_rounds<F: TowerField, T: FiatShamir<F>>(
    polys: &Vec<RoundPolynomial<F>>,
    claim: F,
    channel: &mut T,
) -> (out: Option<(F, Vec<F>)>)
    ensures
        ({
            let run = rounds_check_run(polys@, claim, *old(channel));
            &&& out is Some <==> run.ok
            &&& out matches Some(o) ==> o.0 == run.claim && o.1@ == run.challenges.reverse()
                && o.1.len() == polys.len()
            &&& *final(channel) == run.channel
        }),
{
    let n: usize = polys.len();
    let ghost start = *channel;
    let ghost msgs = poly_messages(polys@);
    let ghost check = coeff_check::<F>();
    let ghost eval = coeff_eval::<F>();
    let mut expected = claim;
    let mut drawn: Vec<F> = Vec::new();
    let mut i: usize = 0;
    while i < n
        invariant
            i <= n,
            n == polys.len(),
            start == *old(channel),
            msgs == poly_messages(polys@),
            check == coeff_check::<F>(),
            eval == coeff_eval::<F>(),
            ({
                let run = verifier_run(claim, start, msgs, check, eval, i as nat);
                &&& run.ok
                &&& run.claim == expected
                &&& run.channel == *channel
                &&& run.challenges == drawn@
                &&& drawn.len() == i
            }),
        decreases n - i,
    {
        let poly = &polys[i];
        let s = poly.evaluate(F::zero_value()).plus(poly.evaluate(F::one_value()));
        if !s.equals(expected) {
            proof {
                lemma_refused(claim, start, msgs, check, eval, (i + 1) as nat, n as nat);
            }
            return None;
        }
        absorb_slice(channel, poly.coeffs.as_slice());
        let r = channel.squeeze();
        expected = poly.evaluate(r);
        drawn.push(r);
        i += 1;
    }
    let point = reversed(drawn.as_slice());
    Some((expected, point))
}

/// The round polynomial is a polynomial if the summand is at every index.
pub proof fn lemma_half_sum_poly<F: TowerField>(
    f: spec_fn(Seq<F>) -> F,
    width: nat,
    t: Seq<Seq<F>>,
    n: nat,
)
    requires
        n > 0,
        t.len() > 0,
        tables_wf(t, n),
        forall|i: int|
            0 <= i < pow2((n - 1) as nat) ==> is_poly(#[trigger] slice_of(entry_of(t, f), i), width),
    ensures
        is_poly(half_sum_of(t, f), width),
{
    let h = pow2((n - 1) as nat);
    lemma_half_pow2(n);
    assert(t[0].len() == pow2(n));
    let e = entry_of(t, f);
    let g = half_sum_of(t, f);
    assert forall|x: F| #[trigger] g(x) == sum(h, |i: int| e(i, x)) by {
        lemma_sum_ext(h, |i: int| f(values_at(fold_tables(t, x), i)), |i: int| e(i, x));
    }
    lemma_poly_sum(h, e, g, width);
}

/// Messages of coefficients are honest.
pub proof fn lemma_coeffs_honest<F: TowerField, S: Summand<F>>(summand: S)
    ensures
        honest(
            summand.term(),
            summand.columns(),
            coeff_message(summand.term(), summand.width()),
            coeff_check(),
            coeff_eval(),
        ),
{
    let f = summand.term();
    let width = summand.width();
    let columns = summand.columns();
    let message = coeff_message(f, width);
    let check = coeff_check::<F>();
    let eval = coeff_eval::<F>();
    summand.sizes();
    assert forall|tables: Seq<Seq<F>>, n: nat|
        #![trigger tables_wf(tables, n), message(tables)]
        n > 0 && tables.len() == columns && tables_wf(tables, n) implies {
        &&& check(message(tables), total(tables, f, n))
        &&& forall|r: F|
            #[trigger] eval(message(tables), total(tables, f, n), r) == round_value(
                tables,
                f,
                n,
                r,
            )
    } by {
        let m = message(tables);
        lemma_half_pow2(n);
        assert(tables[0].len() == pow2(n));
        let g = half_sum_of(tables, f);
        assert forall|i: int| 0 <= i < pow2((n - 1) as nat) implies is_poly(
            #[trigger] slice_of(entry_of(tables, f), i),
            width,
        ) by {
            summand.term_poly(tables, n, i);
        }
        lemma_half_sum_poly(f, width, tables, n);
        let c = choose|c: Seq<F>| #[trigger]
            c.len() == width && forall|x: F| #[trigger] g(x) == peval(c, x);
        assert forall|x: F| #[trigger] peval(c, x) == g(x) by {
            assert(g(x) == peval(c, x));
        }
        assert(m.len() == width && forall|x: F| #[trigger] peval(m, x) == g(x));
        assert forall|x: F| #[trigger] peval(m, x) == round_value(tables, f, n, x) by {
            assert(peval(m, x) == g(x));
        }
        lemma_round_sums(tables, f, n);
        assert(check(m, total(tables, f, n)));
        assert forall|r: F|
            #[trigger] eval(m, total(tables, f, n), r) == round_value(tables, f, n, r) by {
            assert(peval(m, r) == round_value(tables, f, n, r));
        }
    }
}

/// Completeness of the rounds: the verifier accepts the messages of an honest
/// prover of the true sum, draws the same challenges, and ends with the summand
/// at the extensions of the tables.
pub proof fn lemma_rounds_complete<F: TowerField, T: FiatShamir<F>, S: Summand<F>>(
    summand: S,
    tables: Seq<Seq<F>>,
    polys: Seq<RoundPolynomial<F>>,
    n: nat,
    channel: T,
)
    requires
        tables.len() == summand.columns(),
        tables_wf(tables, n),
        poly_messages(polys) == rounds_run(
            tables,
            summand.term(),
            summand.width(),
            n,
            channel,
        ).messages,
    ensures
        ({
            let f = summand.term();
            let run = rounds_run(tables, f, summand.width(), n, channel);
            let check = rounds_check_run(polys, total(tables, f, n), channel);
            &&& polys.len() == n
            &&& run.challenges.len() == n
            &&& check.ok
            &&& check.challenges == run.challenges
            &&& check.channel == run.channel
            &&& check.claim == f(
                Seq::new(tables.len(), |c: int| mle(tables[c], run.challenges.reverse())),
            )
        }),
{
    let f = summand.term();
    let msg = coeff_message(f, summand.width());
    let run = rounds_run(tables, f, summand.width(), n, channel);
    lemma_prover_run_shape(tables, channel, msg, n, n);
    assert(poly_messages(polys).len() == polys.len());
    lemma_coeffs_honest::<F, S>(summand);
    lemma_complete(tables, channel, f, msg, coeff_check(), coeff_eval(), n, n);
    lemma_final_values(tables, channel, msg, n);
    lemma_total_one(run.tables, f);
    assert(values_at(run.tables, 0) =~= Seq::new(
        tables.len(),
        |c: int| mle(tables[c], run.challenges.reverse()),
    ));
}

/// Whether the challenge of round `j` turned a false claim into a true one.
pub open spec fn rounds_misled<F: TowerField, T: FiatShamir<F>>(
    tables: Seq<Seq<F>>,
    f: spec_fn(Seq<F>) -> F,
    polys: Seq<RoundPolynomial<F>>,
    claim: F,
    channel: T,
    j: nat,
) -> bool {
    misled(
        tables,
        f,
        polys.len(),
        claim,
        channel,
        poly_messages(polys),
        coeff_check(),
        coeff_eval(),
        j,
    )
}

/// Soundness of the rounds: if the verifier accepts every round and ends with
/// the summand at the extensions of the tables, then the claim was the sum, or a
/// challenge misled it.
pub proof fn lemma_rounds_sound<F: TowerField, T: FiatShamir<F>>(
    tables: Seq<Seq<F>>,
    f: spec_fn(Seq<F>) -> F,
    polys: Seq<RoundPolynomial<F>>,
    claim: F,
    channel: T,
)
    requires
        tables_wf(tables, polys.len()),
        ({
            let run = rounds_check_run(polys, claim, channel);
            &&& run.ok
            &&& run.claim == f(
                Seq::new(tables.len(), |c: int| mle(tables[c], run.challenges.reverse())),
            )
        }),
    ensures
        claim == total(tables, f, polys.len()) || exists|j: nat|
            j < polys.len() && #[trigger] rounds_misled(tables, f, polys, claim, channel, j),
{
    let n = polys.len();
    let msgs = poly_messages(polys);
    lemma_sound_at_point(tables, f, n, claim, channel, msgs, coeff_check(), coeff_eval());
    if claim != total(tables, f, n) {
        let j = choose|j: nat|
            j < n && #[trigger] misled(
                tables,
                f,
                n,
                claim,
                channel,
                msgs,
                coeff_check(),
                coeff_eval(),
                j,
            );
        assert(rounds_misled(tables, f, polys, claim, channel, j));
    }
}

/// In a round fewer challenges mislead than the polynomials have coefficients.
pub proof fn lemma_rounds_few_misleading<F: TowerField, S: Summand<F>>(
    summand: S,
    tables: Seq<Seq<F>>,
    n: nat,
    claim: F,
    message: Seq<F>,
    bad: Seq<F>,
)
    requires
        n > 0,
        tables.len() == summand.columns(),
        tables_wf(tables, n),
        message.len() == summand.width(),
        coeff_check()(message, claim),
        claim != total(tables, summand.term(), n),
        bad.no_duplicates(),
        forall|k: int|
            0 <= k < bad.len() ==> coeff_eval()(message, claim, #[trigger] bad[k]) == round_value(
                tables,
                summand.term(),
                n,
                bad[k],
            ),
    ensures
        bad.len() < summand.width(),
{
    let f = summand.term();
    let g = |x: F| peval(message, x);
    assert(is_poly(g, summand.width())) by {
        assert(message.len() == summand.width() && forall|x: F| #[trigger]
            g(x) == peval(message, x));
    }
    assert forall|i: int| 0 <= i < pow2((n - 1) as nat) implies is_poly(
        #[trigger] slice_of(entry_of(tables, f), i),
        summand.width(),
    ) by {
        summand.term_poly(tables, n, i);
    }
    assert forall|k: int| 0 <= k < bad.len() implies g(#[trigger] bad[k]) == round_value(
        tables,
        f,
        n,
        bad[k],
    ) by {
        assert(coeff_eval()(message, claim, bad[k]) == g(bad[k]));
    }
    lemma_few_misleading(tables, f, n, summand.width(), claim, g, bad);
}

} // verus!
