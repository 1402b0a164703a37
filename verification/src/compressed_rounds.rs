//! Sumcheck rounds whose messages leave the linear coefficient out.
//!
//! A round polynomial sums to the claim over zero and one, so its linear
//! coefficient follows from the claim and the others. The verifier restores it,
//! and has nothing to check in a round.
use vstd::prelude::*;
use vstd::arithmetic::power2::pow2;
use crate::field::{BinaryField, TowerField, lemma_add_cancel, lemma_units};
use crate::mle::mle;
use crate::poly::{is_poly, lemma_coeffs_unique, peval, slice_of};
use crate::round_poly::RoundPolynomial;
use crate::rounds::{Summand, coeff_check, coeff_eval, coeff_message, half_sum_of, lemma_coeffs_honest, views};
use crate::soundness::{lemma_few_misleading, lemma_sound_at_point, misled};
use crate::sum::{lemma_sum_ext, lemma_sum_split, sum};
use crate::sumcheck::{ProverRun, VerifierRun, entry_of, honest, lemma_complete, lemma_final_values, lemma_prover_run_shape, lemma_total_one, prover_run, round_value, tables_wf, total, values_at, verifier_run};
use crate::table::reversed;
use crate::transcript::{FiatShamir, absorb_slice};
use crate::wiping::{fold_all_wiping, wipe_columns};

verus! {

/// A round polynomial without its linear coefficient.
#[derive(Clone, Debug, PartialEq, Eq)]
pub struct CompressedRoundPolynomial<F> {
    pub coeffs_no_linear: Vec<F>,
}

/// Coefficients without the linear one.
pub open spec fn compressed<F>(c: Seq<F>) -> Seq<F> {
    Seq::new(
        (c.len() - 1) as nat,
        |k: int|
            if k == 0 {
                c[0]
            } else {
                c[k + 1]
            },
    )
}

/// The sum of the coefficients above the linear one.
pub open spec fn upper_sum<F: BinaryField>(w: Seq<F>) -> F {
    sum((w.len() - 1) as nat, |i: int| w[i + 1])
}

/// Coefficients with the linear one restored from the claim.
pub open spec fn restored<F: BinaryField>(w: Seq<F>, claim: F) -> Seq<F> {
    Seq::new(
        w.len() + 1,
        |k: int|
            if k == 0 {
                w[0]
            } else if k == 1 {
                claim.add(upper_sum(w))
            } else {
                w[k - 1]
            },
    )
}

/// The value of a polynomial at zero is its first coefficient, and at one the
/// sum of all.
proof fn lemma_peval_ends<F: BinaryField>(c: Seq<F>)
    requires
        c.len() >= 1,
    ensures
        peval(c, F::zero()) == c[0],
        peval(c, F::one()) == sum(c.len(), |k: int| c[k]),
{
    crate::poly::lemma_peval_sum(c, F::one());
    let f = |k: int| c[k].mul(crate::poly::pow(F::one(), k as nat));
    let g = |k: int| c[k];
    assert forall|k: int| 0 <= k < c.len() implies #[trigger] f(k) == g(k) by {
        lemma_pow_one::<F>(k as nat);
        F::mul_one(c[k]);
    }
    lemma_sum_ext(c.len(), f, g);
    lemma_units(peval(c.drop_first(), F::zero()));
    lemma_units(c[0]);
}

proof fn lemma_pow_one<F: BinaryField>(k: nat)
    ensures
        crate::poly::pow(F::one(), k) == F::one(),
    decreases k,
{
    if k > 0 {
        lemma_pow_one::<F>((k - 1) as nat);
        F::mul_one(F::one());
    }
}

/// Restoring what was left out gives the coefficients back, when the claim is
/// the sum of the values at zero and one.
pub proof fn lemma_restored<F: BinaryField>(c: Seq<F>, claim: F)
    requires
        c.len() >= 2,
        peval(c, F::zero()).add(peval(c, F::one())) == claim,
    ensures
        restored(compressed(c), claim) == c,
{
    let w = compressed(c);
    let m = (c.len() - 2) as nat;
    lemma_peval_ends(c);
    let all = |k: int| c[k];
    let upper = |i: int| w[i + 1];
    lemma_sum_split(2, m, all);
    let tail = |i: int| all(2 + i);
    assert forall|i: int| 0 <= i < m implies #[trigger] tail(i) == upper(i) by {}
    lemma_sum_ext(m, tail, upper);
    let s = upper_sum(w);
    assert(sum(2, all) == c[0].add(c[1])) by {
        reveal_with_fuel(sum, 3);
        lemma_units(c[0]);
    }
    // c0 + ((c0 + c1) + s) == c1 + s
    F::add_assoc(c[0], c[1], s);
    lemma_add_cancel(c[0], c[1].add(s));
    assert(claim == c[1].add(s));
    F::add_assoc(c[1], s, s);
    F::add_self(s);
    F::add_zero(c[1]);
    assert(restored(w, claim) =~= c);
}

impl<F: TowerField> CompressedRoundPolynomial<F> {
    /// Leaves the linear coefficient out.
    pub fn compress(poly: &RoundPolynomial<F>) -> (r: Self)
        requires
            poly.coeffs.len() >= 2,
        ensures
            r.coeffs_no_linear@ == compressed(poly.coeffs@),
    {
        let mut out: Vec<F> = Vec::new();
        out.push(poly.coeffs[0]);
        let mut k: usize = 2;
        while k < poly.coeffs.len()
            invariant
                2 <= k <= poly.coeffs.len(),
                out@ == compressed(poly.coeffs@).take(k - 1),
            decreases poly.coeffs.len() - k,
        {
            out.push(poly.coeffs[k]);
            proof {
                assert(out@ =~= compressed(poly.coeffs@).take(k as int));
            }
            k += 1;
        }
        proof {
            assert(out@ =~= compressed(poly.coeffs@));
        }
        CompressedRoundPolynomial { coeffs_no_linear: out }
    }

    /// The degree of the polynomial.
    pub fn degree(&self) -> (r: usize)
        ensures
            r == self.coeffs_no_linear.len(),
    {
        self.coeffs_no_linear.len()
    }

    /// Restores the linear coefficient from the claim.
    pub fn reconstruct(&self, claim: F) -> (r: RoundPolynomial<F>)
        requires
            self.coeffs_no_linear.len() >= 1,
        ensures
            r.coeffs@ == restored(self.coeffs_no_linear@, claim),
    {
        let ghost w = self.coeffs_no_linear@;
        let n: usize = self.coeffs_no_linear.len();
        let mut s = F::zero_value();
        let mut k: usize = 1;
        while k < n
            invariant
                1 <= k <= n,
                n == self.coeffs_no_linear.len(),
                w == self.coeffs_no_linear@,
                s == sum((k - 1) as nat, |i: int| w[i + 1]),
            decreases n - k,
        {
            s = s.plus(self.coeffs_no_linear[k]);
            k += 1;
        }
        let mut coeffs: Vec<F> = Vec::new();
        coeffs.push(self.coeffs_no_linear[0]);
        coeffs.push(claim.plus(s));
        let mut k: usize = 1;
        while k < n
            invariant
                1 <= k <= n,
                n == self.coeffs_no_linear.len(),
                w == self.coeffs_no_linear@,
                coeffs@ == restored(w, claim).take(k + 1),
            decreases n - k,
        {
            coeffs.push(self.coeffs_no_linear[k]);
            proof {
                assert(coeffs@ =~= restored(w, claim).take(k + 2));
            }
            k += 1;
        }
        proof {
            assert(coeffs@ =~= restored(w, claim));
        }
        RoundPolynomial::from_coeffs(coeffs)
    }
}

/// The message of a round: the coefficients without the linear one.
pub open spec fn compressed_message<F: BinaryField>(
    f: spec_fn(Seq<F>) -> F,
    width: nat,
) -> spec_fn(Seq<Seq<F>>) -> Seq<F> {
    |t: Seq<Seq<F>>| compressed(coeff_message(f, width)(t))
}

/// There is nothing to check in a round.
pub open spec fn no_check<F: BinaryField>() -> spec_fn(Seq<F>, F) -> bool {
    |m: Seq<F>, claim: F| true
}

/// The evaluation of a message at a challenge.
pub open spec fn restored_eval<F: BinaryField>() -> spec_fn(Seq<F>, F, F) -> F {
    |m: Seq<F>, claim: F, r: F| peval(restored(m, claim), r)
}

/// The messages that compressed polynomials carry.
pub open spec fn wire_messages<F>(polys: Seq<CompressedRoundPolynomial<F>>) -> Seq<Seq<F>> {
    Seq::new(polys.len(), |i: int| polys[i].coeffs_no_linear@)
}

/// The prover's run on `n` variables.
pub open spec fn compressed_run<F: TowerField, T: FiatShamir<F>>(
    tables: Seq<Seq<F>>,
    f: spec_fn(Seq<F>) -> F,
    width: nat,
    n: nat,
    channel: T,
) -> ProverRun<F, T> {
    prover_run(tables, channel, compressed_message(f, width), n)
}

/// The verifier's run.
pub open spec fn compressed_check_run<F: TowerField, T: FiatShamir<F>>(
    polys: Seq<CompressedRoundPolynomial<F>>,
    claim: F,
    channel: T,
) -> VerifierRun<F, T> {
    verifier_run(
        claim,
        channel,
        wire_messages(polys),
        no_check(),
        restored_eval(),
        polys.len(),
    )
}

/// What the prover's rounds leave behind.
pub struct CompressedRounds<F> {
    pub polys: Vec<CompressedRoundPolynomial<F>>,
    pub point: Vec<F>,
    pub finals: Vec<F>,
}

/// Runs the prover's rounds. The tables may hold secrets: what falls away and what
/// is left of them is overwritten.
pub fn prove_compressed_rounds<F: TowerField, T: FiatShamir<F>, S: Summand<F>>(
    summand: &S,
    tables: Vec<Vec<F>>,
    n: usize,
    channel: &mut T,
) -> (out: CompressedRounds<F>)
    requires
        summand.width() >= 2,
        tables.len() == summand.columns(),
        tables_wf(views(tables@), n as nat),
    ensures
        ({
            let run = compressed_run(
                views(tables@),
                summand.term(),
                summand.width(),
                n as nat,
                *old(channel),
            );
            &&& wire_messages(out.polys@) == run.messages
            &&& out.polys.len() == n
            &&& out.point@ == run.challenges.reverse()
            &&& out.point.len() == n
            &&& *final(channel) == run.channel
        }),
        out.finals.len() == tables.len(),
        forall|c: int|
            0 <= c < tables.len() ==> #[trigger] out.finals[c] == mle(tables[c]@, out.point@),
        forall|i: int|
            0 <= i < n ==> (#[trigger] out.polys[i]).coeffs_no_linear.len() == summand.width() - 1,
{
    let ghost start = *channel;
    let ghost first = views(tables@);
    let ghost f = summand.term();
    let ghost msg = compressed_message(f, summand.width());
    let mut cur = tables;
    let mut polys: Vec<CompressedRoundPolynomial<F>> = Vec::new();
    let mut drawn: Vec<F> = Vec::new();
    proof {
        summand.sizes();
        assert(wire_messages(polys@) =~= Seq::empty());
    }
    let mut round: usize = 0;
    while round < n
        invariant
            round <= n,
            start == *old(channel),
            f == summand.term(),
            msg == compressed_message(f, summand.width()),
            summand.columns() > 0,
            2 <= summand.width() < u64::MAX,
            first.len() == summand.columns(),
            tables_wf(first, n as nat),
            cur.len() == summand.columns(),
            ({
                let run = prover_run(first, start, msg, round as nat);
                &&& run.tables == views(cur@)
                &&& run.channel == *channel
                &&& run.messages == wire_messages(polys@)
                &&& run.challenges == drawn@
            }),
            polys.len() == round,
            forall|i: int|
                0 <= i < round ==> (#[trigger] polys[i]).coeffs_no_linear.len()
                    == summand.width() - 1,
        decreases n - round,
    {
        proof {
            lemma_prover_run_shape(first, start, msg, n as nat, round as nat);
            assert(tables_wf(views(cur@), (n - round) as nat));
        }
        let poly = summand.round_poly(&cur);
        proof {
            lemma_coeffs_unique(poly.coeffs@, half_sum_of(views(cur@), f));
            assert(poly.coeffs@ == coeff_message(f, summand.width())(views(cur@)));
        }
        let wire = CompressedRoundPolynomial::compress(&poly);
        absorb_slice(channel, wire.coeffs_no_linear.as_slice());
        let r = channel.squeeze();
        fold_all_wiping(&mut cur, r);
        let ghost before = polys@;
        polys.push(wire);
        drawn.push(r);
        proof {
            assert(wire_messages(polys@) =~= wire_messages(before).push(wire.coeffs_no_linear@));
        }
        round += 1;
    }
    let point = reversed(drawn.as_slice());
    proof {
        lemma_prover_run_shape(first, start, msg, n as nat, n as nat);
        lemma_final_values(first, start, msg, n as nat);
        vstd::arithmetic::power2::lemma2_to64();
        assert forall|c: int| 0 <= c < cur.len() implies #[trigger] cur[c].len() == 1 by {
            assert(views(cur@)[c].len() == 1);
        }
    }
    let mut finals: Vec<F> = Vec::new();
    let mut c: usize = 0;
    while c < cur.len()
        invariant
            c <= cur.len(),
            forall|c: int| 0 <= c < cur.len() ==> #[trigger] cur[c].len() == 1,
            finals.len() == c,
            forall|k: int| 0 <= k < c ==> #[trigger] finals[k] == views(cur@)[k][0],
        decreases cur.len() - c,
    {
        proof {
            assert(cur[c as int].len() == 1);
        }
        finals.push(cur[c][0]);
        c += 1;
    }
    proof {
        let last = prover_run(first, start, msg, n as nat).tables;
        assert forall|c: int| 0 <= c < tables.len() implies #[trigger] finals[c] == mle(
            tables[c]@,
            point@,
        ) by {
            assert(last[c][0] == mle(first[c], point@));
        }
    }
    wipe_columns(&mut cur);
    CompressedRounds { polys, point, finals }
}

/// Follows the rounds; returns the final claim and the point of the challenges
/// in variable order.
pub fn verify_compressed_rounds<F: TowerField, T: FiatShamir<F>>(
    polys: &Vec<CompressedRoundPolynomial<F>>,
    claim: F,
    channel: &mut T,
) -> (out: (F, Vec<F>))
    requires
        forall|i: int|
            0 <= i < polys.len() ==> (#[trigger] polys[i]).coeffs_no_linear.len() >= 1,
    ensures
        ({
            let run = compressed_check_run(polys@, claim, *old(channel));
            &&& run.ok
            &&& out.0 == run.claim
            &&& out.1@ == run.challenges.reverse()
            &&& out.1.len() == polys.len()
            &&& *final(channel) == run.channel
        }),
{
    let n: usize = polys.len();
    let ghost start = *channel;
    let ghost msgs = wire_messages(polys@);
    let ghost check = no_check::<F>();
    let ghost eval = restored_eval::<F>();
    let mut expected = claim;
    let mut drawn: Vec<F> = Vec::new();
    let mut i: usize = 0;
    while i < n
        invariant
            i <= n,
            n == polys.len(),
            start == *old(channel),
            msgs == wire_messages(polys@),
            check == no_check::<F>(),
            eval == restored_eval::<F>(),
            forall|i: int|
                0 <= i < polys.len() ==> (#[trigger] polys[i]).coeffs_no_linear.len() >= 1,
            ({
                let run = verifier_run(claim, start, msgs, check, eval, i as nat);
                &&& run.ok
                &&& run.claim == expected
                &&& run.channel == *channel
                &&& run.challenges == drawn@
                &&& drawn.len() == i
            }),
        decreases n - i,
    {
        let wire = &polys[i];
        let poly = wire.reconstruct(expected);
        absorb_slice(channel, wire.coeffs_no_linear.as_slice());
        let r = channel.squeeze();
        expected = poly.evaluate(r);
        drawn.push(r);
        i += 1;
    }
    let point = reversed(drawn.as_slice());
    (expected, point)
}

/// Messages without the linear coefficient are honest.
pub proof fn lemma_compressed_honest<F: TowerField, S: Summand<F>>(summand: S)
    requires
        summand.width() >= 2,
    ensures
        honest(
            summand.term(),
            summand.columns(),
            compressed_message(summand.term(), summand.width()),
            no_check(),
            restored_eval(),
        ),
{
    let f = summand.term();
    let width = summand.width();
    let full = coeff_message(f, width);
    let message = compressed_message(f, width);
    let check = coeff_check::<F>();
    let eval = coeff_eval::<F>();
    lemma_coeffs_honest::<F, S>(summand);
    assert forall|tables: Seq<Seq<F>>, n: nat|
        #![trigger tables_wf(tables, n), message(tables)]
        n > 0 && tables.len() == summand.columns() && tables_wf(tables, n) implies {
        &&& no_check::<F>()(message(tables), total(tables, f, n))
        &&& forall|r: F|
            #[trigger] restored_eval::<F>()(message(tables), total(tables, f, n), r)
                == round_value(tables, f, n, r)
    } by {
        let m = full(tables);
        let claim = total(tables, f, n);
        assert(check(m, claim));
        assert(m.len() == width) by {
            lemma_message_len(summand, tables, n);
        }
        lemma_restored(m, claim);
        assert forall|r: F|
            #[trigger] restored_eval::<F>()(message(tables), claim, r) == round_value(
                tables,
                f,
                n,
                r,
            ) by {
            assert(eval(m, claim, r) == round_value(tables, f, n, r));
        }
    }
}

/// A full message has as many coefficients as the summand's width.
proof fn lemma_message_len<F: TowerField, S: Summand<F>>(
    summand: S,
    tables: Seq<Seq<F>>,
    n: nat,
)
    requires
        n > 0,
        tables.len() == summand.columns(),
        tables_wf(tables, n),
    ensures
        coeff_message(summand.term(), summand.width())(tables).len() == summand.width(),
{
    let f = summand.term();
    let width = summand.width();
    summand.sizes();
    assert forall|i: int| 0 <= i < pow2((n - 1) as nat) implies crate::poly::is_poly(
        #[trigger] crate::poly::slice_of(crate::sumcheck::entry_of(tables, f), i),
        width,
    ) by {
        summand.term_poly(tables, n, i);
    }
    crate::rounds::lemma_half_sum_poly(f, width, tables, n);
    let g = half_sum_of(tables, f);
    let c = choose|c: Seq<F>| #[trigger]
        c.len() == width && forall|x: F| #[trigger] g(x) == peval(c, x);
    assert forall|x: F| #[trigger] peval(c, x) == g(x) by {
        assert(g(x) == peval(c, x));
    }
    assert(c.len() == width && forall|x: F| #[trigger] peval(c, x) == g(x));
}

/// Completeness of the rounds: following the messages of an honest prover of the
/// true sum, the verifier draws the same challenges and ends with the summand at
/// the extensions of the tables.
pub proof fn lemma_compressed_complete<F: TowerField, T: FiatShamir<F>, S: Summand<F>>(
    summand: S,
    tables: Seq<Seq<F>>,
    polys: Seq<CompressedRoundPolynomial<F>>,
    n: nat,
    channel: T,
)
    requires
        summand.width() >= 2,
        tables.len() == summand.columns(),
        tables_wf(tables, n),
        wire_messages(polys) == compressed_run(
            tables,
            summand.term(),
            summand.width(),
            n,
            channel,
        ).messages,
    ensures
        ({
            let f = summand.term();
            let run = compressed_run(tables, f, summand.width(), n, channel);
            let check = compressed_check_run(polys, total(tables, f, n), channel);
            &&& polys.len() == n
            &&& run.challenges.len() == n
            &&& check.challenges == run.challenges
            &&& check.channel == run.channel
            &&& check.claim == f(
                Seq::new(tables.len(), |c: int| mle(tables[c], run.challenges.reverse())),
            )
        }),
{
    let f = summand.term();
    let msg = compressed_message(f, summand.width());
    let run = compressed_run(tables, f, summand.width(), n, channel);
    lemma_prover_run_shape(tables, channel, msg, n, n);
    assert(wire_messages(polys).len() == polys.len());
    lemma_compressed_honest::<F, S>(summand);
    lemma_complete(tables, channel, f, msg, no_check(), restored_eval(), n, n);
    lemma_final_values(tables, channel, msg, n);
    lemma_total_one(run.tables, f);
    assert(values_at(run.tables, 0) =~= Seq::new(
        tables.len(),
        |c: int| mle(tables[c], run.challenges.reverse()),
    ));
}

/// Whether the challenge of round `j` turned a false claim into a true one.
pub open spec fn compressed_misled<F: TowerField, T: FiatShamir<F>>(
    tables: Seq<Seq<F>>,
    f: spec_fn(Seq<F>) -> F,
    polys: Seq<CompressedRoundPolynomial<F>>,
    claim: F,
    channel: T,
    j: nat,
) -> bool {
    misled(
        tables,
        f,
        polys.len(),
        claim,
        channel,
        wire_messages(polys),
        no_check(),
        restored_eval(),
        j,
    )
}

/// Soundness of the rounds: if the verifier ends with the summand at the
/// extensions of the tables, then the claim was the sum, or a challenge misled
/// it.
pub proof fn lemma_compressed_sound<F: TowerField, T: FiatShamir<F>>(
    tables: Seq<Seq<F>>,
    f: spec_fn(Seq<F>) -> F,
    polys: Seq<CompressedRoundPolynomial<F>>,
    claim: F,
    channel: T,
)
    requires
        tables_wf(tables, polys.len()),
        ({
            let run = compressed_check_run(polys, claim, channel);
            run.claim == f(
                Seq::new(tables.len(), |c: int| mle(tables[c], run.challenges.reverse())),
            )
        }),
    ensures
        claim == total(tables, f, polys.len()) || exists|j: nat|
            j < polys.len() && #[trigger] compressed_misled(tables, f, polys, claim, channel, j),
{
    let n = polys.len();
    let msgs = wire_messages(polys);
    lemma_never_refused(claim, channel, msgs, restored_eval(), n);
    lemma_sound_at_point(tables, f, n, claim, channel, msgs, no_check(), restored_eval());
    if claim != total(tables, f, n) {
        let j = choose|j: nat|
            j < n && #[trigger] misled(
                tables,
                f,
                n,
                claim,
                channel,
                msgs,
                no_check(),
                restored_eval(),
                j,
            );
        assert(compressed_misled(tables, f, polys, claim, channel, j));
    }
}

/// Where nothing is checked in a round, none is refused.
pub proof fn lemma_never_refused<F: BinaryField, T: FiatShamir<F>>(
    claim: F,
    channel: T,
    messages: Seq<Seq<F>>,
    eval: spec_fn(Seq<F>, F, F) -> F,
    k: nat,
)
    ensures
        verifier_run(claim, channel, messages, no_check(), eval, k).ok,
    decreases k,
{
    if k > 0 {
        lemma_never_refused(claim, channel, messages, eval, (k - 1) as nat);
    }
}

/// In a round fewer challenges mislead than the polynomials have coefficients.
pub proof fn lemma_compressed_few_misleading<F: TowerField, S: Summand<F>>(
    summand: S,
    tables: Seq<Seq<F>>,
    n: nat,
    claim: F,
    message: Seq<F>,
    bad: Seq<F>,
)
    requires
        n > 0,
        tables.len() == summand.columns(),
        tables_wf(tables, n),
        message.len() >= 1,
        message.len() + 1 == summand.width(),
        claim != total(tables, summand.term(), n),
        bad.no_duplicates(),
        forall|k: int|
            0 <= k < bad.len() ==> restored_eval()(message, claim, #[trigger] bad[k])
                == round_value(tables, summand.term(), n, bad[k]),
    ensures
        bad.len() < summand.width(),
{
    let f = summand.term();
    let c = restored(message, claim);
    let g = |x: F| peval(c, x);
    assert(is_poly(g, summand.width())) by {
        assert(c.len() == summand.width() && forall|x: F| #[trigger] g(x) == peval(c, x));
    }
    lemma_restored_sum(message, claim);
    assert forall|i: int| 0 <= i < pow2((n - 1) as nat) implies is_poly(
        #[trigger] slice_of(entry_of(tables, f), i),
        summand.width(),
    ) by {
        summand.term_poly(tables, n, i);
    }
    assert forall|k: int| 0 <= k < bad.len() implies g(#[trigger] bad[k]) == round_value(
        tables,
        f,
        n,
        bad[k],
    ) by {
        assert(restored_eval()(message, claim, bad[k]) == g(bad[k]));
    }
    lemma_few_misleading(tables, f, n, summand.width(), claim, g, bad);
}

/// Restored coefficients are those of a polynomial that sums to the claim.
pub proof fn lemma_restored_sum<F: BinaryField>(w: Seq<F>, claim: F)
    requires
        w.len() >= 1,
    ensures
        peval(restored(w, claim), F::zero()).add(peval(restored(w, claim), F::one())) == claim,
{
    let c = restored(w, claim);
    lemma_peval_ends(c);
    let all = |k: int| c[k];
    let up = |i: int| w[i + 1];
    lemma_sum_split(2, (w.len() - 1) as nat, all);
    let high = |i: int| all(2 + i);
    assert forall|i: int| 0 <= i < w.len() - 1 implies #[trigger] high(i) == up(i) by {}
    lemma_sum_ext((w.len() - 1) as nat, high, up);
    let u = upper_sum(w);
    assert(sum(2, all) == w[0].add(claim.add(u))) by {
        reveal_with_fuel(sum, 3);
        lemma_units(w[0]);
    }
    // w0 + ((w0 + (claim + u)) + u) == claim
    F::add_assoc(w[0], claim.add(u), u);
    lemma_add_cancel(claim, u);
    lemma_add_cancel(w[0], claim);
}

} // verus!
