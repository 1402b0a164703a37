//! The sumcheck of a column by public weights.
//!
//! A round sends the values of its polynomial at one and two; the value at zero
//! follows from the claim.
use vstd::prelude::*;
use vstd::arithmetic::power2::pow2;
use crate::batch_eval::{batch_message, batch_term, eval_round_at_0_1_2, lemma_batch_few_misleading, lemma_batch_honest};
use crate::compressed_rounds::{lemma_never_refused, no_check};
use crate::field::{BinaryField, TowerField, lemma_add_cancel};
use crate::interpolate::{interpolate, lagrange_at_small_points, small_points};
use crate::mle::{evaluate_slice, fold_highest_var, mle, pow2_usize};
use crate::soundness::{lemma_sound_at_point, misled};
use crate::sum::sum;
use crate::sumcheck::{ProverRun, VerifierRun, fold_tables, honest, lemma_complete, lemma_final_values, lemma_prover_run_shape, lemma_total_one, prover_run, round_value, tables_wf, total, value_check, value_eval, values_at, verifier_run};
use crate::table::{copied, reversed};
use crate::transcript::{FiatShamir, absorb_slice};
use crate::wiping::{fold_wiping, wipe_elements};

verus! {

/// One round, as the values of its polynomial at one and two.
#[derive(Clone, Copy, Debug, PartialEq, Eq, Structural)]
pub struct WeightedRound<F> {
    pub evals_at_1_2: [F; 2],
}

/// The values at zero, one and two, given those at one and two and the claim.
pub open spec fn three_values<F: BinaryField>(m: Seq<F>, claim: F) -> Seq<F> {
    seq![claim.add(m[0]), m[0], m[1]]
}

impl<F: TowerField> WeightedRound<F> {
    /// The value at `r` of the polynomial that sums to the claim.
    pub fn evaluate(&self, claim: F, r: F) -> (v: F)
        ensures
            v == weighted_eval::<F>()(self.evals_at_1_2@, claim, r),
    {
        let m = self.evals_at_1_2;
        let values = [claim.plus(m[0]), m[0], m[1]];
        proof {
            assert(values@ =~= three_values(m@, claim));
        }
        lagrange_at_small_points(values.as_slice(), r)
    }
}

/// The message of a round.
pub open spec fn weighted_message<F: TowerField>() -> spec_fn(Seq<Seq<F>>) -> Seq<F> {
    |t: Seq<Seq<F>>| batch_message::<F>()(t).skip(1)
}

/// The evaluation of a message at a challenge.
pub open spec fn weighted_eval<F: TowerField>() -> spec_fn(Seq<F>, F, F) -> F {
    |m: Seq<F>, claim: F, r: F| interpolate(small_points::<F>(3), three_values(m, claim), r)
}

/// The messages of rounds.
pub open spec fn weighted_messages<F>(rounds: Seq<WeightedRound<F>>) -> Seq<Seq<F>> {
    Seq::new(rounds.len(), |i: int| rounds[i].evals_at_1_2@)
}

/// The prover's run.
pub open spec fn weighted_run<F: TowerField, T: FiatShamir<F>>(
    weights: Seq<F>,
    column: Seq<F>,
    n: nat,
    channel: T,
) -> ProverRun<F, T> {
    prover_run(seq![weights, column], channel, weighted_message(), n)
}

/// The verifier's run.
pub open spec fn weighted_check_run<F: TowerField, T: FiatShamir<F>>(
    rounds: Seq<WeightedRound<F>>,
    target: F,
    channel: T,
) -> VerifierRun<F, T> {
    verifier_run(
        target,
        channel,
        weighted_messages(rounds),
        no_check(),
        weighted_eval(),
        rounds.len(),
    )
}

/// Whether the verifier accepts.
pub open spec fn weighted_accepts<F: TowerField, T: FiatShamir<F>>(
    rounds: Seq<WeightedRound<F>>,
    value: F,
    n: nat,
    weights: Seq<F>,
    target: F,
    channel: T,
) -> bool {
    let run = weighted_check_run(rounds, target, channel);
    &&& rounds.len() == n
    &&& weights.len() == pow2(n)
    &&& run.claim == mle(weights, run.challenges.reverse()).mul(value)
}

/// The transcript after the verifier.
pub open spec fn weighted_after<F: TowerField, T: FiatShamir<F>>(
    rounds: Seq<WeightedRound<F>>,
    n: nat,
    weights: Seq<F>,
    target: F,
    channel: T,
) -> T {
    if rounds.len() != n || weights.len() != pow2(n) {
        channel
    } else {
        weighted_check_run(rounds, target, channel).channel
    }
}

/// The sum of a column by weights.
pub open spec fn weighted_total<F: BinaryField>(weights: Seq<F>, column: Seq<F>) -> F {
    sum(weights.len(), |i: int| weights[i].mul(column[i]))
}

/// Runs the prover; returns the rounds, the point, and the value of the column
/// there. The copy of the column is overwritten as it is used up.
pub fn prove_weighted_state_sumcheck<F: TowerField, T: FiatShamir<F>>(
    column: &[F],
    weights: Vec<F>,
    n: usize,
    channel: &mut T,
) -> (out: (Vec<WeightedRound<F>>, Vec<F>, F))
    requires
        column.len() == pow2(n as nat),
        weights.len() == pow2(n as nat),
    ensures
        ({
            let run = weighted_run(weights@, column@, n as nat, *old(channel));
            &&& weighted_messages(out.0@) == run.messages
            &&& out.0.len() == n
            &&& out.1@ == run.challenges.reverse()
            &&& out.1.len() == n
            &&& out.2 == mle(column@, out.1@)
            &&& *final(channel) == run.channel
        }),
{
    let mut w = weights;
    let mut b = copied(column);
    let mut rounds: Vec<WeightedRound<F>> = Vec::new();
    let mut drawn: Vec<F> = Vec::new();
    let ghost tables = seq![w@, b@];
    let ghost start = *channel;
    let ghost msg = weighted_message::<F>();
    proof {
        assert(weighted_messages(rounds@) =~= Seq::empty());
    }
    let mut round: usize = 0;
    while round < n
        invariant
            round <= n,
            tables_wf(tables, n as nat),
            tables.len() == 2,
            msg == weighted_message::<F>(),
            rounds.len() == round,
            ({
                let run = prover_run(tables, start, msg, round as nat);
                &&& run.tables == seq![w@, b@]
                &&& run.channel == *channel
                &&& run.messages == weighted_messages(rounds@)
                &&& run.challenges == drawn@
            }),
        decreases n - round,
    {
        proof {
            lemma_prover_run_shape(tables, start, msg, n as nat, round as nat);
            let t = seq![w@, b@];
            assert(t[0].len() == t[1].len());
        }
        let half: usize = w.len() / 2;
        let e = eval_round_at_0_1_2(w.as_slice(), b.as_slice(), half);
        let re = WeightedRound { evals_at_1_2: [e[1], e[2]] };
        proof {
            assert(re.evals_at_1_2@ =~= e@.skip(1));
        }
        absorb_slice(channel, re.evals_at_1_2.as_slice());
        let r_i = channel.squeeze();
        let ghost before = seq![w@, b@];
        fold_highest_var(&mut w, r_i);
        fold_wiping(&mut b, r_i);
        let ghost old_rounds = rounds@;
        rounds.push(re);
        drawn.push(r_i);
        proof {
            assert(seq![w@, b@] =~= fold_tables(before, r_i));
            assert(weighted_messages(rounds@) =~= weighted_messages(old_rounds).push(
                re.evals_at_1_2@,
            ));
        }
        round += 1;
    }
    proof {
        lemma_prover_run_shape(tables, start, msg, n as nat, n as nat);
        lemma_final_values(tables, start, msg, n as nat);
        let last = prover_run(tables, start, msg, n as nat).tables;
        assert(last[1][0] == mle(tables[1], drawn@.reverse()));
        vstd::arithmetic::power2::lemma2_to64();
        assert(last[1].len() == 1);
    }
    let point = reversed(drawn.as_slice());
    let value = b[0];
    wipe_elements(&mut b);
    (rounds, point, value)
}

/// Runs the verifier; on success returns the point.
pub fn verify_weighted_state_sumcheck<F: TowerField, T: FiatShamir<F>>(
    rounds: &Vec<WeightedRound<F>>,
    value: F,
    n: usize,
    weights: &[F],
    target: F,
    channel: &mut T,
) -> (out: Option<Vec<F>>)
    requires
        pow2(n as nat) <= usize::MAX,
    ensures
        out is Some <==> weighted_accepts(
            rounds@,
            value,
            n as nat,
            weights@,
            target,
            *old(channel),
        ),
        out matches Some(point) ==> point@ == weighted_check_run(
            rounds@,
            target,
            *old(channel),
        ).challenges.reverse() && point.len() == n,
        *final(channel) == weighted_after(rounds@, n as nat, weights@, target, *old(channel)),
{
    if rounds.len() != n || weights.len() != pow2_usize(n) {
        return None;
    }
    let ghost start = *channel;
    let ghost msgs = weighted_messages(rounds@);
    let ghost check = no_check::<F>();
    let ghost eval = weighted_eval::<F>();
    let mut expected = target;
    let mut drawn: Vec<F> = Vec::new();
    let mut i: usize = 0;
    while i < n
        invariant
            i <= n,
            n == rounds.len(),
            start == *old(channel),
            msgs == weighted_messages(rounds@),
            check == no_check::<F>(),
            eval == weighted_eval::<F>(),
            ({
                let run = verifier_run(target, start, msgs, check, eval, i as nat);
                &&& run.ok
                &&& run.claim == expected
                &&& run.channel == *channel
                &&& run.challenges == drawn@
                &&& drawn.len() == i
            }),
        decreases n - i,
    {
        let round = rounds[i];
        absorb_slice(channel, round.evals_at_1_2.as_slice());
        let r = channel.squeeze();
        expected = round.evaluate(expected, r);
        drawn.push(r);
        i += 1;
    }
    let point = reversed(drawn.as_slice());
    let w_at_r = evaluate_slice(weights, point.as_slice());
    if !expected.equals(w_at_r.times(value)) {
        return None;
    }
    Some(point)
}

/// Messages without the value at zero are honest.
proof fn lemma_weighted_honest<F: TowerField>()
    ensures
        honest(batch_term::<F>(), 2, weighted_message::<F>(), no_check(), weighted_eval()),
{
    let f = batch_term::<F>();
    let full = batch_message::<F>();
    let message = weighted_message::<F>();
    lemma_batch_honest::<F>();
    assert forall|tables: Seq<Seq<F>>, n: nat|
        #![trigger tables_wf(tables, n), message(tables)]
        n > 0 && tables.len() == 2 && tables_wf(tables, n) implies {
        &&& no_check::<F>()(message(tables), total(tables, f, n))
        &&& forall|r: F|
            #[trigger] weighted_eval::<F>()(message(tables), total(tables, f, n), r)
                == round_value(tables, f, n, r)
    } by {
        let m = full(tables);
        let claim = total(tables, f, n);
        assert(value_check::<F>()(m, claim));
        // claim == m[0] + m[1], so claim + m[1] == m[0]
        F::add_assoc(m[0], m[1], m[1]);
        F::add_self(m[1]);
        F::add_zero(m[0]);
        assert(three_values(message(tables), claim) =~= m);
        assert forall|r: F|
            #[trigger] weighted_eval::<F>()(message(tables), claim, r) == round_value(
                tables,
                f,
                n,
                r,
            ) by {
            assert(value_eval::<F>()(m, claim, r) == round_value(tables, f, n, r));
        }
    }
}

/// Completeness: when the target is the weighted sum of the column, the verifier
/// accepts the honest rounds with the value of the column at the point, and
/// arrives at the prover's point and transcript.
pub proof fn lemma_weighted_complete<F: TowerField, T: FiatShamir<F>>(
    weights: Seq<F>,
    column: Seq<F>,
    n: nat,
    rounds: Seq<WeightedRound<F>>,
    target: F,
    channel: T,
)
    requires
        weights.len() == pow2(n),
        column.len() == pow2(n),
        target == weighted_total(weights, column),
        weighted_messages(rounds) == weighted_run(weights, column, n, channel).messages,
    ensures
        ({
            let run = weighted_run(weights, column, n, channel);
            let check = weighted_check_run(rounds, target, channel);
            let value = mle(column, run.challenges.reverse());
            &&& weighted_accepts(rounds, value, n, weights, target, channel)
            &&& check.challenges == run.challenges
            &&& check.channel == run.channel
            &&& run.challenges.len() == n
        }),
{
    let tables = seq![weights, column];
    let f = batch_term::<F>();
    let msg = weighted_message::<F>();
    let run = weighted_run(weights, column, n, channel);
    let point = run.challenges.reverse();
    assert(tables_wf(tables, n));
    assert(total(tables, f, n) == target) by {
        crate::sum::lemma_sum_ext(
            pow2(n),
            |i: int| f(values_at(tables, i)),
            |i: int| weights[i].mul(column[i]),
        );
    }
    lemma_prover_run_shape(tables, channel, msg, n, n);
    assert(weighted_messages(rounds).len() == rounds.len());
    lemma_weighted_honest::<F>();
    lemma_complete(tables, channel, f, msg, no_check(), weighted_eval(), n, n);
    lemma_final_values(tables, channel, msg, n);
    lemma_total_one(run.tables, f);
    assert(run.tables[0][0] == mle(tables[0], point));
    assert(run.tables[1][0] == mle(tables[1], point));
}

/// Whether the challenge of round `j` turned a false target into a true one.
pub open spec fn weighted_misled<F: TowerField, T: FiatShamir<F>>(
    weights: Seq<F>,
    column: Seq<F>,
    n: nat,
    rounds: Seq<WeightedRound<F>>,
    target: F,
    channel: T,
    j: nat,
) -> bool {
    misled(
        seq![weights, column],
        batch_term(),
        n,
        target,
        channel,
        weighted_messages(rounds),
        no_check(),
        weighted_eval(),
        j,
    )
}

/// Soundness: if rounds are accepted with the true value of the column at the
/// point, then the target is the weighted sum of the column, or a challenge
/// misled the verifier in some round.
pub proof fn lemma_weighted_sound<F: TowerField, T: FiatShamir<F>>(
    weights: Seq<F>,
    column: Seq<F>,
    n: nat,
    rounds: Seq<WeightedRound<F>>,
    target: F,
    channel: T,
)
    requires
        column.len() == pow2(n),
        weighted_accepts(
            rounds,
            mle(column, weighted_check_run(rounds, target, channel).challenges.reverse()),
            n,
            weights,
            target,
            channel,
        ),
    ensures
        target == weighted_total(weights, column) || exists|j: nat|
            j < n && #[trigger] weighted_misled(weights, column, n, rounds, target, channel, j),
{
    let tables = seq![weights, column];
    let f = batch_term::<F>();
    let msgs = weighted_messages(rounds);
    let run = weighted_check_run(rounds, target, channel);
    let point = run.challenges.reverse();
    assert(tables_wf(tables, n));
    assert(total(tables, f, n) == weighted_total(weights, column)) by {
        crate::sum::lemma_sum_ext(
            pow2(n),
            |i: int| f(values_at(tables, i)),
            |i: int| weights[i].mul(column[i]),
        );
    }
    lemma_never_refused(target, channel, msgs, weighted_eval(), n);
    let finals = Seq::new(tables.len(), |c: int| mle(tables[c], point));
    assert(finals[0] == mle(weights, point) && finals[1] == mle(column, point));
    lemma_sound_at_point(tables, f, n, target, channel, msgs, no_check(), weighted_eval());
    if target != total(tables, f, n) {
        let j = choose|j: nat|
            j < n && #[trigger] misled(
                tables,
                f,
                n,
                target,
                channel,
                msgs,
                no_check(),
                weighted_eval(),
                j,
            );
        assert(weighted_misled(weights, column, n, rounds, target, channel, j));
    }
}

/// In a round at most two challenges mislead.
pub proof fn lemma_weighted_few_misleading<F: TowerField>(
    tables: Seq<Seq<F>>,
    n: nat,
    claim: F,
    message: Seq<F>,
    bad: Seq<F>,
)
    requires
        n > 0,
        tables.len() == 2,
        tables_wf(tables, n),
        message.len() == 2,
        claim != total(tables, batch_term(), n),
        bad.no_duplicates(),
        forall|k: int|
            0 <= k < bad.len() ==> weighted_eval()(message, claim, #[trigger] bad[k])
                == round_value(tables, batch_term(), n, bad[k]),
    ensures
        bad.len() <= 2,
{
    let three = three_values(message, claim);
    // claim + m0 + m0 == claim
    lemma_add_cancel(claim, message[0]);
    assert(value_check()(three, claim));
    assert forall|k: int| 0 <= k < bad.len() implies value_eval()(three, claim, #[trigger] bad[k])
        == round_value(tables, batch_term(), n, bad[k]) by {
        assert(weighted_eval()(message, claim, bad[k]) == value_eval()(three, claim, bad[k]));
    }
    lemma_batch_few_misleading(tables, n, claim, three, bad);
}

} // verus!
