//! The opening of all committed columns at one point by a sumcheck.
//!
//! The prover sends the values `e_k` of the columns at the point `z`. With a
//! challenge `g`, a sumcheck of degree two proves that `sum_k g^k e_k` is
//! `sum_x B(x) eq(x, z)` for the combination `B` of the columns, and the value
//! of `B` at the point of the sumcheck's challenges is opened.
use vstd::prelude::*;
use vstd::arithmetic::power2::pow2;
use crate::batch_eval::{batch_message, batch_term, eval_round_at_0_1_2, lagrange_at_0_1_2, lemma_batch_honest};
use crate::eval_scheme::EvalScheme;
use crate::field::TowerField;
use crate::fri::FriCode;
use crate::high_fold::{horner, horner_table};
use crate::interleaved_commit::{InterleavedCommitment, InterleavedProverState, cols_wf, slice_views};
use crate::mixed_open::{column_values, combined_columns, compute_batched_claim_flat, lemma_horner_mle};
use crate::mle::{eq_at, eq_ind, eq_ind_partial_eval, eq_poly, eq_table, evaluate_slice, fold_highest_var, lemma_mle_eq_table, lemma_mle_sum, mle};
use crate::sum::lemma_sum_ext;
use crate::sumcheck::{ProverRun, VerifierRun, fold_tables, lemma_complete, lemma_final_values, lemma_prover_run_shape, lemma_refused, lemma_total_one, prover_run, tables_wf, total, value_check, value_eval, values_at, verifier_run};
use crate::table::{copied, reversed};
use crate::transcript::{FiatShamir, absorb_all, absorb_slice};
use crate::soundness::{lemma_accepted_challenges, lemma_sound_at_point, misled};

verus! {

/// The tag that a batched opening absorbs first.
pub const BATCHED_OPEN_TAG: u64 = 0xFFFC_0000_0000_0000;

/// The proof of a batched opening.
#[derive(Clone, Debug, PartialEq, Eq)]
pub struct BatchedOpeningProof<F, P> {
    /// The values of the columns at the opening point.
    pub column_openings: Vec<F>,
    /// The rounds, as the values of their polynomials at 0, 1 and 2.
    pub sumcheck_rounds: Vec<[F; 3]>,
    /// The opening of the combination at the point of the challenges.
    pub fri_proof: P,
}

impl<F: TowerField, P> BatchedOpeningProof<F, P> {
    /// The size in bytes: 16 a field element, and the opening.
    pub open spec fn size<T: FiatShamir<F>, S: EvalScheme<F, T, Proof = P>>(&self) -> nat {
        self.column_openings.len() as nat * 16 + self.sumcheck_rounds.len() as nat * 48
            + S::proof_size(self.fri_proof)
    }

    /// Computes [`BatchedOpeningProof::size`].
    pub fn byte_len<T: FiatShamir<F>, S: EvalScheme<F, T, Proof = P>>(&self) -> (r: usize)
        requires
            self.size::<T, S>() <= usize::MAX,
        ensures
            r == self.size::<T, S>(),
    {
        self.column_openings.len() * 16 + self.sumcheck_rounds.len() * 48 + S::proof_byte_len(
            &self.fri_proof,
        )
    }
}

/// Why a batched opening was refused.
#[derive(Clone, Copy, Debug, PartialEq, Eq, Structural)]
pub enum BatchedOpenError<E> {
    /// The number of opened values is another one.
    ColumnCount,
    /// The number of rounds is another one.
    RoundCount,
    /// The point does not have a coordinate for every row variable.
    PointDimension,
    /// A round does not sum to the claim.
    Sumcheck { round: usize },
    /// The last claim is not that of the value that is opened.
    TerminalClaim,
    /// The opening of the combination was refused.
    Fri(E),
}

/// The transcript after the opened values.
pub open spec fn batched_absorbed<F: TowerField, T: FiatShamir<F>>(
    channel: T,
    openings: Seq<F>,
) -> T {
    absorb_all(channel.absorbed(F::of_u128(BATCHED_OPEN_TAG as u128)), openings)
}

/// The rounds of the prover.
pub open spec fn batched_run<F: TowerField, T: FiatShamir<F>>(
    b: Seq<F>,
    point: Seq<F>,
    channel: T,
) -> ProverRun<F, T> {
    prover_run(seq![eq_table(point), b], channel, batch_message(), point.len())
}

/// The messages of rounds.
pub open spec fn round_messages<F>(rounds: Seq<[F; 3]>) -> Seq<Seq<F>> {
    Seq::new(rounds.len(), |i: int| rounds[i]@)
}

/// The verifier after `k` rounds.
pub open spec fn batched_check_run<F: TowerField, T: FiatShamir<F>>(
    rounds: Seq<[F; 3]>,
    claim: F,
    channel: T,
    k: nat,
) -> VerifierRun<F, T> {
    verifier_run(claim, channel, round_messages(rounds), value_check(), value_eval(), k)
}

/// The first round of the first `k` that is refused.
pub open spec fn refused_round<F: TowerField, T: FiatShamir<F>>(
    rounds: Seq<[F; 3]>,
    claim: F,
    channel: T,
    k: nat,
) -> nat
    decreases k,
{
    if k == 0 || batched_check_run(rounds, claim, channel, (k - 1) as nat).ok {
        (k - 1) as nat
    } else {
        refused_round(rounds, claim, channel, (k - 1) as nat)
    }
}

proof fn lemma_refused_round<F: TowerField, T: FiatShamir<F>>(
    rounds: Seq<[F; 3]>,
    claim: F,
    channel: T,
    i: nat,
    k: nat,
)
    requires
        i < k,
        batched_check_run(rounds, claim, channel, i).ok,
        !batched_check_run(rounds, claim, channel, i + 1).ok,
    ensures
        refused_round(rounds, claim, channel, k) == i,
    decreases k,
{
    if k > i + 1 {
        lemma_refused(
            claim,
            channel,
            round_messages(rounds),
            value_check(),
            value_eval(),
            i + 1,
            (k - 1) as nat,
        );
        lemma_refused_round(rounds, claim, channel, i, (k - 1) as nat);
    }
}

/// The proof of a batched opening of the given columns.
pub open spec fn is_batched_proof<F: TowerField, T: FiatShamir<F>, S: EvalScheme<F, T>>(
    scheme: S,
    cols: Seq<Seq<F>>,
    point: Seq<F>,
    channel: T,
    proof: BatchedOpeningProof<F, S::Proof>,
) -> bool {
    let openings = column_values(cols, point);
    let sent = batched_absorbed(channel, openings);
    let b = horner_table(sent.challenge(), cols, pow2(point.len()));
    let run = batched_run(b, point, sent.squeezed());
    &&& proof.column_openings@ == openings
    &&& round_messages(proof.sumcheck_rounds@) == run.messages
    &&& scheme.proves(b, run.challenges.reverse(), run.channel, proof.fri_proof)
}

/// The transcript after proving a batched opening.
pub open spec fn batched_proved_channel<F: TowerField, T: FiatShamir<F>, S: EvalScheme<F, T>>(
    scheme: S,
    cols: Seq<Seq<F>>,
    point: Seq<F>,
    channel: T,
) -> T {
    let sent = batched_absorbed(channel, column_values(cols, point));
    let b = horner_table(sent.challenge(), cols, pow2(point.len()));
    let run = batched_run(b, point, sent.squeezed());
    scheme.proved_channel(b, run.challenges.reverse(), run.channel)
}

/// The rounds of the sumcheck; returns them and the point of the challenges.
fn prove_rounds_of<F: TowerField, T: FiatShamir<F>>(b: &[F], point: &[F], channel: &mut T) -> (out: (
    Vec<[F; 3]>,
    Vec<F>,
))
    requires
        b.len() == pow2(point.len() as nat),
    ensures
        ({
            let run = batched_run(b@, point@, *old(channel));
            &&& round_messages(out.0@) == run.messages
            &&& out.1@ == run.challenges.reverse()
            &&& *final(channel) == run.channel
        }),
        out.1.len() == point.len(),
{
    let n: usize = point.len();
    let mut w = eq_ind_partial_eval(point);
    let mut cur = copied(b);
    let mut rounds: Vec<[F; 3]> = Vec::new();
    let mut drawn: Vec<F> = Vec::new();
    let ghost tables = seq![w@, b@];
    let ghost start = *channel;
    let ghost msg = batch_message::<F>();
    proof {
        assert(round_messages(rounds@) =~= Seq::empty());
    }
    let mut round: usize = 0;
    while round < n
        invariant
            round <= n,
            tables_wf(tables, n as nat),
            tables.len() == 2,
            msg == batch_message::<F>(),
            ({
                let run = prover_run(tables, start, msg, round as nat);
                &&& run.tables == seq![w@, cur@]
                &&& run.channel == *channel
                &&& run.messages == round_messages(rounds@)
                &&& run.challenges == drawn@
            }),
        decreases n - round,
    {
        proof {
            lemma_prover_run_shape(tables, start, msg, n as nat, round as nat);
            let t = seq![w@, cur@];
            assert(t[0].len() == t[1].len());
        }
        let half: usize = w.len() / 2;
        let evals = eval_round_at_0_1_2(w.as_slice(), cur.as_slice(), half);
        absorb_slice(channel, evals.as_slice());
        let r = channel.squeeze();
        let ghost before = seq![w@, cur@];
        fold_highest_var(&mut w, r);
        fold_highest_var(&mut cur, r);
        let ghost old_rounds = rounds@;
        rounds.push(evals);
        drawn.push(r);
        proof {
            assert(seq![w@, cur@] =~= fold_tables(before, r));
            assert(round_messages(rounds@) =~= round_messages(old_rounds).push(evals@));
        }
        round += 1;
    }
    proof {
        lemma_prover_run_shape(tables, start, msg, n as nat, n as nat);
    }
    (rounds, reversed(drawn.as_slice()))
}

/// Proves a batched opening.
pub fn prove_batched_opening<
    'a,
    F: TowerField,
    T: FiatShamir<F>,
    C: FriCode<F>,
    S: EvalScheme<F, T>,
>(
    state: &InterleavedProverState<'a, F>,
    eval_point: &[F],
    code: &C,
    channel: &mut T,
    scheme: &S,
) -> (out: BatchedOpeningProof<F, S::Proof>)
    requires
        state.of(*code, slice_views(state.raw_cols@)),
        eval_point.len() == state.log_rows,
        scheme.fits(state.log_rows as nat),
    ensures
        is_batched_proof(
            *scheme,
            slice_views(state.raw_cols@),
            eval_point@,
            *old(channel),
            out,
        ),
        *final(channel) == batched_proved_channel(
            *scheme,
            slice_views(state.raw_cols@),
            eval_point@,
            *old(channel),
        ),
{
    let ghost cols = slice_views(state.raw_cols@);
    let log_n: usize = state.log_rows;
    proof {
        assert forall|c: int| 0 <= c < state.raw_cols.len() implies (
        #[trigger] state.raw_cols[c]).len() == pow2(log_n as nat) by {
            assert(cols[c].len() == pow2(log_n as nat));
        }
    }
    let mut openings: Vec<F> = Vec::new();
    let mut c: usize = 0;
    while c < state.n_cols
        invariant
            c <= state.n_cols,
            state.n_cols == state.raw_cols.len(),
            eval_point.len() == log_n,
            cols == slice_views(state.raw_cols@),
            forall|c: int|
                0 <= c < state.raw_cols.len() ==> (#[trigger] state.raw_cols[c]).len() == pow2(
                    log_n as nat,
                ),
            openings@ == column_values(cols, eval_point@).take(c as int),
        decreases state.n_cols - c,
    {
        let col = state.raw_cols[c];
        proof {
            assert(state.raw_cols[c as int].len() == pow2(log_n as nat));
        }
        openings.push(evaluate_slice(col, eval_point));
        proof {
            assert(openings@ =~= column_values(cols, eval_point@).take(c + 1));
        }
        c += 1;
    }
    proof {
        assert(openings@ =~= column_values(cols, eval_point@));
        assert(state.raw_cols[0].len() == pow2(log_n as nat));
    }
    channel.absorb(F::from_u128(BATCHED_OPEN_TAG as u128));
    absorb_slice(channel, openings.as_slice());
    let gamma = channel.squeeze();
    let n: usize = state.raw_cols[0].len();
    let b = combined_columns(&state.raw_cols, gamma, n);
    let (rounds, point) = prove_rounds_of(b.as_slice(), eval_point, channel);
    let fri_proof = scheme.prove(b.as_slice(), point.as_slice(), channel);
    BatchedOpeningProof { column_openings: openings, sumcheck_rounds: rounds, fri_proof }
}

/// A verdict and the transcript that it leaves.
pub struct BatchedVerdict<F, T, E> {
    pub result: Result<Seq<F>, BatchedOpenError<E>>,
    pub channel: T,
}

/// The verdict on a batched opening.
pub open spec fn batched_verdict<F: TowerField, T: FiatShamir<F>, S: EvalScheme<F, T>>(
    scheme: S,
    commitment: InterleavedCommitment,
    point: Seq<F>,
    proof: BatchedOpeningProof<F, S::Proof>,
    channel: T,
) -> BatchedVerdict<F, T, S::Error> {
    let log_n = commitment.log_rows as nat;
    let openings = proof.column_openings@;
    if openings.len() != commitment.n_cols {
        BatchedVerdict { result: Err(BatchedOpenError::ColumnCount), channel }
    } else if proof.sumcheck_rounds.len() != log_n {
        BatchedVerdict { result: Err(BatchedOpenError::RoundCount), channel }
    } else if point.len() != log_n {
        BatchedVerdict { result: Err(BatchedOpenError::PointDimension), channel }
    } else {
        let sent = batched_absorbed(channel, openings);
        let claim = horner(sent.challenge(), openings);
        let rounds = proof.sumcheck_rounds@;
        let run = batched_check_run(rounds, claim, sent.squeezed(), log_n);
        let r = run.challenges.reverse();
        let value = S::claimed(r, proof.fri_proof);
        if !run.ok {
            BatchedVerdict {
                result: Err(
                    BatchedOpenError::Sumcheck {
                        round: refused_round(rounds, claim, sent.squeezed(), log_n) as usize,
                    },
                ),
                channel: run.channel,
            }
        } else if run.claim != eq_poly(point, r).mul(value) {
            BatchedVerdict { result: Err(BatchedOpenError::TerminalClaim), channel: run.channel }
        } else {
            BatchedVerdict {
                result: match scheme.verdict(r, value, proof.fri_proof, run.channel) {
                    Ok(_) => Ok(openings),
                    Err(e) => Err(BatchedOpenError::Fri(e)),
                },
                channel: scheme.verdict_channel(r, value, proof.fri_proof, run.channel),
            }
        }
    }
}

/// Verifies a batched opening and returns the values of the columns. The last
/// claim of the sumcheck has to be `B(r) eq(r, z)` for the value `B(r)` of the
/// combination that is opened at the challenges.
pub fn verify_batched_opening<F: TowerField, T: FiatShamir<F>, S: EvalScheme<F, T>>(
    commitment: &InterleavedCommitment,
    eval_point: &[F],
    proof: &BatchedOpeningProof<F, S::Proof>,
    channel: &mut T,
    scheme: &S,
) -> (out: Result<Vec<F>, BatchedOpenError<S::Error>>)
    requires
        scheme.fits(commitment.log_rows as nat),
    ensures
        ({
            let want = batched_verdict(
                *scheme,
                *commitment,
                eval_point@,
                *proof,
                *old(channel),
            );
            &&& match out {
                Ok(values) => want.result == Ok::<Seq<F>, BatchedOpenError<S::Error>>(values@),
                Err(e) => want.result == Err::<Seq<F>, BatchedOpenError<S::Error>>(e),
            }
            &&& *final(channel) == want.channel
        }),
{
    let log_n: usize = commitment.log_rows;
    if proof.column_openings.len() != commitment.n_cols {
        return Err(BatchedOpenError::ColumnCount);
    }
    if proof.sumcheck_rounds.len() != log_n {
        return Err(BatchedOpenError::RoundCount);
    }
    if eval_point.len() != log_n {
        return Err(BatchedOpenError::PointDimension);
    }
    channel.absorb(F::from_u128(BATCHED_OPEN_TAG as u128));
    absorb_slice(channel, proof.column_openings.as_slice());
    let gamma = channel.squeeze();
    let mut claim = compute_batched_claim_flat(gamma, proof.column_openings.as_slice());
    let ghost v = claim;
    let ghost start = *channel;
    let ghost rounds = proof.sumcheck_rounds@;
    let mut drawn: Vec<F> = Vec::new();
    let mut i: usize = 0;
    while i < log_n
        invariant
            i <= log_n,
            rounds == proof.sumcheck_rounds@,
            rounds.len() == log_n,
            eval_point.len() == log_n,
            log_n == commitment.log_rows,
            proof.column_openings.len() == commitment.n_cols,
            ({
                let sent = batched_absorbed(*old(channel), proof.column_openings@);
                &&& start == sent.squeezed()
                &&& v == horner(sent.challenge(), proof.column_openings@)
            }),
            ({
                let run = batched_check_run(rounds, v, start, i as nat);
                &&& run.ok
                &&& run.claim == claim
                &&& run.channel == *channel
                &&& run.challenges == drawn@
                &&& drawn.len() == i
            }),
        decreases log_n - i,
    {
        let p = &proof.sumcheck_rounds[i];
        if !p[0].plus(p[1]).equals(claim) {
            proof {
                lemma_refused_round(rounds, v, start, i as nat, log_n as nat);
                lemma_refused(
                    v,
                    start,
                    round_messages(rounds),
                    value_check(),
                    value_eval(),
                    (i + 1) as nat,
                    log_n as nat,
                );
            }
            return Err(BatchedOpenError::Sumcheck { round: i });
        }
        absorb_slice(channel, p.as_slice());
        let r = channel.squeeze();
        claim = lagrange_at_0_1_2(p, r);
        drawn.push(r);
        i += 1;
    }
    let point = reversed(drawn.as_slice());
    let weight = eq_ind(eval_point, point.as_slice());
    let value = S::claimed_value(point.as_slice(), &proof.fri_proof);
    if !claim.equals(weight.times(value)) {
        return Err(BatchedOpenError::TerminalClaim);
    }
    match scheme.verify(point.as_slice(), value, &proof.fri_proof, channel) {
        Ok(_) => Ok(copied(proof.column_openings.as_slice())),
        Err(e) => Err(BatchedOpenError::Fri(e)),
    }
}

/// The sum that the rounds prove is the value of the combination.
proof fn lemma_batched_total<F: TowerField>(b: Seq<F>, point: Seq<F>)
    requires
        b.len() == pow2(point.len()),
    ensures
        total(seq![eq_table(point), b], batch_term(), point.len()) == mle(b, point),
{
    lemma_mle_sum(b, point);
    let f = batch_term::<F>();
    let tables = seq![eq_table(point), b];
    let left = |i: int| f(values_at(tables, i));
    let right = |i: int| eq_at(point, i).mul(b[i]);
    assert forall|i: int| 0 <= i < pow2(point.len()) implies #[trigger] left(i) == right(i) by {}
    lemma_sum_ext(pow2(point.len()), left, right);
}

/// Completeness: the proof of a batched opening is accepted, gives back the
/// values of the columns, and leaves the verifier's transcript where it leaves
/// the prover's.
pub proof fn lemma_batched_complete<F: TowerField, T: FiatShamir<F>, S: EvalScheme<F, T>>(
    scheme: S,
    commitment: InterleavedCommitment,
    cols: Seq<Seq<F>>,
    point: Seq<F>,
    proof: BatchedOpeningProof<F, S::Proof>,
    channel: T,
)
    requires
        scheme.fits(point.len()),
        cols_wf(cols, point.len()),
        commitment.n_cols == cols.len(),
        commitment.log_rows == point.len(),
        is_batched_proof(scheme, cols, point, channel, proof),
    ensures
        ({
            let v = batched_verdict(scheme, commitment, point, proof, channel);
            &&& v.result == Ok::<Seq<F>, BatchedOpenError<S::Error>>(column_values(cols, point))
            &&& v.channel == batched_proved_channel(scheme, cols, point, channel)
        }),
{
    let n = point.len();
    let openings = column_values(cols, point);
    let sent = batched_absorbed(channel, openings);
    let gamma = sent.challenge();
    let start = sent.squeezed();
    let b = horner_table(gamma, cols, pow2(n));
    let tables = seq![eq_table(point), b];
    let f = batch_term::<F>();
    let msg = batch_message::<F>();
    let run = batched_run(b, point, start);
    let r = run.challenges.reverse();
    assert(tables_wf(tables, n));
    lemma_prover_run_shape(tables, start, msg, n, n);
    assert(round_messages(proof.sumcheck_rounds@).len() == proof.sumcheck_rounds.len());
    lemma_horner_mle(gamma, cols, point);
    lemma_batched_total(b, point);
    lemma_batch_honest::<F>();
    lemma_complete(tables, start, f, msg, value_check(), value_eval(), n, n);
    lemma_final_values(tables, start, msg, n);
    lemma_total_one(run.tables, f);
    assert(run.tables[0][0] == mle(tables[0], r));
    assert(run.tables[1][0] == mle(tables[1], r));
    lemma_mle_eq_table(point, r);
    scheme.complete(b, r, run.channel, proof.fri_proof);
}

/// Whether the challenge of round `j` of a batched opening turned a false claim
/// about a table into a true one.
pub open spec fn batched_misled<F: TowerField, T: FiatShamir<F>>(
    b: Seq<F>,
    point: Seq<F>,
    claim: F,
    rounds: Seq<[F; 3]>,
    channel: T,
    j: nat,
) -> bool {
    misled(
        seq![eq_table(point), b],
        batch_term(),
        point.len(),
        claim,
        channel,
        round_messages(rounds),
        value_check(),
        value_eval(),
        j,
    )
}

/// Soundness: where a batched opening is accepted, it gives back a value for every
/// column and the scheme accepts the value of the combination at the challenges;
/// where that value is true of a table, the combination of the values of the
/// columns is the value of the table at the point, or a challenge misled the
/// verifier.
pub proof fn lemma_batched_sound<F: TowerField, T: FiatShamir<F>, S: EvalScheme<F, T>>(
    scheme: S,
    commitment: InterleavedCommitment,
    point: Seq<F>,
    proof: BatchedOpeningProof<F, S::Proof>,
    channel: T,
    b: Seq<F>,
)
    requires
        b.len() == pow2(point.len()),
        batched_verdict(scheme, commitment, point, proof, channel).result is Ok,
        ({
            let sent = batched_absorbed(channel, proof.column_openings@);
            let run = batched_check_run(
                proof.sumcheck_rounds@,
                horner(sent.challenge(), proof.column_openings@),
                sent.squeezed(),
                point.len(),
            );
            let r = run.challenges.reverse();
            S::claimed(r, proof.fri_proof) == mle(b, r)
        }),
    ensures
        ({
            let values = batched_verdict(scheme, commitment, point, proof, channel).result->Ok_0;
            let sent = batched_absorbed(channel, proof.column_openings@);
            let gamma = sent.challenge();
            let claim = horner(gamma, values);
            let run = batched_check_run(
                proof.sumcheck_rounds@,
                claim,
                sent.squeezed(),
                point.len(),
            );
            let r = run.challenges.reverse();
            &&& values == proof.column_openings@
            &&& values.len() == commitment.n_cols
            &&& point.len() == commitment.log_rows
            &&& proof.sumcheck_rounds.len() == commitment.log_rows
            &&& scheme.verdict(r, mle(b, r), proof.fri_proof, run.channel) is Ok
            &&& ({
                ||| claim == mle(b, point)
                ||| exists|j: nat|
                    j < point.len() && #[trigger] batched_misled(
                        b,
                        point,
                        claim,
                        proof.sumcheck_rounds@,
                        sent.squeezed(),
                        j,
                    )
            })
        }),
{
    let n = point.len();
    let sent = batched_absorbed(channel, proof.column_openings@);
    let claim = horner(sent.challenge(), proof.column_openings@);
    let start = sent.squeezed();
    let msgs = round_messages(proof.sumcheck_rounds@);
    let run = batched_check_run(proof.sumcheck_rounds@, claim, start, n);
    let r = run.challenges.reverse();
    let tables = seq![eq_table(point), b];
    let f = batch_term::<F>();
    assert(tables_wf(tables, n));
    lemma_accepted_challenges(claim, start, msgs, value_check(), value_eval(), n);
    lemma_mle_eq_table(point, r);
    let finals = Seq::new(tables.len(), |c: int| mle(tables[c], r));
    assert(finals[0] == mle(tables[0], r) && finals[1] == mle(tables[1], r));
    lemma_sound_at_point(tables, f, n, claim, start, msgs, value_check(), value_eval());
    lemma_batched_total(b, point);
    if claim != total(tables, f, n) {
        let j = choose|j: nat|
            j < n && #[trigger] misled(
                tables,
                f,
                n,
                claim,
                start,
                msgs,
                value_check(),
                value_eval(),
                j,
            );
        assert(batched_misled(b, point, claim, proof.sumcheck_rounds@, start, j));
    }
}

} // verus!
