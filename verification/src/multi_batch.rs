//! The reduction of claims on several columns to one claim on each, all at the
//! same point.
use vstd::prelude::*;
use vstd::arithmetic::power2::pow2;
use crate::batch_eval::{BatchEvalReduction, BatchEvalRound, ClaimView, EvalClaim, absorb_claims, batch_message, batch_messages, batch_term, build_w_table, claim_elems, claims_hold, claims_view, claims_wf, combine_values, combined_claim, eval_round_at_0_1_2, evaluate_w_at, lemma_combined_claim, lemma_true_weights, lemma_weight_table, squeeze_alphas, true_claims, weight_at, weight_table};
use crate::field::{BinaryField, TowerField};
use crate::mle::{fold_highest_var, mle};
use crate::poly::{is_poly, lemma_poly_mul, lemma_poly_sum, slice_of};
use crate::soundness::{lemma_accepted_challenges, lemma_sound_at_point, misled};
use crate::sum::{lemma_sum_ext, lemma_sum_swap, sum};
use crate::sumcheck::{ProverRun, VerifierRun, entry_of, fold_tables, half_sum, honest, lemma_column_poly, lemma_complete, lemma_final_values, lemma_prover_run_shape, lemma_refused, lemma_total_one, lemma_values_honest, prover_run, tables_wf, total, value_check, value_eval, value_message, values_at, verifier_run};
use crate::table::{copied, reversed};
use crate::transcript::{FiatShamir, absorb_all, absorb_slice, challenges, squeezed_by};

verus! {

/// The rounds of the sumcheck, and the reduced value of every column.
#[derive(Clone, Debug, PartialEq, Eq)]
pub struct MultiBatchEvalProof<F> {
    pub rounds: Vec<BatchEvalRound<F>>,
    pub b_finals: Vec<F>,
}

impl<F: TowerField> MultiBatchEvalProof<F> {
    /// The size in bytes: 16 a field element.
    pub fn byte_len(&self) -> (r: usize)
        requires
            self.rounds.len() * 48 + self.b_finals.len() * 16 <= usize::MAX,
        ensures
            r == self.rounds.len() * 48 + self.b_finals.len() * 16,
    {
        self.rounds.len() * 3 * 16 + self.b_finals.len() * 16
    }
}

/// The contents of the claims on all the columns.
pub open spec fn groups_view<F>(groups: Seq<Vec<EvalClaim<F>>>) -> Seq<Seq<ClaimView<F>>> {
    Seq::new(groups.len(), |c: int| claims_view(groups[c]@))
}

/// Every point has `n` coordinates.
pub open spec fn groups_wf<F>(groups: Seq<Seq<ClaimView<F>>>, n: nat) -> bool {
    forall|c: int| 0 <= c < groups.len() ==> claims_wf(#[trigger] groups[c], n)
}

/// Every claim is true of its column.
pub open spec fn groups_hold<F: BinaryField>(
    groups: Seq<Seq<ClaimView<F>>>,
    columns: Seq<Seq<F>>,
) -> bool {
    forall|c: int| 0 <= c < groups.len() ==> claims_hold(#[trigger] groups[c], columns[c])
}

/// The transcript after the claims on the first `k` columns.
pub open spec fn groups_absorbed<F: TowerField, T: FiatShamir<F>>(
    groups: Seq<Seq<ClaimView<F>>>,
    channel: T,
    k: nat,
) -> T
    decreases k,
{
    if k == 0 {
        channel
    } else {
        absorb_all(
            groups_absorbed(groups, channel, (k - 1) as nat),
            claim_elems(groups[k - 1]),
        )
    }
}

/// The transcript after the challenges of the first `k` columns.
pub open spec fn groups_squeezed<F: TowerField, T: FiatShamir<F>>(
    groups: Seq<Seq<ClaimView<F>>>,
    channel: T,
    k: nat,
) -> T
    decreases k,
{
    if k == 0 {
        groups_absorbed(groups, channel, groups.len())
    } else {
        squeezed_by(groups_squeezed(groups, channel, (k - 1) as nat), groups[k - 1].len())
    }
}

/// The challenges of a column, one a claim.
pub open spec fn group_alphas<F: TowerField, T: FiatShamir<F>>(
    groups: Seq<Seq<ClaimView<F>>>,
    channel: T,
    c: int,
) -> Seq<F> {
    challenges(groups_squeezed(groups, channel, c as nat), groups[c].len())
}

/// The weights and the column, column by column.
pub open spec fn multi_tables<F: TowerField, T: FiatShamir<F>>(
    columns: Seq<Seq<F>>,
    groups: Seq<Seq<ClaimView<F>>>,
    n: nat,
    channel: T,
) -> Seq<Seq<F>> {
    Seq::new(
        2 * groups.len(),
        |t: int|
            if t % 2 == 0 {
                weight_table(groups[t / 2], group_alphas(groups, channel, t / 2), n)
            } else {
                columns[t / 2]
            },
    )
}

/// The summand: weight times value, over `k` columns.
pub open spec fn multi_term<F: BinaryField>(k: nat) -> spec_fn(Seq<F>) -> F {
    |v: Seq<F>| sum(k, |c: int| v[2 * c].mul(v[2 * c + 1]))
}

/// What a round sends.
pub open spec fn multi_message<F: TowerField>(k: nat) -> spec_fn(Seq<Seq<F>>) -> Seq<F> {
    |t: Seq<Seq<F>>| value_message(t, multi_term(k), 3)
}

/// The combination of all the claimed values.
pub open spec fn multi_target<F: TowerField, T: FiatShamir<F>>(
    groups: Seq<Seq<ClaimView<F>>>,
    channel: T,
) -> F {
    sum(groups.len(), |c: int| combined_claim(groups[c], group_alphas(groups, channel, c)))
}

/// The prover's run.
pub open spec fn multi_run<F: TowerField, T: FiatShamir<F>>(
    columns: Seq<Seq<F>>,
    groups: Seq<Seq<ClaimView<F>>>,
    n: nat,
    channel: T,
) -> ProverRun<F, T> {
    prover_run(
        multi_tables(columns, groups, n, channel),
        groups_squeezed(groups, channel, groups.len()),
        multi_message(groups.len()),
        n,
    )
}

/// The verifier's run.
pub open spec fn multi_check_run<F: TowerField, T: FiatShamir<F>>(
    rounds: Seq<BatchEvalRound<F>>,
    groups: Seq<Seq<ClaimView<F>>>,
    channel: T,
) -> VerifierRun<F, T> {
    verifier_run(
        multi_target(groups, channel),
        groups_squeezed(groups, channel, groups.len()),
        batch_messages(rounds),
        value_check(),
        value_eval(),
        rounds.len(),
    )
}

/// The last claim that values of the columns at a point would give.
pub open spec fn multi_final<F: TowerField, T: FiatShamir<F>>(
    groups: Seq<Seq<ClaimView<F>>>,
    finals: Seq<F>,
    r: Seq<F>,
    channel: T,
) -> F {
    sum(
        groups.len(),
        |c: int| weight_at(groups[c], group_alphas(groups, channel, c), r).mul(finals[c]),
    )
}

/// Whether the numbers of rounds, of values and of coordinates fit.
pub open spec fn multi_shape<F>(
    rounds: Seq<BatchEvalRound<F>>,
    finals: Seq<F>,
    groups: Seq<Seq<ClaimView<F>>>,
    n: nat,
) -> bool {
    groups_wf(groups, n) && rounds.len() == n && finals.len() == groups.len()
}

/// Whether the verifier accepts.
pub open spec fn multi_accepts<F: TowerField, T: FiatShamir<F>>(
    rounds: Seq<BatchEvalRound<F>>,
    finals: Seq<F>,
    groups: Seq<Seq<ClaimView<F>>>,
    n: nat,
    channel: T,
) -> bool {
    let run = multi_check_run(rounds, groups, channel);
    &&& multi_shape(rounds, finals, groups, n)
    &&& run.ok
    &&& run.claim == multi_final(groups, finals, run.challenges.reverse(), channel)
}

/// The transcript after verification.
pub open spec fn multi_after<F: TowerField, T: FiatShamir<F>>(
    rounds: Seq<BatchEvalRound<F>>,
    finals: Seq<F>,
    groups: Seq<Seq<ClaimView<F>>>,
    n: nat,
    channel: T,
) -> T {
    if multi_shape(rounds, finals, groups, n) {
        multi_check_run(rounds, groups, channel).channel
    } else {
        channel
    }
}

/// Absorbs all the claims and draws their challenges.
fn bind_groups<F: TowerField, T: FiatShamir<F>>(groups: &Vec<Vec<EvalClaim<F>>>, channel: &mut T) -> (r:
    Vec<Vec<F>>)
    ensures
        r.len() == groups.len(),
        forall|c: int|
            0 <= c < groups.len() ==> (#[trigger] r[c])@ == group_alphas(
                groups_view(groups@),
                *old(channel),
                c,
            ) && r[c].len() == groups[c].len(),
        *final(channel) == groups_squeezed(
            groups_view(groups@),
            *old(channel),
            groups.len() as nat,
        ),
{
    let ghost views = groups_view(groups@);
    let ghost start = *channel;
    let mut c: usize = 0;
    while c < groups.len()
        invariant
            c <= groups.len(),
            views == groups_view(groups@),
            *channel == groups_absorbed(views, start, c as nat),
        decreases groups.len() - c,
    {
        proof {
            assert(views[c as int] == claims_view(groups@[c as int]@));
        }
        absorb_claims(channel, groups[c].as_slice());
        c += 1;
    }
    let mut alphas: Vec<Vec<F>> = Vec::new();
    let mut c: usize = 0;
    while c < groups.len()
        invariant
            c <= groups.len(),
            views == groups_view(groups@),
            *channel == groups_squeezed(views, start, c as nat),
            alphas.len() == c,
            forall|j: int|
                0 <= j < c ==> (#[trigger] alphas[j])@ == group_alphas(views, start, j)
                    && alphas[j].len() == groups[j].len(),
        decreases groups.len() - c,
    {
        proof {
            assert(views[c as int].len() == groups[c as int].len());
        }
        let a = squeeze_alphas(channel, groups[c].len());
        alphas.push(a);
        c += 1;
    }
    alphas
}

/// The tables in pairs.
pub open spec fn paired_tables<F>(w: Seq<Vec<F>>, b: Seq<Vec<F>>) -> Seq<Seq<F>> {
    Seq::new(
        2 * w.len(),
        |t: int|
            if t % 2 == 0 {
                w[t / 2]@
            } else {
                b[t / 2]@
            },
    )
}

/// The values of a round at 0, 1 and 2, summed over the columns.
fn multi_round<F: TowerField>(w: &Vec<Vec<F>>, b: &Vec<Vec<F>>, Ghost(n): Ghost<nat>) -> (e: [F; 3])
    requires
        w.len() == b.len(),
        w.len() > 0,
        tables_wf(paired_tables(w@, b@), n),
    ensures
        e@ == multi_message::<F>(w.len() as nat)(paired_tables(w@, b@)),
{
    let ghost k = w.len() as nat;
    let ghost tables = paired_tables(w@, b@);
    let ghost f0 = |c: int| half_sum(seq![w@[c]@, b@[c]@], batch_term(), F::of_u128(0));
    let ghost f1 = |c: int| half_sum(seq![w@[c]@, b@[c]@], batch_term(), F::of_u128(1));
    let ghost f2 = |c: int| half_sum(seq![w@[c]@, b@[c]@], batch_term(), F::of_u128(2));
    let mut e0 = F::zero_value();
    let mut e1 = F::zero_value();
    let mut e2 = F::zero_value();
    let mut c: usize = 0;
    while c < w.len()
        invariant
            c <= w.len(),
            w.len() == b.len(),
            tables == paired_tables(w@, b@),
            tables_wf(tables, n),
            f0 == (|c: int| half_sum(seq![w@[c]@, b@[c]@], batch_term(), F::of_u128(0))),
            f1 == (|c: int| half_sum(seq![w@[c]@, b@[c]@], batch_term(), F::of_u128(1))),
            f2 == (|c: int| half_sum(seq![w@[c]@, b@[c]@], batch_term(), F::of_u128(2))),
            e0 == sum(c as nat, f0),
            e1 == sum(c as nat, f1),
            e2 == sum(c as nat, f2),
        decreases w.len() - c,
    {
        proof {
            assert(tables[2 * c as int].len() == pow2(n));
            assert(tables[2 * c as int + 1].len() == pow2(n));
        }
        let half: usize = w[c].len() / 2;
        let e = eval_round_at_0_1_2(w[c].as_slice(), b[c].as_slice(), half);
        proof {
            let m = batch_message::<F>()(seq![w@[c as int]@, b@[c as int]@]);
            assert(e@[0] == m[0] && e@[1] == m[1] && e@[2] == m[2]);
        }
        e0 = e0.plus(e[0]);
        e1 = e1.plus(e[1]);
        e2 = e2.plus(e[2]);
        c += 1;
    }
    let e = [e0, e1, e2];
    proof {
        let m = multi_message::<F>(k)(tables);
        lemma_half_sums(w@, b@, n, F::of_u128(0));
        lemma_half_sums(w@, b@, n, F::of_u128(1));
        lemma_half_sums(w@, b@, n, F::of_u128(2));
        lemma_sum_ext(
            k,
            f0,
            |c: int| half_sum(seq![w@[c]@, b@[c]@], batch_term(), F::of_u128(0)),
        );
        lemma_sum_ext(
            k,
            f1,
            |c: int| half_sum(seq![w@[c]@, b@[c]@], batch_term(), F::of_u128(1)),
        );
        lemma_sum_ext(
            k,
            f2,
            |c: int| half_sum(seq![w@[c]@, b@[c]@], batch_term(), F::of_u128(2)),
        );
        assert(e@ =~= m);
    }
    e
}

/// The half sum over all the columns is the sum of the columns' half sums.
proof fn lemma_half_sums<F: TowerField>(w: Seq<Vec<F>>, b: Seq<Vec<F>>, n: nat, x: F)
    requires
        w.len() == b.len(),
        w.len() > 0,
        tables_wf(paired_tables(w, b), n),
    ensures
        half_sum(paired_tables(w, b), multi_term(w.len()), x) == sum(
            w.len(),
            |c: int| half_sum(seq![w[c]@, b[c]@], batch_term(), x),
        ),
{
    let k = w.len();
    let tables = paired_tables(w, b);
    let f = multi_term::<F>(k);
    let g = batch_term::<F>();
    assert(tables[0].len() == pow2(n));
    let h = (pow2(n) / 2) as nat;
    let cell = |i: int, c: int| g(values_at(fold_tables(seq![w[c]@, b[c]@], x), i));
    let rows = |i: int| f(values_at(fold_tables(tables, x), i));
    let by_row = |i: int| sum(k, |c: int| cell(i, c));
    assert forall|i: int| 0 <= i < h implies #[trigger] rows(i) == by_row(i) by {
        let v = values_at(fold_tables(tables, x), i);
        let left = |c: int| v[2 * c].mul(v[2 * c + 1]);
        let right = |c: int| cell(i, c);
        assert forall|c: int| 0 <= c < k implies #[trigger] left(c) == right(c) by {
            assert(tables[2 * c] == w[c]@);
            assert(tables[2 * c + 1] == b[c]@);
        }
        lemma_sum_ext(k, left, right);
    }
    lemma_sum_ext(h, rows, by_row);
    lemma_sum_swap(h, k, cell);
    let by_col = |c: int| sum(h, |i: int| cell(i, c));
    let want = |c: int| half_sum(seq![w[c]@, b[c]@], g, x);
    assert forall|c: int| 0 <= c < k implies #[trigger] by_col(c) == want(c) by {
        assert(tables[2 * c].len() == pow2(n));
        lemma_sum_ext(
            h,
            |i: int| cell(i, c),
            |i: int| g(values_at(fold_tables(seq![w[c]@, b[c]@], x), i)),
        );
    }
    lemma_sum_ext(k, by_col, want);
}

/// Folds every table.
fn fold_each<F: TowerField>(tables: &mut Vec<Vec<F>>, r: F)
    ensures
        final(tables).len() == old(tables).len(),
        forall|c: int|
            0 <= c < final(tables).len() ==> (#[trigger] final(tables)[c])@ == crate::mle::fold(
                old(tables)[c]@,
                r,
            ),
{
    let mut out: Vec<Vec<F>> = Vec::new();
    let mut c: usize = 0;
    while c < tables.len()
        invariant
            c <= tables.len(),
            tables@ == old(tables)@,
            out.len() == c,
            forall|j: int|
                0 <= j < c ==> (#[trigger] out[j])@ == crate::mle::fold(old(tables)@[j]@, r),
        decreases tables.len() - c,
    {
        let mut t = copied(tables[c].as_slice());
        fold_highest_var(&mut t, r);
        out.push(t);
        c += 1;
    }
    *tables = out;
}

/// Reduces the claims on the columns; returns the proof and one claim a column.
pub fn prove_multi_batch_eval<F: TowerField, T: FiatShamir<F>>(
    columns: &[&[F]],
    groups: &Vec<Vec<EvalClaim<F>>>,
    n: usize,
    channel: &mut T,
) -> (out: (MultiBatchEvalProof<F>, Vec<BatchEvalReduction<F>>))
    requires
        groups.len() > 0,
        columns.len() == groups.len(),
        pow2(n as nat) <= usize::MAX,
        forall|c: int| 0 <= c < columns.len() ==> (#[trigger] columns[c]).len() == pow2(n as nat),
        groups_wf(groups_view(groups@), n as nat),
    ensures
        ({
            let cols = crate::interleaved_commit::slice_views(columns@);
            let run = multi_run(cols, groups_view(groups@), n as nat, *old(channel));
            let point = run.challenges.reverse();
            &&& batch_messages(out.0.rounds@) == run.messages
            &&& out.0.b_finals.len() == groups.len()
            &&& out.1.len() == groups.len()
            &&& forall|c: int|
                0 <= c < groups.len() ==> (#[trigger] out.1[c]).point@ == point && out.1[c].value
                    == mle(cols[c], point) && out.0.b_finals[c] == mle(cols[c], point)
            &&& *final(channel) == run.channel
        }),
{
    let ghost cols = crate::interleaved_commit::slice_views(columns@);
    let ghost views = groups_view(groups@);
    let ghost first = *channel;
    let k: usize = groups.len();
    let alphas = bind_groups(groups, channel);
    let mut w: Vec<Vec<F>> = Vec::new();
    let mut b: Vec<Vec<F>> = Vec::new();
    let mut c: usize = 0;
    while c < k
        invariant
            c <= k,
            k == groups.len(),
            k == columns.len(),
            k == alphas.len(),
            pow2(n as nat) <= usize::MAX,
            views == groups_view(groups@),
            cols == crate::interleaved_commit::slice_views(columns@),
            groups_wf(views, n as nat),
            forall|c: int|
                0 <= c < groups.len() ==> (#[trigger] alphas[c])@ == group_alphas(views, first, c)
                    && alphas[c].len() == groups[c].len(),
            w.len() == c,
            b.len() == c,
            forall|j: int|
                0 <= j < c ==> (#[trigger] w[j])@ == weight_table(
                    views[j],
                    group_alphas(views, first, j),
                    n as nat,
                ),
            forall|j: int| 0 <= j < c ==> (#[trigger] b[j])@ == cols[j],
        decreases k - c,
    {
        proof {
            assert(claims_wf(views[c as int], n as nat));
            assert(views[c as int] == claims_view(groups@[c as int]@));
            assert(alphas[c as int]@ == group_alphas(views, first, c as int));
        }
        w.push(build_w_table(groups[c].as_slice(), alphas[c].as_slice(), n));
        b.push(copied(columns[c]));
        c += 1;
    }
    let ghost tables = multi_tables(cols, views, n as nat, first);
    proof {
        assert(paired_tables(w@, b@) =~= tables) by {
            assert forall|t: int| 0 <= t < 2 * k implies paired_tables(w@, b@)[t] == tables[t] by {
                assert(w[t / 2]@ == weight_table(
                    views[t / 2],
                    group_alphas(views, first, t / 2),
                    n as nat,
                ));
                assert(b[t / 2]@ == cols[t / 2]);
            }
        }
        assert forall|t: int| 0 <= t < tables.len() implies (#[trigger] tables[t]).len() == pow2(
            n as nat,
        ) by {
            assert(columns[t / 2].len() == pow2(n as nat));
        }
    }
    let mut rounds: Vec<BatchEvalRound<F>> = Vec::new();
    let mut drawn: Vec<F> = Vec::new();
    let ghost start = *channel;
    let ghost msg = multi_message::<F>(k as nat);
    proof {
        assert(batch_messages(rounds@) =~= Seq::empty());
    }
    let mut round: usize = 0;
    while round < n
        invariant
            round <= n,
            k > 0,
            tables_wf(tables, n as nat),
            tables.len() == 2 * k,
            w.len() == k,
            b.len() == k,
            msg == multi_message::<F>(k as nat),
            ({
                let run = prover_run(tables, start, msg, round as nat);
                &&& run.tables == paired_tables(w@, b@)
                &&& run.channel == *channel
                &&& run.messages == batch_messages(rounds@)
                &&& run.challenges == drawn@
            }),
        decreases n - round,
    {
        proof {
            lemma_prover_run_shape(tables, start, msg, n as nat, round as nat);
        }
        let evals = multi_round(&w, &b, Ghost((n - round) as nat));
        let re = BatchEvalRound { evals };
        absorb_slice(channel, re.evals.as_slice());
        let r = channel.squeeze();
        let ghost before = paired_tables(w@, b@);
        fold_each(&mut w, r);
        fold_each(&mut b, r);
        let ghost old_rounds = rounds@;
        rounds.push(re);
        drawn.push(r);
        proof {
            assert(paired_tables(w@, b@) =~= fold_tables(before, r));
            assert(batch_messages(rounds@) =~= batch_messages(old_rounds).push(evals@));
        }
        round += 1;
    }
    let point = reversed(drawn.as_slice());
    proof {
        lemma_final_values(tables, start, msg, n as nat);
        vstd::arithmetic::power2::lemma2_to64();
    }
    let ghost last = prover_run(tables, start, msg, n as nat).tables;
    let mut b_finals: Vec<F> = Vec::new();
    let mut reds: Vec<BatchEvalReduction<F>> = Vec::new();
    let mut c: usize = 0;
    while c < k
        invariant
            c <= k,
            w.len() == k,
            b.len() == k,
            k == cols.len(),
            tables == multi_tables(cols, views, n as nat, first),
            views.len() == k,
            last == paired_tables(w@, b@),
            tables_wf(last, 0),
            tables.len() == 2 * k,
            pow2(0) == 1,
            forall|t: int|
                0 <= t < tables.len() ==> #[trigger] last[t][0] == mle(tables[t], point@),
            b_finals.len() == c,
            reds.len() == c,
            forall|j: int|
                0 <= j < c ==> (#[trigger] reds[j]).point@ == point@ && reds[j].value == mle(
                    cols[j],
                    point@,
                ) && b_finals[j] == mle(cols[j], point@),
        decreases k - c,
    {
        proof {
            let t = 2 * c as int + 1;
            assert(last[t].len() == pow2(0));
            assert(last[t][0] == mle(tables[t], point@));
            assert(last[t] == b[c as int]@);
            assert(tables[t] == cols[c as int]);
        }
        let value = b[c][0];
        b_finals.push(value);
        reds.push(BatchEvalReduction { point: copied(point.as_slice()), value });
        c += 1;
    }
    proof {
        let run = multi_run(cols, views, n as nat, first);
        assert(run == prover_run(tables, start, msg, n as nat));
        assert(point@ == run.challenges.reverse());
        assert(batch_messages(rounds@) == run.messages);
        assert(*channel == run.channel);
    }
    (MultiBatchEvalProof { rounds, b_finals }, reds)
}

/// Whether all the points have `n` coordinates.
fn check_groups_wf<F: TowerField>(groups: &Vec<Vec<EvalClaim<F>>>, n: usize) -> (r: bool)
    ensures
        r == groups_wf(groups_view(groups@), n as nat),
{
    let ghost views = groups_view(groups@);
    let mut c: usize = 0;
    while c < groups.len()
        invariant
            c <= groups.len(),
            views == groups_view(groups@),
            forall|j: int| 0 <= j < c ==> claims_wf(#[trigger] views[j], n as nat),
        decreases groups.len() - c,
    {
        let mut i: usize = 0;
        proof {
            assert(views[c as int] == claims_view(groups@[c as int]@));
        }
        while i < groups[c].len()
            invariant
                c < groups.len(),
                i <= groups[c as int].len(),
                views == groups_view(groups@),
                views[c as int] == claims_view(groups@[c as int]@),
                forall|j: int| 0 <= j < i ==> #[trigger] views[c as int][j].point.len() == n,
            decreases groups[c as int].len() - i,
        {
            if groups[c][i].point.len() != n {
                proof {
                    assert(views[c as int][i as int].point.len() != n);
                    assert(!claims_wf(views[c as int], n as nat));
                }
                return false;
            }
            i += 1;
        }
        c += 1;
    }
    true
}

/// The combination of all the claimed values.
fn combine_groups<F: TowerField, T: FiatShamir<F>>(
    groups: &Vec<Vec<EvalClaim<F>>>,
    alphas: &Vec<Vec<F>>,
    Ghost(channel): Ghost<T>,
) -> (v: F)
    requires
        alphas.len() == groups.len(),
        forall|c: int|
            0 <= c < groups.len() ==> (#[trigger] alphas[c])@ == group_alphas(
                groups_view(groups@),
                channel,
                c,
            ) && alphas[c].len() == groups[c].len(),
    ensures
        v == multi_target(groups_view(groups@), channel),
{
    let ghost views = groups_view(groups@);
    let ghost f = |c: int| combined_claim(views[c], group_alphas(views, channel, c));
    let mut acc = F::zero_value();
    let mut c: usize = 0;
    while c < groups.len()
        invariant
            c <= groups.len(),
            alphas.len() == groups.len(),
            views == groups_view(groups@),
            forall|c: int|
                0 <= c < groups.len() ==> (#[trigger] alphas[c])@ == group_alphas(
                    views,
                    channel,
                    c,
                ) && alphas[c].len() == groups[c].len(),
            f == (|c: int| combined_claim(views[c], group_alphas(views, channel, c))),
            acc == sum(c as nat, f),
        decreases groups.len() - c,
    {
        proof {
            assert(alphas[c as int]@ == group_alphas(views, channel, c as int));
            assert(views[c as int] == claims_view(groups@[c as int]@));
        }
        acc = acc.plus(combine_values(groups[c].as_slice(), alphas[c].as_slice()));
        c += 1;
    }
    acc
}

/// The last claim that the given values would give.
fn final_claim<F: TowerField, T: FiatShamir<F>>(
    groups: &Vec<Vec<EvalClaim<F>>>,
    alphas: &Vec<Vec<F>>,
    finals: &Vec<F>,
    r: &[F],
    Ghost(channel): Ghost<T>,
) -> (v: F)
    requires
        alphas.len() == groups.len(),
        finals.len() == groups.len(),
        groups_wf(groups_view(groups@), r.len() as nat),
        forall|c: int|
            0 <= c < groups.len() ==> (#[trigger] alphas[c])@ == group_alphas(
                groups_view(groups@),
                channel,
                c,
            ) && alphas[c].len() == groups[c].len(),
    ensures
        v == multi_final(groups_view(groups@), finals@, r@, channel),
{
    let ghost views = groups_view(groups@);
    let ghost f = |c: int| weight_at(views[c], group_alphas(views, channel, c), r@).mul(finals@[c]);
    let mut acc = F::zero_value();
    let mut c: usize = 0;
    while c < groups.len()
        invariant
            c <= groups.len(),
            alphas.len() == groups.len(),
            finals.len() == groups.len(),
            views == groups_view(groups@),
            groups_wf(views, r.len() as nat),
            forall|c: int|
                0 <= c < groups.len() ==> (#[trigger] alphas[c])@ == group_alphas(
                    views,
                    channel,
                    c,
                ) && alphas[c].len() == groups[c].len(),
            f == (|c: int|
                weight_at(views[c], group_alphas(views, channel, c), r@).mul(finals@[c])),
            acc == sum(c as nat, f),
        decreases groups.len() - c,
    {
        proof {
            assert(alphas[c as int]@ == group_alphas(views, channel, c as int));
            assert(views[c as int] == claims_view(groups@[c as int]@));
            assert(claims_wf(views[c as int], r.len() as nat));
        }
        let w_at = evaluate_w_at(groups[c].as_slice(), alphas[c].as_slice(), r);
        acc = acc.plus(w_at.times(finals[c]));
        c += 1;
    }
    acc
}

/// Verifies the reduction; on success returns one claim a column.
pub fn verify_multi_batch_eval<F: TowerField, T: FiatShamir<F>>(
    proof: &MultiBatchEvalProof<F>,
    groups: &Vec<Vec<EvalClaim<F>>>,
    n: usize,
    channel: &mut T,
) -> (out: Option<Vec<BatchEvalReduction<F>>>)
    ensures
        out is Some <==> multi_accepts(
            proof.rounds@,
            proof.b_finals@,
            groups_view(groups@),
            n as nat,
            *old(channel),
        ),
        out matches Some(reds) ==> {
            let point = multi_check_run(
                proof.rounds@,
                groups_view(groups@),
                *old(channel),
            ).challenges.reverse();
            &&& reds.len() == groups.len()
            &&& forall|c: int|
                0 <= c < reds.len() ==> (#[trigger] reds[c]).point@ == point && reds[c].point.len()
                    == n && reds[c].value == proof.b_finals[c]
        },
        *final(channel) == multi_after(
            proof.rounds@,
            proof.b_finals@,
            groups_view(groups@),
            n as nat,
            *old(channel),
        ),
{
    if !check_groups_wf(groups, n) || proof.rounds.len() != n || proof.b_finals.len()
        != groups.len() {
        return None;
    }
    let ghost views = groups_view(groups@);
    let ghost first = *channel;
    let alphas = bind_groups(groups, channel);
    let mut claim = combine_groups::<F, T>(groups, &alphas, Ghost(first));
    let ghost v = claim;
    let ghost start = *channel;
    let ghost msgs = batch_messages(proof.rounds@);
    let ghost check = value_check::<F>();
    let ghost eval = value_eval::<F>();
    let mut drawn: Vec<F> = Vec::new();
    let mut i: usize = 0;
    while i < n
        invariant
            i <= n,
            n == proof.rounds.len(),
            first == *old(channel),
            views == groups_view(groups@),
            multi_shape(proof.rounds@, proof.b_finals@, views, n as nat),
            start == groups_squeezed(views, first, groups@.len()),
            v == multi_target(views, first),
            msgs == batch_messages(proof.rounds@),
            check == value_check::<F>(),
            eval == value_eval::<F>(),
            ({
                let run = verifier_run(v, start, msgs, check, eval, i as nat);
                &&& run.ok
                &&& run.claim == claim
                &&& run.channel == *channel
                &&& run.challenges == drawn@
                &&& drawn.len() == i
            }),
        decreases n - i,
    {
        let re = &proof.rounds[i];
        if !re.sum_at_0_plus_1().equals(claim) {
            proof {
                lemma_refused(v, start, msgs, check, eval, (i + 1) as nat, n as nat);
            }
            return None;
        }
        absorb_slice(channel, re.evals.as_slice());
        let r = channel.squeeze();
        claim = re.evaluate(r);
        drawn.push(r);
        i += 1;
    }
    let point = reversed(drawn.as_slice());
    let want = final_claim::<F, T>(groups, &alphas, &proof.b_finals, point.as_slice(), Ghost(first));
    if !claim.equals(want) {
        return None;
    }
    let mut reds: Vec<BatchEvalReduction<F>> = Vec::new();
    let mut c: usize = 0;
    while c < groups.len()
        invariant
            c <= groups.len(),
            proof.b_finals.len() == groups.len(),
            point.len() == n,
            reds.len() == c,
            forall|j: int|
                0 <= j < c ==> (#[trigger] reds[j]).point@ == point@ && reds[j].point.len() == n
                    && reds[j].value == proof.b_finals[j],
        decreases groups.len() - c,
    {
        reds.push(
            BatchEvalReduction { point: copied(point.as_slice()), value: proof.b_finals[c] },
        );
        c += 1;
    }
    Some(reds)
}

/// The messages are honest.
proof fn lemma_multi_honest<F: TowerField>(k: nat)
    requires
        k > 0,
    ensures
        honest(multi_term::<F>(k), 2 * k, multi_message::<F>(k), value_check(), value_eval()),
{
    let f = multi_term::<F>(k);
    assert forall|t: Seq<Seq<F>>, n: nat, i: int|
        #![trigger tables_wf(t, n), slice_of(entry_of(t, f), i)]
        n > 0 && t.len() == 2 * k && tables_wf(t, n) && 0 <= i < pow2(
            (n - 1) as nat,
        ) implies is_poly(slice_of(entry_of(t, f), i), 3) by {
        let g = |c: int, x: F|
            values_at(fold_tables(t, x), i)[2 * c].mul(
                values_at(fold_tables(t, x), i)[2 * c + 1],
            );
        assert forall|c: int| 0 <= c < k implies is_poly(#[trigger] slice_of(g, c), 3) by {
            let c0 = |x: F| values_at(fold_tables(t, x), i)[2 * c];
            let c1 = |x: F| values_at(fold_tables(t, x), i)[2 * c + 1];
            lemma_column_poly(t, n, 2 * c, i, c0);
            lemma_column_poly(t, n, 2 * c + 1, i, c1);
            lemma_poly_mul(c0, 2, c1, 2, slice_of(g, c));
        }
        let s = slice_of(entry_of(t, f), i);
        assert forall|x: F| #[trigger] s(x) == sum(k, |c: int| g(c, x)) by {
            let v = values_at(fold_tables(t, x), i);
            lemma_sum_ext(k, |c: int| v[2 * c].mul(v[2 * c + 1]), |c: int| g(c, x));
        }
        lemma_poly_sum(k, g, s, 3);
    }
    lemma_values_honest(f, 2 * k, 3, multi_message::<F>(k));
}

/// The combination of the true values of all the claims.
pub open spec fn multi_truth<F: TowerField, T: FiatShamir<F>>(
    columns: Seq<Seq<F>>,
    groups: Seq<Seq<ClaimView<F>>>,
    channel: T,
) -> F {
    sum(
        groups.len(),
        |c: int|
            combined_claim(true_claims(groups[c], columns[c]), group_alphas(groups, channel, c)),
    )
}

/// The combination of the true values is the sum over the cells.
proof fn lemma_multi_total<F: TowerField, T: FiatShamir<F>>(
    columns: Seq<Seq<F>>,
    groups: Seq<Seq<ClaimView<F>>>,
    n: nat,
    channel: T,
)
    requires
        columns.len() == groups.len(),
        forall|c: int| 0 <= c < columns.len() ==> (#[trigger] columns[c]).len() == pow2(n),
        groups_wf(groups, n),
    ensures
        multi_truth(columns, groups, channel) == total(
            multi_tables(columns, groups, n, channel),
            multi_term(groups.len()),
            n,
        ),
{
    let k = groups.len();
    let tables = multi_tables(columns, groups, n, channel);
    let f = multi_term::<F>(k);
    let len = pow2(n);
    let cell = |i: int, c: int| tables[2 * c][i].mul(tables[2 * c + 1][i]);
    let rows = |i: int| f(values_at(tables, i));
    let by_row = |i: int| sum(k, |c: int| cell(i, c));
    assert forall|i: int| 0 <= i < len implies #[trigger] rows(i) == by_row(i) by {
        let v = values_at(tables, i);
        lemma_sum_ext(k, |c: int| v[2 * c].mul(v[2 * c + 1]), |c: int| cell(i, c));
    }
    lemma_sum_ext(len, rows, by_row);
    lemma_sum_swap(len, k, cell);
    let by_col = |c: int| sum(len, |i: int| cell(i, c));
    let target = |c: int|
        combined_claim(true_claims(groups[c], columns[c]), group_alphas(groups, channel, c));
    assert forall|c: int| 0 <= c < k implies #[trigger] by_col(c) == target(c) by {
        let alphas = group_alphas(groups, channel, c);
        let honest_claims = true_claims(groups[c], columns[c]);
        assert(claims_wf(groups[c], n));
        assert(columns[c].len() == pow2(n));
        assert forall|i: int| 0 <= i < honest_claims.len() implies #[trigger] honest_claims[i].point.len() == n by {
            assert(groups[c][i].point.len() == n);
        }
        lemma_combined_claim(columns[c], honest_claims, alphas, n);
        lemma_true_weights(columns[c], groups[c], alphas, n);
        let two = seq![weight_table(groups[c], alphas, n), columns[c]];
        let g = batch_term::<F>();
        assert(tables[2 * c] == two[0] && tables[2 * c + 1] == two[1]);
        lemma_sum_ext(len, |i: int| cell(i, c), |i: int| g(values_at(two, i)));
    }
    lemma_sum_ext(k, by_col, target);
}

/// Whether the challenge of round `j` turned a false claim into a true one.
pub open spec fn multi_misled<F: TowerField, T: FiatShamir<F>>(
    columns: Seq<Seq<F>>,
    groups: Seq<Seq<ClaimView<F>>>,
    n: nat,
    rounds: Seq<BatchEvalRound<F>>,
    channel: T,
    j: nat,
) -> bool {
    misled(
        multi_tables(columns, groups, n, channel),
        multi_term(groups.len()),
        n,
        multi_target(groups, channel),
        groups_squeezed(groups, channel, groups.len()),
        batch_messages(rounds),
        value_check(),
        value_eval(),
        j,
    )
}

/// Soundness: if a proof is accepted whose last values are true of the columns,
/// then the combination of the claims is that of the true values, or a challenge
/// misled the verifier in some round.
pub proof fn lemma_multi_sound<F: TowerField, T: FiatShamir<F>>(
    columns: Seq<Seq<F>>,
    groups: Seq<Seq<ClaimView<F>>>,
    n: nat,
    rounds: Seq<BatchEvalRound<F>>,
    finals: Seq<F>,
    channel: T,
)
    requires
        columns.len() == groups.len(),
        forall|c: int| 0 <= c < columns.len() ==> (#[trigger] columns[c]).len() == pow2(n),
        multi_accepts(rounds, finals, groups, n, channel),
        forall|c: int|
            0 <= c < groups.len() ==> #[trigger] finals[c] == mle(
                columns[c],
                multi_check_run(rounds, groups, channel).challenges.reverse(),
            ),
    ensures
        multi_target(groups, channel) == multi_truth(columns, groups, channel) || exists|j: nat|
            j < n && #[trigger] multi_misled(columns, groups, n, rounds, channel, j),
{
    let k = groups.len();
    let tables = multi_tables(columns, groups, n, channel);
    let start = groups_squeezed(groups, channel, k);
    let f = multi_term::<F>(k);
    let v = multi_target(groups, channel);
    let msgs = batch_messages(rounds);
    let run = multi_check_run(rounds, groups, channel);
    let point = run.challenges.reverse();
    assert forall|t: int| 0 <= t < tables.len() implies (#[trigger] tables[t]).len() == pow2(n) by {
        assert(columns[t / 2].len() == pow2(n));
    }
    lemma_accepted_challenges(v, start, msgs, value_check(), value_eval(), n);
    lemma_multi_total(columns, groups, n, channel);
    let ends = Seq::new(tables.len(), |t: int| mle(tables[t], point));
    let left = |c: int| ends[2 * c].mul(ends[2 * c + 1]);
    let right = |c: int|
        weight_at(groups[c], group_alphas(groups, channel, c), point).mul(finals[c]);
    assert forall|c: int| 0 <= c < k implies #[trigger] left(c) == right(c) by {
        assert(ends[2 * c] == mle(tables[2 * c], point));
        assert(ends[2 * c + 1] == mle(tables[2 * c + 1], point));
        assert(claims_wf(groups[c], n));
        lemma_weight_table(groups[c], group_alphas(groups, channel, c), n, point);
        assert(finals[c] == mle(columns[c], point));
    }
    lemma_sum_ext(k, left, right);
    lemma_sum_ext(k, |c: int| ends[2 * c].mul(ends[2 * c + 1]), left);
    lemma_sound_at_point(tables, f, n, v, start, msgs, value_check(), value_eval());
    if v != total(tables, f, n) {
        let j = choose|j: nat|
            j < n && #[trigger] misled(
                tables,
                f,
                n,
                v,
                start,
                msgs,
                value_check(),
                value_eval(),
                j,
            );
        assert(multi_misled(columns, groups, n, rounds, channel, j));
    }
}

/// Completeness: for true claims the verifier accepts the honest proof, and
/// arrives at the prover's point and transcript.
pub proof fn lemma_multi_complete<F: TowerField, T: FiatShamir<F>>(
    columns: Seq<Seq<F>>,
    groups: Seq<Seq<ClaimView<F>>>,
    n: nat,
    rounds: Seq<BatchEvalRound<F>>,
    finals: Seq<F>,
    channel: T,
)
    requires
        groups.len() > 0,
        columns.len() == groups.len(),
        forall|c: int| 0 <= c < columns.len() ==> (#[trigger] columns[c]).len() == pow2(n),
        groups_wf(groups, n),
        groups_hold(groups, columns),
        batch_messages(rounds) == multi_run(columns, groups, n, channel).messages,
        finals.len() == groups.len(),
        forall|c: int|
            0 <= c < groups.len() ==> #[trigger] finals[c] == mle(
                columns[c],
                multi_run(columns, groups, n, channel).challenges.reverse(),
            ),
    ensures
        ({
            let run = multi_run(columns, groups, n, channel);
            let check = multi_check_run(rounds, groups, channel);
            &&& multi_accepts(rounds, finals, groups, n, channel)
            &&& check.challenges == run.challenges
            &&& check.channel == run.channel
            &&& run.challenges.len() == n
        }),
{
    let k = groups.len();
    let tables = multi_tables(columns, groups, n, channel);
    let start = groups_squeezed(groups, channel, k);
    let f = multi_term::<F>(k);
    let msg = multi_message::<F>(k);
    let run = multi_run(columns, groups, n, channel);
    let point = run.challenges.reverse();
    assert forall|t: int| 0 <= t < tables.len() implies (#[trigger] tables[t]).len() == pow2(n) by {
        assert(columns[t / 2].len() == pow2(n));
    }
    lemma_prover_run_shape(tables, start, msg, n, n);
    assert(batch_messages(rounds).len() == rounds.len());
    lemma_multi_total(columns, groups, n, channel);
    let truth = |c: int|
        combined_claim(true_claims(groups[c], columns[c]), group_alphas(groups, channel, c));
    let target = |c: int| combined_claim(groups[c], group_alphas(groups, channel, c));
    assert forall|c: int| 0 <= c < k implies #[trigger] truth(c) == target(c) by {
        let alphas = group_alphas(groups, channel, c);
        let honest_claims = true_claims(groups[c], columns[c]);
        assert(claims_hold(groups[c], columns[c]));
        lemma_sum_ext(
            groups[c].len(),
            |i: int| alphas[i].mul(honest_claims[i].value),
            |i: int| alphas[i].mul(groups[c][i].value),
        );
    }
    lemma_sum_ext(k, truth, target);
    lemma_multi_honest::<F>(k);
    lemma_complete(tables, start, f, msg, value_check(), value_eval(), n, n);
    lemma_final_values(tables, start, msg, n);
    lemma_total_one(run.tables, f);
    let v = values_at(run.tables, 0);
    let left = |c: int| v[2 * c].mul(v[2 * c + 1]);
    let right = |c: int|
        weight_at(groups[c], group_alphas(groups, channel, c), point).mul(finals[c]);
    assert forall|c: int| 0 <= c < k implies #[trigger] left(c) == right(c) by {
        assert(run.tables[2 * c][0] == mle(tables[2 * c], point));
        assert(run.tables[2 * c + 1][0] == mle(tables[2 * c + 1], point));
        assert(claims_wf(groups[c], n));
        lemma_weight_table(groups[c], group_alphas(groups, channel, c), n, point);
        assert(finals[c] == mle(columns[c], point));
    }
    lemma_sum_ext(k, left, right);
}

} // verus!
