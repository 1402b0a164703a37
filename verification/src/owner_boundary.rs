//! Linear constraints on single cells of a column, proved as one weighted sum.
use vstd::prelude::*;
use vstd::arithmetic::power2::pow2;
use crate::batch_eval::squeeze_alphas;
use crate::field::{BinaryField, TowerField, lemma_units};
use crate::mle::mle;
use crate::sum::{lemma_sum_ext, lemma_sum_scale, lemma_sum_single, lemma_sum_swap, sum};
use crate::sumcheck::{ProverRun, VerifierRun};
use crate::transcript::{FiatShamir, challenges, lemma_challenges_len, squeezed_by};
use crate::weighted_state::{WeightedRound, lemma_weighted_complete, prove_weighted_state_sumcheck, verify_weighted_state_sumcheck, weighted_accepts, weighted_check_run, weighted_messages, weighted_run, weighted_total};

verus! {

/// The tag of the sumcheck of the constraints.
pub const OWNER_AUTH_BOUNDARY_DOMAIN_TAG: u128 = 0xA07D_0B47_B0A0_0001;

/// A multiple of a cell.
#[derive(Clone, Copy, Debug, PartialEq, Eq, Structural)]
pub struct OwnerBoundaryTerm<F> {
    pub cell: usize,
    pub coeff: F,
}

/// A combination of cells that has a constant value.
#[derive(Clone, Debug, PartialEq, Eq)]
pub struct OwnerBoundaryConstraint<F> {
    pub terms: Vec<OwnerBoundaryTerm<F>>,
    pub constant: F,
}

/// The contents of a constraint.
pub struct ConstraintView<F> {
    pub terms: Seq<OwnerBoundaryTerm<F>>,
    pub constant: F,
}

/// The contents of constraints.
pub open spec fn constraint_views<F>(constraints: Seq<OwnerBoundaryConstraint<F>>) -> Seq<
    ConstraintView<F>,
> {
    Seq::new(
        constraints.len(),
        |c: int| ConstraintView { terms: constraints[c].terms@, constant: constraints[c].constant },
    )
}

/// The messages of the sumcheck, and the claim that it leaves.
#[derive(Clone, Debug, PartialEq, Eq)]
pub struct OwnerAuthBoundaryProof<F> {
    pub round_polys: Vec<WeightedRound<F>>,
    pub state_at_r: F,
}

/// The claim that the sumcheck leaves.
#[derive(Clone, Debug, PartialEq, Eq)]
pub struct OwnerAuthBoundaryReduction<F> {
    pub point: Vec<F>,
    pub state_at_r: F,
}

/// Every term names a cell.
pub open spec fn constraints_wf<F>(constraints: Seq<ConstraintView<F>>, cells: nat) -> bool {
    forall|c: int, t: int|
        0 <= c < constraints.len() && 0 <= t < constraints[c].terms.len()
            ==> #[trigger] constraints[c].terms[t].cell < cells
}

/// The combination that a constraint is about.
pub open spec fn constraint_value<F: BinaryField>(
    terms: Seq<OwnerBoundaryTerm<F>>,
    column: Seq<F>,
) -> F {
    sum(terms.len(), |t: int| terms[t].coeff.mul(column[terms[t].cell as int]))
}

/// Every constraint is true of the column.
pub open spec fn constraints_hold<F: BinaryField>(
    constraints: Seq<ConstraintView<F>>,
    column: Seq<F>,
) -> bool {
    forall|c: int|
        0 <= c < constraints.len() ==> (#[trigger] constraints[c]).constant == constraint_value(
            constraints[c].terms,
            column,
        )
}

/// What the first `k` terms give a cell.
pub open spec fn terms_at<F: BinaryField>(
    terms: Seq<OwnerBoundaryTerm<F>>,
    x: int,
    k: nat,
) -> F {
    sum(
        k,
        |t: int|
            if terms[t].cell == x {
                terms[t].coeff
            } else {
                F::zero()
            },
    )
}

/// The weight of a cell under the first `k` constraints.
pub open spec fn boundary_weight<F: BinaryField>(
    constraints: Seq<ConstraintView<F>>,
    alphas: Seq<F>,
    x: int,
    k: nat,
) -> F {
    sum(
        k,
        |c: int| alphas[c].mul(terms_at(constraints[c].terms, x, constraints[c].terms.len())),
    )
}

/// The table of the weights.
pub open spec fn boundary_weights<F: BinaryField>(
    constraints: Seq<ConstraintView<F>>,
    alphas: Seq<F>,
    cells: nat,
) -> Seq<F> {
    Seq::new(cells, |x: int| boundary_weight(constraints, alphas, x, constraints.len()))
}

/// The combination of the constants.
pub open spec fn boundary_target<F: BinaryField>(
    constraints: Seq<ConstraintView<F>>,
    alphas: Seq<F>,
) -> F {
    sum(constraints.len(), |c: int| alphas[c].mul(constraints[c].constant))
}

/// Builds the weights and the target.
pub fn owner_boundary_weights_and_target<F: TowerField>(
    constraints: &Vec<OwnerBoundaryConstraint<F>>,
    alphas: &[F],
    cells: usize,
) -> (r: (Vec<F>, F))
    requires
        alphas.len() == constraints.len(),
        constraints_wf(constraint_views(constraints@), cells as nat),
    ensures
        r.0@ == boundary_weights(constraint_views(constraints@), alphas@, cells as nat),
        r.1 == boundary_target(constraint_views(constraints@), alphas@),
{
    let ghost views = constraint_views(constraints@);
    let mut weights = crate::round_poly::zeros::<F>(cells);
    let mut target = F::zero_value();
    let ghost constants = |c: int| alphas@[c].mul(views[c].constant);
    let mut c: usize = 0;
    while c < constraints.len()
        invariant
            c <= constraints.len(),
            alphas.len() == constraints.len(),
            views == constraint_views(constraints@),
            constraints_wf(views, cells as nat),
            constants == (|c: int| alphas@[c].mul(views[c].constant)),
            target == sum(c as nat, constants),
            weights.len() == cells,
            forall|x: int|
                0 <= x < cells ==> #[trigger] weights[x] == boundary_weight(
                    views,
                    alphas@,
                    x,
                    c as nat,
                ),
        decreases constraints.len() - c,
    {
        let constraint = &constraints[c];
        let alpha = alphas[c];
        target = target.plus(alpha.times(constraint.constant));
        let ghost before = weights@;
        let ghost terms = views[c as int].terms;
        proof {
            assert forall|x: int| 0 <= x < cells implies #[trigger] weights[x] == before[x].add(
                alpha.mul(terms_at(terms, x, 0)),
            ) by {
                lemma_units(alpha);
                lemma_units(before[x]);
            }
        }
        let mut t: usize = 0;
        while t < constraint.terms.len()
            invariant
                t <= constraint.terms.len(),
                c < constraints.len(),
                views == constraint_views(constraints@),
                constraints_wf(views, cells as nat),
                terms == views[c as int].terms,
                terms == constraint.terms@,
                weights.len() == cells,
                before.len() == cells,
                forall|x: int|
                    0 <= x < cells ==> #[trigger] weights[x] == before[x].add(
                        alpha.mul(terms_at(terms, x, t as nat)),
                    ),
            decreases constraint.terms.len() - t,
        {
            let term = constraint.terms[t];
            let ghost now = weights@;
            proof {
                assert(views[c as int].terms[t as int].cell < cells);
            }
            let e = weights[term.cell].plus(alpha.times(term.coeff));
            weights.set(term.cell, e);
            proof {
                assert forall|x: int| 0 <= x < cells implies #[trigger] weights[x] == before[x].add(
                    alpha.mul(terms_at(terms, x, (t + 1) as nat)),
                ) by {
                    let prev = terms_at(terms, x, t as nat);
                    assert(now[x] == before[x].add(alpha.mul(prev)));
                    if x == term.cell {
                        F::mul_add(alpha, prev, term.coeff);
                        F::add_assoc(before[x], alpha.mul(prev), alpha.mul(term.coeff));
                    } else {
                        lemma_units(prev);
                    }
                }
            }
            t += 1;
        }
        proof {
            assert forall|x: int| 0 <= x < cells implies #[trigger] weights[x] == boundary_weight(
                views,
                alphas@,
                x,
                (c + 1) as nat,
            ) by {
                assert(before[x] == boundary_weight(views, alphas@, x, c as nat));
            }
        }
        c += 1;
    }
    proof {
        assert(weights@ =~= boundary_weights(views, alphas@, cells as nat));
    }
    (weights, target)
}

/// The sum of the multiples of one cell.
proof fn lemma_terms_value<F: BinaryField>(
    terms: Seq<OwnerBoundaryTerm<F>>,
    column: Seq<F>,
)
    requires
        forall|t: int| 0 <= t < terms.len() ==> (#[trigger] terms[t]).cell < column.len(),
    ensures
        sum(column.len(), |x: int| terms_at(terms, x, terms.len()).mul(column[x]))
            == constraint_value(terms, column),
{
    let m = terms.len();
    let n = column.len();
    let pick = |t: int, x: int|
        if terms[t].cell == x {
            terms[t].coeff.mul(column[x])
        } else {
            F::zero()
        };
    let left = |x: int| terms_at(terms, x, m).mul(column[x]);
    let by_cell = |x: int| sum(m, |t: int| pick(t, x));
    assert forall|x: int| 0 <= x < n implies #[trigger] left(x) == by_cell(x) by {
        let f = |t: int|
            if terms[t].cell == x {
                terms[t].coeff
            } else {
                F::zero()
            };
        lemma_sum_scale(m, column[x], f);
        let g = |t: int| column[x].mul(f(t));
        let h = |t: int| pick(t, x);
        assert forall|t: int| 0 <= t < m implies #[trigger] g(t) == h(t) by {
            F::mul_comm(column[x], f(t));
            lemma_units(column[x]);
        }
        lemma_sum_ext(m, g, h);
        F::mul_comm(column[x], terms_at(terms, x, m));
    }
    lemma_sum_ext(n, left, by_cell);
    let flipped = |x: int, t: int| pick(t, x);
    lemma_sum_swap(n, m, flipped);
    let rows = |x: int| sum(m, |t: int| flipped(x, t));
    assert forall|x: int| 0 <= x < n implies #[trigger] by_cell(x) == rows(x) by {
        lemma_sum_ext(m, |t: int| pick(t, x), |t: int| flipped(x, t));
    }
    lemma_sum_ext(n, by_cell, rows);
    let cols = |t: int| sum(n, |x: int| flipped(x, t));
    let want = |t: int| terms[t].coeff.mul(column[terms[t].cell as int]);
    assert forall|t: int| 0 <= t < m implies #[trigger] cols(t) == want(t) by {
        let f = |x: int| flipped(x, t);
        assert(terms[t].cell < n);
        lemma_sum_single(n, terms[t].cell as int, f);
    }
    lemma_sum_ext(m, cols, want);
}

/// True constraints combine to the weighted sum of the column.
pub proof fn lemma_boundary_target<F: BinaryField>(
    constraints: Seq<ConstraintView<F>>,
    alphas: Seq<F>,
    column: Seq<F>,
)
    requires
        constraints_wf(constraints, column.len()),
        constraints_hold(constraints, column),
    ensures
        boundary_target(constraints, alphas) == weighted_total(
            boundary_weights(constraints, alphas, column.len()),
            column,
        ),
{
    let k = constraints.len();
    let n = column.len();
    let at = |c: int, x: int| terms_at(constraints[c].terms, x, constraints[c].terms.len());
    let part = |c: int, x: int| alphas[c].mul(at(c, x)).mul(column[x]);
    let left = |c: int| alphas[c].mul(constraints[c].constant);
    let by_constraint = |c: int| sum(n, |x: int| part(c, x));
    assert forall|c: int| 0 <= c < k implies #[trigger] left(c) == by_constraint(c) by {
        let terms = constraints[c].terms;
        assert forall|t: int| 0 <= t < terms.len() implies (#[trigger] terms[t]).cell < n by {
            assert(constraints[c].terms[t].cell < n);
        }
        lemma_terms_value(terms, column);
        let f = |x: int| terms_at(terms, x, terms.len()).mul(column[x]);
        lemma_sum_scale(n, alphas[c], f);
        let g = |x: int| alphas[c].mul(f(x));
        let h = |x: int| part(c, x);
        assert forall|x: int| 0 <= x < n implies #[trigger] g(x) == h(x) by {
            F::mul_assoc(alphas[c], at(c, x), column[x]);
        }
        lemma_sum_ext(n, g, h);
    }
    lemma_sum_ext(k, left, by_constraint);
    lemma_sum_swap(k, n, part);
    let by_cell = |x: int| sum(k, |c: int| part(c, x));
    let w = boundary_weights(constraints, alphas, n);
    let want = |x: int| w[x].mul(column[x]);
    assert forall|x: int| 0 <= x < n implies #[trigger] by_cell(x) == want(x) by {
        let f = |c: int|
            alphas[c].mul(terms_at(constraints[c].terms, x, constraints[c].terms.len()));
        lemma_sum_scale(k, column[x], f);
        let g = |c: int| column[x].mul(f(c));
        let h = |c: int| part(c, x);
        assert forall|c: int| 0 <= c < k implies #[trigger] g(c) == h(c) by {
            F::mul_comm(column[x], f(c));
        }
        lemma_sum_ext(k, g, h);
        F::mul_comm(column[x], w[x]);
    }
    lemma_sum_ext(n, by_cell, want);
}

/// The transcript once the tag and the number of constraints are absorbed.
pub open spec fn boundary_bound<F: TowerField, T: FiatShamir<F>>(count: nat, channel: T) -> T {
    channel.absorbed(F::of_u128(OWNER_AUTH_BOUNDARY_DOMAIN_TAG)).absorbed(
        F::of_u128(count as u128),
    )
}

/// The challenges that combine the constraints.
pub open spec fn boundary_alphas<F: TowerField, T: FiatShamir<F>>(count: nat, channel: T) -> Seq<F> {
    challenges(boundary_bound(count, channel), count)
}

/// The transcript from which the rounds start.
pub open spec fn boundary_start<F: TowerField, T: FiatShamir<F>>(count: nat, channel: T) -> T {
    squeezed_by(boundary_bound(count, channel), count)
}

/// The prover's run.
pub open spec fn boundary_run<F: TowerField, T: FiatShamir<F>>(
    constraints: Seq<ConstraintView<F>>,
    column: Seq<F>,
    n: nat,
    channel: T,
) -> ProverRun<F, T> {
    let k = constraints.len();
    weighted_run(
        boundary_weights(constraints, boundary_alphas(k, channel), pow2(n)),
        column,
        n,
        boundary_start(k, channel),
    )
}

/// The verifier's run.
pub open spec fn boundary_check_run<F: TowerField, T: FiatShamir<F>>(
    rounds: Seq<WeightedRound<F>>,
    constraints: Seq<ConstraintView<F>>,
    channel: T,
) -> VerifierRun<F, T> {
    let k = constraints.len();
    weighted_check_run(
        rounds,
        boundary_target(constraints, boundary_alphas(k, channel)),
        boundary_start(k, channel),
    )
}

/// Whether the verifier accepts.
pub open spec fn boundary_accepts<F: TowerField, T: FiatShamir<F>>(
    proof: OwnerAuthBoundaryProof<F>,
    constraints: Seq<ConstraintView<F>>,
    n: nat,
    channel: T,
) -> bool {
    let k = constraints.len();
    let alphas = boundary_alphas(k, channel);
    weighted_accepts(
        proof.round_polys@,
        proof.state_at_r,
        n,
        boundary_weights(constraints, alphas, pow2(n)),
        boundary_target(constraints, alphas),
        boundary_start(k, channel),
    )
}

/// The transcript after the verifier.
pub open spec fn boundary_after<F: TowerField, T: FiatShamir<F>>(
    proof: OwnerAuthBoundaryProof<F>,
    constraints: Seq<ConstraintView<F>>,
    n: nat,
    channel: T,
) -> T {
    if proof.round_polys.len() != n {
        boundary_start(constraints.len(), channel)
    } else {
        let end = boundary_check_run(proof.round_polys@, constraints, channel).channel;
        if boundary_accepts(proof, constraints, n, channel) {
            end.absorbed(proof.state_at_r)
        } else {
            end
        }
    }
}

/// Runs the prover; returns the proof and the claim that is left.
pub fn prove_boundary<F: TowerField, T: FiatShamir<F>>(
    constraints: &Vec<OwnerBoundaryConstraint<F>>,
    column: &[F],
    n: usize,
    channel: &mut T,
) -> (out: (OwnerAuthBoundaryProof<F>, OwnerAuthBoundaryReduction<F>))
    requires
        column.len() == pow2(n as nat),
        constraints_wf(constraint_views(constraints@), column.len() as nat),
    ensures
        ({
            let run = boundary_run(
                constraint_views(constraints@),
                column@,
                n as nat,
                *old(channel),
            );
            &&& weighted_messages(out.0.round_polys@) == run.messages
            &&& out.0.round_polys.len() == n
            &&& out.1.point@ == run.challenges.reverse()
            &&& out.1.point.len() == n
            &&& out.0.state_at_r == mle(column@, out.1.point@)
            &&& out.1.state_at_r == out.0.state_at_r
            &&& *final(channel) == run.channel.absorbed(out.0.state_at_r)
        }),
{
    channel.absorb(F::from_u128(OWNER_AUTH_BOUNDARY_DOMAIN_TAG));
    channel.absorb(F::from_u128(constraints.len() as u128));
    proof {
        lemma_challenges_len(*channel, constraints.len() as nat);
    }
    let alphas = squeeze_alphas(channel, constraints.len());
    let (weights, _target) = owner_boundary_weights_and_target(
        constraints,
        alphas.as_slice(),
        column.len(),
    );
    let (round_polys, point, state_at_r) = prove_weighted_state_sumcheck(
        column,
        weights,
        n,
        channel,
    );
    channel.absorb(state_at_r);
    (
        OwnerAuthBoundaryProof { round_polys, state_at_r },
        OwnerAuthBoundaryReduction { point, state_at_r },
    )
}

/// Runs the verifier; on success returns the claim that is left.
pub fn verify_boundary<F: TowerField, T: FiatShamir<F>>(
    proof: &OwnerAuthBoundaryProof<F>,
    constraints: &Vec<OwnerBoundaryConstraint<F>>,
    n: usize,
    channel: &mut T,
) -> (out: Option<OwnerAuthBoundaryReduction<F>>)
    requires
        pow2(n as nat) <= usize::MAX,
        constraints_wf(constraint_views(constraints@), pow2(n as nat)),
    ensures
        out is Some <==> boundary_accepts(
            *proof,
            constraint_views(constraints@),
            n as nat,
            *old(channel),
        ),
        out matches Some(red) ==> red.point@ == boundary_check_run(
            proof.round_polys@,
            constraint_views(constraints@),
            *old(channel),
        ).challenges.reverse() && red.point.len() == n && red.state_at_r == proof.state_at_r,
        *final(channel) == boundary_after(
            *proof,
            constraint_views(constraints@),
            n as nat,
            *old(channel),
        ),
{
    channel.absorb(F::from_u128(OWNER_AUTH_BOUNDARY_DOMAIN_TAG));
    channel.absorb(F::from_u128(constraints.len() as u128));
    proof {
        lemma_challenges_len(*channel, constraints.len() as nat);
    }
    let alphas = squeeze_alphas(channel, constraints.len());
    let (weights, target) = owner_boundary_weights_and_target(
        constraints,
        alphas.as_slice(),
        crate::mle::pow2_usize(n),
    );
    let point = match verify_weighted_state_sumcheck(
        &proof.round_polys,
        proof.state_at_r,
        n,
        weights.as_slice(),
        target,
        channel,
    ) {
        Some(point) => point,
        None => {
            return None;
        },
    };
    channel.absorb(proof.state_at_r);
    Some(OwnerAuthBoundaryReduction { point, state_at_r: proof.state_at_r })
}

/// Completeness: the verifier accepts the honest proof of true constraints, and
/// arrives at the prover's point and transcript.
pub proof fn lemma_boundary_complete<F: TowerField, T: FiatShamir<F>>(
    constraints: Seq<ConstraintView<F>>,
    column: Seq<F>,
    n: nat,
    proof: OwnerAuthBoundaryProof<F>,
    channel: T,
)
    requires
        column.len() == pow2(n),
        constraints_wf(constraints, column.len()),
        constraints_hold(constraints, column),
        ({
            let run = boundary_run(constraints, column, n, channel);
            &&& weighted_messages(proof.round_polys@) == run.messages
            &&& proof.state_at_r == mle(column, run.challenges.reverse())
        }),
    ensures
        ({
            let run = boundary_run(constraints, column, n, channel);
            let check = boundary_check_run(proof.round_polys@, constraints, channel);
            &&& boundary_accepts(proof, constraints, n, channel)
            &&& check.challenges == run.challenges
            &&& check.channel == run.channel
            &&& run.challenges.len() == n
            &&& proof.round_polys.len() == n
        }),
{
    let k = constraints.len();
    let alphas = boundary_alphas(k, channel);
    lemma_boundary_target(constraints, alphas, column);
    lemma_weighted_complete(
        boundary_weights(constraints, alphas, pow2(n)),
        column,
        n,
        proof.round_polys@,
        boundary_target(constraints, alphas),
        boundary_start(k, channel),
    );
}

} // verus!
