//! The reduction of the claims of the state sumcheck to the state column.
//!
//! The claim on the state and those on its lanes one round earlier are combined
//! by powers of a challenge into one weighted sum of the state.
use vstd::prelude::*;
use vstd::arithmetic::power2::pow2;
use crate::field::{BinaryField, TowerField, lemma_add_mul};
use crate::mle::{eq_at, eq_ind_partial_eval, eq_table, lemma_mle_sum, mle};
use crate::owner_state::OwnerAuthUnifiedReduction;
use crate::poly::pow;
use crate::shift::{lemma_lanes_value, powers, row_weight};
use crate::sum::{lemma_sum_add, lemma_sum_ext, sum};
use crate::sumcheck::{ProverRun, VerifierRun};
use crate::table::subrange;
use crate::trace::{cell_lane, dec_table, inc_round_index, lane_of, lane_table, lemma_cell_of_parts, lemma_dec_bound, lemma_dec_inc, lemma_slots};
use crate::transcript::FiatShamir;
use crate::weighted_state::{WeightedRound, lemma_weighted_complete, prove_weighted_state_sumcheck, verify_weighted_state_sumcheck, weighted_accepts, weighted_check_run, weighted_messages, weighted_run, weighted_total};

verus! {

/// The messages of the reduction, and the claim that it leaves.
#[derive(Clone, Debug, PartialEq, Eq)]
pub struct OwnerAuthShiftProof<F> {
    pub round_polys: Vec<WeightedRound<F>>,
    pub state_at_r2: F,
}

/// The claim that the reduction leaves.
#[derive(Clone, Debug, PartialEq, Eq)]
pub struct OwnerAuthShiftReduction<F> {
    pub r_double_prime: Vec<F>,
    pub state_at_r2: F,
}

/// The weight of a cell.
pub open spec fn owner_weight<F: BinaryField>(r: Seq<F>, delta: F, x: int) -> F {
    eq_at(r, x).add(pow(delta, (1 + lane_of(x)) as nat).mul(row_weight(r, x)))
}

/// The table of the weights.
pub open spec fn owner_weights<F: BinaryField>(r: Seq<F>, delta: F) -> Seq<F> {
    Seq::new(pow2(r.len()), |x: int| owner_weight(r, delta, x))
}

/// The combination of the claims.
pub open spec fn owner_target<F: BinaryField>(state_at: F, lanes: Seq<F>, delta: F) -> F {
    state_at.add(sum(4, |j: int| pow(delta, (1 + j) as nat).mul(lanes[j])))
}

/// Builds the table of the weights.
pub fn build_owner_combined_weights<F: TowerField>(r: &[F], delta: F) -> (w: Vec<F>)
    requires
        r.len() >= 9,
        pow2(r.len() as nat) <= usize::MAX,
    ensures
        w@ == owner_weights(r@, delta),
{
    let n: usize = r.len();
    let high = subrange(r, 2, n);
    proof {
        lemma_slots(n as nat);
        vstd::arithmetic::power2::lemma2_to64();
        vstd::arithmetic::power2::lemma_pow2_adds(2, (n - 2) as nat);
        assert(high@ =~= r@.skip(2));
    }
    let eq_cell = eq_ind_partial_eval(r);
    let eq_row = eq_ind_partial_eval(high.as_slice());
    let d = powers(delta, 5);
    let cells: usize = eq_cell.len();
    let mut w: Vec<F> = Vec::new();
    let mut x: usize = 0;
    while x < cells
        invariant
            x <= cells,
            n == r.len(),
            n >= 9,
            cells == pow2(n as nat),
            cells % 512 == 0,
            cells == 4 * eq_row.len(),
            eq_cell@ == eq_table(r@),
            eq_row@ == eq_table(r@.skip(2)),
            d.len() == 5,
            forall|k: int| 0 <= k < 5 ==> #[trigger] d[k] == pow(delta, k as nat),
            w.len() == x,
            forall|k: int| 0 <= k < x ==> #[trigger] w[k] == owner_weight(r@, delta, k),
        decreases cells - x,
    {
        let ix: usize = inc_round_index(x);
        let lane: usize = cell_lane(x);
        proof {
            lemma_cell_of_parts(x as int);
            lemma_dec_inc(x as int);
            lemma_dec_bound(x as int, cells as int / 512);
            assert(d[1 + lane as int] == pow(delta, (1 + lane) as nat));
        }
        w.push(eq_cell[x].plus(d[1 + lane].times(eq_row[ix / 4])));
        x += 1;
    }
    proof {
        assert(w@ =~= owner_weights(r@, delta));
    }
    w
}

/// Computes [`owner_target`].
pub fn owner_combined_target<F: TowerField>(state_at: F, lanes: &[F; 4], delta: F) -> (r: F)
    ensures
        r == owner_target(state_at, lanes@, delta),
{
    let d = powers(delta, 5);
    let ghost f = |j: int| pow(delta, (1 + j) as nat).mul(lanes@[j]);
    let mut acc = F::zero_value();
    let mut j: usize = 0;
    while j < 4
        invariant
            j <= 4,
            d.len() == 5,
            forall|k: int| 0 <= k < 5 ==> #[trigger] d[k] == pow(delta, k as nat),
            f == (|j: int| pow(delta, (1 + j) as nat).mul(lanes@[j])),
            acc == sum(j as nat, f),
        decreases 4 - j,
    {
        proof {
            assert(d[1 + j as int] == pow(delta, (1 + j) as nat));
        }
        acc = acc.plus(d[1 + j].times(lanes[j]));
        j += 1;
    }
    state_at.plus(acc)
}

/// True claims combine to the weighted sum of the state.
pub proof fn lemma_owner_target<F: BinaryField>(state: Seq<F>, lanes: Seq<F>, r: Seq<F>, delta: F)
    requires
        r.len() >= 9,
        state.len() == pow2(r.len()),
        forall|j: int|
            0 <= j < 4 ==> #[trigger] lanes[j] == mle(lane_table(dec_table(state), j), r),
    ensures
        owner_target(mle(state, r), lanes, delta) == weighted_total(
            owner_weights(r, delta),
            state,
        ),
{
    let n = pow2(r.len());
    lemma_mle_sum(state, r);
    lemma_lanes_value(state, r, delta, 1);
    lemma_sum_ext(
        4,
        |j: int| pow(delta, (1 + j) as nat).mul(lanes[j]),
        |j: int| pow(delta, (1nat + j) as nat).mul(mle(lane_table(dec_table(state), j), r)),
    );
    let direct = |x: int| eq_at(r, x).mul(state[x]);
    let moved = |x: int|
        pow(delta, (1nat + lane_of(x)) as nat).mul(row_weight(r, x)).mul(state[x]);
    lemma_sum_add(n, direct, moved);
    let both = |x: int| direct(x).add(moved(x));
    let w = owner_weights(r, delta);
    let want = |x: int| w[x].mul(state[x]);
    assert forall|x: int| 0 <= x < n implies #[trigger] both(x) == want(x) by {
        lemma_add_mul(
            eq_at(r, x),
            pow(delta, (1 + lane_of(x)) as nat).mul(row_weight(r, x)),
            state[x],
        );
    }
    lemma_sum_ext(n, both, want);
}

/// The prover's run.
pub open spec fn owner_shift_run<F: TowerField, T: FiatShamir<F>>(
    state: Seq<F>,
    point: Seq<F>,
    channel: T,
) -> ProverRun<F, T> {
    weighted_run(
        owner_weights(point, channel.challenge()),
        state,
        point.len(),
        channel.squeezed(),
    )
}

/// The verifier's run.
pub open spec fn owner_shift_check_run<F: TowerField, T: FiatShamir<F>>(
    rounds: Seq<WeightedRound<F>>,
    state_at: F,
    lanes: Seq<F>,
    channel: T,
) -> VerifierRun<F, T> {
    weighted_check_run(
        rounds,
        owner_target(state_at, lanes, channel.challenge()),
        channel.squeezed(),
    )
}

/// Whether the verifier accepts.
pub open spec fn owner_shift_accepts<F: TowerField, T: FiatShamir<F>>(
    proof: OwnerAuthShiftProof<F>,
    point: Seq<F>,
    state_at: F,
    lanes: Seq<F>,
    channel: T,
) -> bool {
    let delta = channel.challenge();
    &&& proof.round_polys.len() == point.len()
    &&& weighted_accepts(
        proof.round_polys@,
        proof.state_at_r2,
        point.len(),
        owner_weights(point, delta),
        owner_target(state_at, lanes, delta),
        channel.squeezed(),
    )
}

/// The transcript after the verifier.
pub open spec fn owner_shift_after<F: TowerField, T: FiatShamir<F>>(
    proof: OwnerAuthShiftProof<F>,
    point: Seq<F>,
    state_at: F,
    lanes: Seq<F>,
    channel: T,
) -> T {
    if proof.round_polys.len() != point.len() {
        channel
    } else {
        let end = owner_shift_check_run(proof.round_polys@, state_at, lanes, channel).channel;
        if owner_shift_accepts(proof, point, state_at, lanes, channel) {
            end.absorbed(proof.state_at_r2)
        } else {
            end
        }
    }
}

/// Runs the prover; returns the proof and the final point.
pub fn prove_owner_shift<F: TowerField, T: FiatShamir<F>>(
    state: &[F],
    main_red: &OwnerAuthUnifiedReduction<F>,
    channel: &mut T,
) -> (out: (OwnerAuthShiftProof<F>, Vec<F>))
    requires
        main_red.r_prime.len() >= 9,
        state.len() == pow2(main_red.r_prime.len() as nat),
    ensures
        ({
            let run = owner_shift_run(state@, main_red.r_prime@, *old(channel));
            &&& weighted_messages(out.0.round_polys@) == run.messages
            &&& out.0.round_polys.len() == main_red.r_prime.len()
            &&& out.1@ == run.challenges.reverse()
            &&& out.1.len() == main_red.r_prime.len()
            &&& out.0.state_at_r2 == mle(state@, out.1@)
            &&& *final(channel) == run.channel.absorbed(out.0.state_at_r2)
        }),
{
    let delta = channel.squeeze();
    let weights = build_owner_combined_weights(main_red.r_prime.as_slice(), delta);
    let (round_polys, point, state_at_r2) = prove_weighted_state_sumcheck(
        state,
        weights,
        main_red.r_prime.len(),
        channel,
    );
    channel.absorb(state_at_r2);
    (OwnerAuthShiftProof { round_polys, state_at_r2 }, point)
}

/// Runs the verifier; on success returns the claim that is left.
pub fn verify_owner_shift<F: TowerField, T: FiatShamir<F>>(
    proof: &OwnerAuthShiftProof<F>,
    main_red: &OwnerAuthUnifiedReduction<F>,
    channel: &mut T,
) -> (out: Option<OwnerAuthShiftReduction<F>>)
    requires
        main_red.r_prime.len() >= 9,
        pow2(main_red.r_prime.len() as nat) <= usize::MAX,
    ensures
        out is Some <==> owner_shift_accepts(
            *proof,
            main_red.r_prime@,
            main_red.state_at_r,
            main_red.state_lane_dec_at_r@,
            *old(channel),
        ),
        out matches Some(red) ==> red.r_double_prime@ == owner_shift_check_run(
            proof.round_polys@,
            main_red.state_at_r,
            main_red.state_lane_dec_at_r@,
            *old(channel),
        ).challenges.reverse() && red.r_double_prime.len() == main_red.r_prime.len()
            && red.state_at_r2 == proof.state_at_r2,
        *final(channel) == owner_shift_after(
            *proof,
            main_red.r_prime@,
            main_red.state_at_r,
            main_red.state_lane_dec_at_r@,
            *old(channel),
        ),
{
    let n: usize = main_red.r_prime.len();
    if proof.round_polys.len() != n {
        return None;
    }
    let delta = channel.squeeze();
    let target = owner_combined_target(
        main_red.state_at_r,
        &main_red.state_lane_dec_at_r,
        delta,
    );
    let weights = build_owner_combined_weights(main_red.r_prime.as_slice(), delta);
    let point = match verify_weighted_state_sumcheck(
        &proof.round_polys,
        proof.state_at_r2,
        n,
        weights.as_slice(),
        target,
        channel,
    ) {
        Some(point) => point,
        None => {
            return None;
        },
    };
    channel.absorb(proof.state_at_r2);
    Some(OwnerAuthShiftReduction { r_double_prime: point, state_at_r2: proof.state_at_r2 })
}

/// Completeness: the verifier accepts the honest reduction of true claims, and
/// arrives at the prover's point and transcript.
pub proof fn lemma_owner_shift_complete<F: TowerField, T: FiatShamir<F>>(
    state: Seq<F>,
    point: Seq<F>,
    lanes: Seq<F>,
    proof: OwnerAuthShiftProof<F>,
    channel: T,
)
    requires
        point.len() >= 9,
        state.len() == pow2(point.len()),
        forall|j: int|
            0 <= j < 4 ==> #[trigger] lanes[j] == mle(lane_table(dec_table(state), j), point),
        proof.round_polys.len() == point.len(),
        ({
            let run = owner_shift_run(state, point, channel);
            &&& weighted_messages(proof.round_polys@) == run.messages
            &&& proof.state_at_r2 == mle(state, run.challenges.reverse())
        }),
    ensures
        ({
            let run = owner_shift_run(state, point, channel);
            let check = owner_shift_check_run(
                proof.round_polys@,
                mle(state, point),
                lanes,
                channel,
            );
            &&& owner_shift_accepts(proof, point, mle(state, point), lanes, channel)
            &&& check.challenges == run.challenges
            &&& check.channel == run.channel
            &&& run.challenges.len() == point.len()
        }),
{
    let delta = channel.challenge();
    lemma_owner_target(state, lanes, point, delta);
    lemma_weighted_complete(
        owner_weights(point, delta),
        state,
        point.len(),
        proof.round_polys@,
        owner_target(mle(state, point), lanes, delta),
        channel.squeezed(),
    );
}

} // verus!
