//! The proof of an authorization by the owner.
//!
//! The prover commits to the state column of the trace before any challenge is
//! drawn. Three sumchecks each leave one claim on the column: that it is the
//! trace of a permutation, that its claims one round earlier are claims on it,
//! and that its input and output are as the statement says. One reduction brings
//! the three claims to a point, where the commitment is opened.
use vstd::prelude::*;
use crate::auth_killshot::absorb_pair;
use crate::auth_pcs::{AuthMleOpeningProof, absorb_auth_mle_commitment, commit_auth_mle_column, commitment_absorbed, is_opening, lemma_opening_complete, open_auth_mle_committed, opening_accepted, verify_auth_mle_opening};
use crate::batch_eval::{BatchEvalProof, BatchEvalReduction, ClaimView, EvalClaim, batch_accepts, batch_check_run, batch_messages, batch_run, claims_hold, claims_view, claims_wf, lemma_batch_complete, prove_batch_eval, verify_batch_eval};
use crate::column_scheme::ColumnScheme;
use crate::compressed_rounds::{CompressedRoundPolynomial, wire_messages};
use crate::field::TowerField;
use crate::interleaved_commit::InterleavedCommitment;
use crate::layers::PermParams;
use crate::mixed_open::column_values;
use crate::mle::{evaluate_slice, mle};
use crate::owner_auth::{OWNER_AUTH_LIVE_SLOTS, OWNER_AUTH_NUM_VARS, OWNER_AUTH_PADDED_SLOTS, OWNER_AUTH_SLOT_BITS, OwnerAuthCircuit, OwnerAuthInputs, OwnerAuthLayout, OwnerAuthParams, OwnerAuthPublicInputs, OwnerAuthUnifiedMle, build_owner_auth_unified_from_inputs, lemma_constraints_wf, lemma_owner_constraints, owner_address, owner_auth_boundary_constraints, owner_constraints, owner_input};
use crate::owner_boundary::{ConstraintView, OwnerAuthBoundaryProof, OwnerAuthBoundaryReduction, boundary_accepts, boundary_after, boundary_check_run, boundary_run, lemma_boundary_complete, prove_boundary, verify_boundary};
use crate::owner_shift::{OwnerAuthShiftProof, OwnerAuthShiftReduction, lemma_owner_shift_complete, owner_shift_accepts, owner_shift_after, owner_shift_check_run, owner_shift_run, prove_owner_shift, verify_owner_shift};
use crate::owner_state::{OWNER_AUTH_STATE_ROUND_DEGREE, OwnerAuthUnifiedProof, OwnerAuthUnifiedReduction, lemma_state_complete, prove_trace_state, state_accepts, state_after, state_check_run, state_claims_hold, state_claims_of, state_run, state_shape, verify_trace_state};
use crate::sumcheck::lemma_run_challenges;
use crate::table::copied;
use crate::trace_mle::state_column;
use crate::transcript::{FiatShamir, absorb_all, lemma_absorb_all_add};
use crate::weighted_state::weighted_messages;

verus! {

/// The degree of a round of the first sumcheck.
pub const OWNER_AUTH_UNIFIED_ROUND_DEGREE: usize = OWNER_AUTH_STATE_ROUND_DEGREE;

/// The degree of a round of the second sumcheck.
pub const OWNER_AUTH_SHIFT_ROUND_DEGREE: usize = 2;

/// The degree of a round of the third sumcheck.
pub const OWNER_AUTH_BOUNDARY_ROUND_DEGREE: usize = 2;

/// The first element that an owner's authorization transcript absorbs.
pub const OWNER_AUTH_GKR_DOMAIN_TAG: u128 = 0xA07D_0B47_CAFE_0004;

/// The first two sumchecks.
#[derive(Clone, Debug, PartialEq, Eq)]
pub struct OwnerAuthKillShotProof<F> {
    pub main: OwnerAuthUnifiedProof<F>,
    pub shift: OwnerAuthShiftProof<F>,
}

/// The proof of an authorization.
#[derive(Clone, Debug, PartialEq, Eq)]
pub struct OwnerAuthProofKillShot<F, O> {
    pub kill_shot: OwnerAuthKillShotProof<F>,
    pub boundary: OwnerAuthBoundaryProof<F>,
    pub batch: BatchEvalProof<F>,
    pub pcs: AuthMleOpeningProof<O>,
}

/// The claims that the verifier meets.
#[derive(Clone, Debug, PartialEq, Eq)]
pub struct OwnerAuthVerifierClaims<F> {
    pub main: OwnerAuthUnifiedReduction<F>,
    pub shift: OwnerAuthShiftReduction<F>,
    pub boundary: OwnerAuthBoundaryReduction<F>,
    pub state_claims: Vec<EvalClaim<F>>,
    pub state: BatchEvalReduction<F>,
}

/// The claim that an authorization leaves.
#[derive(Clone, Debug, PartialEq, Eq)]
pub struct OwnerAuthKillShotReductions<F> {
    pub state: BatchEvalReduction<F>,
}

/// The size of the rounds of the first sumcheck.
pub open spec fn main_size<F>(polys: Seq<CompressedRoundPolynomial<F>>, k: nat) -> nat
    decreases k,
{
    if k == 0 {
        0
    } else {
        main_size(polys, (k - 1) as nat) + polys[k - 1].coeffs_no_linear.len() as nat * 16
    }
}

proof fn lemma_main_size<F>(polys: Seq<CompressedRoundPolynomial<F>>, j: nat, k: nat)
    requires
        j <= k <= polys.len(),
    ensures
        main_size(polys, j) <= main_size(polys, k),
    decreases k,
{
    if j < k {
        lemma_main_size(polys, j, (k - 1) as nat);
    }
}

impl<F: TowerField, O> OwnerAuthProofKillShot<F, O> {
    /// The size in bytes: 16 a field element, and the opening.
    pub open spec fn size<S: ColumnScheme<F, Opening = O>>(&self) -> nat {
        let main = self.kill_shot.main.round_polys;
        main_size(main@, main.len() as nat) + self.kill_shot.shift.round_polys.len() as nat * 32
            + self.boundary.round_polys.len() as nat * 32 + 5 * 16 + 16 + 16
            + self.batch.rounds.len() as nat * 48 + 16 + self.pcs.size::<F, S>()
    }

    /// Computes [`OwnerAuthProofKillShot::size`].
    pub fn byte_len<S: ColumnScheme<F, Opening = O>>(&self) -> (r: usize)
        requires
            self.size::<S>() <= usize::MAX,
        ensures
            r == self.size::<S>(),
    {
        let polys = &self.kill_shot.main.round_polys;
        let mut main_polys: usize = 0;
        let mut i: usize = 0;
        while i < polys.len()
            invariant
                i <= polys.len(),
                main_polys == main_size(polys@, i as nat),
                main_size(polys@, polys.len() as nat) <= usize::MAX,
            decreases polys.len() - i,
        {
            proof {
                lemma_main_size(polys@, (i + 1) as nat, polys.len() as nat);
            }
            main_polys = main_polys + polys[i].coeffs_no_linear.len() * 16;
            i += 1;
        }
        main_polys + self.kill_shot.shift.round_polys.len() * 32 + self.boundary.round_polys.len()
            * 32 + 5 * 16 + 16 + 16 + self.batch.byte_len() + self.pcs.byte_len::<F, S>()
    }
}

/// Starts an owner's authorization transcript.
pub fn init_owner_auth_gkr_channel<F: TowerField, T: FiatShamir<F>>(channel: &mut T)
    ensures
        *final(channel) == old(channel).absorbed(F::of_u128(OWNER_AUTH_GKR_DOMAIN_TAG)),
{
    channel.absorb(F::from_u128(OWNER_AUTH_GKR_DOMAIN_TAG));
}

/// A started transcript.
pub fn owner_auth_gkr_channel<F: TowerField, T: FiatShamir<F>>(channel: T) -> (r: T)
    ensures
        r == channel.absorbed(F::of_u128(OWNER_AUTH_GKR_DOMAIN_TAG)),
{
    let mut r = channel;
    init_owner_auth_gkr_channel(&mut r);
    r
}

/// What the transcript absorbs of the statement: the geometry, the body hash and
/// the address.
pub open spec fn owner_elems<F: TowerField>(public: OwnerAuthPublicInputs<F>) -> Seq<F> {
    seq![
        F::of_u128(1),
        F::of_u128(OWNER_AUTH_LIVE_SLOTS as u128),
        F::of_u128(OWNER_AUTH_SLOT_BITS as u128),
        F::of_u128(OWNER_AUTH_NUM_VARS as u128),
        F::of_u128(OWNER_AUTH_PADDED_SLOTS as u128),
    ] + public.tx_body_hash@ + public.expected_address@
}

/// Absorbs the statement.
fn absorb_owner_public_boundary<F: TowerField, T: FiatShamir<F>>(
    channel: &mut T,
    inputs: &OwnerAuthPublicInputs<F>,
)
    ensures
        *final(channel) == absorb_all(*old(channel), owner_elems(*inputs)),
{
    let ghost begin = *channel;
    let first = [
        F::from_u128(1),
        F::from_u128(OWNER_AUTH_LIVE_SLOTS as u128),
        F::from_u128(OWNER_AUTH_SLOT_BITS as u128),
        F::from_u128(OWNER_AUTH_NUM_VARS as u128),
        F::from_u128(OWNER_AUTH_PADDED_SLOTS as u128),
    ];
    crate::transcript::absorb_slice(channel, first.as_slice());
    absorb_pair(channel, &inputs.tx_body_hash);
    absorb_pair(channel, &inputs.expected_address);
    proof {
        assert(first@ =~= seq![
            F::of_u128(1),
            F::of_u128(OWNER_AUTH_LIVE_SLOTS as u128),
            F::of_u128(OWNER_AUTH_SLOT_BITS as u128),
            F::of_u128(OWNER_AUTH_NUM_VARS as u128),
            F::of_u128(OWNER_AUTH_PADDED_SLOTS as u128),
        ]);
        lemma_absorb_all_add(begin, first@, inputs.tx_body_hash@);
        lemma_absorb_all_add(begin, first@ + inputs.tx_body_hash@, inputs.expected_address@);
    }
}

/// The three claims on the state column.
pub open spec fn owner_claims<F, O>(
    proof: OwnerAuthProofKillShot<F, O>,
    r1: Seq<F>,
    r2: Seq<F>,
    r3: Seq<F>,
) -> Seq<ClaimView<F>> {
    seq![
        ClaimView { point: r1, value: proof.kill_shot.main.state_at_r },
        ClaimView { point: r2, value: proof.kill_shot.shift.state_at_r2 },
        ClaimView { point: r3, value: proof.boundary.state_at_r },
    ]
}

/// The transcript after the statement and the commitment.
pub open spec fn owner_start<F: TowerField, T: FiatShamir<F>, S: ColumnScheme<F>>(
    public: OwnerAuthPublicInputs<F>,
    commitment: InterleavedCommitment,
    channel: T,
) -> T {
    commitment_absorbed::<F, T, S>(absorb_all(channel, owner_elems(public)), commitment)
}

/// The points of the claims, the final point, and the transcript that is left.
pub struct OwnerRun<F, T> {
    pub r1: Seq<F>,
    pub r2: Seq<F>,
    pub r3: Seq<F>,
    pub point: Seq<F>,
    pub channel: T,
}

/// The prover's run from a given transcript.
pub open spec fn owner_run<F: TowerField, T: FiatShamir<F>, O>(
    params: PermParams<F>,
    constraints: Seq<ConstraintView<F>>,
    state: Seq<F>,
    start: T,
    proof: OwnerAuthProofKillShot<F, O>,
) -> OwnerRun<F, T> {
    let n = OWNER_AUTH_NUM_VARS as nat;
    let main = state_run(params, 1, n, state, start);
    let r1 = main.challenges.reverse();
    let c1 = absorb_all(main.channel, state_claims_of(proof.kill_shot.main));
    let shift = owner_shift_run(state, r1, c1);
    let r2 = shift.challenges.reverse();
    let c2 = shift.channel.absorbed(proof.kill_shot.shift.state_at_r2);
    let boundary = boundary_run(constraints, state, n, c2);
    let r3 = boundary.challenges.reverse();
    let c3 = boundary.channel.absorbed(proof.boundary.state_at_r);
    let batch = batch_run(state, owner_claims(proof, r1, r2, r3), n, c3);
    OwnerRun { r1, r2, r3, point: batch.challenges.reverse(), channel: batch.channel }
}

/// The proof of an authorization, apart from the opening.
pub open spec fn is_owner_core<F: TowerField, T: FiatShamir<F>, O>(
    params: PermParams<F>,
    constraints: Seq<ConstraintView<F>>,
    state: Seq<F>,
    start: T,
    proof: OwnerAuthProofKillShot<F, O>,
) -> bool {
    let n = OWNER_AUTH_NUM_VARS as nat;
    let run = owner_run(params, constraints, state, start, proof);
    let main = state_run(params, 1, n, state, start);
    let c1 = absorb_all(main.channel, state_claims_of(proof.kill_shot.main));
    let shift = owner_shift_run(state, run.r1, c1);
    let c2 = shift.channel.absorbed(proof.kill_shot.shift.state_at_r2);
    let boundary = boundary_run(constraints, state, n, c2);
    let c3 = boundary.channel.absorbed(proof.boundary.state_at_r);
    let batch = batch_run(state, owner_claims(proof, run.r1, run.r2, run.r3), n, c3);
    &&& wire_messages(proof.kill_shot.main.round_polys@) == main.messages
    &&& state_shape(proof.kill_shot.main.round_polys@, n)
    &&& state_claims_hold(proof.kill_shot.main, state, run.r1)
    &&& weighted_messages(proof.kill_shot.shift.round_polys@) == shift.messages
    &&& proof.kill_shot.shift.round_polys.len() == n
    &&& proof.kill_shot.shift.state_at_r2 == mle(state, run.r2)
    &&& weighted_messages(proof.boundary.round_polys@) == boundary.messages
    &&& proof.boundary.state_at_r == mle(state, run.r3)
    &&& batch_messages(proof.batch.rounds@) == batch.messages
    &&& proof.batch.b_final == mle(state, run.point)
}

/// The constraints of a statement.
pub open spec fn statement_constraints<F: TowerField>(
    p: OwnerAuthParams<F>,
    public: OwnerAuthPublicInputs<F>,
) -> Seq<ConstraintView<F>> {
    owner_constraints(p.mds_inverse, p.address_iv, public.expected_address)
}

/// The proof of an authorization of a statement, over a state column.
pub open spec fn is_owner_proof<
    'b,
    F: TowerField,
    T: FiatShamir<F>,
    S: ColumnScheme<F>,
>(
    p: OwnerAuthParams<F>,
    state: Seq<F>,
    public: OwnerAuthPublicInputs<F>,
    scheme: &'b S,
    channel: T,
    proof: OwnerAuthProofKillShot<F, S::Opening>,
) -> bool {
    let start = owner_start::<F, T, S>(public, proof.pcs.commitment, channel);
    let constraints = statement_constraints(p, public);
    &&& is_owner_core(p.params, constraints, state, start, proof)
    &&& is_opening(
        *scheme,
        seq![state],
        owner_run(p.params, constraints, state, start, proof).point,
        proof.pcs,
    )
}

/// The three claims.
fn build_owner_claims<F: TowerField>(
    r1: &Vec<F>,
    v1: F,
    r2: &Vec<F>,
    v2: F,
    r3: &Vec<F>,
    v3: F,
) -> (r: Vec<EvalClaim<F>>)
    ensures
        claims_view(r@) == seq![
            ClaimView { point: r1@, value: v1 },
            ClaimView { point: r2@, value: v2 },
            ClaimView { point: r3@, value: v3 },
        ],
        r[0].point@ == r1@,
        r.len() == 3,
{
    let mut r: Vec<EvalClaim<F>> = Vec::new();
    r.push(EvalClaim { point: copied(r1.as_slice()), value: v1 });
    r.push(EvalClaim { point: copied(r2.as_slice()), value: v2 });
    r.push(EvalClaim { point: copied(r3.as_slice()), value: v3 });
    proof {
        assert(claims_view(r@) =~= seq![
            ClaimView { point: r1@, value: v1 },
            ClaimView { point: r2@, value: v2 },
            ClaimView { point: r3@, value: v3 },
        ]);
    }
    r
}

/// Proves that a column is the trace of a permutation; returns the proof and the
/// final point.
pub fn prove_owner_auth_unified<F: TowerField, T: FiatShamir<F>>(
    params: &PermParams<F>,
    mle: &OwnerAuthUnifiedMle<F>,
    channel: &mut T,
) -> (out: (OwnerAuthUnifiedProof<F>, Vec<F>))
    requires
        mle.wf(),
    ensures
        ({
            let run = state_run(
                *params,
                1,
                OWNER_AUTH_NUM_VARS as nat,
                mle.state@,
                *old(channel),
            );
            &&& wire_messages(out.0.round_polys@) == run.messages
            &&& out.1@ == run.challenges.reverse()
            &&& *final(channel) == absorb_all(run.channel, state_claims_of(out.0))
        }),
        out.1.len() == OWNER_AUTH_NUM_VARS,
        state_claims_hold(out.0, mle.state@, out.1@),
        state_shape(out.0.round_polys@, OWNER_AUTH_NUM_VARS as nat),
{
    proof {
        vstd::arithmetic::power2::lemma2_to64();
    }
    prove_trace_state(
        params,
        mle.state.as_slice(),
        OWNER_AUTH_NUM_VARS,
        OWNER_AUTH_LIVE_SLOTS,
        channel,
    )
}

/// Verifies the first sumcheck.
pub fn verify_owner_auth_unified<F: TowerField, T: FiatShamir<F>>(
    params: &PermParams<F>,
    proof: &OwnerAuthUnifiedProof<F>,
    layout: OwnerAuthLayout,
    channel: &mut T,
) -> (out: Option<OwnerAuthUnifiedReduction<F>>)
    ensures
        ({
            let n = OWNER_AUTH_NUM_VARS as nat;
            &&& out is Some <==> state_accepts(*params, 1, n, *proof, *old(channel))
            &&& out matches Some(red) ==> {
                &&& red.r_prime@ == state_check_run(
                    proof.round_polys@,
                    n,
                    *old(channel),
                ).challenges.reverse()
                &&& red.r_prime.len() == n
                &&& red.state_at_r == proof.state_at_r
                &&& red.state_lane_dec_at_r == proof.state_lane_dec_at_r
            }
            &&& *final(channel) == state_after(*params, 1, n, *proof, *old(channel))
        }),
{
    proof {
        vstd::arithmetic::power2::lemma2_to64();
    }
    verify_trace_state(params, proof, OWNER_AUTH_NUM_VARS, OWNER_AUTH_LIVE_SLOTS, channel)
}

/// Reduces the claims of the first sumcheck to the column.
pub fn prove_owner_auth_shift<F: TowerField, T: FiatShamir<F>>(
    mle: &OwnerAuthUnifiedMle<F>,
    main_red: &OwnerAuthUnifiedReduction<F>,
    channel: &mut T,
) -> (out: (OwnerAuthShiftProof<F>, Vec<F>))
    requires
        mle.wf(),
        main_red.r_prime.len() == OWNER_AUTH_NUM_VARS,
    ensures
        ({
            let run = owner_shift_run(mle.state@, main_red.r_prime@, *old(channel));
            &&& weighted_messages(out.0.round_polys@) == run.messages
            &&& out.0.round_polys.len() == OWNER_AUTH_NUM_VARS
            &&& out.1@ == run.challenges.reverse()
            &&& out.1.len() == OWNER_AUTH_NUM_VARS
            &&& out.0.state_at_r2 == crate::mle::mle(mle.state@, out.1@)
            &&& *final(channel) == run.channel.absorbed(out.0.state_at_r2)
        }),
{
    proof {
        vstd::arithmetic::power2::lemma2_to64();
    }
    prove_owner_shift(mle.state.as_slice(), main_red, channel)
}

/// Verifies the second sumcheck.
pub fn verify_owner_auth_shift<F: TowerField, T: FiatShamir<F>>(
    proof: &OwnerAuthShiftProof<F>,
    layout: OwnerAuthLayout,
    main_red: &OwnerAuthUnifiedReduction<F>,
    channel: &mut T,
) -> (out: Option<OwnerAuthShiftReduction<F>>)
    requires
        main_red.r_prime.len() == OWNER_AUTH_NUM_VARS,
    ensures
        out is Some <==> owner_shift_accepts(
            *proof,
            main_red.r_prime@,
            main_red.state_at_r,
            main_red.state_lane_dec_at_r@,
            *old(channel),
        ),
        out matches Some(red) ==> red.r_double_prime@ == owner_shift_check_run(
            proof.round_polys@,
            main_red.state_at_r,
            main_red.state_lane_dec_at_r@,
            *old(channel),
        ).challenges.reverse() && red.r_double_prime.len() == OWNER_AUTH_NUM_VARS
            && red.state_at_r2 == proof.state_at_r2,
        *final(channel) == owner_shift_after(
            *proof,
            main_red.r_prime@,
            main_red.state_at_r,
            main_red.state_lane_dec_at_r@,
            *old(channel),
        ),
{
    proof {
        vstd::arithmetic::power2::lemma2_to64();
    }
    verify_owner_shift(proof, main_red, channel)
}

/// Proves the constraints of a statement.
pub fn prove_owner_auth_boundary<F: TowerField, T: FiatShamir<F>>(
    p: &OwnerAuthParams<F>,
    public: &OwnerAuthPublicInputs<F>,
    mle: &OwnerAuthUnifiedMle<F>,
    channel: &mut T,
) -> (out: (OwnerAuthBoundaryProof<F>, OwnerAuthBoundaryReduction<F>))
    requires
        mle.wf(),
    ensures
        ({
            let run = boundary_run(
                statement_constraints(*p, *public),
                mle.state@,
                OWNER_AUTH_NUM_VARS as nat,
                *old(channel),
            );
            &&& weighted_messages(out.0.round_polys@) == run.messages
            &&& out.0.round_polys.len() == OWNER_AUTH_NUM_VARS
            &&& out.1.point@ == run.challenges.reverse()
            &&& out.1.point.len() == OWNER_AUTH_NUM_VARS
            &&& out.0.state_at_r == crate::mle::mle(mle.state@, out.1.point@)
            &&& out.1.state_at_r == out.0.state_at_r
            &&& *final(channel) == run.channel.absorbed(out.0.state_at_r)
        }),
{
    proof {
        vstd::arithmetic::power2::lemma2_to64();
    }
    let constraints = owner_auth_boundary_constraints(p, public);
    prove_boundary(&constraints, mle.state.as_slice(), OWNER_AUTH_NUM_VARS, channel)
}

/// Verifies the constraints of a statement.
pub fn verify_owner_auth_boundary<F: TowerField, T: FiatShamir<F>>(
    p: &OwnerAuthParams<F>,
    proof: &OwnerAuthBoundaryProof<F>,
    public: &OwnerAuthPublicInputs<F>,
    channel: &mut T,
) -> (out: Option<OwnerAuthBoundaryReduction<F>>)
    ensures
        ({
            let n = OWNER_AUTH_NUM_VARS as nat;
            let constraints = statement_constraints(*p, *public);
            &&& out is Some <==> boundary_accepts(*proof, constraints, n, *old(channel))
            &&& out matches Some(red) ==> red.point@ == boundary_check_run(
                proof.round_polys@,
                constraints,
                *old(channel),
            ).challenges.reverse() && red.point.len() == n && red.state_at_r == proof.state_at_r
            &&& *final(channel) == boundary_after(*proof, constraints, n, *old(channel))
        }),
{
    proof {
        vstd::arithmetic::power2::lemma2_to64();
    }
    let constraints = owner_auth_boundary_constraints(p, public);
    verify_boundary(proof, &constraints, OWNER_AUTH_NUM_VARS, channel)
}

/// Proves an authorization from its columns.
pub fn prove_owner_auth_killshot_from_mle<
    'b,
    F: TowerField,
    T: FiatShamir<F>,
    S: ColumnScheme<F>,
>(
    p: &OwnerAuthParams<F>,
    public: &OwnerAuthPublicInputs<F>,
    mle: &OwnerAuthUnifiedMle<F>,
    scheme: &'b S,
    channel: &mut T,
) -> (out: (OwnerAuthProofKillShot<F, S::Opening>, OwnerAuthKillShotReductions<F>))
    requires
        scheme.fits(OWNER_AUTH_NUM_VARS as nat, 1),
        mle.wf(),
    ensures
        is_owner_proof(*p, mle.state@, *public, scheme, *old(channel), out.0),
        ({
            let run = owner_run(
                p.params,
                statement_constraints(*p, *public),
                mle.state@,
                owner_start::<F, T, S>(*public, out.0.pcs.commitment, *old(channel)),
                out.0,
            );
            &&& out.1.state.point@ == run.point
            &&& out.1.state.value == crate::mle::mle(mle.state@, run.point)
            &&& out.1.state.point.len() == OWNER_AUTH_NUM_VARS
            &&& *final(channel) == run.channel
        }),
{
    proof {
        vstd::arithmetic::power2::lemma2_to64();
    }
    let ghost begin = *channel;
    let ghost state = mle.state@;
    let ghost n = OWNER_AUTH_NUM_VARS as nat;
    let mut committed = commit_auth_mle_column(
        mle.state.as_slice(),
        OWNER_AUTH_NUM_VARS,
        scheme,
    );
    absorb_owner_public_boundary(channel, public);
    absorb_auth_mle_commitment::<F, T, S>(channel, &committed.commitment);
    let ghost commitment = committed.commitment;
    let ghost start = *channel;
    let (main, r_prime) = prove_owner_auth_unified(&p.params, mle, channel);
    let main_red = OwnerAuthUnifiedReduction {
        r_prime: copied(r_prime.as_slice()),
        state_at_r: main.state_at_r,
        state_lane_dec_at_r: main.state_lane_dec_at_r,
    };
    let (shift, r_double_prime) = prove_owner_auth_shift(mle, &main_red, channel);
    let (boundary, boundary_red) = prove_owner_auth_boundary(p, public, mle, channel);
    let claims = build_owner_claims(
        &r_prime,
        main.state_at_r,
        &r_double_prime,
        shift.state_at_r2,
        &boundary_red.point,
        boundary_red.state_at_r,
    );
    let ghost c3 = *channel;
    let (batch, red) = prove_batch_eval(mle.state.as_slice(), claims.as_slice(), channel);
    proof {
        let tables = seq![
            crate::batch_eval::weight_table(
                claims_view(claims@),
                crate::batch_eval::batch_alphas(claims_view(claims@), c3),
                n,
            ),
            state,
        ];
        lemma_run_challenges(
            tables,
            crate::batch_eval::batch_channel(claims_view(claims@), c3),
            crate::batch_eval::batch_message::<F>(),
            n,
        );
    }
    let pcs_proof = open_auth_mle_committed(
        &mut committed,
        OWNER_AUTH_NUM_VARS,
        &red,
        scheme,
    );
    let proof_out = OwnerAuthProofKillShot {
        kill_shot: OwnerAuthKillShotProof { main, shift },
        boundary,
        batch,
        pcs: pcs_proof,
    };
    proof {
        assert(owner_start::<F, T, S>(*public, proof_out.pcs.commitment, begin) == start);
        assert(claims_view(claims@) =~= owner_claims(
            proof_out,
            r_prime@,
            r_double_prime@,
            boundary_red.point@,
        ));
    }
    (proof_out, OwnerAuthKillShotReductions { state: red })
}

/// Proves an authorization.
pub fn prove_owner_auth_killshot<
    'b,
    F: TowerField,
    T: FiatShamir<F>,
    S: ColumnScheme<F>,
>(
    p: &OwnerAuthParams<F>,
    circuit: &OwnerAuthCircuit<F>,
    inputs: &OwnerAuthInputs<F>,
    scheme: &'b S,
    channel: &mut T,
) -> (out: (OwnerAuthProofKillShot<F, S::Opening>, OwnerAuthKillShotReductions<F>))
    requires
        scheme.fits(OWNER_AUTH_NUM_VARS as nat, 1),
        circuit.of(p.address_iv),
    ensures
        ({
            let state = owner_column(*p, inputs.secret());
            let run = owner_run(
                p.params,
                statement_constraints(*p, inputs.public()),
                state,
                owner_start::<F, T, S>(inputs.public(), out.0.pcs.commitment, *old(channel)),
                out.0,
            );
            &&& is_owner_proof(
                *p,
                state,
                inputs.public(),
                scheme,
                *old(channel),
                out.0,
            )
            &&& out.1.state.point@ == run.point
            &&& out.1.state.value == mle(state, run.point)
            &&& out.1.state.point.len() == OWNER_AUTH_NUM_VARS
            &&& *final(channel) == run.channel
        }),
{
    let mut columns = build_owner_auth_unified_from_inputs(&p.params, circuit, inputs);
    let public = inputs.to_public();
    let out = prove_owner_auth_killshot_from_mle(p, &public, &columns, scheme, channel);
    columns.wipe();
    out
}

/// The state column of a secret.
pub open spec fn owner_column<F: TowerField>(p: OwnerAuthParams<F>, secret: Seq<F>) -> Seq<F> {
    state_column(p.params, seq![owner_input(p.address_iv@, secret)], 512)
}

/// What the verifier decides: the points on success, and the transcript that is left.
pub struct OwnerVerdict<F, T> {
    pub points: Option<(Seq<F>, Seq<F>, Seq<F>, Seq<F>)>,
    pub channel: T,
}

/// The verdict on a proof, apart from the opening.
pub open spec fn owner_core_verdict<F: TowerField, T: FiatShamir<F>, O>(
    params: PermParams<F>,
    constraints: Seq<ConstraintView<F>>,
    start: T,
    proof: OwnerAuthProofKillShot<F, O>,
) -> OwnerVerdict<F, T> {
    let n = OWNER_AUTH_NUM_VARS as nat;
    let main = proof.kill_shot.main;
    let shift = proof.kill_shot.shift;
    let c1 = state_after(params, 1, n, main, start);
    let r1 = state_check_run(main.round_polys@, n, start).challenges.reverse();
    if !state_accepts(params, 1, n, main, start) {
        OwnerVerdict { points: None, channel: c1 }
    } else {
        let lanes = main.state_lane_dec_at_r@;
        let c2 = owner_shift_after(shift, r1, main.state_at_r, lanes, c1);
        let r2 = owner_shift_check_run(
            shift.round_polys@,
            main.state_at_r,
            lanes,
            c1,
        ).challenges.reverse();
        if !owner_shift_accepts(shift, r1, main.state_at_r, lanes, c1) {
            OwnerVerdict { points: None, channel: c2 }
        } else {
            let c3 = boundary_after(proof.boundary, constraints, n, c2);
            let r3 = boundary_check_run(
                proof.boundary.round_polys@,
                constraints,
                c2,
            ).challenges.reverse();
            if !boundary_accepts(proof.boundary, constraints, n, c2) {
                OwnerVerdict { points: None, channel: c3 }
            } else {
                let claims = owner_claims(proof, r1, r2, r3);
                let check = batch_check_run(proof.batch.rounds@, claims, c3);
                let end = if proof.batch.rounds.len() == n {
                    check.channel
                } else {
                    c3
                };
                if !batch_accepts(proof.batch.rounds@, proof.batch.b_final, claims, n, c3) {
                    OwnerVerdict { points: None, channel: end }
                } else {
                    OwnerVerdict {
                        points: Some((r1, r2, r3, check.challenges.reverse())),
                        channel: end,
                    }
                }
            }
        }
    }
}

/// Whether the commitment opens to the value of the proof at a point.
pub open spec fn owner_opened<'b, F: TowerField, S: ColumnScheme<F>>(
    scheme: &'b S,
    proof: &'b OwnerAuthProofKillShot<F, S::Opening>,
    point: Seq<F>,
) -> bool {
    forall|p: &'b [F]|
        p@ == point ==> #[trigger] opening_accepted(
            scheme,
            &proof.pcs,
            OWNER_AUTH_NUM_VARS as nat,
            p,
            seq![proof.batch.b_final],
        )
}

/// The verdict on a proof of an authorization.
pub open spec fn owner_verdict<
    'b,
    F: TowerField,
    T: FiatShamir<F>,
    S: ColumnScheme<F>,
>(
    p: OwnerAuthParams<F>,
    public: OwnerAuthPublicInputs<F>,
    scheme: &'b S,
    proof: &'b OwnerAuthProofKillShot<F, S::Opening>,
    channel: T,
) -> OwnerVerdict<F, T> {
    let v = owner_core_verdict(
        p.params,
        statement_constraints(p, public),
        owner_start::<F, T, S>(public, proof.pcs.commitment, channel),
        *proof,
    );
    if v.points is Some && !owner_opened(scheme, proof, (v.points->0).3) {
        OwnerVerdict { points: None, channel: v.channel }
    } else {
        v
    }
}

impl<F: TowerField> OwnerAuthVerifierClaims<F> {
    /// The claims of a proof at the points of a verdict.
    pub open spec fn of<O>(
        &self,
        points: (Seq<F>, Seq<F>, Seq<F>, Seq<F>),
        proof: OwnerAuthProofKillShot<F, O>,
    ) -> bool {
        &&& self.main.r_prime@ == points.0
        &&& self.main.state_at_r == proof.kill_shot.main.state_at_r
        &&& self.main.state_lane_dec_at_r == proof.kill_shot.main.state_lane_dec_at_r
        &&& self.shift.r_double_prime@ == points.1
        &&& self.shift.state_at_r2 == proof.kill_shot.shift.state_at_r2
        &&& self.boundary.point@ == points.2
        &&& self.boundary.state_at_r == proof.boundary.state_at_r
        &&& claims_view(self.state_claims@) == owner_claims(proof, points.0, points.1, points.2)
        &&& self.state.point@ == points.3
        &&& self.state.value == proof.batch.b_final
    }
}

/// Verifies the proof of an authorization; on success returns all the claims.
pub fn verify_owner_auth_killshot_with_claims<
    'b,
    F: TowerField,
    T: FiatShamir<F>,
    S: ColumnScheme<F>,
>(
    p: &OwnerAuthParams<F>,
    proof: &'b OwnerAuthProofKillShot<F, S::Opening>,
    inputs: &OwnerAuthPublicInputs<F>,
    scheme: &'b S,
    channel: &mut T,
) -> (out: Option<OwnerAuthVerifierClaims<F>>)
    requires
        scheme.fits(OWNER_AUTH_NUM_VARS as nat, 1),
    ensures
        ({
            let want = owner_verdict(*p, *inputs, scheme, proof, *old(channel));
            &&& *final(channel) == want.channel
            &&& match out {
                Some(claims) => want.points is Some && claims.of(want.points->0, *proof),
                None => want.points is None,
            }
        }),
{
    proof {
        vstd::arithmetic::power2::lemma2_to64();
    }
    absorb_owner_public_boundary(channel, inputs);
    absorb_auth_mle_commitment::<F, T, S>(channel, &proof.pcs.commitment);
    let main = match verify_owner_auth_unified(
        &p.params,
        &proof.kill_shot.main,
        inputs.layout,
        channel,
    ) {
        Some(red) => red,
        None => {
            return None;
        },
    };
    let shift = match verify_owner_auth_shift(
        &proof.kill_shot.shift,
        inputs.layout,
        &main,
        channel,
    ) {
        Some(red) => red,
        None => {
            return None;
        },
    };
    let boundary = match verify_owner_auth_boundary(p, &proof.boundary, inputs, channel) {
        Some(red) => red,
        None => {
            return None;
        },
    };
    let state_claims = build_owner_claims(
        &main.r_prime,
        main.state_at_r,
        &shift.r_double_prime,
        shift.state_at_r2,
        &boundary.point,
        boundary.state_at_r,
    );
    proof {
        assert(claims_view(state_claims@) =~= owner_claims(
            *proof,
            main.r_prime@,
            shift.r_double_prime@,
            boundary.point@,
        ));
        assert(claims_wf(claims_view(state_claims@), OWNER_AUTH_NUM_VARS as nat));
    }
    let state = match verify_batch_eval(
        &proof.batch,
        state_claims.as_slice(),
        OWNER_AUTH_NUM_VARS,
        channel,
    ) {
        Some(red) => red,
        None => {
            return None;
        },
    };
    let at = state.point.as_slice();
    let opened = verify_auth_mle_opening(
        &proof.pcs,
        OWNER_AUTH_NUM_VARS,
        &state,
        scheme,
    );
    proof {
        assert(opened == opening_accepted(
            scheme,
            &proof.pcs,
            OWNER_AUTH_NUM_VARS as nat,
            at,
            seq![state.value],
        ));
    }
    if !opened {
        return None;
    }
    Some(OwnerAuthVerifierClaims { main, shift, boundary, state_claims, state })
}

/// Verifies the proof of an authorization; on success returns the claim that is
/// left.
pub fn verify_owner_auth_killshot<
    'b,
    F: TowerField,
    T: FiatShamir<F>,
    S: ColumnScheme<F>,
>(
    p: &OwnerAuthParams<F>,
    proof: &'b OwnerAuthProofKillShot<F, S::Opening>,
    inputs: &OwnerAuthPublicInputs<F>,
    scheme: &'b S,
    channel: &mut T,
) -> (out: Option<OwnerAuthKillShotReductions<F>>)
    requires
        scheme.fits(OWNER_AUTH_NUM_VARS as nat, 1),
    ensures
        ({
            let want = owner_verdict(*p, *inputs, scheme, proof, *old(channel));
            &&& *final(channel) == want.channel
            &&& match out {
                Some(red) => want.points is Some && red.state.point@ == (want.points->0).3
                    && red.state.value == proof.batch.b_final,
                None => want.points is None,
            }
        }),
{
    match verify_owner_auth_killshot_with_claims(p, proof, inputs, scheme, channel) {
        Some(claims) => Some(OwnerAuthKillShotReductions { state: claims.state }),
        None => None,
    }
}

/// Whether the claim that is left is true of the state column of an
/// authorization.
pub fn discharge_owner_auth_reductions_native<F: TowerField>(
    p: &OwnerAuthParams<F>,
    circuit: &OwnerAuthCircuit<F>,
    inputs: &OwnerAuthInputs<F>,
    reductions: &OwnerAuthKillShotReductions<F>,
) -> (r: bool)
    requires
        circuit.of(p.address_iv),
        reductions.state.point.len() == OWNER_AUTH_NUM_VARS,
    ensures
        r == (mle(owner_column(*p, inputs.secret()), reductions.state.point@)
            == reductions.state.value),
{
    proof {
        vstd::arithmetic::power2::lemma2_to64();
    }
    let mut columns = build_owner_auth_unified_from_inputs(&p.params, circuit, inputs);
    let value = evaluate_slice(columns.state.as_slice(), reductions.state.point.as_slice());
    columns.wipe();
    value.equals(reductions.state.value)
}

/// Completeness: when the secret derives the address, the proof is accepted, and
/// the verifier arrives at the prover's points and transcript.
pub proof fn lemma_owner_complete<
    'b,
    F: TowerField,
    T: FiatShamir<F>,
    S: ColumnScheme<F>,
>(
    p: OwnerAuthParams<F>,
    secret: Seq<F>,
    public: OwnerAuthPublicInputs<F>,
    scheme: &'b S,
    proof: &'b OwnerAuthProofKillShot<F, S::Opening>,
    channel: T,
)
    requires
        p.wf(),
        secret.len() == 2,
        public.expected_address@ == owner_address(p.params, p.address_iv@, secret),
        scheme.fits(OWNER_AUTH_NUM_VARS as nat, 1),
        is_owner_proof(
            p,
            owner_column(p, secret),
            public,
            scheme,
            channel,
            *proof,
        ),
    ensures
        ({
            let run = owner_run(
                p.params,
                statement_constraints(p, public),
                owner_column(p, secret),
                owner_start::<F, T, S>(public, proof.pcs.commitment, channel),
                *proof,
            );
            let v = owner_verdict(p, public, scheme, proof, channel);
            v.points == Some((run.r1, run.r2, run.r3, run.point)) && v.channel == run.channel
        }),
{
    vstd::arithmetic::power2::lemma2_to64();
    let n = OWNER_AUTH_NUM_VARS as nat;
    let ins = seq![owner_input(p.address_iv@, secret)];
    let state = owner_column(p, secret);
    let start = owner_start::<F, T, S>(public, proof.pcs.commitment, channel);
    let constraints = statement_constraints(p, public);
    let run = owner_run(p.params, constraints, state, start, *proof);
    let main = proof.kill_shot.main;
    let shift = proof.kill_shot.shift;
    lemma_state_complete(p.params, ins, n, main, start);
    let main_run = state_run(p.params, 1, n, state, start);
    let c1 = absorb_all(main_run.channel, state_claims_of(main));
    let lanes = main.state_lane_dec_at_r@;
    assert forall|j: int| 0 <= j < 4 implies #[trigger] lanes[j] == mle(
        crate::trace::lane_table(crate::trace::dec_table(state), j),
        run.r1,
    ) by {
        assert(main.state_lane_dec_at_r[j] == lanes[j]);
    }
    lemma_owner_shift_complete(state, run.r1, lanes, shift, c1);
    let shift_run = owner_shift_run(state, run.r1, c1);
    let c2 = shift_run.channel.absorbed(shift.state_at_r2);
    lemma_constraints_wf(p.mds_inverse, p.address_iv, public.expected_address);
    lemma_owner_constraints(p, secret, public.expected_address);
    lemma_boundary_complete(constraints, state, n, proof.boundary, c2);
    let boundary = boundary_run(constraints, state, n, c2);
    let c3 = boundary.channel.absorbed(proof.boundary.state_at_r);
    let claims = owner_claims(*proof, run.r1, run.r2, run.r3);
    assert(claims_wf(claims, n));
    assert(claims_hold(claims, state));
    lemma_batch_complete(state, claims, n, proof.batch.rounds@, c3);
    assert forall|q: &'b [F]| q@ == run.point implies #[trigger] opening_accepted(
        scheme,
        &proof.pcs,
        n,
        q,
        seq![proof.batch.b_final],
    ) by {
        lemma_run_challenges(
            seq![
                crate::batch_eval::weight_table(
                    claims,
                    crate::batch_eval::batch_alphas(claims, c3),
                    n,
                ),
                state,
            ],
            crate::batch_eval::batch_channel(claims, c3),
            crate::batch_eval::batch_message::<F>(),
            n,
        );
        assert(seq![proof.batch.b_final] =~= column_values(seq![state], q@));
        lemma_opening_complete(
            scheme,
            seq![state],
            &proof.pcs,
            n,
            q,
            seq![proof.batch.b_final],
        );
    }
}

} // verus!
