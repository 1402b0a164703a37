//! The opening of committed columns at a point.
//!
//! The prover sends the values of all the columns at the point and opens the
//! combination of the columns by the powers of a challenge. Further claims, at
//! other points, are only bound to the transcript.
use vstd::prelude::*;
use vstd::arithmetic::power2::{lemma_pow2_adds, lemma_pow2_strictly_increases, pow2};
use crate::compact_fri::{CompactEvalProof, CompactFriError, CompactFriQueryContext, FriContext, ProverHook, VerifierHook, compact_fri_prove_with_query_hook, compact_fri_verify_with_query_hook, fri_opening, fri_rounds, fri_verdict, is_fri_proof, lemma_fri_complete, lemma_fri_run_prefix, lemma_fri_run_shape, lemma_rows_eval, prover_bound, query_count, query_indices, row_values, tau_of, upper_evals, verifier_context};
use crate::field::{BinaryField, TowerField, lemma_units};
use crate::fri::{CryptographicHasher, FriChannel, FriCode};
use crate::high_fold::{high_table, horner, horner_table, lemma_batched_rows, lemma_high_table_len, lemma_high_table_mle};
use crate::interleaved_commit::{InterleavedCommitment, InterleavedProverState, SourceHasher, cols_wf, encoded_words, lemma_log_bound, row_at, slice_views, source_leaves, vec_views};
use crate::merkle::node;
use crate::mle::{evaluate_slice, lemma_mle_add, lemma_mle_scale, mle};
use crate::poly::pow;
use crate::source_binding::{SourceBindingError, SourceBindingProof, binding_channel, binding_channel_after, binding_limits, binding_shape_error, binding_verdict, is_binding, lemma_binding_complete, prove_source_binding, verify_source_binding};
use crate::sum::{lemma_sum_ext, sum};
use crate::table::{copied, subrange};
use crate::transcript::{FiatShamir, absorb_all, absorb_slice, lemma_challenges_len, squeezed_by};

verus! {

/// The tag that a mixed opening absorbs first.
pub const MIXED_OPEN_TAG: u64 = 0xFFF8_0000_0000_0000;

/// The claim that a column has a value at a point.
#[derive(Clone, Debug, PartialEq, Eq)]
pub struct EvalClaim<F> {
    pub col_index: usize,
    pub eval_point: Vec<F>,
    pub value: F,
}

/// The proof of a mixed opening.
#[derive(Clone, Debug, PartialEq, Eq)]
pub struct MixedOpeningProof<F> {
    /// The values of the columns, followed by the values of the further claims.
    pub all_openings: Vec<F>,
    /// The opening of the combination of the columns.
    pub fri_proof: CompactEvalProof<F>,
    /// The binding of the combination to the committed columns.
    pub source_proof: SourceBindingProof<F>,
}

impl<F: TowerField> MixedOpeningProof<F> {
    /// The size in bytes.
    pub open spec fn size(&self) -> nat {
        self.all_openings.len() as nat * 16 + self.fri_proof.size() + self.source_proof.size()
    }

    /// Computes [`MixedOpeningProof::size`].
    pub fn byte_len(&self) -> (r: usize)
        requires
            self.size() <= usize::MAX,
        ensures
            r == self.size(),
    {
        self.all_openings.len() * 16 + self.fri_proof.byte_len() + self.source_proof.byte_len()
    }
}

/// Why a mixed opening was refused.
#[derive(Clone, Copy, Debug, PartialEq, Eq, Structural)]
pub enum MixedOpenError {
    /// The number of opened values is another one.
    OpeningCount,
    /// The point does not have a coordinate for every row variable.
    PointDimension,
    /// A further claim names a column that does not exist.
    ColumnOutOfRange { index: usize, col_index: usize, n_cols: usize },
    /// The point of a further claim does not have a coordinate for every row
    /// variable.
    ClaimPointDimension { index: usize, expected: usize, got: usize },
    /// A further claim has another value than the opened one; both by their bit
    /// patterns.
    ClaimValueMismatch { index: usize, opening: u128, claim: u128 },
    /// The opening of the combination was refused.
    Fri(CompactFriError<SourceBindingError>),
}

/// The values of the columns at a point.
pub open spec fn column_values<F: BinaryField>(cols: Seq<Seq<F>>, point: Seq<F>) -> Seq<F> {
    Seq::new(cols.len(), |c: int| mle(cols[c], point))
}

/// The values of claims.
pub open spec fn claim_values<F>(claims: Seq<EvalClaim<F>>) -> Seq<F> {
    Seq::new(claims.len(), |i: int| claims[i].value)
}

/// The transcript after the opened values.
pub open spec fn openings_absorbed<F: TowerField, T: FiatShamir<F>>(
    channel: T,
    openings: Seq<F>,
) -> T {
    absorb_all(channel.absorbed(F::of_u128(MIXED_OPEN_TAG as u128)), openings)
}

/// The first of the first `k` further claims that cannot stand.
pub open spec fn claim_error<F: TowerField>(
    claims: Seq<EvalClaim<F>>,
    openings: Seq<F>,
    n_cols: nat,
    log_n: nat,
    k: nat,
) -> Option<MixedOpenError>
    decreases k,
{
    if k == 0 {
        None
    } else {
        let i = k - 1;
        match claim_error(claims, openings, n_cols, log_n, i as nat) {
            Some(e) => Some(e),
            None => if claims[i].col_index >= n_cols {
                Some(
                    MixedOpenError::ColumnOutOfRange {
                        index: i as usize,
                        col_index: claims[i].col_index,
                        n_cols: n_cols as usize,
                    },
                )
            } else if claims[i].eval_point.len() != log_n {
                Some(
                    MixedOpenError::ClaimPointDimension {
                        index: i as usize,
                        expected: log_n as usize,
                        got: claims[i].eval_point.len(),
                    },
                )
            } else if openings[n_cols + i] != claims[i].value {
                Some(
                    MixedOpenError::ClaimValueMismatch {
                        index: i as usize,
                        opening: openings[n_cols + i].bits(),
                        claim: claims[i].value.bits(),
                    },
                )
            } else {
                None
            },
        }
    }
}

proof fn lemma_claim_error_stays<F: TowerField>(
    claims: Seq<EvalClaim<F>>,
    openings: Seq<F>,
    n_cols: nat,
    log_n: nat,
    j: nat,
    k: nat,
)
    requires
        j <= k,
        claim_error(claims, openings, n_cols, log_n, j) is Some,
    ensures
        claim_error(claims, openings, n_cols, log_n, k) == claim_error(
            claims,
            openings,
            n_cols,
            log_n,
            j,
        ),
    decreases k,
{
    if j < k {
        lemma_claim_error_stays(claims, openings, n_cols, log_n, j, (k - 1) as nat);
    }
}

/// The step of the prover that binds the opened word to the columns.
pub struct SourceProverHook<'a, 'b, F, C> {
    pub state: &'b InterleavedProverState<'a, F>,
    pub c_evals: &'b [F],
    pub code: &'b C,
    pub num_queries: usize,
}

impl<'a, 'b, F: TowerField, T: FriChannel<F>, C: FriCode<F>> ProverHook<
    F,
    T,
> for SourceProverHook<'a, 'b, F, C> {
    type Extra = SourceBindingProof<F>;

    open spec fn ready(&self, ctx: FriContext<F>) -> bool {
        &&& self.state.of(*self.code, slice_views(self.state.raw_cols@))
        &&& self.c_evals.len() == pow2(self.state.log_rows as nat)
        &&& self.state.n_cols == 1 ==> self.c_evals@ == self.state.raw_cols[0]@
        &&& 4 * self.c_evals.len() <= usize::MAX
        &&& 0 < ctx.tau
        &&& ctx.tau + ctx.n_rounds == self.state.log_rows
        &&& ctx.beta.len() == ctx.tau
    }

    open spec fn channel_after(&self, ctx: FriContext<F>, before: T) -> T {
        let log_n = self.state.log_rows as nat;
        squeezed_by(
            crate::source_binding::binding_observed(
                before,
                crate::source_binding::layer_roots(*self.code, self.c_evals@, ctx.beta, log_n),
                high_table(self.c_evals@, ctx.beta, ctx.beta.len()),
                log_n,
            ),
            query_count(log_n + 2, self.num_queries as nat),
        )
    }

    open spec fn gives(&self, ctx: FriContext<F>, before: T, extra: SourceBindingProof<F>) -> bool {
        is_binding(
            *self.code,
            vec_views(self.state.encoded_cols@),
            self.c_evals@,
            ctx.beta,
            self.state.log_rows as nat,
            self.num_queries as nat,
            before,
            extra,
        )
    }

    fn before_queries(&self, ctx: &CompactFriQueryContext<F>, channel: &mut T) -> (e:
        SourceBindingProof<F>) {
        prove_source_binding(
            self.state,
            self.c_evals,
            ctx,
            self.code,
            channel,
            self.num_queries,
        )
    }
}

/// The step of the verifier that checks the binding of the opened word to the
/// columns.
pub struct SourceVerifierHook<'b, F, C, H> {
    pub commitment: &'b InterleavedCommitment,
    pub gamma: F,
    pub primary_point: &'b [F],
    pub proof: &'b SourceBindingProof<F>,
    pub code: &'b C,
    pub hasher: &'b H,
    pub num_queries: usize,
}

impl<
    'b,
    F: TowerField,
    T: FriChannel<F>,
    C: FriCode<F>,
    H: CryptographicHasher<F>,
> VerifierHook<F, T> for SourceVerifierHook<'b, F, C, H> {
    type Error = SourceBindingError;

    open spec fn ready(&self, tau: nat, n_rounds: nat) -> bool {
        &&& tau + n_rounds <= usize::MAX
        &&& self.primary_point.len() == self.commitment.log_rows && tau + n_rounds
            == self.commitment.log_rows ==> binding_limits(
            self.commitment.log_rows as nat,
            self.commitment.n_cols as nat,
            tau,
            self.num_queries as nat,
        )
    }

    open spec fn verdict(&self, ctx: FriContext<F>, before: T) -> Result<(), SourceBindingError> {
        binding_verdict(
            *self.code,
            *self.hasher,
            *self.commitment,
            self.gamma,
            self.primary_point@,
            *self.proof,
            ctx,
            self.num_queries as nat,
            before,
        )
    }

    open spec fn channel_after(&self, ctx: FriContext<F>, before: T) -> T {
        binding_channel_after(
            *self.code,
            *self.hasher,
            *self.commitment,
            self.primary_point@,
            *self.proof,
            ctx,
            self.num_queries as nat,
            before,
        )
    }

    fn before_queries(&self, ctx: &CompactFriQueryContext<F>, channel: &mut T) -> (r: Result<
        (),
        SourceBindingError,
    >) {
        verify_source_binding(
            self.commitment,
            self.gamma,
            self.primary_point,
            self.proof,
            ctx,
            self.code,
            channel,
            self.hasher,
            self.num_queries,
        )
    }
}

/// The combination of values by the powers of `gamma`.
pub fn compute_batched_claim_flat<F: TowerField>(gamma: F, openings: &[F]) -> (v: F)
    ensures
        v == horner(gamma, openings@),
{
    let ghost f = |k: int| pow(gamma, k as nat).mul(openings@[k]);
    let mut acc = F::zero_value();
    let mut weight = F::one_value();
    let mut k: usize = 0;
    while k < openings.len()
        invariant
            k <= openings.len(),
            f == (|k: int| pow(gamma, k as nat).mul(openings@[k])),
            weight == pow(gamma, k as nat),
            acc == sum(k as nat, f),
        decreases openings.len() - k,
    {
        acc = acc.plus(weight.times(openings[k]));
        weight = weight.times(gamma);
        k += 1;
    }
    acc
}

/// The combination of the columns by the powers of `gamma`.
pub(crate) fn combined_columns<F: TowerField>(cols: &Vec<&[F]>, gamma: F, n: usize) -> (t: Vec<F>)
    requires
        forall|c: int| 0 <= c < cols.len() ==> (#[trigger] cols[c]).len() == n,
    ensures
        t@ == horner_table(gamma, slice_views(cols@), n as nat),
{
    let ghost views = slice_views(cols@);
    let mut t: Vec<F> = Vec::new();
    let mut i: usize = 0;
    while i < n
        invariant
            i <= n,
            views == slice_views(cols@),
            forall|c: int| 0 <= c < cols.len() ==> (#[trigger] cols[c]).len() == n,
            t.len() == i,
            forall|k: int|
                0 <= k < i ==> #[trigger] t[k] == horner_table(gamma, views, n as nat)[k],
        decreases n - i,
    {
        let mut row: Vec<F> = Vec::new();
        let mut c: usize = 0;
        while c < cols.len()
            invariant
                c <= cols.len(),
                i < n,
                views == slice_views(cols@),
                forall|c: int| 0 <= c < cols.len() ==> (#[trigger] cols[c]).len() == n,
                row.len() == c,
                forall|k: int| 0 <= k < c ==> #[trigger] row[k] == views[k][i as int],
            decreases cols.len() - c,
        {
            let col = cols[c];
            proof {
                assert(cols[c as int].len() == n);
                assert(views[c as int] == col@);
            }
            row.push(col[i]);
            c += 1;
        }
        proof {
            assert(row@ =~= row_at(views, i as int));
        }
        t.push(compute_batched_claim_flat(gamma, row.as_slice()));
        i += 1;
    }
    proof {
        assert(t@ =~= horner_table(gamma, views, n as nat));
    }
    t
}

/// The proof of a mixed opening of the given columns.
pub open spec fn is_mixed_proof<
    F: TowerField,
    T: FriChannel<F>,
    C: FriCode<F>,
    H: CryptographicHasher<F>,
>(
    code: C,
    hasher: H,
    cols: Seq<Seq<F>>,
    point: Seq<F>,
    claims: Seq<EvalClaim<F>>,
    num_queries: nat,
    channel: T,
    proof: MixedOpeningProof<F>,
) -> bool {
    let log_n = point.len();
    let nr = (log_n - tau_of(log_n)) as nat;
    let openings = column_values(cols, point) + claim_values(claims);
    let sent = openings_absorbed(channel, openings);
    let gamma = sent.challenge();
    let start = sent.squeezed();
    let t = horner_table(gamma, cols, pow2(log_n));
    let bound = prover_bound(code, hasher, t, point, start);
    let mid = binding_channel(proof.source_proof, log_n, num_queries, bound);
    &&& proof.all_openings@ == openings
    &&& is_fri_proof(
        code,
        hasher,
        t,
        point,
        start,
        query_indices(mid, nr + 2, num_queries),
        proof.fri_proof,
    )
    &&& is_binding(
        code,
        encoded_words(code, cols),
        t,
        fri_opening(t, point, start).beta,
        log_n,
        num_queries,
        bound,
        proof.source_proof,
    )
}

/// The transcript after a mixed opening.
pub open spec fn mixed_channel<
    F: TowerField,
    T: FriChannel<F>,
    C: FriCode<F>,
    H: CryptographicHasher<F>,
>(
    code: C,
    hasher: H,
    cols: Seq<Seq<F>>,
    point: Seq<F>,
    claims: Seq<EvalClaim<F>>,
    num_queries: nat,
    channel: T,
    proof: MixedOpeningProof<F>,
) -> T {
    let log_n = point.len();
    let nr = (log_n - tau_of(log_n)) as nat;
    let openings = column_values(cols, point) + claim_values(claims);
    let sent = openings_absorbed(channel, openings);
    let t = horner_table(sent.challenge(), cols, pow2(log_n));
    let bound = prover_bound(code, hasher, t, point, sent.squeezed());
    squeezed_by(
        binding_channel(proof.source_proof, log_n, num_queries, bound),
        query_count(nr + 2, num_queries),
    )
}

/// Proves a mixed opening.
pub fn prove_mixed_opening<
    'a,
    F: TowerField,
    T: FriChannel<F>,
    C: FriCode<F>,
    H: CryptographicHasher<F>,
>(
    state: &InterleavedProverState<'a, F>,
    primary_point: &[F],
    secondary_claims: &[EvalClaim<F>],
    code: &C,
    channel: &mut T,
    hasher: &H,
    num_queries: usize,
) -> (out: MixedOpeningProof<F>)
    requires
        state.of(*code, slice_views(state.raw_cols@)),
        primary_point.len() == state.log_rows,
        4 * pow2(state.log_rows as nat) <= usize::MAX,
        forall|i: int|
            0 <= i < secondary_claims.len() ==> (#[trigger] secondary_claims[i]).col_index
                < state.n_cols && secondary_claims[i].eval_point.len() == state.log_rows,
    ensures
        is_mixed_proof(
            *code,
            *hasher,
            slice_views(state.raw_cols@),
            primary_point@,
            secondary_claims@,
            num_queries as nat,
            *old(channel),
            out,
        ),
        *final(channel) == mixed_channel(
            *code,
            *hasher,
            slice_views(state.raw_cols@),
            primary_point@,
            secondary_claims@,
            num_queries as nat,
            *old(channel),
            out,
        ),
{
    let ghost cols = slice_views(state.raw_cols@);
    let log_n: usize = state.log_rows;
    let n_cols: usize = state.n_cols;
    proof {
        lemma_pow2_adds(log_n as nat, 2);
        vstd::arithmetic::power2::lemma2_to64();
        lemma_log_bound((log_n + 2) as nat);
        assert forall|c: int| 0 <= c < state.raw_cols.len() implies (
        #[trigger] state.raw_cols[c]).len() == pow2(log_n as nat) by {
            assert(cols[c].len() == pow2(log_n as nat));
        }
    }
    let mut all_openings: Vec<F> = Vec::new();
    let mut c: usize = 0;
    while c < n_cols
        invariant
            c <= n_cols,
            n_cols == state.raw_cols.len(),
            primary_point.len() == log_n,
            cols == slice_views(state.raw_cols@),
            forall|c: int|
                0 <= c < state.raw_cols.len() ==> (#[trigger] state.raw_cols[c]).len() == pow2(
                    log_n as nat,
                ),
            all_openings@ == column_values(cols, primary_point@).take(c as int),
        decreases n_cols - c,
    {
        let col = state.raw_cols[c];
        proof {
            assert(state.raw_cols[c as int].len() == pow2(log_n as nat));
        }
        all_openings.push(evaluate_slice(col, primary_point));
        proof {
            assert(all_openings@ =~= column_values(cols, primary_point@).take(c + 1));
        }
        c += 1;
    }
    let ghost values = column_values(cols, primary_point@);
    let ghost extra = claim_values(secondary_claims@);
    proof {
        assert(all_openings@ =~= values + extra.take(0));
    }
    let mut i: usize = 0;
    while i < secondary_claims.len()
        invariant
            i <= secondary_claims.len(),
            extra == claim_values(secondary_claims@),
            all_openings@ == values + extra.take(i as int),
        decreases secondary_claims.len() - i,
    {
        all_openings.push(secondary_claims[i].value);
        proof {
            assert(all_openings@ =~= values + extra.take(i + 1));
        }
        i += 1;
    }
    proof {
        assert(extra.take(extra.len() as int) =~= extra);
    }
    channel.absorb(F::from_u128(MIXED_OPEN_TAG as u128));
    absorb_slice(channel, all_openings.as_slice());
    let gamma = channel.squeeze();
    let ghost start = *channel;
    proof {
        assert(state.raw_cols[0].len() == pow2(log_n as nat));
    }
    let n: usize = state.raw_cols[0].len();
    let c_evals = if n_cols == 1 {
        copied(state.raw_cols[0])
    } else {
        combined_columns(&state.raw_cols, gamma, n)
    };
    proof {
        let t = horner_table(gamma, cols, pow2(log_n as nat));
        if n_cols == 1 {
            assert forall|k: int| 0 <= k < n implies c_evals@[k] == t[k] by {
                let row = row_at(cols, k);
                let f = |j: int| pow(gamma, j as nat).mul(row[j]);
                assert(sum(1, f) == sum(0, f).add(f(0))) by {
                    reveal_with_fuel(sum, 2);
                }
                lemma_units(row[0]);
                F::mul_comm(F::one(), row[0]);
                F::add_comm(F::zero(), row[0]);
                F::add_zero(row[0]);
                assert(row[0] == c_evals@[k]);
            }
            assert(c_evals@ =~= t);
        }
        assert(c_evals@ == t);
        lemma_challenges_len(
            absorb_all(start, primary_point@).absorbed(
                fri_opening(t, primary_point@, start).eval,
            ),
            tau_of(log_n as nat),
        );
    }
    let hook = SourceProverHook { state, c_evals: c_evals.as_slice(), code, num_queries };
    let (fri_proof, _info, source_proof) = compact_fri_prove_with_query_hook(
        c_evals.as_slice(),
        primary_point,
        code,
        channel,
        hasher,
        num_queries,
        &hook,
    );
    MixedOpeningProof { all_openings, fri_proof, source_proof }
}

/// A verdict and the transcript that it leaves.
pub struct MixedVerdict<F, T> {
    pub result: Result<Seq<F>, MixedOpenError>,
    pub channel: T,
}

/// The verdict on a mixed opening.
pub open spec fn mixed_verdict<
    'b,
    F: TowerField,
    T: FriChannel<F>,
    C: FriCode<F>,
    H: CryptographicHasher<F>,
>(
    code: &'b C,
    hasher: &'b H,
    commitment: &'b InterleavedCommitment,
    point: &'b [F],
    claims: Seq<EvalClaim<F>>,
    proof: &'b MixedOpeningProof<F>,
    num_queries: usize,
    channel: T,
) -> MixedVerdict<F, T> {
    let n_cols = commitment.n_cols as nat;
    let log_n = commitment.log_rows as nat;
    let openings = proof.all_openings@;
    let wrong = claim_error(claims, openings, n_cols, log_n, claims.len());
    if openings.len() != n_cols + claims.len() {
        MixedVerdict { result: Err(MixedOpenError::OpeningCount), channel }
    } else if point.len() != log_n {
        MixedVerdict { result: Err(MixedOpenError::PointDimension), channel }
    } else if wrong is Some {
        MixedVerdict { result: Err(wrong->0), channel }
    } else {
        let sent = openings_absorbed(channel, openings);
        let gamma = sent.challenge();
        let hook = SourceVerifierHook {
            commitment,
            gamma,
            primary_point: point,
            proof: &proof.source_proof,
            code,
            hasher,
            num_queries,
        };
        let v = fri_verdict(
            *code,
            *hasher,
            hook,
            point@,
            horner(gamma, openings.take(n_cols as int)),
            proof.fri_proof,
            sent.squeezed(),
            num_queries as nat,
        );
        MixedVerdict {
            result: match v.result {
                Ok(_) => Ok(openings.take(n_cols as int)),
                Err(e) => Err(MixedOpenError::Fri(e)),
            },
            channel: v.channel,
        }
    }
}

/// Verifies a mixed opening and returns the values of the columns.
pub fn verify_mixed_opening<
    F: TowerField,
    T: FriChannel<F>,
    C: FriCode<F>,
    H: CryptographicHasher<F>,
>(
    commitment: &InterleavedCommitment,
    primary_point: &[F],
    secondary_claims: &[EvalClaim<F>],
    proof: &MixedOpeningProof<F>,
    code: &C,
    channel: &mut T,
    hasher: &H,
    num_queries: usize,
) -> (out: Result<Vec<F>, MixedOpenError>)
    requires
        primary_point.len() == commitment.log_rows ==> binding_limits(
            commitment.log_rows as nat,
            commitment.n_cols as nat,
            tau_of(commitment.log_rows as nat),
            num_queries as nat,
        ),
    ensures
        ({
            let want = mixed_verdict(
                code,
                hasher,
                commitment,
                primary_point,
                secondary_claims@,
                proof,
                num_queries,
                *old(channel),
            );
            &&& match out {
                Ok(values) => want.result == Ok::<Seq<F>, MixedOpenError>(values@),
                Err(e) => want.result == Err::<Seq<F>, MixedOpenError>(e),
            }
            &&& *final(channel) == want.channel
        }),
{
    let n_cols: usize = commitment.n_cols;
    let log_n: usize = commitment.log_rows;
    let total: usize = proof.all_openings.len();
    if total < n_cols || total - n_cols != secondary_claims.len() {
        return Err(MixedOpenError::OpeningCount);
    }
    if primary_point.len() != log_n {
        return Err(MixedOpenError::PointDimension);
    }
    let ghost openings = proof.all_openings@;
    let mut i: usize = 0;
    while i < secondary_claims.len()
        invariant
            i <= secondary_claims.len(),
            openings == proof.all_openings@,
            openings.len() == n_cols + secondary_claims.len(),
            openings.len() == total,
            claim_error(secondary_claims@, openings, n_cols as nat, log_n as nat, i as nat) is None,
            n_cols == commitment.n_cols,
            log_n == commitment.log_rows,
            primary_point.len() == log_n,
            *channel == *old(channel),
        decreases secondary_claims.len() - i,
    {
        let claim = &secondary_claims[i];
        let bad_column = claim.col_index >= n_cols;
        let bad_point = claim.eval_point.len() != log_n;
        let bad_value = !proof.all_openings[n_cols + i].equals(claim.value);
        if bad_column || bad_point || bad_value {
            proof {
                lemma_claim_error_stays(
                    secondary_claims@,
                    openings,
                    n_cols as nat,
                    log_n as nat,
                    (i + 1) as nat,
                    secondary_claims@.len(),
                );
            }
            if bad_column {
                return Err(
                    MixedOpenError::ColumnOutOfRange {
                        index: i,
                        col_index: secondary_claims[i].col_index,
                        n_cols,
                    },
                );
            }
            if bad_point {
                return Err(
                    MixedOpenError::ClaimPointDimension {
                        index: i,
                        expected: log_n,
                        got: secondary_claims[i].eval_point.len(),
                    },
                );
            }
            return Err(
                MixedOpenError::ClaimValueMismatch {
                    index: i,
                    opening: proof.all_openings[n_cols + i].to_u128(),
                    claim: secondary_claims[i].value.to_u128(),
                },
            );
        }
        i += 1;
    }
    channel.absorb(F::from_u128(MIXED_OPEN_TAG as u128));
    absorb_slice(channel, proof.all_openings.as_slice());
    let gamma = channel.squeeze();
    let values = subrange(proof.all_openings.as_slice(), 0, n_cols);
    proof {
        assert(values@ =~= openings.take(n_cols as int));
        lemma_log_bound((log_n + 2) as nat);
        let tau = tau_of(log_n as nat);
        if tau > 0 {
            lemma_pow2_strictly_increases((log_n - tau + 2) as nat, (log_n + 2) as nat);
        }
    }
    let batched_claim = compute_batched_claim_flat(gamma, values.as_slice());
    let hook = SourceVerifierHook {
        commitment,
        gamma,
        primary_point,
        proof: &proof.source_proof,
        code,
        hasher,
        num_queries,
    };
    match compact_fri_verify_with_query_hook(
        primary_point,
        batched_claim,
        &proof.fri_proof,
        code,
        channel,
        hasher,
        num_queries,
        &hook,
    ) {
        Ok(_) => Ok(values),
        Err(e) => Err(MixedOpenError::Fri(e)),
    }
}

/// The value of the combination of columns is the combination of their values.
pub proof fn lemma_horner_mle<F: BinaryField>(gamma: F, cols: Seq<Seq<F>>, point: Seq<F>)
    requires
        forall|c: int| 0 <= c < cols.len() ==> (#[trigger] cols[c]).len() == pow2(point.len()),
    ensures
        mle(horner_table(gamma, cols, pow2(point.len())), point) == horner(
            gamma,
            column_values(cols, point),
        ),
    decreases cols.len(),
{
    let len = pow2(point.len());
    let t = horner_table(gamma, cols, len);
    if cols.len() == 0 {
        // A zero table is a table added to itself.
        let double = Seq::new(len, |j: int| t[j].add(t[j]));
        assert forall|j: int| 0 <= j < len implies double[j] == t[j] by {
            F::add_self(t[j]);
        }
        assert(double =~= t);
        lemma_mle_add(t, t, point);
        F::add_self(mle(t, point));
    } else {
        let m = (cols.len() - 1) as nat;
        let front = cols.drop_last();
        let last = cols.last();
        let k = pow(gamma, m);
        assert(last.len() == len);
        assert forall|c: int| 0 <= c < front.len() implies (#[trigger] front[c]).len() == len by {
            assert(front[c] == cols[c]);
        }
        lemma_horner_mle(gamma, front, point);
        let rest = horner_table(gamma, front, len);
        let scaled = Seq::new(len, |j: int| k.mul(last[j]));
        let both = Seq::new(len, |j: int| rest[j].add(scaled[j]));
        assert forall|j: int| 0 <= j < len implies both[j] == t[j] by {
            let row = row_at(cols, j);
            let short = row_at(front, j);
            lemma_sum_ext(
                m,
                |c: int| pow(gamma, c as nat).mul(short[c]),
                |c: int| pow(gamma, c as nat).mul(row[c]),
            );
        }
        assert(both =~= t);
        lemma_mle_add(rest, scaled, point);
        lemma_mle_scale(k, last, point);
        let values = column_values(cols, point);
        let short = column_values(front, point);
        lemma_sum_ext(
            m,
            |c: int| pow(gamma, c as nat).mul(short[c]),
            |c: int| pow(gamma, c as nat).mul(values[c]),
        );
    }
}

proof fn lemma_claims_stand<F: TowerField>(
    claims: Seq<EvalClaim<F>>,
    values: Seq<F>,
    log_n: nat,
    k: nat,
)
    requires
        k <= claims.len(),
        forall|i: int|
            0 <= i < claims.len() ==> (#[trigger] claims[i]).col_index < values.len()
                && claims[i].eval_point.len() == log_n,
    ensures
        claim_error(claims, values + claim_values(claims), values.len(), log_n, k) is None,
    decreases k,
{
    if k > 0 {
        lemma_claims_stand(claims, values, log_n, (k - 1) as nat);
        assert((values + claim_values(claims))[values.len() + k - 1] == claims[k - 1].value);
    }
}

/// Before its queries, an honest binding matches the rounds.
proof fn lemma_shape_fits<
    F: TowerField,
    T: FriChannel<F>,
    C: FriCode<F>,
    H: CryptographicHasher<F>,
>(
    code: C,
    hasher: H,
    t: Seq<F>,
    point: Seq<F>,
    start: T,
    queries: Seq<usize>,
    fri_proof: CompactEvalProof<F>,
    proof: SourceBindingProof<F>,
)
    requires
        point.len() > 0,
        t.len() == pow2(point.len()),
        is_fri_proof(code, hasher, t, point, start, queries, fri_proof),
        ({
            let beta = fri_opening(t, point, start).beta;
            &&& proof.h_evals@ == high_table(t, beta, beta.len())
            &&& proof.folded_roots.len() == beta.len() - 1
            &&& proof.folded_queried_symbols.len() == beta.len() - 1
            &&& proof.folded_merkle_batch.len() == beta.len() - 1
        }),
    ensures
        binding_shape_error(
            code,
            hasher,
            point.len(),
            point,
            proof,
            verifier_context(fri_proof, point, fri_opening(t, point, start).beta),
        ) is None,
{
    let n = point.len();
    let tau = tau_of(n);
    let nr = (n - tau) as nat;
    let opening = fri_opening(t, point, start);
    let beta = opening.beta;
    let right = point.take(n - tau);
    lemma_challenges_len(absorb_all(start, point).absorbed(opening.eval), tau);
    lemma_high_table_len(t, beta, tau, n);
    lemma_rows_eval(t, right, beta);
    assert(upper_evals(t, point) =~= row_values(t, right, pow2(tau)));
    lemma_high_table_mle(t, right, beta, tau);
    assert(right + beta.take(0) =~= right);
    lemma_batched_rows(t, beta, nr);
    let run = fri_rounds(code, hasher, t, point, start);
    if nr > 0 {
        lemma_fri_run_shape(code, hasher, opening, nr, nr);
        lemma_fri_run_shape(code, hasher, opening, nr, 0);
        lemma_fri_run_prefix(code, hasher, opening, nr, 0, nr);
    }
}

/// Completeness: the proof of a mixed opening is accepted against the
/// commitment to the columns, gives back the values of the columns, and leaves
/// the verifier's transcript where it leaves the prover's.
pub proof fn lemma_mixed_complete<
    'b,
    F: TowerField,
    T: FriChannel<F>,
    C: FriCode<F>,
    H: CryptographicHasher<F>,
>(
    code: &'b C,
    hasher: &'b H,
    commitment: &'b InterleavedCommitment,
    cols: Seq<Seq<F>>,
    point: &'b [F],
    claims: Seq<EvalClaim<F>>,
    proof: &'b MixedOpeningProof<F>,
    num_queries: usize,
    channel: T,
)
    requires
        point.len() > 0,
        num_queries > 0,
        pow2((point.len() + 2) as nat) <= usize::MAX,
        cols_wf(cols, point.len() as nat),
        commitment.n_cols == cols.len(),
        commitment.log_rows == point.len(),
        commitment.cap.hashes.len() > 0,
        commitment.cap.hashes@.last() == node(
            SourceHasher,
            source_leaves(encoded_words(*code, cols), point.len() as nat),
            (point.len() + 1) as nat,
            0,
        ),
        forall|i: int|
            0 <= i < claims.len() ==> (#[trigger] claims[i]).col_index < cols.len()
                && claims[i].eval_point.len() == point.len(),
        is_mixed_proof(
            *code,
            *hasher,
            cols,
            point@,
            claims,
            num_queries as nat,
            channel,
            *proof,
        ),
    ensures
        ({
            let v = mixed_verdict(
                code,
                hasher,
                commitment,
                point,
                claims,
                proof,
                num_queries,
                channel,
            );
            &&& v.result == Ok::<Seq<F>, MixedOpenError>(column_values(cols, point@))
            &&& v.channel == mixed_channel(
                *code,
                *hasher,
                cols,
                point@,
                claims,
                num_queries as nat,
                channel,
                *proof,
            )
        }),
{
    let log_n = point.len() as nat;
    let tau = tau_of(log_n);
    let nr = (log_n - tau) as nat;
    let values = column_values(cols, point@);
    let openings = values + claim_values(claims);
    let sent = openings_absorbed(channel, openings);
    let gamma = sent.challenge();
    let start = sent.squeezed();
    let t = horner_table(gamma, cols, pow2(log_n));
    let bound = prover_bound(*code, *hasher, t, point@, start);
    let mid = binding_channel(proof.source_proof, log_n, num_queries as nat, bound);
    let opening = fri_opening(t, point@, start);
    let beta = opening.beta;
    assert(openings.take(cols.len() as int) =~= values);
    lemma_claims_stand(claims, values, log_n, claims.len());
    lemma_horner_mle(gamma, cols, point@);
    lemma_challenges_len(absorb_all(start, point@).absorbed(opening.eval), tau);
    lemma_shape_fits(
        *code,
        *hasher,
        t,
        point@,
        start,
        query_indices(mid, nr + 2, num_queries as nat),
        proof.fri_proof,
        proof.source_proof,
    );
    lemma_binding_complete(
        *code,
        cols,
        *commitment,
        gamma,
        beta,
        num_queries as nat,
        bound,
        proof.source_proof,
    );
    lemma_pow2_strictly_increases((nr + 2) as nat, (log_n + 2) as nat);
    let hook = SourceVerifierHook {
        commitment,
        gamma,
        primary_point: point,
        proof: &proof.source_proof,
        code,
        hasher,
        num_queries,
    };
    lemma_fri_complete(
        *code,
        *hasher,
        hook,
        t,
        point@,
        start,
        num_queries as nat,
        mid,
        proof.fri_proof,
    );
}

} // verus!
