//! Laws of refusals: what no verifier accepts, and with which error.
use vstd::prelude::*;
use vstd::arithmetic::power2::pow2;
use crate::auth_circuit::{AuthInputs, AuthPublicInputs, SweepAuthPublicInputs};
use crate::auth_killshot::auth_verdict;
use crate::auth_killshot_sweep::{SweepAuthProofKillShot, sweep_verdict};
use crate::auth_sumcheck::{AuthProof, auth_sumcheck_verdict};
use crate::auth_unified_v2::AuthKillShotProof;
use crate::batch_eval::{BatchEvalRound, ClaimView, batch_accepts};
use crate::batched_open::{BatchedOpenError, BatchedOpeningProof, batched_verdict};
use crate::block_spine_sweep::{SweepBlockSpineProof, block_verdict};
use crate::chain_accumulator_killshot::{ChainAccumulatorBatchInputs, ChainAccumulatorProofKillShot, ChainDomain, chain_verdict};
use crate::column_scheme::ColumnScheme;
use crate::compact_fri::{CompactEvalProof, CompactFriError, FriContext, VerifierHook, fri_check_run, fri_verdict, masked, tau_of, word_root};
use crate::eval_scheme::EvalScheme;
use crate::field::TowerField;
use crate::fri::{CryptographicHasher, FriChannel, FriCode};
use crate::guard_bucket_killshot::{BatchedGuardBucketProofKillShot, GuardBucketUpdateInputs, GuardDomain, update_verdict};
use crate::hashing::HashOutput;
use crate::interleaved_commit::InterleavedCommitment;
use crate::killshot::{TraceProofKillShot, kill_verdict, pair_verdict};
use crate::layers::PermParams;
use crate::linear_eval::{LinearView, linear_accepts};
use crate::merkle::{MerkleBatchError, NodeHasher, ascend, batch_verdict, climb, collected, increasing, lemma_collected_all};
use crate::merkle_circuit::MerklePathInputs;
use crate::merkle_killshot::path_verdict;
use crate::mixed_open::{EvalClaim, MixedOpenError, MixedOpeningProof, claim_error, mixed_verdict};
use crate::mle::{eq_at, mle};
use crate::multi_batch::multi_accepts;
use crate::product_sumcheck::{RoundEvals, product_accepts};
use crate::source_binding::{SourceBindingError, SourceBindingProof, binding_verdict};
use crate::spine_degree7::{SpineD7Proof, sbox_accepts};
use crate::transcript::FiatShamir;
use crate::weighted_state::{WeightedRound, weighted_accepts};

verus! {

/// Climbing takes the same siblings whatever comes after them.
proof fn lemma_climb_more<S: NodeHasher>(
    s: S,
    known: Seq<(usize, HashOutput)>,
    sibs: Seq<HashOutput>,
    more: Seq<HashOutput>,
)
    requires
        climb(s, known, sibs) is Some,
    ensures
        climb(s, known, sibs + more) is Some,
        (climb(s, known, sibs + more)->0).0 == (climb(s, known, sibs)->0).0,
        (climb(s, known, sibs + more)->0).1 == (climb(s, known, sibs)->0).1 + more,
    decreases known.len(),
{
    if known.len() > 0 {
        if crate::merkle::paired(crate::merkle::keys_of(known)) {
            lemma_climb_more(s, known.skip(2), sibs, more);
        } else {
            assert((sibs + more).skip(1) =~= sibs.skip(1) + more);
            lemma_climb_more(s, known.skip(1), sibs.skip(1), more);
        }
    }
}

proof fn lemma_ascend_more<S: NodeHasher>(
    s: S,
    known: Seq<(usize, HashOutput)>,
    sibs: Seq<HashOutput>,
    more: Seq<HashOutput>,
    d: nat,
    depth: nat,
)
    requires
        ascend(s, known, sibs, d, depth) is Ok,
    ensures
        ascend(s, known, sibs + more, d, depth) is Ok,
        (ascend(s, known, sibs + more, d, depth)->Ok_0).0 == (ascend(
            s,
            known,
            sibs,
            d,
            depth,
        )->Ok_0).0,
        (ascend(s, known, sibs + more, d, depth)->Ok_0).1 == (ascend(
            s,
            known,
            sibs,
            d,
            depth,
        )->Ok_0).1 + more,
    decreases depth - d,
{
    if d < depth {
        lemma_climb_more(s, known, sibs, more);
        let (up, rest) = climb(s, known, sibs)->0;
        lemma_ascend_more(s, up, rest, more, d + 1, depth);
    }
}

/// A proof of an accepted opening of a tree cannot be made longer: what comes
/// after its last sibling is refused.
pub proof fn lemma_no_more_siblings<S: NodeHasher>(
    s: S,
    root: HashOutput,
    sibs: Seq<HashOutput>,
    more: Seq<HashOutput>,
    depth: nat,
    idxs: Seq<usize>,
    hashes: Seq<HashOutput>,
)
    requires
        batch_verdict(s, root, sibs, depth, idxs, hashes) == Ok::<(), MerkleBatchError>(()),
        more.len() > 0,
    ensures
        batch_verdict(s, root, sibs + more, depth, idxs, hashes) == Err::<(), MerkleBatchError>(
            MerkleBatchError::UnusedSiblings {
                consumed: sibs.len() as usize,
                total: (sibs.len() + more.len()) as usize,
            },
        ),
{
    let known = collected(idxs, hashes, idxs.len())->Ok_0;
    lemma_ascend_more(s, known, sibs, more, 0, depth);
}

/// An opening of a tree is refused if there is not a digest an index, or if an
/// index comes with two digests.
pub proof fn lemma_leaves_refused<S: NodeHasher>(
    s: S,
    root: HashOutput,
    sibs: Seq<HashOutput>,
    depth: nat,
    idxs: Seq<usize>,
    hashes: Seq<HashOutput>,
    i: int,
    j: int,
)
    ensures
        idxs.len() != hashes.len() <==> batch_verdict(s, root, sibs, depth, idxs, hashes) == Err::<
            (),
            MerkleBatchError,
        >(MerkleBatchError::CountMismatch),
        idxs.len() == hashes.len() && 0 <= i < j < idxs.len() && idxs[i] == idxs[j] && hashes[i]
            != hashes[j] ==> batch_verdict(s, root, sibs, depth, idxs, hashes) matches Err(
            MerkleBatchError::InconsistentLeaf { index },
        ),
{
    if idxs.len() == hashes.len() && 0 <= i < j < idxs.len() && idxs[i] == idxs[j] && hashes[i]
        != hashes[j] {
        let n = idxs.len();
        if collected(idxs, hashes, n) is Ok {
            lemma_collected_all(idxs, hashes, n);
            let known = collected(idxs, hashes, n)->Ok_0;
            assert(known.contains((idxs[i], hashes[i])));
            assert(known.contains((idxs[j], hashes[j])));
            let a = choose|a: int| 0 <= a < known.len() && known[a] == (idxs[i], hashes[i]);
            let b = choose|b: int| 0 <= b < known.len() && known[b] == (idxs[j], hashes[j]);
            assert(a != b);
            lemma_increasing_keys(known, if a < b {
                a
            } else {
                b
            }, if a < b {
                b
            } else {
                a
            });
        }
    }
}

proof fn lemma_increasing_keys<V>(known: Seq<(usize, V)>, a: int, b: int)
    requires
        increasing(known),
        0 <= a < b < known.len(),
    ensures
        known[a].0 < known[b].0,
    decreases b - a,
{
    if a < b - 1 {
        lemma_increasing_keys(known, a, b - 1);
    }
    assert(known[b - 1].0 < known[b].0);
}

/// An accepted proof of an authorization is about all the permutations, one that
/// is about another number leaves the transcript alone.
pub proof fn lemma_auth_refused<F: TowerField, T: FiatShamir<F>>(
    params: PermParams<F>,
    slots: nat,
    public: AuthPublicInputs<F>,
    proof: TraceProofKillShot<F>,
    channel: T,
)
    requires
        slots != 20,
    ensures
        auth_verdict(params, slots, public, proof, channel).run is None,
        auth_verdict(params, slots, public, proof, channel).channel == channel,
{
}

/// The same of a proof of an authorization with a commitment.
pub proof fn lemma_sweep_refused<'b, F: TowerField, T: FiatShamir<F>, S: ColumnScheme<F>>(
    params: PermParams<F>,
    slots: nat,
    public: SweepAuthPublicInputs<F>,
    scheme: &'b S,
    proof: &'b SweepAuthProofKillShot<F, S::Opening>,
    channel: T,
)
    requires
        slots != 125,
    ensures
        sweep_verdict(params, slots, public, scheme, proof, channel).point is None,
        sweep_verdict(params, slots, public, scheme, proof, channel).channel == channel,
{
}

/// The same of the sumchecks of an authorization: there are twenty permutations,
/// each with its proof and its value.
pub proof fn lemma_auth_sumcheck_refused<F: TowerField, T: FiatShamir<F>>(
    params: PermParams<F>,
    slots: nat,
    inputs: AuthInputs<F>,
    proof: AuthProof<F>,
    channel: T,
)
    requires
        slots != 20 || proof.slots.len() != 20 || proof.slot_v0.len() != 20,
    ensures
        auth_sumcheck_verdict(params, slots, inputs, proof, channel).point is None,
        auth_sumcheck_verdict(params, slots, inputs, proof, channel).channel == channel,
{
}

/// A path without levels, or with too many, is refused.
pub proof fn lemma_path_refused<F: TowerField, T: FiatShamir<F>>(
    params: PermParams<F>,
    inputs: MerklePathInputs<F>,
    proof: TraceProofKillShot<F>,
    channel: T,
)
    requires
        inputs.active_depth == 0 || inputs.active_depth > 16,
    ensures
        path_verdict(params, inputs, proof, channel).run is None,
        path_verdict(params, inputs, proof, channel).channel == channel,
{
}

/// Whether a proof over `num_vars` variables has room for some permutations, and
/// not twice the room that they need, unless there are at most two.
pub open spec fn room_for(num_vars: nat, slots: nat) -> bool {
    &&& num_vars >= 10
    &&& slots <= pow2((num_vars - 9) as nat)
    &&& num_vars > 10 ==> slots > pow2((num_vars - 10) as nat)
}

/// An accepted proof of a block is about all the bodies and has just the room that
/// their permutations need.
pub proof fn lemma_block_accepted<F: TowerField, T: FiatShamir<F>>(
    params: PermParams<F>,
    n_instances: nat,
    hashes: Seq<[F; 2]>,
    proof: SweepBlockSpineProof<F>,
    channel: T,
)
    requires
        block_verdict(params, n_instances, hashes, proof, channel).run is Some,
    ensures
        hashes.len() == n_instances,
        proof.live_slots == n_instances * crate::circuit_sweep::N_SWEEP_SPINE_SLOTS as nat,
        room_for(proof.num_vars as nat, proof.live_slots as nat),
{
}

/// An accepted proof of a chain is about its items, at least one and no more than
/// the padding, and has just the room that their permutations need.
pub proof fn lemma_chain_accepted<F: TowerField, T: FiatShamir<F>>(
    params: PermParams<F>,
    domain: ChainDomain<F>,
    inputs: ChainAccumulatorBatchInputs<F>,
    padded: nat,
    pad: bool,
    proof: ChainAccumulatorProofKillShot<F>,
    channel: T,
)
    requires
        chain_verdict(params, domain, inputs, padded, pad, proof, channel).point is Some,
    ensures
        0 < proof.n_items <= padded,
        proof.n_items == inputs.items.len(),
        proof.live_slots == 4 * padded,
        room_for(proof.num_vars as nat, 4 * padded),
{
}

/// An accepted proof of an update has just the room that its permutations need:
/// three for each of the two leaves, and those of the list.
pub proof fn lemma_update_accepted<F: TowerField, T: FiatShamir<F>>(
    params: PermParams<F>,
    domain: GuardDomain<F>,
    inputs: GuardBucketUpdateInputs<F>,
    proof: BatchedGuardBucketProofKillShot<F>,
    channel: T,
)
    requires
        update_verdict(params, domain, inputs, proof, channel).point is Some,
    ensures
        proof.live_slots == 7 + (inputs.padded_spent_len + 1) / 2,
        room_for(proof.num_vars as nat, proof.live_slots as nat),
{
}

/// The two sumchecks of an accepted proof have a round a variable, of the degrees
/// that are checked.
pub proof fn lemma_pair_accepted<F: TowerField, T: FiatShamir<F>>(
    params: PermParams<F>,
    live: nat,
    n: nat,
    proof: AuthKillShotProof<F>,
    channel: T,
    i: int,
)
    requires
        pair_verdict(params, live, n, proof, channel).points is Some,
        0 <= i < n,
    ensures
        proof.main.round_polys.len() == n,
        proof.shift.round_polys.len() == n,
        proof.main.round_polys[i].coeffs.len() <= 10,
        proof.shift.round_polys[i].coeffs.len() <= 3,
{
    assert(proof.main.round_polys@[i].coeffs.len() <= 10);
    assert(proof.shift.round_polys@[i].coeffs.len() <= 3);
}

/// The reductions of an accepted proof of a trace have a round a variable.
pub proof fn lemma_kill_accepted<F: TowerField, T: FiatShamir<F>>(
    params: PermParams<F>,
    live: nat,
    n: nat,
    pins: Seq<ClaimView<F>>,
    proof: TraceProofKillShot<F>,
    channel: T,
)
    requires
        kill_verdict(params, live, n, pins, proof, channel).run is Some,
    ensures
        pair_verdict(params, live, n, proof.kill_shot, channel).points is Some,
        proof.state_batch.rounds.len() == n,
        proof.sin_batch.rounds.len() == n,
        proof.sout_batch.rounds.len() == n,
{
}

/// Sumchecks with another number of rounds than there are variables are refused.
pub proof fn lemma_rounds_refused<F: TowerField, T: FiatShamir<F>>(
    batch: Seq<BatchEvalRound<F>>,
    weighted: Seq<WeightedRound<F>>,
    product: Seq<RoundEvals<F>>,
    spine: SpineD7Proof<F>,
    finals: Seq<F>,
    a: F,
    b: F,
    r: Seq<F>,
    claims: Seq<ClaimView<F>>,
    groups: Seq<Seq<ClaimView<F>>>,
    links: Seq<LinearView<F>>,
    tag: u128,
    weights: Seq<F>,
    n: nat,
    channel: T,
)
    ensures
        batch.len() != n || claims.len() == 0 ==> !batch_accepts(batch, b, claims, n, channel),
        batch.len() != n || finals.len() != groups.len() ==> !multi_accepts(
            batch,
            finals,
            groups,
            n,
            channel,
        ),
        batch.len() != n ==> !linear_accepts(batch, b, links, n, tag, channel),
        weighted.len() != n || weights.len() != pow2(n) ==> !weighted_accepts(
            weighted,
            a,
            n,
            weights,
            b,
            channel,
        ),
        product.len() != r.len() ==> !product_accepts(product, a, b, r, finals[0], channel),
        spine.round_polys.len() != 15 ==> !sbox_accepts(spine, channel),
        (exists|i: int|
            0 <= i < spine.round_polys.len() && (#[trigger] spine.round_polys[i]).coeffs.len() > 10)
            ==> !sbox_accepts(spine, channel),
{
    if sbox_accepts(spine, channel) {
        assert forall|i: int| 0 <= i < spine.round_polys.len() implies (
        #[trigger] spine.round_polys[i]).coeffs.len() <= 10 by {
            assert(spine.round_polys@[i].coeffs.len() <= 10);
        }
    }
}

/// The errors of a mixed opening that come before any outside claim is looked at:
/// the number of values, then the number of coordinates.
pub proof fn lemma_mixed_refused<
    'b,
    F: TowerField,
    T: FriChannel<F>,
    C: FriCode<F>,
    H: CryptographicHasher<F>,
>(
    code: &'b C,
    hasher: &'b H,
    commitment: &'b InterleavedCommitment,
    point: &'b [F],
    claims: Seq<EvalClaim<F>>,
    proof: &'b MixedOpeningProof<F>,
    num_queries: usize,
    channel: T,
)
    requires
        claims.len() <= usize::MAX,
    ensures
        ({
            let v = mixed_verdict(
                code,
                hasher,
                commitment,
                point,
                claims,
                proof,
                num_queries,
                channel,
            );
            let counted = proof.all_openings.len() == commitment.n_cols + claims.len();
            &&& !counted <==> v.result == Err::<Seq<F>, MixedOpenError>(
                MixedOpenError::OpeningCount,
            )
            &&& counted && point.len() != commitment.log_rows <==> v.result == Err::<
                Seq<F>,
                MixedOpenError,
            >(MixedOpenError::PointDimension)
            &&& !counted || point.len() != commitment.log_rows ==> v.channel == channel
            &&& v.result matches Ok(values) ==> values.len() == commitment.n_cols && forall|i: int|
                0 <= i < commitment.n_cols ==> #[trigger] values[i] == proof.all_openings[i]
        }),
{
    let openings = proof.all_openings@;
    let n_cols = commitment.n_cols as nat;
    lemma_claim_error_kind(claims, openings, n_cols, commitment.log_rows as nat, claims.len());
}

/// The error of a claim names the first claim that is wrong, and what is wrong
/// with it: its column, then its point, then its value.
pub proof fn lemma_claim_error_kind<F: TowerField>(
    claims: Seq<EvalClaim<F>>,
    openings: Seq<F>,
    n_cols: nat,
    log_n: nat,
    k: nat,
)
    requires
        k <= claims.len(),
        k <= usize::MAX,
        n_cols <= usize::MAX,
        log_n <= usize::MAX,
    ensures
        match claim_error(claims, openings, n_cols, log_n, k) {
            None => true,
            Some(MixedOpenError::ColumnOutOfRange { index, col_index, n_cols: n }) => {
                &&& index < k
                &&& col_index == claims[index as int].col_index
                &&& col_index >= n_cols
                &&& n == n_cols
            },
            Some(MixedOpenError::ClaimPointDimension { index, expected, got }) => {
                &&& index < k
                &&& claims[index as int].col_index < n_cols
                &&& got == claims[index as int].eval_point.len()
                &&& expected == log_n
                &&& got != log_n
            },
            Some(MixedOpenError::ClaimValueMismatch { index, opening, claim }) => {
                &&& index < k
                &&& claims[index as int].col_index < n_cols
                &&& claims[index as int].eval_point.len() == log_n
                &&& openings[n_cols + index].bits() == opening
                &&& claims[index as int].value.bits() == claim
                &&& openings[n_cols + index] != claims[index as int].value
            },
            Some(_) => false,
        },
    decreases k,
{
    if k > 0 {
        lemma_claim_error_kind(claims, openings, n_cols, log_n, (k - 1) as nat);
    }
}

/// The errors of a batched opening that come before the rounds.
pub proof fn lemma_batched_refused<F: TowerField, T: FiatShamir<F>, S: EvalScheme<F, T>>(
    scheme: S,
    commitment: InterleavedCommitment,
    point: Seq<F>,
    proof: BatchedOpeningProof<F, S::Proof>,
    channel: T,
)
    ensures
        ({
            let v = batched_verdict(scheme, commitment, point, proof, channel);
            let columns = proof.column_openings.len() == commitment.n_cols;
            let rounds = proof.sumcheck_rounds.len() == commitment.log_rows;
            let coords = point.len() == commitment.log_rows;
            &&& !columns <==> v.result == Err::<Seq<F>, BatchedOpenError<S::Error>>(
                BatchedOpenError::ColumnCount,
            )
            &&& columns && !rounds <==> v.result == Err::<Seq<F>, BatchedOpenError<S::Error>>(
                BatchedOpenError::RoundCount,
            )
            &&& columns && rounds && !coords <==> v.result == Err::<
                Seq<F>,
                BatchedOpenError<S::Error>,
            >(BatchedOpenError::PointDimension)
            &&& !(columns && rounds && coords) ==> v.channel == channel
            &&& v.result matches Ok(values) ==> values == proof.column_openings@
        }),
{
}

/// A round of an opening that is refused is the first whose linear coefficient is
/// not the claim.
pub proof fn lemma_fri_round_refused<F: TowerField, T: FriChannel<F>>(
    oracles: Seq<Seq<F>>,
    roots: Seq<HashOutput>,
    claim: F,
    channel: T,
    n_rounds: nat,
    k: nat,
)
    ensures
        match fri_check_run(oracles, roots, claim, channel, n_rounds, k).failed {
            None => true,
            Some(round) => {
                let before = fri_check_run(oracles, roots, claim, channel, n_rounds, round);
                &&& round < k
                &&& before.failed is None
                &&& oracles[round as int][1] != before.claim
            },
        },
    decreases k,
{
    if k > 0 {
        lemma_fri_round_refused(oracles, roots, claim, channel, n_rounds, (k - 1) as nat);
    }
}

/// The errors of an opening that come before the rounds: the number of values, and
/// the value that they give. Neither leaves a trace of the claimed value.
pub proof fn lemma_fri_refused<
    F: TowerField,
    T: FriChannel<F>,
    C: FriCode<F>,
    H: CryptographicHasher<F>,
    K: VerifierHook<F, T>,
>(
    code: C,
    hasher: H,
    hook: K,
    point: Seq<F>,
    eval: F,
    proof: CompactEvalProof<F>,
    channel: T,
    num_queries: nat,
)
    requires
        pow2(tau_of(point.len())) <= usize::MAX,
    ensures
        ({
            let v = fri_verdict(code, hasher, hook, point, eval, proof, channel, num_queries);
            let upper = proof.upper_partial_evals@;
            let tau = tau_of(point.len());
            let nr = (point.len() - tau) as nat;
            let counted = upper.len() == pow2(tau);
            let right = mle(upper, point.skip(nr as int)) == eval;
            let rounds = proof.sum_check_oracles.len() == nr && proof.fri_roots.len() == nr
                && proof.fri_queried_symbols.len() == nr && proof.fri_merkle_batch.len() == nr;
            &&& !counted ==> v.result == Err::<(), CompactFriError<K::Error>>(
                CompactFriError::UpperLength {
                    expected: pow2(tau) as usize,
                    got: upper.len() as usize,
                },
            )
            &&& counted && !right ==> v.result == Err::<(), CompactFriError<K::Error>>(
                CompactFriError::EvalMismatch,
            )
            &&& counted && right && !rounds ==> v.result == Err::<(), CompactFriError<K::Error>>(
                CompactFriError::RoundCount,
            )
            &&& !counted || !right ==> v.channel == crate::transcript::absorb_all(channel, point)
        }),
{
    let tau = tau_of(point.len());
    if proof.upper_partial_evals.len() == pow2(tau) {
        crate::fri_laws::lemma_dot_mle(
            proof.upper_partial_evals@,
            point.skip(point.len() - tau),
        );
    }
}

/// A binding is accepted only of a table that has the claimed value at the point,
/// and whose product with the weights of the point is what the opening started
/// from: its word is the final word, where there are no rounds, and else the root
/// of its tree is the first root. The first of these that fails is the error.
pub proof fn lemma_binding_refused<
    F: TowerField,
    T: FriChannel<F>,
    C: FriCode<F>,
    H: CryptographicHasher<F>,
>(
    code: C,
    hasher: H,
    commitment: InterleavedCommitment,
    gamma: F,
    point: Seq<F>,
    proof: SourceBindingProof<F>,
    ctx: FriContext<F>,
    num_queries: nat,
    before: T,
)
    ensures
        ({
            let r = binding_verdict(
                code,
                hasher,
                commitment,
                gamma,
                point,
                proof,
                ctx,
                num_queries,
                before,
            );
            let h = proof.h_evals@;
            let right = point.take(ctx.n_rounds as int);
            let weighed = Seq::new(h.len(), |i: int| h[i].mul(eq_at(right, i)));
            let layers = if ctx.tau > 0 {
                ctx.tau - 1
            } else {
                0
            };
            let sized = point.len() == commitment.log_rows;
            let split = ctx.tau + ctx.n_rounds == commitment.log_rows;
            let full = h.len() == pow2(ctx.n_rounds);
            let rounds = proof.folded_roots.len() == layers && proof.folded_queried_symbols.len()
                == layers && proof.folded_merkle_batch.len() == layers;
            &&& !sized ==> r == Err::<(), SourceBindingError>(SourceBindingError::PointDimension)
            &&& sized && !split ==> r == Err::<(), SourceBindingError>(
                SourceBindingError::ContextDimension,
            )
            &&& sized && split && full && !rounds ==> r == Err::<(), SourceBindingError>(
                SourceBindingError::RoundCount,
            )
            &&& sized && split && full && rounds && mle(h, right) != ctx.claim ==> r == Err::<
                (),
                SourceBindingError,
            >(SourceBindingError::HClaim)
            &&& r is Ok ==> {
                &&& sized
                &&& split
                &&& full
                &&& rounds
                &&& mle(h, right) == ctx.claim
                &&& ctx.n_rounds == 0 ==> ctx.final_word == code.encoded(weighed)
                &&& ctx.n_rounds > 0 ==> ctx.roots.len() > 0 && ctx.roots[0] == word_root(
                    hasher,
                    code.encoded(weighed),
                    ctx.n_rounds + 1,
                )
            }
        }),
{
    let h = proof.h_evals@;
    let right = point.take(ctx.n_rounds as int);
    let weighed = Seq::new(h.len(), |i: int| h[i].mul(eq_at(right, i)));
    if h.len() == pow2(ctx.n_rounds) && right.len() == ctx.n_rounds {
        assert(masked(h, right) =~= weighed);
    }
}

} // verus!
