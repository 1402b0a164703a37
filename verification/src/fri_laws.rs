//! What an accepted opening of a table says, round by round and query by query.
use vstd::prelude::*;
use vstd::arithmetic::power2::pow2;
use crate::auth_pcs::{AUTH_PCS_BASE_LOG, AuthMleOpeningProof, opening_accepted};
use crate::column_scheme::ColumnScheme;
use crate::compact_fri::{CompactEvalProof, VerifierHook, continued, dot, first_bad, fri_check_run, fri_verdict, oracle_views, pair_leaves, query_indices, query_pair, query_pairs, query_run, query_verdict, symbol_leaves, tau_of, verifier_context, word_root};
use crate::field::{BinaryField, TowerField};
use crate::fri::{CryptographicHasher, FriChannel, FriCode, high_pair_fold, pair_positions};
use crate::hashing::HashOutput;
use crate::high_fold::{horner, lemma_pair_leaf, pair_leaf, pair_parity};
use crate::interleaved_commit::{InterleavedCommitment, SourceHasher};
use crate::merkle::{MerkleBatchError, batch_verdict, collected, collision_free, lemma_batch_binding};
use crate::mixed_open::{EvalClaim, MixedOpeningProof, SourceVerifierHook, mixed_verdict, openings_absorbed};
use crate::mle::{eq_at, eq_table, lemma_mle_sum, mle};
use crate::opening_soundness::{lemma_all_good, rounds_start};
use crate::poly::{lemma_peval_sum, peval, pow};
use crate::short_hash::short_verdict;
use crate::source_binding::{SourceBindingProof, binding_query_verdict, first_folds, layer_digests, lemma_path_leaves, path_leaves, path_run, path_symbol, reduced_pair, source_digests, source_slice};
use crate::sum::lemma_sum_ext;
use crate::transcript::{absorb_all, challenges, lemma_challenges_len, squeezed_by};

verus! {

/// The inner product with the weights at a point is the value there.
pub proof fn lemma_dot_mle<F: BinaryField>(t: Seq<F>, p: Seq<F>)
    requires
        t.len() == pow2(p.len()),
    ensures
        dot(t, eq_table(p)) == mle(t, p),
{
    lemma_mle_sum(t, p);
    let f = |i: int| t[i].mul(eq_table(p)[i]);
    let g = |i: int| eq_at(p, i).mul(t[i]);
    assert forall|i: int| 0 <= i < t.len() implies #[trigger] f(i) == g(i) by {
        F::mul_comm(t[i], eq_at(p, i));
    }
    lemma_sum_ext(t.len(), f, g);
}

/// In rounds that are all accepted, each message starts from the claim that the
/// message before it leaves at its challenge.
pub proof fn lemma_rounds_linked<F: TowerField, T: FriChannel<F>>(
    oracles: Seq<Seq<F>>,
    roots: Seq<HashOutput>,
    claim: F,
    channel: T,
    n_rounds: nat,
    k: nat,
)
    requires
        fri_check_run(oracles, roots, claim, channel, n_rounds, k).failed is None,
    ensures
        ({
            let run = fri_check_run(oracles, roots, claim, channel, n_rounds, k);
            &&& run.challenges.len() == k
            &&& k == 0 ==> run.claim == claim
            &&& k > 0 ==> oracles[0][1] == claim
            &&& k > 0 ==> run.claim == oracles[k - 1][0].add(
                oracles[k - 1][1].mul(run.challenges[k - 1]),
            )
            &&& forall|r: int|
                1 <= r < k ==> #[trigger] oracles[r][1] == oracles[r - 1][0].add(
                    oracles[r - 1][1].mul(run.challenges[r - 1]),
                )
        }),
    decreases k,
{
    if k > 0 {
        lemma_rounds_linked(oracles, roots, claim, channel, n_rounds, (k - 1) as nat);
        let before = fri_check_run(oracles, roots, claim, channel, n_rounds, (k - 1) as nat);
        let run = fri_check_run(oracles, roots, claim, channel, n_rounds, k);
        assert(run.challenges.drop_last() =~= before.challenges);
        assert forall|r: int| 1 <= r < k implies #[trigger] oracles[r][1] == oracles[r - 1][0].add(
            oracles[r - 1][1].mul(run.challenges[r - 1]),
        ) by {
            if r < k - 1 {
                assert(before.challenges[r - 1] == run.challenges[r - 1]);
            }
        }
    }
}

/// The fold of the symbols of a query in a round.
pub open spec fn query_fold<F: TowerField, C: FriCode<F>>(
    code: C,
    proof: CompactEvalProof<F>,
    queries: Seq<usize>,
    rs: Seq<F>,
    round: int,
    i: int,
) -> F {
    let (s0, s1) = proof.fri_queried_symbols[round]@[i];
    code.folded(rs[round], round as nat, query_pair(queries[i], round as nat), s0, s1)
}

/// Whether the symbols of a round are right at every query: there is a pair a
/// query, the pairs stand in the tree of the round's root, and each continues the
/// fold of the round before.
pub open spec fn round_right<F: TowerField, C: FriCode<F>, H: CryptographicHasher<F>>(
    code: C,
    hasher: H,
    proof: CompactEvalProof<F>,
    queries: Seq<usize>,
    rs: Seq<F>,
    n_rounds: nat,
    round: int,
) -> bool {
    let symbols = proof.fri_queried_symbols[round]@;
    &&& symbols.len() == queries.len()
    &&& batch_verdict(
        hasher,
        proof.fri_roots[round],
        proof.fri_merkle_batch[round].siblings@,
        (n_rounds + 1 - round) as nat,
        query_pairs(queries, round as nat),
        symbol_leaves(hasher, symbols),
    ) == Ok::<(), MerkleBatchError>(())
    &&& round > 0 ==> forall|i: int|
        0 <= i < queries.len() ==> #[trigger] query_fold(code, proof, queries, rs, round - 1, i)
            == if (queries[i] as int / pow2(round as nat) as int) % 2 == 1 {
            symbols[i].1
        } else {
            symbols[i].0
        }
}

/// What accepted rounds of queries leave.
proof fn lemma_query_run<F: TowerField, C: FriCode<F>, H: CryptographicHasher<F>, E>(
    code: C,
    hasher: H,
    proof: CompactEvalProof<F>,
    queries: Seq<usize>,
    rs: Seq<F>,
    n_rounds: nat,
    k: nat,
)
    requires
        k <= n_rounds,
        query_run::<F, C, H, E>(code, hasher, proof, queries, rs, n_rounds, k) is Ok,
    ensures
        forall|round: int|
            0 <= round < k ==> #[trigger] round_right(
                code,
                hasher,
                proof,
                queries,
                rs,
                n_rounds,
                round,
            ),
        k > 0 ==> ({
            let got = query_run::<F, C, H, E>(
                code,
                hasher,
                proof,
                queries,
                rs,
                n_rounds,
                k,
            )->Ok_0;
            &&& got.len() == queries.len()
            &&& forall|i: int|
                0 <= i < queries.len() ==> #[trigger] got[i] == query_fold(
                    code,
                    proof,
                    queries,
                    rs,
                    k - 1,
                    i,
                )
        }),
    decreases k,
{
    if k > 0 {
        let round = (k - 1) as nat;
        lemma_query_run::<F, C, H, E>(code, hasher, proof, queries, rs, n_rounds, round);
        let before = query_run::<F, C, H, E>(
            code,
            hasher,
            proof,
            queries,
            rs,
            n_rounds,
            round,
        )->Ok_0;
        let symbols = proof.fri_queried_symbols[round as int]@;
        if round > 0 {
            let ok = |i: int| before[i] == continued(symbols, queries, round, i);
            assert(first_bad(queries.len(), ok) is None);
            assert forall|i: int| 0 <= i < queries.len() implies #[trigger] query_fold(
                code,
                proof,
                queries,
                rs,
                round - 1,
                i,
            ) == continued(symbols, queries, round, i) by {
                lemma_all_good(queries.len(), ok, i);
                assert(before[i] == query_fold(code, proof, queries, rs, round - 1, i));
            }
        }
        assert(round_right(code, hasher, proof, queries, rs, n_rounds, round as int));
    }
}

/// The queries of an accepted opening: in every round there is a pair of symbols
/// at every query, which stands in the tree of the round and continues the fold
/// of the round before, and the last folds stand in the final word.
pub proof fn lemma_queries_right<F: TowerField, C: FriCode<F>, H: CryptographicHasher<F>, E>(
    code: C,
    hasher: H,
    proof: CompactEvalProof<F>,
    queries: Seq<usize>,
    rs: Seq<F>,
    n_rounds: nat,
)
    requires
        query_verdict::<F, C, H, E>(code, hasher, proof, queries, rs, n_rounds) is Ok,
    ensures
        forall|round: int|
            0 <= round < n_rounds ==> #[trigger] round_right(
                code,
                hasher,
                proof,
                queries,
                rs,
                n_rounds,
                round,
            ),
        n_rounds > 0 ==> forall|i: int|
            0 <= i < queries.len() ==> #[trigger] query_fold(
                code,
                proof,
                queries,
                rs,
                n_rounds - 1,
                i,
            ) == proof.final_codeword@[(queries[i] as int / pow2(n_rounds) as int)
                % proof.final_codeword.len() as int],
{
    lemma_query_run::<F, C, H, E>(code, hasher, proof, queries, rs, n_rounds, n_rounds);
    if n_rounds > 0 {
        let folded = query_run::<F, C, H, E>(
            code,
            hasher,
            proof,
            queries,
            rs,
            n_rounds,
            n_rounds,
        )->Ok_0;
        let word = proof.final_codeword@;
        let ok = |i: int|
            folded[i] == word[(queries[i] as int / (pow2(n_rounds) as int)) % word.len() as int];
        assert forall|i: int| 0 <= i < queries.len() implies #[trigger] query_fold(
            code,
            proof,
            queries,
            rs,
            n_rounds - 1,
            i,
        ) == word[(queries[i] as int / pow2(n_rounds) as int) % word.len() as int] by {
            lemma_all_good(queries.len(), ok, i);
            assert(folded[i] == query_fold(code, proof, queries, rs, n_rounds - 1, i));
        }
    }
}

/// What an accepted opening of a value says: the partial values have that value at
/// the upper coordinates of the point; the first round starts from their value at
/// the tensor challenges, and every other from what the one before it leaves;
/// there is a root, a list of symbols and a tree proof a round; the step before
/// the queries agrees; and the symbols are right in every round, at queries that
/// are drawn after all of this.
pub proof fn lemma_fri_accepted<
    F: TowerField,
    T: FriChannel<F>,
    C: FriCode<F>,
    H: CryptographicHasher<F>,
    K: VerifierHook<F, T>,
>(
    code: C,
    hasher: H,
    hook: K,
    point: Seq<F>,
    eval: F,
    proof: CompactEvalProof<F>,
    channel: T,
    num_queries: nat,
)
    requires
        fri_verdict(code, hasher, hook, point, eval, proof, channel, num_queries).result is Ok,
    ensures
        ({
            let tau = tau_of(point.len());
            let nr = (point.len() - tau) as nat;
            let upper = proof.upper_partial_evals@;
            let oracles = oracle_views(proof.sum_check_oracles@);
            let bound = absorb_all(channel, point).absorbed(eval);
            let beta = challenges(bound, tau);
            let claim = mle(upper, beta);
            let run = fri_check_run(
                oracles,
                proof.fri_roots@,
                claim,
                squeezed_by(bound, tau),
                nr,
                nr,
            );
            let sent = absorb_all(run.channel, proof.final_codeword@);
            let ctx = verifier_context(proof, point, beta);
            let mid = hook.channel_after(ctx, sent);
            let queries = query_indices(mid, nr + 2, num_queries);
            &&& upper.len() == pow2(tau)
            &&& mle(upper, point.skip(nr as int)) == eval
            &&& proof.sum_check_oracles.len() == nr
            &&& proof.fri_roots.len() == nr
            &&& proof.fri_queried_symbols.len() == nr
            &&& proof.fri_merkle_batch.len() == nr
            &&& proof.final_codeword.len() > 0
            &&& run.challenges.len() == nr
            &&& nr > 0 ==> oracles[0][1] == claim
            &&& forall|r: int|
                1 <= r < nr ==> #[trigger] oracles[r][1] == oracles[r - 1][0].add(
                    oracles[r - 1][1].mul(run.challenges[r - 1]),
                )
            &&& ctx.claim == claim
            &&& hook.verdict(ctx, sent) is Ok
            &&& forall|round: int|
                0 <= round < nr ==> #[trigger] round_right(
                    code,
                    hasher,
                    proof,
                    queries,
                    run.challenges,
                    nr,
                    round,
                )
            &&& nr > 0 ==> forall|i: int|
                0 <= i < queries.len() ==> #[trigger] query_fold(
                    code,
                    proof,
                    queries,
                    run.challenges,
                    nr - 1,
                    i,
                ) == proof.final_codeword@[(queries[i] as int / pow2(nr) as int)
                    % proof.final_codeword.len() as int]
        }),
{
    let tau = tau_of(point.len());
    let nr = (point.len() - tau) as nat;
    let upper = proof.upper_partial_evals@;
    let oracles = oracle_views(proof.sum_check_oracles@);
    let bound = absorb_all(channel, point).absorbed(eval);
    let beta = challenges(bound, tau);
    lemma_challenges_len(bound, tau);
    lemma_dot_mle(upper, point.skip(nr as int));
    lemma_dot_mle(upper, beta);
    let claim = mle(upper, beta);
    let start = squeezed_by(bound, tau);
    lemma_rounds_linked(oracles, proof.fri_roots@, claim, start, nr, nr);
    let run = fri_check_run(oracles, proof.fri_roots@, claim, start, nr, nr);
    let sent = absorb_all(run.channel, proof.final_codeword@);
    let mid = hook.channel_after(verifier_context(proof, point, beta), sent);
    lemma_queries_right::<F, C, H, K::Error>(
        code,
        hasher,
        proof,
        query_indices(mid, nr + 2, num_queries),
        run.challenges,
        nr,
    );
}

/// Binding of the symbols of a round: where the root of the round is that of a
/// word, and no digests collide, the symbols at every query are those of the word.
pub proof fn lemma_round_binding<F: TowerField, C: FriCode<F>, H: CryptographicHasher<F>>(
    code: C,
    hasher: H,
    proof: CompactEvalProof<F>,
    queries: Seq<usize>,
    rs: Seq<F>,
    n_rounds: nat,
    round: int,
    word: Seq<F>,
    i: int,
)
    requires
        0 <= round < n_rounds,
        word.len() == pow2((n_rounds + 2 - round) as nat),
        pow2(n_rounds + 2) <= usize::MAX,
        forall|k: int| 0 <= k < queries.len() ==> #[trigger] queries[k] < pow2(n_rounds + 2),
        round_right(code, hasher, proof, queries, rs, n_rounds, round),
        proof.fri_roots[round] == word_root(hasher, word, (n_rounds + 1 - round) as nat),
        collision_free(
            hasher,
            pair_leaves(hasher, word),
            collected(
                query_pairs(queries, round as nat),
                symbol_leaves(hasher, proof.fri_queried_symbols[round]@),
                queries.len(),
            )->Ok_0,
            proof.fri_merkle_batch[round].siblings@,
            0,
            (n_rounds + 1 - round) as nat,
        ),
        0 <= i < queries.len(),
        ({
            let (s0, s1) = proof.fri_queried_symbols[round]@[i];
            let p = query_pair(queries[i], round as nat);
            let (w0, w1) = (word[2 * p], word[2 * p + 1]);
            hasher.pair_digest(s0, s1) == hasher.pair_digest(w0, w1) ==> s0 == w0 && s1 == w1
        }),
    ensures
        ({
            let p = query_pair(queries[i], round as nat);
            proof.fri_queried_symbols[round]@[i] == (word[2 * p], word[2 * p + 1])
        }),
{
    let symbols = proof.fri_queried_symbols[round]@;
    let pairs = query_pairs(queries, round as nat);
    let depth = (n_rounds + 1 - round) as nat;
    let leaves = pair_leaves(hasher, word);
    let m = pow2(round as nat) as int;
    vstd::arithmetic::power2::lemma_pow2_pos(round as nat);
    vstd::arithmetic::power2::lemma_pow2_adds(round as nat, (depth + 1) as nat);
    crate::mle::lemma_half_pow2((depth + 1) as nat);
    assert forall|k: int| 0 <= k < queries.len() implies #[trigger] pairs[k] < pow2(depth)
        && pairs[k] == query_pair(queries[k], round as nat) by {
        let q = queries[k] as int;
        assert(queries[k] < pow2(n_rounds + 2));
        vstd::arithmetic::div_mod::lemma_multiply_divide_lt(q, m, 2 * pow2(depth) as int);
        vstd::arithmetic::div_mod::lemma_div_pos_is_pos(q, m);
        vstd::arithmetic::div_mod::lemma_div_is_ordered_by_denominator(q, 1, m);
    }
    lemma_batch_binding(
        hasher,
        leaves,
        depth,
        proof.fri_merkle_batch[round].siblings@,
        pairs,
        symbol_leaves(hasher, symbols),
    );
    assert(symbol_leaves(hasher, symbols)[i] == leaves[pairs[i] as int]);
}

/// What an accepted mixed opening says of the values that it gives back: their
/// combination by the powers of the challenge is the value of the partial values
/// at the upper coordinates of the point, and the table that the binding reveals
/// has at the lower coordinates the value of the partial values at the tensor
/// challenges.
pub proof fn lemma_mixed_accepted<
    'b,
    F: TowerField,
    T: FriChannel<F>,
    C: FriCode<F>,
    H: CryptographicHasher<F>,
>(
    code: &'b C,
    hasher: &'b H,
    commitment: &'b InterleavedCommitment,
    point: &'b [F],
    claims: Seq<EvalClaim<F>>,
    proof: &'b MixedOpeningProof<F>,
    num_queries: usize,
    channel: T,
)
    requires
        mixed_verdict(
            code,
            hasher,
            commitment,
            point,
            claims,
            proof,
            num_queries,
            channel,
        ).result is Ok,
    ensures
        ({
            let values = mixed_verdict(
                code,
                hasher,
                commitment,
                point,
                claims,
                proof,
                num_queries,
                channel,
            ).result->Ok_0;
            let tau = tau_of(point.len() as nat);
            let nr = point.len() - tau;
            let gamma = openings_absorbed(channel, proof.all_openings@).challenge();
            let upper = proof.fri_proof.upper_partial_evals@;
            let beta = challenges(
                rounds_start(point@, commitment.n_cols as nat, *proof, channel),
                tau,
            );
            let h = proof.source_proof.h_evals@;
            &&& upper.len() == pow2(tau)
            &&& horner(gamma, values) == mle(upper, point@.skip(nr))
            &&& h.len() == pow2(nr as nat)
            &&& mle(h, point@.take(nr)) == mle(upper, beta)
            &&& proof.source_proof.folded_roots.len() == if tau == 0 {
                0
            } else {
                tau - 1
            }
        }),
{
    let n_cols = commitment.n_cols as nat;
    let sent = openings_absorbed(channel, proof.all_openings@);
    let gamma = sent.challenge();
    let eval = horner(gamma, proof.all_openings@.take(n_cols as int));
    let hook = SourceVerifierHook {
        commitment,
        gamma,
        primary_point: point,
        proof: &proof.source_proof,
        code,
        hasher,
        num_queries,
    };
    lemma_fri_accepted(
        *code,
        *hasher,
        hook,
        point@,
        eval,
        proof.fri_proof,
        sent.squeezed(),
        num_queries as nat,
    );
}

/// The fold that a path has reached after `k` layers of a binding.
pub open spec fn path_fold<F: TowerField>(
    proof: SourceBindingProof<F>,
    n_cols: nat,
    gamma: F,
    beta: Seq<F>,
    queries: Seq<usize>,
    log_n: nat,
    k: int,
    i: int,
) -> F {
    if k == 0 {
        let (s0, s1) = reduced_pair(source_slice(proof.source_symbols@, n_cols, i), gamma);
        high_pair_fold(beta.last(), log_n, path_leaves(queries, log_n, 0)[i] as int, s0, s1)
    } else {
        let (s0, s1) = proof.folded_queried_symbols[k - 1]@[i];
        high_pair_fold(
            beta[beta.len() - 1 - k],
            (log_n - k) as nat,
            path_leaves(queries, log_n, k as nat)[i] as int,
            s0,
            s1,
        )
    }
}

/// Whether the symbols of a folded layer are right at every query: there is a pair
/// a query, the pairs stand in the tree of the layer's root, and each continues
/// the path.
pub open spec fn layer_right<F: TowerField>(
    proof: SourceBindingProof<F>,
    n_cols: nat,
    gamma: F,
    beta: Seq<F>,
    queries: Seq<usize>,
    log_n: nat,
    k: int,
) -> bool {
    let symbols = proof.folded_queried_symbols[k - 1]@;
    let log = (log_n - k) as nat;
    &&& symbols.len() == queries.len()
    &&& short_verdict(
        proof.folded_roots[k - 1],
        proof.folded_merkle_batch[k - 1].siblings@,
        log + 1,
        path_leaves(queries, log_n, k as nat),
        layer_digests(symbols, log, path_leaves(queries, log_n, k as nat)),
    ) == Ok::<(), MerkleBatchError>(())
    &&& forall|i: int|
        0 <= i < queries.len() ==> #[trigger] path_fold(
            proof,
            n_cols,
            gamma,
            beta,
            queries,
            log_n,
            k - 1,
            i,
        ) == path_symbol(symbols, path_leaves(queries, log_n, (k - 1) as nat), log, i)
}

proof fn lemma_path_run<F: TowerField>(
    proof: SourceBindingProof<F>,
    n_cols: nat,
    gamma: F,
    beta: Seq<F>,
    queries: Seq<usize>,
    log_n: nat,
    k: nat,
)
    requires
        k < beta.len() <= log_n,
        path_run(
            proof,
            beta,
            queries,
            log_n,
            first_folds(
                proof.source_symbols@,
                n_cols,
                gamma,
                beta.last(),
                log_n,
                path_leaves(queries, log_n, 0),
            ),
            k,
        ) is Ok,
    ensures
        ({
            let folded = first_folds(
                proof.source_symbols@,
                n_cols,
                gamma,
                beta.last(),
                log_n,
                path_leaves(queries, log_n, 0),
            );
            let got = path_run(proof, beta, queries, log_n, folded, k)->Ok_0;
            &&& got.len() == queries.len()
            &&& forall|i: int|
                0 <= i < queries.len() ==> #[trigger] got[i] == path_fold(
                    proof,
                    n_cols,
                    gamma,
                    beta,
                    queries,
                    log_n,
                    k as int,
                    i,
                )
        }),
        forall|j: int|
            1 <= j <= k ==> #[trigger] layer_right(
                proof,
                n_cols,
                gamma,
                beta,
                queries,
                log_n,
                j,
            ),
    decreases k,
{
    let folded = first_folds(
        proof.source_symbols@,
        n_cols,
        gamma,
        beta.last(),
        log_n,
        path_leaves(queries, log_n, 0),
    );
    if k > 0 {
        let p = (k - 1) as nat;
        lemma_path_run(proof, n_cols, gamma, beta, queries, log_n, p);
        let before = path_run(proof, beta, queries, log_n, folded, p)->Ok_0;
        let symbols = proof.folded_queried_symbols[p as int]@;
        let log = (log_n - k) as nat;
        let prev = path_leaves(queries, log_n, p);
        let now = path_leaves(queries, log_n, k);
        assert(now.len() == queries.len());
        let ok = |i: int| before[i] == path_symbol(symbols, prev, log, i);
        assert(first_bad(now.len(), ok) is None);
        assert forall|i: int| 0 <= i < queries.len() implies #[trigger] path_fold(
            proof,
            n_cols,
            gamma,
            beta,
            queries,
            log_n,
            p as int,
            i,
        ) == path_symbol(symbols, prev, log, i) by {
            lemma_all_good(now.len(), ok, i);
            assert(before[i] == path_fold(
                proof,
                n_cols,
                gamma,
                beta,
                queries,
                log_n,
                p as int,
                i,
            ));
        }
        assert(layer_right(proof, n_cols, gamma, beta, queries, log_n, k as int));
    }
}

/// What an accepted binding says at its queries: there are two symbols of every
/// column a query, which stand in the tree of the commitment; the symbols of every
/// folded layer stand in its tree and continue the paths; and every path ends in
/// the word of the revealed table.
pub proof fn lemma_binding_accepted<F: TowerField, C: FriCode<F>>(
    code: C,
    commitment: InterleavedCommitment,
    gamma: F,
    proof: SourceBindingProof<F>,
    beta: Seq<F>,
    queries: Seq<usize>,
)
    requires
        0 < beta.len() <= commitment.log_rows,
        binding_query_verdict(code, commitment, gamma, proof, beta, queries) is Ok,
    ensures
        ({
            let log_n = commitment.log_rows as nat;
            let n_cols = commitment.n_cols as nat;
            let leaves = path_leaves(queries, log_n, 0);
            let last = beta.len() - 1;
            let word = code.encoded(proof.h_evals@);
            &&& proof.source_symbols.len() == 2 * n_cols * queries.len()
            &&& commitment.cap.hashes.len() > 0
            &&& batch_verdict(
                SourceHasher,
                commitment.cap.hashes@[commitment.cap.hashes.len() - 1],
                proof.source_merkle_batch.siblings@,
                log_n + 1,
                leaves,
                source_digests(proof.source_symbols@, n_cols, log_n, leaves),
            ) == Ok::<(), MerkleBatchError>(())
            &&& forall|k: int|
                1 <= k < beta.len() ==> #[trigger] layer_right(
                    proof,
                    n_cols,
                    gamma,
                    beta,
                    queries,
                    log_n,
                    k,
                )
            &&& forall|i: int|
                0 <= i < queries.len() ==> #[trigger] path_fold(
                    proof,
                    n_cols,
                    gamma,
                    beta,
                    queries,
                    log_n,
                    last,
                    i,
                ) == word[path_leaves(queries, log_n, last as nat)[i] as int]
        }),
{
    let log_n = commitment.log_rows as nat;
    let n_cols = commitment.n_cols as nat;
    let k = (beta.len() - 1) as nat;
    lemma_path_run(proof, n_cols, gamma, beta, queries, log_n, k);
    let folded = first_folds(
        proof.source_symbols@,
        n_cols,
        gamma,
        beta.last(),
        log_n,
        path_leaves(queries, log_n, 0),
    );
    let got = path_run(proof, beta, queries, log_n, folded, k)->Ok_0;
    let word = code.encoded(proof.h_evals@);
    let at = path_leaves(queries, log_n, k);
    let ok = |i: int| got[i] == word[at[i] as int];
    assert(queries.len() * n_cols * 2 == 2 * n_cols * queries.len()) by (nonlinear_arith);
    assert forall|i: int| 0 <= i < queries.len() implies #[trigger] path_fold(
        proof,
        n_cols,
        gamma,
        beta,
        queries,
        log_n,
        k as int,
        i,
    ) == word[at[i] as int] by {
        lemma_all_good(queries.len(), ok, i);
        assert(got[i] == path_fold(proof, n_cols, gamma, beta, queries, log_n, k as int, i));
    }
}

/// The leaves of the paths hold the queries: a query lies in its first leaf, and
/// every leaf of a path in the leaf after it.
pub proof fn lemma_paths_meet(queries: Seq<usize>, log_n: nat, k: nat, i: int)
    requires
        k < log_n,
        pow2(log_n + 2) <= usize::MAX,
        forall|j: int| 0 <= j < queries.len() ==> #[trigger] queries[j] < pow2(log_n + 2),
        0 <= i < queries.len(),
    ensures
        ({
            let log = (log_n - k) as nat;
            let (p0, p1) = pair_positions(log, path_leaves(queries, log_n, k)[i] as int);
            let at = if k == 0 {
                queries[i] as int
            } else {
                path_leaves(queries, log_n, (k - 1) as nat)[i] as int
            };
            &&& at == p0 || at == p1
            &&& at == if pair_parity(at, log) == 1 {
                p1
            } else {
                p0
            }
        }),
{
    lemma_path_leaves(queries, log_n, k);
    if k == 0 {
        assert(queries[i] < pow2(log_n + 2));
        lemma_pair_leaf(queries[i] as int, log_n);
        assert(path_leaves(queries, log_n, 0)[i] == pair_leaf(queries[i] as int, log_n));
    } else {
        lemma_path_leaves(queries, log_n, (k - 1) as nat);
        let at = path_leaves(queries, log_n, (k - 1) as nat)[i];
        assert(at < pow2((log_n - (k - 1) + 1) as nat));
        lemma_pair_leaf(at as int, (log_n - k) as nat);
        assert(path_leaves(queries, log_n, k)[i] == pair_leaf(at as int, (log_n - k) as nat));
    }
}

/// What an opening that a scheme's user accepts says: the columns and the point
/// have the right dimensions, and the scheme accepts exactly these values.
pub proof fn lemma_opening_accepted<'b, F: TowerField, S: ColumnScheme<F>>(
    scheme: &'b S,
    proof: &'b AuthMleOpeningProof<S::Opening>,
    num_vars: nat,
    point: &'b [F],
    values: Seq<F>,
)
    requires
        opening_accepted(scheme, proof, num_vars, point, values),
    ensures
        num_vars >= AUTH_PCS_BASE_LOG,
        point.len() == num_vars,
        proof.commitment.log_rows == num_vars,
        proof.commitment.n_cols == values.len(),
        scheme.accepts(&proof.commitment, point, values, &proof.opening),
{
}

/// A combination is the value of the polynomial whose coefficients are combined.
proof fn lemma_horner_peval<F: BinaryField>(gamma: F, values: Seq<F>)
    ensures
        horner(gamma, values) == peval(values, gamma),
{
    let f = |k: int| pow(gamma, k as nat).mul(values[k]);
    let g = |k: int| values[k].mul(pow(gamma, k as nat));
    lemma_peval_sum(values, gamma);
    assert forall|k: int| 0 <= k < values.len() implies #[trigger] f(k) == g(k) by {
        F::mul_comm(pow(gamma, k as nat), values[k]);
    }
    lemma_sum_ext(values.len(), f, g);
}

/// Every column counts in a combination: the first as it is, and the others times
/// the challenge; nothing combines to zero.
pub proof fn lemma_horner_step<F: BinaryField>(gamma: F, v: F, rest: Seq<F>)
    ensures
        horner(gamma, seq![v] + rest) == v.add(gamma.mul(horner(gamma, rest))),
        horner(gamma, Seq::<F>::empty()) == F::zero(),
{
    let all = seq![v] + rest;
    lemma_horner_peval(gamma, all);
    lemma_horner_peval(gamma, rest);
    lemma_horner_peval(gamma, Seq::<F>::empty());
    assert(all.drop_first() =~= rest);
}

} // verus!
