//! What an accepted opening says of the committed columns.
//!
//! An opening is checked at drawn queries and through digests. So the statements
//! here speak of the queries, and leave out the case that two different messages
//! which the check compares have one digest.
use vstd::prelude::*;
use vstd::arithmetic::power2::pow2;
use crate::compact_fri::{dot, first_bad, fri_check_run, fri_verdict, lemma_transcript_follows, oracle_views, prover_bound, query_indices, tau_of, verifier_context};
use crate::field::TowerField;
use crate::fri::{CryptographicHasher, FriChannel, FriCode, digest_of, pair_positions};
use crate::high_fold::{high_table, horner, horner_table};
use crate::interleaved_commit::{InterleavedCommitment, SourceHasher, cols_wf, encoded_words, leaf_digests, lemma_log_bound, lemma_source_binding, pair_symbols, source_leaf_message, source_leaves};
use crate::merkle::{collected, collision_free, node};
use crate::mle::{eq_table, fold};
use crate::mixed_open::{EvalClaim, MixedOpenError, MixedOpeningProof, SourceVerifierHook, claim_error, claim_values, column_values, is_mixed_proof, lemma_horner_mle, mixed_verdict, openings_absorbed};
use crate::source_binding::{SourceBindingProof, binding_channel, binding_queries, binding_query_verdict, binding_verdict, first_folds, lemma_path_error, lemma_path_leaves, lemma_queries_within, lemma_reduced_pair, path_leaves, path_run, path_symbol, source_digests, source_slice};
use crate::transcript::{absorb_all, challenges, lemma_challenges_len, squeezed_by};

verus! {

/// If no index is bad, the condition holds everywhere.
pub proof fn lemma_all_good(n: nat, ok: spec_fn(int) -> bool, i: int)
    requires
        first_bad(n, ok) is None,
        0 <= i < n,
    ensures
        ok(i),
    decreases n,
{
    if i < n - 1 {
        lemma_all_good((n - 1) as nat, ok, i);
    }
}

/// Whether no two different messages that the check of the source symbols
/// compares, those of the tree over the words and those of the opening, have one
/// digest.
pub open spec fn sources_distinct<F: TowerField>(
    words: Seq<Seq<F>>,
    log_n: nat,
    proof: SourceBindingProof<F>,
    leaves: Seq<usize>,
) -> bool {
    let n_cols = words.len();
    let symbols = proof.source_symbols@;
    let digests = source_digests(symbols, n_cols, log_n, leaves);
    &&& collision_free(
        SourceHasher,
        source_leaves(words, log_n),
        collected(leaves, digests, leaves.len())->Ok_0,
        proof.source_merkle_batch.siblings@,
        0,
        log_n + 1,
    )
    &&& forall|i: int|
        0 <= i < leaves.len() ==> {
            let got = source_leaf_message(
                log_n,
                n_cols,
                leaves[i] as nat,
                #[trigger] source_slice(symbols, n_cols, i),
            );
            let want = source_leaf_message(
                log_n,
                n_cols,
                leaves[i] as nat,
                pair_symbols(words, pair_positions(log_n, leaves[i] as int)),
            );
            digest_of(got) == digest_of(want) ==> got == want
        }
}

/// What a binding reveals of the first folded layer at a query: a symbol of the
/// layer or, where the table is revealed after one fold, of the table's word.
pub open spec fn first_symbol<F: TowerField, C: FriCode<F>>(
    code: C,
    proof: SourceBindingProof<F>,
    tau: nat,
    log_n: nat,
    leaves: Seq<usize>,
    i: int,
) -> F {
    if tau > 1 {
        path_symbol(proof.folded_queried_symbols[0]@, leaves, (log_n - 1) as nat, i)
    } else {
        code.encoded(proof.h_evals@)[leaves[i] as int]
    }
}

/// Soundness of a binding at its queries: against the commitment to columns, and
/// unless digests collide, the revealed source symbols are those of the columns'
/// words, and what is revealed of the first folded layer is the fold of the
/// combination of the columns.
pub proof fn lemma_binding_sound<F: TowerField, C: FriCode<F>>(
    code: C,
    cols: Seq<Seq<F>>,
    commitment: InterleavedCommitment,
    gamma: F,
    proof: SourceBindingProof<F>,
    beta: Seq<F>,
    queries: Seq<usize>,
)
    requires
        0 < beta.len() <= commitment.log_rows,
        pow2((commitment.log_rows + 2) as nat) <= usize::MAX,
        cols_wf(cols, commitment.log_rows as nat),
        commitment.n_cols == cols.len(),
        commitment.cap.hashes@.last() == node(
            SourceHasher,
            source_leaves(encoded_words(code, cols), commitment.log_rows as nat),
            (commitment.log_rows + 1) as nat,
            0,
        ),
        forall|i: int|
            0 <= i < queries.len() ==> #[trigger] queries[i] < pow2(
                (commitment.log_rows + 2) as nat,
            ),
        binding_query_verdict(code, commitment, gamma, proof, beta, queries) is Ok,
        sources_distinct(
            encoded_words(code, cols),
            commitment.log_rows as nat,
            proof,
            path_leaves(queries, commitment.log_rows as nat, 0),
        ),
    ensures
        ({
            let log_n = commitment.log_rows as nat;
            let leaves = path_leaves(queries, log_n, 0);
            let t = horner_table(gamma, cols, pow2(log_n));
            &&& leaves.len() == queries.len()
            &&& forall|i: int|
                0 <= i < queries.len() ==> #[trigger] source_slice(
                    proof.source_symbols@,
                    cols.len(),
                    i,
                ) == pair_symbols(
                    encoded_words(code, cols),
                    pair_positions(log_n, leaves[i] as int),
                )
            &&& forall|i: int|
                0 <= i < queries.len() ==> #[trigger] first_symbol(
                    code,
                    proof,
                    beta.len(),
                    log_n,
                    leaves,
                    i,
                ) == code.encoded(high_table(t, beta, 1))[leaves[i] as int]
        }),
{
    let log_n = commitment.log_rows as nat;
    let n_cols = cols.len();
    let words = encoded_words(code, cols);
    let leaves = path_leaves(queries, log_n, 0);
    let symbols = proof.source_symbols@;
    let t = horner_table(gamma, cols, pow2(log_n));
    lemma_log_bound(log_n + 2);
    lemma_path_leaves(queries, log_n, 0);
    assert forall|i: int| 0 <= i < leaves.len() implies #[trigger] leaves[i] < pow2(log_n + 1) by {
        assert(leaves[i] < pow2((log_n - 0 + 1) as nat));
    }
    let slices = Seq::new(leaves.len(), |i: int| source_slice(symbols, n_cols, i));
    assert forall|i: int| 0 <= i < slices.len() implies (#[trigger] slices[i]).len() == 2
        * n_cols by {
        assert(i * (2 * n_cols) + 2 * n_cols <= leaves.len() * n_cols * 2 && 0 <= i * (2
            * n_cols)) by (nonlinear_arith)
            requires
                0 <= i < leaves.len(),
        ;
    }
    assert(leaf_digests(log_n, n_cols, leaves, slices) =~= source_digests(
        symbols,
        n_cols,
        log_n,
        leaves,
    ));
    let folded = first_folds(symbols, n_cols, gamma, beta.last(), log_n, leaves);
    let k = (beta.len() - 1) as nat;
    assert forall|i: int| 0 <= i < queries.len() implies #[trigger] source_slice(
        symbols,
        n_cols,
        i,
    ) == pair_symbols(words, pair_positions(log_n, leaves[i] as int)) by {
        assert(slices[i] == source_slice(symbols, n_cols, i));
        lemma_source_binding(
            words,
            log_n,
            proof.source_merkle_batch.siblings@,
            leaves,
            slices,
            i,
        );
    }
    if beta.len() > 1 {
        if path_run(proof, beta, queries, log_n, folded, 1) is Err {
            lemma_path_error(proof, beta, queries, log_n, folded, 1, k);
        }
        assert(path_run(proof, beta, queries, log_n, folded, 0) == Ok::<
            Seq<F>,
            crate::source_binding::SourceBindingError,
        >(folded));
    }
    assert forall|i: int| 0 <= i < queries.len() implies #[trigger] first_symbol(
        code,
        proof,
        beta.len(),
        log_n,
        leaves,
        i,
    ) == code.encoded(high_table(t, beta, 1))[leaves[i] as int] by {
        let leaf = leaves[i] as int;
        assert(leaf < pow2(log_n + 1));
        assert(source_slice(symbols, n_cols, i) == pair_symbols(
            words,
            pair_positions(log_n, leaf),
        ));
        lemma_reduced_pair(code, cols, gamma, log_n, leaf);
        code.high_fold(t, beta.last(), log_n, leaf);
        assert(high_table(t, beta, 0) == t);
        assert(high_table(t, beta, 1) == fold(t, beta[beta.len() - 1]));
        assert(folded[i] == code.encoded(high_table(t, beta, 1))[leaf]);
        if beta.len() > 1 {
            let next = path_leaves(queries, log_n, 1);
            let layer = proof.folded_queried_symbols[0]@;
            let ok = |j: int| folded[j] == path_symbol(layer, leaves, (log_n - 1) as nat, j);
            assert(next.len() == queries.len());
            assert(first_bad(next.len(), ok) is None);
            lemma_all_good(next.len(), ok, i);
        } else {
            let word = code.encoded(proof.h_evals@);
            let ok = |j: int| folded[j] == word[leaves[j] as int];
            assert(first_bad(queries.len(), ok) is None);
            lemma_all_good(queries.len(), ok, i);
        }
    }
}

/// The transcript on which the verifier of a mixed opening checks the binding.
pub open spec fn binding_start<F: TowerField, T: FriChannel<F>>(
    point: Seq<F>,
    n_cols: nat,
    proof: MixedOpeningProof<F>,
    channel: T,
) -> T {
    let bound = rounds_start(point, n_cols, proof, channel);
    let tau = tau_of(point.len());
    let nr = (point.len() - tau) as nat;
    let run = fri_check_run(
        oracle_views(proof.fri_proof.sum_check_oracles@),
        proof.fri_proof.fri_roots@,
        dot(proof.fri_proof.upper_partial_evals@, eq_table(challenges(bound, tau))),
        squeezed_by(bound, tau),
        nr,
        nr,
    );
    absorb_all(run.channel, proof.fri_proof.final_codeword@)
}

/// The transcript from which the verifier of a mixed opening draws the tensor
/// variables.
pub open spec fn rounds_start<F: TowerField, T: FriChannel<F>>(
    point: Seq<F>,
    n_cols: nat,
    proof: MixedOpeningProof<F>,
    channel: T,
) -> T {
    let sent = openings_absorbed(channel, proof.all_openings@);
    let gamma = sent.challenge();
    absorb_all(sent.squeezed(), point).absorbed(
        horner(gamma, proof.all_openings@.take(n_cols as int)),
    )
}

/// The queries at which the verifier of a mixed opening checks the source
/// symbols.
pub open spec fn opening_queries<F: TowerField, T: FriChannel<F>>(
    point: Seq<F>,
    n_cols: nat,
    proof: MixedOpeningProof<F>,
    num_queries: nat,
    channel: T,
) -> Seq<usize> {
    binding_queries(
        proof.source_proof,
        point.len(),
        num_queries,
        binding_start(point, n_cols, proof, channel),
    )
}

/// An accepted mixed opening holds a binding that is accepted at the queries.
proof fn lemma_mixed_binding<
    'b,
    F: TowerField,
    T: FriChannel<F>,
    C: FriCode<F>,
    H: CryptographicHasher<F>,
>(
    code: &'b C,
    hasher: &'b H,
    commitment: &'b InterleavedCommitment,
    point: &'b [F],
    claims: Seq<EvalClaim<F>>,
    proof: &'b MixedOpeningProof<F>,
    num_queries: usize,
    channel: T,
)
    requires
        mixed_verdict(
            code,
            hasher,
            commitment,
            point,
            claims,
            proof,
            num_queries,
            channel,
        ).result is Ok,
    ensures
        point.len() == commitment.log_rows,
        ({
            let n_cols = commitment.n_cols as nat;
            let bound = rounds_start(point@, n_cols, *proof, channel);
            binding_query_verdict(
                *code,
                *commitment,
                openings_absorbed(channel, proof.all_openings@).challenge(),
                proof.source_proof,
                challenges(bound, tau_of(point.len() as nat)),
                opening_queries(point@, n_cols, *proof, num_queries as nat, channel),
            ) is Ok
        }),
{
    let n_cols = commitment.n_cols as nat;
    let tau = tau_of(point.len() as nat);
    let sent = openings_absorbed(channel, proof.all_openings@);
    let gamma = sent.challenge();
    let eval = horner(gamma, proof.all_openings@.take(n_cols as int));
    let hook = SourceVerifierHook {
        commitment,
        gamma,
        primary_point: point,
        proof: &proof.source_proof,
        code,
        hasher,
        num_queries,
    };
    let v = fri_verdict(
        *code,
        *hasher,
        hook,
        point@,
        eval,
        proof.fri_proof,
        sent.squeezed(),
        num_queries as nat,
    );
    assert(v.result is Ok);
    let bound = rounds_start(point@, n_cols, *proof, channel);
    let beta = challenges(bound, tau);
    let ctx = verifier_context(proof.fri_proof, point@, beta);
    let before = binding_start(point@, n_cols, *proof, channel);
    assert(binding_verdict(
        *code,
        *hasher,
        *commitment,
        gamma,
        point@,
        proof.source_proof,
        ctx,
        num_queries as nat,
        before,
    ) is Ok);
}

/// Soundness of a mixed opening at its queries: an opening that is accepted
/// against the commitment to columns reveals, unless digests collide, the
/// symbols of the columns' words at every query, and of the first folded layer
/// the fold of the combination of the columns.
pub proof fn lemma_mixed_sound<
    'b,
    F: TowerField,
    T: FriChannel<F>,
    C: FriCode<F>,
    H: CryptographicHasher<F>,
>(
    code: &'b C,
    hasher: &'b H,
    commitment: &'b InterleavedCommitment,
    cols: Seq<Seq<F>>,
    point: &'b [F],
    claims: Seq<EvalClaim<F>>,
    proof: &'b MixedOpeningProof<F>,
    num_queries: usize,
    channel: T,
)
    requires
        commitment.log_rows > 0,
        pow2((commitment.log_rows + 2) as nat) <= usize::MAX,
        cols_wf(cols, commitment.log_rows as nat),
        commitment.n_cols == cols.len(),
        commitment.cap.hashes@.last() == node(
            SourceHasher,
            source_leaves(encoded_words(*code, cols), commitment.log_rows as nat),
            (commitment.log_rows + 1) as nat,
            0,
        ),
        mixed_verdict(
            code,
            hasher,
            commitment,
            point,
            claims,
            proof,
            num_queries,
            channel,
        ).result is Ok,
        sources_distinct(
            encoded_words(*code, cols),
            commitment.log_rows as nat,
            proof.source_proof,
            path_leaves(
                opening_queries(point@, cols.len(), *proof, num_queries as nat, channel),
                commitment.log_rows as nat,
                0,
            ),
        ),
    ensures
        ({
            let log_n = commitment.log_rows as nat;
            let tau = tau_of(log_n);
            let queries = opening_queries(
                point@,
                cols.len(),
                *proof,
                num_queries as nat,
                channel,
            );
            let leaves = path_leaves(queries, log_n, 0);
            let gamma = openings_absorbed(channel, proof.all_openings@).challenge();
            let beta = challenges(rounds_start(point@, cols.len(), *proof, channel), tau);
            let t = horner_table(gamma, cols, pow2(log_n));
            &&& leaves.len() == queries.len()
            &&& forall|i: int|
                0 <= i < queries.len() ==> #[trigger] source_slice(
                    proof.source_proof.source_symbols@,
                    cols.len(),
                    i,
                ) == pair_symbols(
                    encoded_words(*code, cols),
                    pair_positions(log_n, leaves[i] as int),
                )
            &&& forall|i: int|
                0 <= i < queries.len() ==> #[trigger] first_symbol(
                    *code,
                    proof.source_proof,
                    tau,
                    log_n,
                    leaves,
                    i,
                ) == code.encoded(high_table(t, beta, 1))[leaves[i] as int]
        }),
{
    let log_n = commitment.log_rows as nat;
    let n_cols = cols.len();
    let tau = tau_of(log_n);
    lemma_mixed_binding(code, hasher, commitment, point, claims, proof, num_queries, channel);
    let bound = rounds_start(point@, n_cols, *proof, channel);
    lemma_challenges_len(bound, tau);
    let queries = opening_queries(point@, n_cols, *proof, num_queries as nat, channel);
    lemma_queries_within(
        crate::source_binding::binding_observed(
            binding_start(point@, n_cols, *proof, channel),
            proof.source_proof.folded_roots@,
            proof.source_proof.h_evals@,
            log_n,
        ),
        log_n + 2,
        num_queries as nat,
    );
    lemma_binding_sound(
        *code,
        cols,
        *commitment,
        openings_absorbed(channel, proof.all_openings@).challenge(),
        proof.source_proof,
        challenges(bound, tau),
        queries,
    );
}

/// An opening from other columns is refused: where the opening of columns is
/// checked against the commitment to others on the same transcript, no digests
/// collide, and the words of the two differ at a query, the verdict is an error.
pub proof fn lemma_other_columns_refused<
    'b,
    F: TowerField,
    T: FriChannel<F>,
    C: FriCode<F>,
    H: CryptographicHasher<F>,
>(
    code: &'b C,
    hasher: &'b H,
    commitment: &'b InterleavedCommitment,
    cols: Seq<Seq<F>>,
    others: Seq<Seq<F>>,
    point: &'b [F],
    claims: Seq<EvalClaim<F>>,
    proof: &'b MixedOpeningProof<F>,
    num_queries: usize,
    channel: T,
    i: int,
)
    requires
        point.len() > 0,
        pow2((point.len() + 2) as nat) <= usize::MAX,
        cols_wf(cols, point.len() as nat),
        cols_wf(others, point.len() as nat),
        cols.len() == others.len(),
        commitment.n_cols == cols.len(),
        commitment.log_rows == point.len(),
        commitment.cap.hashes@.last() == node(
            SourceHasher,
            source_leaves(encoded_words(*code, cols), point.len() as nat),
            (point.len() + 1) as nat,
            0,
        ),
        is_mixed_proof(
            *code,
            *hasher,
            others,
            point@,
            claims,
            num_queries as nat,
            channel,
            *proof,
        ),
        ({
            let log_n = point.len() as nat;
            let queries = opening_queries(
                point@,
                cols.len(),
                *proof,
                num_queries as nat,
                channel,
            );
            let leaves = path_leaves(queries, log_n, 0);
            let at = pair_positions(log_n, leaves[i] as int);
            &&& sources_distinct(encoded_words(*code, cols), log_n, proof.source_proof, leaves)
            &&& 0 <= i < queries.len()
            &&& pair_symbols(encoded_words(*code, cols), at) != pair_symbols(
                encoded_words(*code, others),
                at,
            )
        }),
    ensures
        mixed_verdict(
            code,
            hasher,
            commitment,
            point,
            claims,
            proof,
            num_queries,
            channel,
        ).result is Err,
{
    let log_n = point.len() as nat;
    let n_cols = cols.len();
    let openings = column_values(others, point@) + claim_values(claims);
    let sent = openings_absorbed(channel, openings);
    let gamma = sent.challenge();
    let t = horner_table(gamma, others, pow2(log_n));
    assert(openings.take(n_cols as int) =~= column_values(others, point@));
    lemma_horner_mle(gamma, others, point@);
    let nr = (log_n - tau_of(log_n)) as nat;
    let bound = prover_bound(*code, *hasher, t, point@, sent.squeezed());
    let mid = binding_channel(proof.source_proof, log_n, num_queries as nat, bound);
    lemma_transcript_follows(
        *code,
        *hasher,
        t,
        point@,
        sent.squeezed(),
        query_indices(mid, nr + 2, num_queries as nat),
        proof.fri_proof,
    );
    let queries = opening_queries(point@, n_cols, *proof, num_queries as nat, channel);
    assert(queries == binding_queries(proof.source_proof, log_n, num_queries as nat, bound));
    assert(source_slice(proof.source_proof.source_symbols@, n_cols, i) == pair_symbols(
        encoded_words(*code, others),
        pair_positions(log_n, path_leaves(queries, log_n, 0)[i] as int),
    ));
    if mixed_verdict(
        code,
        hasher,
        commitment,
        point,
        claims,
        proof,
        num_queries,
        channel,
    ).result is Ok {
        lemma_mixed_sound(
            code,
            hasher,
            commitment,
            cols,
            point,
            claims,
            proof,
            num_queries,
            channel,
        );
    }
}

/// Where no claim is wrong, every one names a column, has a point of the right
/// dimension, and has the value that the opening sends for it.
proof fn lemma_claims_right<F: TowerField>(
    claims: Seq<EvalClaim<F>>,
    openings: Seq<F>,
    n_cols: nat,
    log_n: nat,
    k: nat,
    i: int,
)
    requires
        claim_error(claims, openings, n_cols, log_n, k) is None,
        0 <= i < k <= claims.len(),
    ensures
        claims[i].col_index < n_cols,
        claims[i].eval_point.len() == log_n,
        claims[i].value == openings[n_cols + i],
    decreases k,
{
    if i < k - 1 {
        lemma_claims_right(claims, openings, n_cols, log_n, (k - 1) as nat, i);
    }
}

/// The first wrong claim decides.
proof fn lemma_first_wrong_claim<F: TowerField>(
    claims: Seq<EvalClaim<F>>,
    openings: Seq<F>,
    n_cols: nat,
    log_n: nat,
    k: nat,
    i: int,
)
    requires
        0 <= i < k <= claims.len(),
        forall|j: int|
            0 <= j < i ==> (#[trigger] claims[j]).col_index < n_cols && claims[j].eval_point.len()
                == log_n && claims[j].value == openings[n_cols + j],
        claims[i].col_index >= n_cols || claims[i].eval_point.len() != log_n || claims[i].value
            != openings[n_cols + i],
    ensures
        claim_error(claims, openings, n_cols, log_n, k) == Some(
            if claims[i].col_index >= n_cols {
                MixedOpenError::ColumnOutOfRange {
                    index: i as usize,
                    col_index: claims[i].col_index,
                    n_cols: n_cols as usize,
                }
            } else if claims[i].eval_point.len() != log_n {
                MixedOpenError::ClaimPointDimension {
                    index: i as usize,
                    expected: log_n as usize,
                    got: claims[i].eval_point.len(),
                }
            } else {
                MixedOpenError::ClaimValueMismatch {
                    index: i as usize,
                    opening: openings[n_cols + i].bits(),
                    claim: claims[i].value.bits(),
                }
            },
        ),
    decreases k,
{
    if i < k - 1 {
        lemma_first_wrong_claim(claims, openings, n_cols, log_n, (k - 1) as nat, i);
    } else {
        lemma_none_wrong(claims, openings, n_cols, log_n, (k - 1) as nat);
    }
}

proof fn lemma_none_wrong<F: TowerField>(
    claims: Seq<EvalClaim<F>>,
    openings: Seq<F>,
    n_cols: nat,
    log_n: nat,
    k: nat,
)
    requires
        k <= claims.len(),
        forall|j: int|
            0 <= j < k ==> (#[trigger] claims[j]).col_index < n_cols && claims[j].eval_point.len()
                == log_n && claims[j].value == openings[n_cols + j],
    ensures
        claim_error(claims, openings, n_cols, log_n, k) is None,
    decreases k,
{
    if k > 0 {
        lemma_none_wrong(claims, openings, n_cols, log_n, (k - 1) as nat);
        assert(claims[k - 1].col_index < n_cols);
    }
}

/// What an accepted opening says of its claims: there is a value for each column
/// and for each further claim, every further claim names a column, is about a
/// point of the columns' dimension and has the value that was sent for it, and
/// the values of the columns are those that are given back.
pub proof fn lemma_secondary_claims_checked<
    'b,
    F: TowerField,
    T: FriChannel<F>,
    C: FriCode<F>,
    H: CryptographicHasher<F>,
>(
    code: &'b C,
    hasher: &'b H,
    commitment: &'b InterleavedCommitment,
    point: &'b [F],
    claims: Seq<EvalClaim<F>>,
    proof: &'b MixedOpeningProof<F>,
    num_queries: usize,
    channel: T,
)
    requires
        mixed_verdict(
            code,
            hasher,
            commitment,
            point,
            claims,
            proof,
            num_queries,
            channel,
        ).result is Ok,
    ensures
        ({
            let n_cols = commitment.n_cols as int;
            let sent = proof.all_openings@;
            let values = mixed_verdict(
                code,
                hasher,
                commitment,
                point,
                claims,
                proof,
                num_queries,
                channel,
            ).result->Ok_0;
            &&& point.len() == commitment.log_rows
            &&& sent.len() == n_cols + claims.len()
            &&& values.len() == n_cols
            &&& forall|c: int| 0 <= c < n_cols ==> #[trigger] values[c] == sent[c]
            &&& forall|i: int|
                0 <= i < claims.len() ==> {
                    &&& (#[trigger] claims[i]).col_index < n_cols
                    &&& claims[i].eval_point.len() == commitment.log_rows
                    &&& claims[i].value == sent[n_cols + i]
                }
        }),
{
    let n_cols = commitment.n_cols as nat;
    let log_n = commitment.log_rows as nat;
    let sent = proof.all_openings@;
    assert forall|i: int| 0 <= i < claims.len() implies {
        &&& (#[trigger] claims[i]).col_index < n_cols
        &&& claims[i].eval_point.len() == log_n
        &&& claims[i].value == sent[n_cols + i]
    } by {
        lemma_claims_right(claims, sent, n_cols, log_n, claims.len(), i);
    }
}

/// A wrong claim is refused: the error is about the first claim that is wrong,
/// and says what is wrong with it.
pub proof fn lemma_wrong_claim_refused<
    'b,
    F: TowerField,
    T: FriChannel<F>,
    C: FriCode<F>,
    H: CryptographicHasher<F>,
>(
    code: &'b C,
    hasher: &'b H,
    commitment: &'b InterleavedCommitment,
    point: &'b [F],
    claims: Seq<EvalClaim<F>>,
    proof: &'b MixedOpeningProof<F>,
    num_queries: usize,
    channel: T,
    i: int,
)
    requires
        proof.all_openings.len() == commitment.n_cols + claims.len(),
        point.len() == commitment.log_rows,
        0 <= i < claims.len(),
        forall|j: int|
            0 <= j < i ==> (#[trigger] claims[j]).col_index < commitment.n_cols
                && claims[j].eval_point.len() == commitment.log_rows && claims[j].value
                == proof.all_openings[commitment.n_cols + j],
    ensures
        ({
            let n_cols = commitment.n_cols;
            let v = mixed_verdict(
                code,
                hasher,
                commitment,
                point,
                claims,
                proof,
                num_queries,
                channel,
            );
            let opening = proof.all_openings[n_cols + i];
            &&& claims[i].col_index >= n_cols ==> v.result == Err::<Seq<F>, MixedOpenError>(
                MixedOpenError::ColumnOutOfRange {
                    index: i as usize,
                    col_index: claims[i].col_index,
                    n_cols,
                },
            )
            &&& claims[i].col_index < n_cols && claims[i].eval_point.len() != commitment.log_rows
                ==> v.result == Err::<Seq<F>, MixedOpenError>(
                MixedOpenError::ClaimPointDimension {
                    index: i as usize,
                    expected: commitment.log_rows,
                    got: claims[i].eval_point.len(),
                },
            )
            &&& claims[i].col_index < n_cols && claims[i].eval_point.len() == commitment.log_rows
                && claims[i].value != opening ==> v.result == Err::<Seq<F>, MixedOpenError>(
                MixedOpenError::ClaimValueMismatch {
                    index: i as usize,
                    opening: opening.bits(),
                    claim: claims[i].value.bits(),
                },
            )
            &&& claims[i].col_index >= n_cols || claims[i].eval_point.len() != commitment.log_rows
                || claims[i].value != opening ==> v.channel == channel
        }),
{
    let n_cols = commitment.n_cols as nat;
    let log_n = commitment.log_rows as nat;
    let sent = proof.all_openings@;
    if claims[i].col_index >= n_cols || claims[i].eval_point.len() != log_n || claims[i].value
        != sent[n_cols + i] {
        lemma_first_wrong_claim(claims, sent, n_cols, log_n, claims.len(), i);
    }
}

} // verus!
